//! Byte-buffer matcher primitives.
//!
//! Every matcher is a total predicate over `(buffer, parameters)`: an
//! out-of-range offset yields `false` rather than an error.  These
//! primitives are the vocabulary that compiled signature rules and the
//! hand-written container inspectors share.

use vstd::prelude::*;
use vstd::string::StringSliceAdditionalSpecFns;

verus! {

/// True when `needle` is a prefix of `bytes`.
pub open spec fn spec_prefix(bytes: Seq<u8>, needle: Seq<u8>) -> bool {
    needle.len() <= bytes.len() && bytes.subrange(0, needle.len() as int) == needle
}

/// True when `needle` occurs as a prefix of `bytes` shifted by `start`.
pub open spec fn spec_offset(bytes: Seq<u8>, start: int, needle: Seq<u8>) -> bool {
    0 <= start <= bytes.len() && spec_prefix(bytes.skip(start), needle)
}

/// The largest index that a ranged search may still touch: `end` clamped
/// to the last index of the buffer (0 when the buffer is empty).
pub open spec fn spec_range_end(bytes: Seq<u8>, end: int) -> int {
    let cap = if bytes.len() == 0 { 0int } else { bytes.len() - 1 };
    if end <= cap {
        end
    } else {
        cap
    }
}

/// True when the whole needle occurs somewhere inside
/// `bytes[start ..= spec_range_end(bytes, end)]`.
pub open spec fn spec_offset_range(bytes: Seq<u8>, start: int, end: int, needle: Seq<u8>) -> bool {
    let e = spec_range_end(bytes, end);
    &&& 0 <= start <= e
    &&& start < bytes.len()
    &&& exists|i: int|
        start <= i && i + needle.len() <= e + 1 && #[trigger] bytes.subrange(
            i,
            i + needle.len() as int,
        ) == needle
}

/// ASCII lower-casing of one byte.
pub open spec fn spec_lower_byte(b: u8) -> u8 {
    if 65 <= b <= 90 {
        (b + 32) as u8
    } else {
        b
    }
}

/// Case-insensitive prefix comparison: a buffer shorter than the
/// needle never matches.
pub open spec fn spec_prefix_ci(bytes: Seq<u8>, needle: Seq<u8>) -> bool {
    needle.len() <= bytes.len() && forall|j: int|
        0 <= j < needle.len() ==> spec_lower_byte(#[trigger] bytes[j]) == spec_lower_byte(
            needle[j],
        )
}

pub open spec fn spec_offset_ci(bytes: Seq<u8>, start: int, needle: Seq<u8>) -> bool {
    0 <= start <= bytes.len() && spec_prefix_ci(bytes.skip(start), needle)
}

/// A case-insensitive window match at position `i`.
pub open spec fn spec_window_ci(bytes: Seq<u8>, i: int, needle: Seq<u8>) -> bool {
    forall|j: int|
        0 <= j < needle.len() ==> spec_lower_byte(bytes[i + j]) == spec_lower_byte(needle[j])
}

pub open spec fn spec_offset_range_ci(
    bytes: Seq<u8>,
    start: int,
    end: int,
    needle: Seq<u8>,
) -> bool {
    let e = spec_range_end(bytes, end);
    &&& 0 <= start <= e
    &&& start < bytes.len()
    &&& exists|i: int| start <= i && i + needle.len() <= e + 1 && #[trigger] spec_window_ci(bytes, i, needle)
}

/// Masked comparison at a fixed offset: the whole needle must lie
/// inside the buffer, and every byte the mask also covers must agree
/// under it.  A truncated buffer never matches.
pub open spec fn spec_offset_mask(
    bytes: Seq<u8>,
    start: int,
    needle: Seq<u8>,
    mask: Seq<u8>,
) -> bool {
    &&& 0 <= start
    &&& start + needle.len() <= bytes.len()
    &&& forall|j: int|
        0 <= j < needle.len() && j < mask.len() ==> (#[trigger] (bytes[start + j] & mask[j]))
            == (needle[j] & mask[j])
}

/// A masked window match at position `i`: compared as far as needle and
/// mask both reach.
pub open spec fn spec_masked_window(bytes: Seq<u8>, i: int, needle: Seq<u8>, mask: Seq<u8>) -> bool {
    forall|j: int|
        0 <= j < needle.len() && j < mask.len() ==> (bytes[i + j] & mask[j]) == (needle[j]
            & mask[j])
}

pub open spec fn spec_offset_mask_range(
    bytes: Seq<u8>,
    start: int,
    end: int,
    needle: Seq<u8>,
    mask: Seq<u8>,
) -> bool {
    let e = spec_range_end(bytes, end);
    &&& 0 <= start <= e
    &&& start < bytes.len()
    &&& exists|i: int|
        start <= i && i + needle.len() <= e + 1 && #[trigger] spec_masked_window(bytes, i, needle, mask)
}

/// Masked, case-insensitive window match: the masked bytes are compared
/// after ASCII case folding.
pub open spec fn spec_masked_window_ci(
    bytes: Seq<u8>,
    i: int,
    needle: Seq<u8>,
    mask: Seq<u8>,
) -> bool {
    forall|j: int|
        0 <= j < needle.len() && j < mask.len() ==> spec_lower_byte((bytes[i + j] & mask[j]) as u8)
            == spec_lower_byte((needle[j] & mask[j]) as u8)
}

pub open spec fn spec_offset_mask_ci(
    bytes: Seq<u8>,
    start: int,
    needle: Seq<u8>,
    mask: Seq<u8>,
) -> bool {
    &&& 0 <= start
    &&& start + needle.len() <= bytes.len()
    &&& forall|j: int|
        0 <= j < needle.len() && j < mask.len() ==> spec_lower_byte(
            #[trigger] (bytes[start + j] & mask[j]) as u8,
        ) == spec_lower_byte((needle[j] & mask[j]) as u8)
}

pub open spec fn spec_offset_mask_range_ci(
    bytes: Seq<u8>,
    start: int,
    end: int,
    needle: Seq<u8>,
    mask: Seq<u8>,
) -> bool {
    let e = spec_range_end(bytes, end);
    &&& 0 <= start <= e
    &&& start < bytes.len()
    &&& exists|i: int|
        start <= i && i + needle.len() <= e + 1 && #[trigger] spec_masked_window_ci(bytes, i, needle, mask)
}

/// The 32-bit little-endian integer stored at `start`.
pub open spec fn spec_le32_at(bytes: Seq<u8>, start: int) -> int {
    bytes[start] + bytes[start + 1] * 0x100 + bytes[start + 2] * 0x10000 + bytes[start + 3]
        * 0x1000000
}

pub open spec fn spec_little32(bytes: Seq<u8>, start: int, needle: u32) -> bool {
    0 <= start && start + 4 <= bytes.len() && spec_le32_at(bytes, start) == needle as int
}

/// The 16-bit little-endian integer stored at `start`.
pub open spec fn spec_le16_at(bytes: Seq<u8>, start: int) -> int {
    bytes[start] + bytes[start + 1] * 0x100
}

pub open spec fn spec_little16(bytes: Seq<u8>, start: int, needle: u16) -> bool {
    0 <= start && start + 2 <= bytes.len() && spec_le16_at(bytes, start) == needle as int
}

/// Reports whether the buffer begins with the given byte sequence.
pub fn prefix(bytes: &[u8], needle: &[u8]) -> (r: bool)
    ensures
        r == spec_prefix(bytes@, needle@),
{
    if needle.len() > bytes.len() {
        return false;
    }
    let mut i: usize = 0;
    while i < needle.len()
        invariant
            i <= needle.len(),
            needle@.len() <= bytes@.len(),
            forall|j: int| 0 <= j < i ==> bytes@[j] == needle@[j],
        decreases needle.len() - i,
    {
        if bytes[i] != needle[i] {
            assert(bytes@.subrange(0, needle@.len() as int)[i as int] != needle@[i as int]);
            return false;
        }
        i += 1;
    }
    assert(bytes@.subrange(0, needle@.len() as int) =~= needle@);
    true
}

/// Reports whether the needle occurs exactly at offset `start`.
pub fn offset(bytes: &[u8], start: usize, needle: &[u8]) -> (r: bool)
    ensures
        r == spec_offset(bytes@, start as int, needle@),
{
    if start > bytes.len() {
        return false;
    }
    let (_, rest) = bytes.split_at(start);
    let r = prefix(rest, needle);
    assert(rest@ =~= bytes@.skip(start as int));
    r
}

/// Full-needle comparison of the window starting at `i`.
fn window_eq_at(bytes: &[u8], i: usize, needle: &[u8]) -> (r: bool)
    requires
        i + needle@.len() <= bytes@.len(),
    ensures
        r == (bytes@.subrange(i as int, i + needle@.len() as int) == needle@),
{
    let blen = bytes.len();
    let mut j: usize = 0;
    while j < needle.len()
        invariant
            j <= needle@.len(),
            i + needle@.len() <= blen,
            blen == bytes@.len(),
            forall|t: int| 0 <= t < j ==> bytes@[i + t] == needle@[t],
        decreases needle@.len() - j,
    {
        if bytes[i + j] != needle[j] {
            assert(bytes@.subrange(i as int, i + needle@.len() as int)[j as int] != needle@[j as int]);
            return false;
        }
        j += 1;
    }
    assert(bytes@.subrange(i as int, i + needle@.len() as int) =~= needle@);
    true
}

/// Case-insensitive full-needle comparison of the window at `i`.
fn window_ci_at(bytes: &[u8], i: usize, needle: &[u8]) -> (r: bool)
    requires
        i + needle@.len() <= bytes@.len(),
    ensures
        r == spec_window_ci(bytes@, i as int, needle@),
{
    let blen = bytes.len();
    let mut j: usize = 0;
    while j < needle.len()
        invariant
            j <= needle@.len(),
            i + needle@.len() <= blen,
            blen == bytes@.len(),
            forall|t: int|
                0 <= t < j ==> spec_lower_byte(bytes@[i + t]) == spec_lower_byte(needle@[t]),
        decreases needle@.len() - j,
    {
        let b = bytes[i + j];
        let p = needle[j];
        let lb = if b >= 65 && b <= 90 {
            b + 32
        } else {
            b
        };
        let lp = if p >= 65 && p <= 90 {
            p + 32
        } else {
            p
        };
        if lb != lp {
            assert(spec_lower_byte(bytes@[i + j]) != spec_lower_byte(needle@[j as int]));
            return false;
        }
        j += 1;
    }
    true
}

/// Masked comparison of the window at `i`, as far as needle and mask
/// both reach.
fn window_masked_at(bytes: &[u8], i: usize, needle: &[u8], mask: &[u8]) -> (r: bool)
    requires
        i + needle@.len() <= bytes@.len(),
    ensures
        r == spec_masked_window(bytes@, i as int, needle@, mask@),
{
    let blen = bytes.len();
    let n = if mask.len() <= needle.len() {
        mask.len()
    } else {
        needle.len()
    };
    let mut j: usize = 0;
    while j < n
        invariant
            j <= n,
            n <= needle@.len(),
            n <= mask@.len(),
            i + needle@.len() <= blen,
            blen == bytes@.len(),
            n == vstd::math::min(mask@.len() as int, needle@.len() as int),
            forall|t: int|
                0 <= t < j ==> (bytes@[i + t] & mask@[t]) == (needle@[t] & mask@[t]),
        decreases n - j,
    {
        if (bytes[i + j] & mask[j]) != (needle[j] & mask[j]) {
            return false;
        }
        j += 1;
    }
    true
}

/// Masked, case-folded comparison of the window at `i`.
fn window_masked_ci_at(bytes: &[u8], i: usize, needle: &[u8], mask: &[u8]) -> (r: bool)
    requires
        i + needle@.len() <= bytes@.len(),
    ensures
        r == spec_masked_window_ci(bytes@, i as int, needle@, mask@),
{
    let blen = bytes.len();
    let n = if mask.len() <= needle.len() {
        mask.len()
    } else {
        needle.len()
    };
    let mut j: usize = 0;
    while j < n
        invariant
            j <= n,
            n <= needle@.len(),
            n <= mask@.len(),
            i + needle@.len() <= blen,
            blen == bytes@.len(),
            n == vstd::math::min(mask@.len() as int, needle@.len() as int),
            forall|t: int|
                0 <= t < j ==> spec_lower_byte((bytes@[i + t] & mask@[t]) as u8) == spec_lower_byte(
                    (needle@[t] & mask@[t]) as u8,
                ),
        decreases n - j,
    {
        let b = bytes[i + j] & mask[j];
        let p = needle[j] & mask[j];
        let lb = if b >= 65 && b <= 90 {
            b + 32
        } else {
            b
        };
        let lp = if p >= 65 && p <= 90 {
            p + 32
        } else {
            p
        };
        if lb != lp {
            assert(spec_lower_byte((bytes@[i + j] & mask@[j as int]) as u8) != spec_lower_byte(
                (needle@[j as int] & mask@[j as int]) as u8,
            ));
            return false;
        }
        j += 1;
    }
    true
}

/// Reports whether the needle occurs as a contiguous window anywhere in
/// `bytes[start ..= min(end, len - 1)]`.  The needle must not be empty.
pub fn offset_range(bytes: &[u8], start: usize, end: usize, needle: &[u8]) -> (r: bool)
    requires
        needle@.len() >= 1,
    ensures
        r == spec_offset_range(bytes@, start as int, end as int, needle@),
{
    let blen = bytes.len();
    let cap = if blen == 0 {
        0
    } else {
        blen - 1
    };
    let e = if end <= cap {
        end
    } else {
        cap
    };
    if e < start || start >= blen {
        return false;
    }
    if needle.len() > e + 1 - start {
        return false;
    }
    let last = e + 1 - needle.len();
    let mut i: usize = start;
    while i <= last
        invariant
            start <= i <= last + 1,
            last + needle@.len() == e + 1,
            e == spec_range_end(bytes@, end as int),
            e < blen,
            blen == bytes@.len(),
            start <= e,
            needle@.len() >= 1,
            forall|k: int|
                start <= k < i ==> #[trigger] bytes@.subrange(k, k + needle@.len() as int)
                    != needle@,
        decreases last + 1 - i,
    {
        if window_eq_at(bytes, i, needle) {
            return true;
        }
        i += 1;
    }
    false
}

/// Case-insensitive variant of `offset_range`.  The needle must not be
/// empty.
pub fn offset_range_case_insensitive(bytes: &[u8], start: usize, end: usize, needle: &[u8]) -> (r:
    bool)
    requires
        needle@.len() >= 1,
    ensures
        r == spec_offset_range_ci(bytes@, start as int, end as int, needle@),
{
    let blen = bytes.len();
    let cap = if blen == 0 {
        0
    } else {
        blen - 1
    };
    let e = if end <= cap {
        end
    } else {
        cap
    };
    if e < start || start >= blen {
        return false;
    }
    if needle.len() > e + 1 - start {
        return false;
    }
    let last = e + 1 - needle.len();
    let mut i: usize = start;
    while i <= last
        invariant
            start <= i <= last + 1,
            last + needle@.len() == e + 1,
            e == spec_range_end(bytes@, end as int),
            e < blen,
            blen == bytes@.len(),
            start <= e,
            needle@.len() >= 1,
            forall|k: int| start <= k < i ==> !#[trigger] spec_window_ci(bytes@, k, needle@),
        decreases last + 1 - i,
    {
        if window_ci_at(bytes, i, needle) {
            return true;
        }
        i += 1;
    }
    false
}

/// Case-insensitive variant of `prefix`: false when the buffer is
/// shorter than the needle.
pub fn prefix_case_insensitive(bytes: &[u8], needle: &[u8]) -> (r: bool)
    ensures
        r == spec_prefix_ci(bytes@, needle@),
{
    if needle.len() > bytes.len() {
        return false;
    }
    let n = needle.len();
    let mut i: usize = 0;
    while i < n
        invariant
            i <= n,
            n <= bytes@.len(),
            n == needle@.len(),
            forall|j: int|
                0 <= j < i ==> spec_lower_byte(#[trigger] bytes@[j]) == spec_lower_byte(
                    needle@[j],
                ),
        decreases n - i,
    {
        let b = bytes[i];
        let p = needle[i];
        let lb = if b >= 65 && b <= 90 {
            b + 32
        } else {
            b
        };
        let lp = if p >= 65 && p <= 90 {
            p + 32
        } else {
            p
        };
        if lb != lp {
            return false;
        }
        i += 1;
    }
    true
}

/// Case-insensitive variant of `offset`.
pub fn offset_case_insensitive(bytes: &[u8], start: usize, needle: &[u8]) -> (r: bool)
    ensures
        r == spec_offset_ci(bytes@, start as int, needle@),
{
    if start > bytes.len() {
        return false;
    }
    let (_, rest) = bytes.split_at(start);
    let r = prefix_case_insensitive(rest, needle);
    assert(rest@ =~= bytes@.skip(start as int));
    r
}

/// Bitwise-masked comparison at a fixed offset: false when the needle
/// does not fit inside the buffer.
pub fn offset_mask(bytes: &[u8], start: usize, needle: &[u8], mask: &[u8]) -> (r: bool)
    ensures
        r == spec_offset_mask(bytes@, start as int, needle@, mask@),
{
    let blen = bytes.len();
    if start > blen || blen - start < needle.len() {
        return false;
    }
    let n = if mask.len() <= needle.len() {
        mask.len()
    } else {
        needle.len()
    };
    let mut j: usize = 0;
    while j < n
        invariant
            j <= n,
            start + needle@.len() <= blen,
            blen == bytes@.len(),
            n <= needle@.len(),
            n <= mask@.len(),
            n == vstd::math::min(mask@.len() as int, needle@.len() as int),
            forall|t: int|
                0 <= t < j ==> (#[trigger] (bytes@[start + t] & mask@[t])) == (needle@[t]
                    & mask@[t]),
        decreases n - j,
    {
        if (bytes[start + j] & mask[j]) != (needle[j] & mask[j]) {
            return false;
        }
        j += 1;
    }
    assert forall|t: int|
        0 <= t < needle@.len() && t < mask@.len() implies (#[trigger] (bytes@[start + t]
        & mask@[t])) == (needle@[t] & mask@[t]) by {
        assert(t < n);
    }
    true
}

/// Masked comparison at a fixed offset with ASCII case folding: false
/// when the needle does not fit inside the buffer.
pub fn offset_mask_case_insensitive(bytes: &[u8], start: usize, needle: &[u8], mask: &[u8]) -> (r:
    bool)
    ensures
        r == spec_offset_mask_ci(bytes@, start as int, needle@, mask@),
{
    let blen = bytes.len();
    if start > blen || blen - start < needle.len() {
        return false;
    }
    let n = if mask.len() <= needle.len() {
        mask.len()
    } else {
        needle.len()
    };
    let mut j: usize = 0;
    while j < n
        invariant
            j <= n,
            start + needle@.len() <= blen,
            blen == bytes@.len(),
            n <= needle@.len(),
            n <= mask@.len(),
            n == vstd::math::min(mask@.len() as int, needle@.len() as int),
            forall|t: int|
                0 <= t < j ==> spec_lower_byte(#[trigger] (bytes@[start + t] & mask@[t]) as u8)
                    == spec_lower_byte((needle@[t] & mask@[t]) as u8),
        decreases n - j,
    {
        let b = bytes[start + j] & mask[j];
        let p = needle[j] & mask[j];
        let lb = if b >= 65 && b <= 90 {
            b + 32
        } else {
            b
        };
        let lp = if p >= 65 && p <= 90 {
            p + 32
        } else {
            p
        };
        if lb != lp {
            return false;
        }
        j += 1;
    }
    assert forall|t: int|
        0 <= t < needle@.len() && t < mask@.len() implies spec_lower_byte(
        #[trigger] (bytes@[start + t] & mask@[t]) as u8,
    ) == spec_lower_byte((needle@[t] & mask@[t]) as u8) by {
        assert(t < n);
    }
    true
}

/// Bitwise-masked window search over a range.  The needle must not be
/// empty.
pub fn offset_mask_range(bytes: &[u8], start: usize, end: usize, needle: &[u8], mask: &[u8]) -> (r:
    bool)
    requires
        needle@.len() >= 1,
    ensures
        r == spec_offset_mask_range(bytes@, start as int, end as int, needle@, mask@),
{
    let blen = bytes.len();
    let cap = if blen == 0 {
        0
    } else {
        blen - 1
    };
    let e = if end <= cap {
        end
    } else {
        cap
    };
    if e < start || start >= blen {
        return false;
    }
    if needle.len() > e + 1 - start {
        return false;
    }
    let last = e + 1 - needle.len();
    let mut i: usize = start;
    while i <= last
        invariant
            start <= i <= last + 1,
            last + needle@.len() == e + 1,
            e == spec_range_end(bytes@, end as int),
            e < blen,
            blen == bytes@.len(),
            start <= e,
            needle@.len() >= 1,
            forall|k: int|
                start <= k < i ==> !#[trigger] spec_masked_window(bytes@, k, needle@, mask@),
        decreases last + 1 - i,
    {
        if window_masked_at(bytes, i, needle, mask) {
            return true;
        }
        i += 1;
    }
    false
}

/// Masked window search with ASCII case folding.  The needle must not be
/// empty.
pub fn offset_mask_range_case_insensitive(
    bytes: &[u8],
    start: usize,
    end: usize,
    needle: &[u8],
    mask: &[u8],
) -> (r: bool)
    requires
        needle@.len() >= 1,
    ensures
        r == spec_offset_mask_range_ci(bytes@, start as int, end as int, needle@, mask@),
{
    let blen = bytes.len();
    let cap = if blen == 0 {
        0
    } else {
        blen - 1
    };
    let e = if end <= cap {
        end
    } else {
        cap
    };
    if e < start || start >= blen {
        return false;
    }
    if needle.len() > e + 1 - start {
        return false;
    }
    let last = e + 1 - needle.len();
    let mut i: usize = start;
    while i <= last
        invariant
            start <= i <= last + 1,
            last + needle@.len() == e + 1,
            e == spec_range_end(bytes@, end as int),
            e < blen,
            blen == bytes@.len(),
            start <= e,
            needle@.len() >= 1,
            forall|k: int|
                start <= k < i ==> !#[trigger] spec_masked_window_ci(bytes@, k, needle@, mask@),
        decreases last + 1 - i,
    {
        if window_masked_ci_at(bytes, i, needle, mask) {
            return true;
        }
        i += 1;
    }
    false
}

/// Compares the 32-bit little-endian integer at `start` against `needle`.
pub fn little32(bytes: &[u8], start: usize, needle: u32) -> (r: bool)
    ensures
        r == spec_little32(bytes@, start as int, needle),
{
    if start > bytes.len() || bytes.len() - start < 4 {
        return false;
    }
    let v: u32 = bytes[start] as u32 + (bytes[start + 1] as u32) * 0x100 + (bytes[start + 2]
        as u32) * 0x10000 + (bytes[start + 3] as u32) * 0x1000000;
    v == needle
}

/// Compares the 16-bit little-endian integer at `start` against `needle`.
pub fn little16(bytes: &[u8], start: usize, needle: u16) -> (r: bool)
    ensures
        r == spec_little16(bytes@, start as int, needle),
{
    if start > bytes.len() || bytes.len() - start < 2 {
        return false;
    }
    let v: u16 = bytes[start] as u16 + (bytes[start + 1] as u16) * 0x100;
    v == needle
}

/// Host-endian 16-bit match; the host is defined to be little-endian.
pub fn host16(bytes: &[u8], start: usize, needle: u16) -> (r: bool)
    ensures
        r == spec_little16(bytes@, start as int, needle),
{
    little16(bytes, start, needle)
}

/// UTF-16LE byte-sequence match at a fixed offset; identical to `offset`,
/// kept as its own entry point for readability of compiled rules.
pub fn unicode_le(bytes: &[u8], start: usize, needle: &[u8]) -> (r: bool)
    ensures
        r == spec_offset(bytes@, start as int, needle@),
{
    offset(bytes, start, needle)
}

/// UTF-16LE ranged match: the inclusive range itself must lie inside the
/// buffer, then the search behaves like `offset_range`.
pub open spec fn spec_unicode_le_range(
    bytes: Seq<u8>,
    start: int,
    end: int,
    needle: Seq<u8>,
) -> bool {
    &&& 0 <= end < bytes.len()
    &&& start <= end + 1
    &&& spec_offset_range(bytes, start, end, needle)
}

pub fn unicode_le_range(bytes: &[u8], start: usize, end: usize, needle: &[u8]) -> (r: bool)
    requires
        needle@.len() >= 1,
    ensures
        r == spec_unicode_le_range(bytes@, start as int, end as int, needle@),
{
    if end >= bytes.len() || start > end + 1 {
        return false;
    }
    offset_range(bytes, start, end, needle)
}


/// True when every byte below index `n` is ASCII.
pub open spec fn spec_ascii_upto(bytes: Seq<u8>, n: int) -> bool {
    forall|i: int| 0 <= i < n ==> bytes[i] < 0x80
}

/// ASCII whitespace, as the text-likeness heuristic counts it.
pub open spec fn spec_is_ascii_ws(b: u8) -> bool {
    b == 0x20 || b == 0x09 || b == 0x0a || b == 0x0c || b == 0x0d
}

/// Printable (graphic) ASCII.
pub open spec fn spec_is_graphic(b: u8) -> bool {
    0x21 <= b <= 0x7e
}

/// The text-likeness heuristic: the first 4 to 128 bytes must be ASCII
/// unless they open with a recognized byte-order-mark shape, and a short
/// following window must be printable-or-whitespace ASCII.
pub open spec fn spec_file_is_text(bytes: Seq<u8>) -> bool {
    if bytes.len() < 4 {
        spec_ascii_upto(bytes, bytes.len() as int)
    } else {
        let m = if bytes.len() <= 128 {
            bytes.len() as int
        } else {
            128int
        };
        if !spec_ascii_upto(bytes, m) && (bytes[0] != 0x00 && bytes[1] != 0x00 && bytes[2] != 0xfe
            && bytes[3] != 0xff) && (bytes[0] != 0xff && bytes[1] != 0xfe && bytes[2] != 0x00
            && bytes[3] != 0x00) && (bytes[0] != 0xef && bytes[1] != 0xbb && bytes[2] != 0xbf
            && spec_is_ascii_ws(bytes[3])) {
            false
        } else if bytes.len() >= 9 {
            forall|i: int| 4 <= i <= 8 ==> 0 < #[trigger] bytes[i] < 0x80
        } else {
            forall|i: int|
                0 <= i < bytes.len() ==> spec_is_graphic(bytes[i]) || spec_is_ascii_ws(bytes[i])
        }
    }
}

/// Checks that every byte below index `n` is ASCII.
fn ascii_upto(bytes: &[u8], n: usize) -> (r: bool)
    requires
        n <= bytes@.len(),
    ensures
        r == spec_ascii_upto(bytes@, n as int),
{
    let mut i: usize = 0;
    while i < n
        invariant
            i <= n,
            n <= bytes@.len(),
            forall|j: int| 0 <= j < i ==> bytes@[j] < 0x80,
        decreases n - i,
    {
        if bytes[i] >= 0x80 {
            return false;
        }
        i += 1;
    }
    true
}

/// The ASCII/BOM text-likeness gate used before XML root-tag matching.
pub fn file_is_text(bytes: &[u8]) -> (r: bool)
    ensures
        r == spec_file_is_text(bytes@),
{
    let blen = bytes.len();
    if blen < 4 {
        return ascii_upto(bytes, blen);
    }
    let m = if blen <= 128 {
        blen
    } else {
        128
    };
    let head_ascii = ascii_upto(bytes, m);
    if !head_ascii && (bytes[0] != 0x00 && bytes[1] != 0x00 && bytes[2] != 0xfe && bytes[3] != 0xff)
        && (bytes[0] != 0xff && bytes[1] != 0xfe && bytes[2] != 0x00 && bytes[3] != 0x00) && (
    bytes[0] != 0xef && bytes[1] != 0xbb && bytes[2] != 0xbf && (bytes[3] == 0x20 || bytes[3]
        == 0x09 || bytes[3] == 0x0a || bytes[3] == 0x0c || bytes[3] == 0x0d)) {
        return false;
    }
    if blen >= 9 {
        let mut i: usize = 4;
        while i <= 8
            invariant
                4 <= i <= 9,
                bytes@.len() >= 9,
                forall|j: int| 4 <= j < i ==> 0 < #[trigger] bytes@[j] < 0x80,
            decreases 9 - i,
        {
            if bytes[i] == 0 || bytes[i] >= 0x80 {
                return false;
            }
            i += 1;
        }
        true
    } else {
        let mut i: usize = 0;
        while i < blen
            invariant
                i <= blen,
                blen == bytes@.len(),
                4 <= blen < 9,
                forall|j: int|
                    0 <= j < i ==> spec_is_graphic(bytes@[j]) || spec_is_ascii_ws(bytes@[j]),
            decreases blen - i,
        {
            let b = bytes[i];
            let ok = (0x21 <= b && b <= 0x7e) || b == 0x20 || b == 0x09 || b == 0x0a || b == 0x0c
                || b == 0x0d;
            if !ok {
                return false;
            }
            i += 1;
        }
        true
    }
}

/// Appends a byte slice to a vector.
fn push_bytes(v: &mut Vec<u8>, s: &[u8])
    ensures
        final(v)@ == old(v)@ + s@,
{
    let mut i: usize = 0;
    while i < s.len()
        invariant
            i <= s@.len(),
            v@ == old(v)@ + s@.subrange(0, i as int),
        decreases s@.len() - i,
    {
        v.push(s[i]);
        assert(old(v)@ + s@.subrange(0, i + 1) =~= (old(v)@ + s@.subrange(0, i as int)).push(
            s@[i as int],
        ));
        i += 1;
    }
    assert(s@.subrange(0, s@.len() as int) =~= s@);
}

/// The byte tag `"<name "`.
pub open spec fn spec_local_tag(name: Seq<u8>) -> Seq<u8> {
    seq![60u8] + name + seq![32u8]
}

/// The byte tag `"name:name "`.
pub open spec fn spec_namespaced_tag(name: Seq<u8>) -> Seq<u8> {
    name + seq![58u8] + name + seq![32u8]
}

/// The byte tag `":name xmlns"`.
pub open spec fn spec_xmlns_tag(name: Seq<u8>) -> Seq<u8> {
    seq![58u8] + name + seq![32u8, 120u8, 109u8, 108u8, 110u8, 115u8]
}

/// Root-tag match on the local element name: the buffer must look like
/// text and one of the three tag shapes must occur in the first 2048
/// bytes, case-insensitively.
pub open spec fn spec_rootxml_local(bytes: Seq<u8>, name: Seq<u8>) -> bool {
    &&& spec_file_is_text(bytes)
    &&& {
        ||| spec_offset_range_ci(bytes, 0, 2048, spec_local_tag(name))
        ||| spec_offset_range_ci(bytes, 0, 2048, spec_namespaced_tag(name))
        ||| spec_offset_range_ci(bytes, 0, 2048, spec_xmlns_tag(name))
    }
}

pub fn rootxml_local(bytes: &[u8], local_name: &str) -> (r: bool)
    ensures
        r == spec_rootxml_local(bytes@, local_name.spec_bytes()),
{
    if !file_is_text(bytes) {
        return false;
    }
    let nb = local_name.as_bytes();

    let mut t1: Vec<u8> = Vec::new();
    t1.push(60);
    push_bytes(&mut t1, nb);
    t1.push(32);
    assert(t1@ =~= spec_local_tag(nb@));

    let mut t2: Vec<u8> = Vec::new();
    push_bytes(&mut t2, nb);
    t2.push(58);
    push_bytes(&mut t2, nb);
    t2.push(32);
    assert(t2@ =~= spec_namespaced_tag(nb@));

    let mut t3: Vec<u8> = Vec::new();
    t3.push(58);
    push_bytes(&mut t3, nb);
    t3.push(32);
    t3.push(120);
    t3.push(109);
    t3.push(108);
    t3.push(110);
    t3.push(115);
    assert(t3@ =~= spec_xmlns_tag(nb@));

    offset_range_case_insensitive(bytes, 0, 2048, t1.as_slice()) || offset_range_case_insensitive(
        bytes,
        0,
        2048,
        t2.as_slice(),
    ) || offset_range_case_insensitive(bytes, 0, 2048, t3.as_slice())
}

/// Root-tag match on the namespace URI string; an empty URI matches
/// nothing.
pub open spec fn spec_rootxml_namespace(bytes: Seq<u8>, uri: Seq<u8>) -> bool {
    uri.len() >= 1 && spec_file_is_text(bytes) && spec_offset_range_ci(bytes, 0, 2048, uri)
}

pub fn rootxml_namespace(bytes: &[u8], namespace_uri: &str) -> (r: bool)
    ensures
        r == spec_rootxml_namespace(bytes@, namespace_uri.spec_bytes()),
{
    if namespace_uri.len() == 0 {
        return false;
    }
    file_is_text(bytes) && offset_range_case_insensitive(bytes, 0, 2048, namespace_uri.as_bytes())
}

/// Root-tag match requiring both the local name and the namespace URI.
pub fn rootxml(bytes: &[u8], local_name: &str, namespace_uri: &str) -> (r: bool)
    ensures
        r == (spec_rootxml_local(bytes@, local_name.spec_bytes()) && spec_rootxml_namespace(
            bytes@,
            namespace_uri.spec_bytes(),
        )),
{
    let local = rootxml_local(bytes, local_name);
    let ns = rootxml_namespace(bytes, namespace_uri);
    local && ns
}

/// `prefix` with a string needle, compared over its UTF-8 bytes.
pub fn prefix_string(bytes: &[u8], needle: &str) -> (r: bool)
    ensures
        r == spec_prefix(bytes@, needle.spec_bytes()),
{
    prefix(bytes, needle.as_bytes())
}

/// `prefix_case_insensitive` with a string needle.
pub fn prefix_case_insensitive_string(bytes: &[u8], needle: &str) -> (r: bool)
    ensures
        r == spec_prefix_ci(bytes@, needle.spec_bytes()),
{
    prefix_case_insensitive(bytes, needle.as_bytes())
}

/// `offset` with a string needle.
pub fn offset_string(bytes: &[u8], start: usize, needle: &str) -> (r: bool)
    ensures
        r == spec_offset(bytes@, start as int, needle.spec_bytes()),
{
    offset(bytes, start, needle.as_bytes())
}

/// `offset_case_insensitive` with a string needle.
pub fn offset_case_insensitive_string(bytes: &[u8], start: usize, needle: &str) -> (r: bool)
    ensures
        r == spec_offset_ci(bytes@, start as int, needle.spec_bytes()),
{
    offset_case_insensitive(bytes, start, needle.as_bytes())
}

/// Whether a pattern is accepted by the regular-expression engine; a
/// function of the pattern string alone.
pub uninterp spec fn regex_compiles(pattern: Seq<char>) -> bool;

/// Whether a pattern finds a match somewhere in a haystack; a function
/// of the pattern and the haystack alone.  A pattern that does not
/// compile finds nothing.
pub uninterp spec fn regex_found(pattern: Seq<char>, hay: Seq<u8>) -> bool;

/// Relies on regex::bytes::Regex::new: success depends on the pattern
/// string alone.
#[verifier::external_body]
pub fn regex_is_valid(pattern: &str) -> (r: bool)
    ensures
        r == regex_compiles(pattern@),
{
    regex::bytes::Regex::new(pattern).is_ok()
}

/// Relies on regex::bytes::Regex::new and Regex::is_match: compiling a
/// pattern and searching a haystack is deterministic in the pattern and
/// the haystack; an invalid pattern matches nothing.
#[verifier::external_body]
pub fn regex_search(pattern: &str, hay: &[u8]) -> (r: bool)
    ensures
        r == regex_found(pattern@, hay@),
{
    match regex::bytes::Regex::new(pattern) {
        Ok(re) => re.is_match(hay),
        Err(_) => false,
    }
}

/// Regular-expression match anchored at or after a fixed offset.
pub open spec fn spec_regex_at(bytes: Seq<u8>, start: int, pattern: Seq<char>) -> bool {
    0 <= start <= bytes.len() && regex_found(pattern, bytes.skip(start))
}

pub fn regex(bytes: &[u8], start: usize, pattern: &str) -> (r: bool)
    ensures
        r == spec_regex_at(bytes@, start as int, pattern@),
{
    if start > bytes.len() {
        return false;
    }
    let (_, rest) = bytes.split_at(start);
    let r = regex_search(pattern, rest);
    assert(rest@ =~= bytes@.skip(start as int));
    r
}

/// Regular-expression match inside an inclusive byte range, the end
/// clamped to the last index of the buffer like every other ranged
/// matcher.
pub open spec fn spec_regex_range(bytes: Seq<u8>, start: int, end: int, pattern: Seq<char>) -> bool {
    let e = spec_range_end(bytes, end);
    &&& 0 <= start <= e
    &&& start < bytes.len()
    &&& regex_found(pattern, bytes.subrange(start, e + 1))
}

pub fn regex_range(bytes: &[u8], start: usize, end: usize, pattern: &str) -> (r: bool)
    ensures
        r == spec_regex_range(bytes@, start as int, end as int, pattern@),
{
    let blen = bytes.len();
    let cap = if blen == 0 {
        0
    } else {
        blen - 1
    };
    let e = if end <= cap {
        end
    } else {
        cap
    };
    if e < start || start >= blen {
        return false;
    }
    let (front, _) = bytes.split_at(e + 1);
    let (_, sub) = front.split_at(start);
    let r = regex_search(pattern, sub);
    assert(sub@ =~= bytes@.subrange(start as int, e + 1));
    r
}

} // verus!
