//! Value and integer literal parsing for the rule compiler.
//!
//! A value literal is either a hex-prefixed string (`0x…`, left-padded
//! to even length before decoding) or a string with C-style escapes
//! (`\xNN`, up to three octal digits, and single-character escapes);
//! all other characters are raw ASCII bytes.  Integer literals accept
//! `0x`/`0X`, `0o`/`0O`, `0b`/`0B`, `0n`, a bare leading zero (legacy
//! octal), or default decimal.

use crate::errors::BuildError;
use crate::strutil::{spec_trim, str_to_chars, string_from_chars, trim_chars};
use vstd::prelude::*;

verus! {

/// The value of one hex digit.
pub open spec fn spec_hex_val(c: char) -> Option<u8> {
    let u = c as u32;
    if 48 <= u <= 57 {
        Some((u - 48) as u8)
    } else if 97 <= u <= 102 {
        Some((u - 87) as u8)
    } else if 65 <= u <= 70 {
        Some((u - 55) as u8)
    } else {
        None
    }
}

fn hex_val(c: char) -> (r: Option<u8>)
    ensures
        r == spec_hex_val(c),
{
    let u = c as u32;
    if 48 <= u && u <= 57 {
        Some((u - 48) as u8)
    } else if 97 <= u && u <= 102 {
        Some((u - 87) as u8)
    } else if 65 <= u && u <= 70 {
        Some((u - 55) as u8)
    } else {
        None
    }
}

/// Pairs of hex digits decoded to bytes; `None` on an odd length or an
/// invalid digit.
pub open spec fn spec_hex_pairs(s: Seq<char>) -> Option<Seq<u8>>
    decreases s.len(),
{
    if s.len() == 0 {
        Some(Seq::empty())
    } else if s.len() == 1 {
        None
    } else {
        match (spec_hex_val(s[0]), spec_hex_val(s[1]), spec_hex_pairs(s.skip(2))) {
            (Some(h), Some(l), Some(rest)) => Some(seq![(16 * h + l) as u8] + rest),
            _ => None,
        }
    }
}

/// A hex value literal: everything after `0x`, left-padded with one `0`
/// if of odd length, decoded pairwise.
pub open spec fn spec_hex_literal(s: Seq<char>) -> Option<Seq<u8>> {
    let h = s.skip(2);
    let padded = if h.len() % 2 == 1 {
        seq!['0'] + h
    } else {
        h
    };
    spec_hex_pairs(padded)
}

/// Single-character escapes.
pub open spec fn spec_escape_char(c: char) -> Option<u8> {
    if c == 'n' {
        Some(10u8)
    } else if c == 'r' {
        Some(13u8)
    } else if c == 't' {
        Some(9u8)
    } else if c == '\\' {
        Some(92u8)
    } else if c == '\'' {
        Some(39u8)
    } else if c == '"' {
        Some(34u8)
    } else if c == ' ' {
        Some(32u8)
    } else {
        None
    }
}

fn escape_char(c: char) -> (r: Option<u8>)
    ensures
        r == spec_escape_char(c),
{
    if c == 'n' {
        Some(10u8)
    } else if c == 'r' {
        Some(13u8)
    } else if c == 't' {
        Some(9u8)
    } else if c == '\\' {
        Some(92u8)
    } else if c == '\'' {
        Some(39u8)
    } else if c == '"' {
        Some(34u8)
    } else if c == ' ' {
        Some(32u8)
    } else {
        None
    }
}

pub open spec fn spec_is_octal(c: char) -> bool {
    48 <= c as u32 <= 55
}

fn is_octal_char(c: char) -> (r: bool)
    ensures
        r == spec_is_octal(c),
{
    let u = c as u32;
    48 <= u && u <= 55
}

/// How many octal digits (at most three) stand at position `i`.
pub open spec fn spec_octal_run(s: Seq<char>, i: int) -> int {
    if i < s.len() && spec_is_octal(s[i]) {
        if i + 1 < s.len() && spec_is_octal(s[i + 1]) {
            if i + 2 < s.len() && spec_is_octal(s[i + 2]) {
                3
            } else {
                2
            }
        } else {
            1
        }
    } else {
        0
    }
}

/// The value of the `k` octal digits at position `i`.
pub open spec fn spec_octal_value(s: Seq<char>, i: int, k: int) -> int
    decreases k,
{
    if k <= 0 {
        0
    } else {
        spec_octal_value(s, i, k - 1) * 8 + (s[i + k - 1] as u32 - 48)
    }
}

/// Unescapes a value string: `\xNN`, `\NNN` octal, single-character
/// escapes; other characters are taken as raw bytes (truncated to their
/// low eight bits).  A trailing lone backslash is dropped.  `None` on a
/// malformed or unknown escape, or an octal value above 255.
pub open spec fn spec_unescape(s: Seq<char>) -> Option<Seq<u8>>
    decreases s.len(),
{
    if s.len() == 0 {
        Some(Seq::empty())
    } else if s[0] == '\\' {
        if s.len() == 1 {
            Some(Seq::empty())
        } else {
            let c = s[1];
            if c == 'x' {
                if s.len() < 4 {
                    None
                } else {
                    match (spec_hex_val(s[2]), spec_hex_val(s[3]), spec_unescape(s.skip(4))) {
                        (Some(h), Some(l), Some(rest)) => Some(seq![(16 * h + l) as u8] + rest),
                        _ => None,
                    }
                }
            } else if spec_is_octal(c) {
                let k = spec_octal_run(s, 1);
                let val = spec_octal_value(s, 1, k);
                if val <= 255 {
                    match spec_unescape(s.skip(1 + k)) {
                        Some(rest) => Some(seq![val as u8] + rest),
                        None => None,
                    }
                } else {
                    None
                }
            } else {
                match (spec_escape_char(c), spec_unescape(s.skip(2))) {
                    (Some(b), Some(rest)) => Some(seq![b] + rest),
                    _ => None,
                }
            }
        }
    } else {
        match spec_unescape(s.drop_first()) {
            Some(rest) => Some(seq![(s[0] as u32 % 256) as u8] + rest),
            None => None,
        }
    }
}

/// What a value literal denotes.
pub open spec fn spec_string_to_bytes(s: Seq<char>) -> Option<Seq<u8>> {
    if s.len() >= 2 && s[0] == '0' && (s[1] == 'x' || s[1] == 'X') {
        spec_hex_literal(s)
    } else {
        spec_unescape(s)
    }
}

/// Relies on hex::decode: each byte comes from two hex digits, high
/// digit first; on an even-length string of valid digits it succeeds.
#[verifier::external_body]
fn hex_decode(s: &str) -> (r: Vec<u8>)
    requires
        s@.len() % 2 == 0,
        forall|i: int| 0 <= i < s@.len() ==> spec_hex_val(s@[i]) is Some,
    ensures
        r@.len() == s@.len() / 2,
        forall|i: int|
            0 <= i < r@.len() ==> r@[i] == 16 * spec_hex_val(s@[2 * i])->0 + spec_hex_val(
                s@[2 * i + 1],
            )->0,
{
    hex::decode(s).unwrap()
}

/// On an even-length string of valid hex digits, `spec_hex_pairs` is
/// the pairwise decoding.
proof fn lemma_hex_pairs(p: Seq<char>)
    requires
        p.len() % 2 == 0,
        forall|i: int| 0 <= i < p.len() ==> spec_hex_val(p[i]) is Some,
    ensures
        spec_hex_pairs(p) is Some,
        spec_hex_pairs(p)->0.len() == p.len() / 2,
        forall|i: int|
            0 <= i < p.len() / 2 ==> spec_hex_pairs(p)->0[i] == 16 * spec_hex_val(p[2 * i])->0
                + spec_hex_val(p[2 * i + 1])->0,
    decreases p.len(),
{
    if p.len() > 0 {
        lemma_hex_pairs(p.skip(2));
        let rest = spec_hex_pairs(p.skip(2))->0;
        let whole = spec_hex_pairs(p)->0;
        assert forall|i: int| 0 <= i < p.len() / 2 implies whole[i] == 16 * spec_hex_val(
            p[2 * i],
        )->0 + spec_hex_val(p[2 * i + 1])->0 by {
            if i > 0 {
                assert(rest[i - 1] == 16 * spec_hex_val(p.skip(2)[2 * (i - 1)])->0 + spec_hex_val(
                    p.skip(2)[2 * (i - 1) + 1],
                )->0);
                assert(p.skip(2)[2 * (i - 1)] == p[2 * i]);
                assert(p.skip(2)[2 * (i - 1) + 1] == p[2 * i + 1]);
            }
        }
    }
}

/// Parses a value literal into bytes, or reports it unparseable.
pub fn string_to_bytes(input: &str) -> (r: Result<Vec<u8>, BuildError>)
    ensures
        match spec_string_to_bytes(input@) {
            Some(bs) => r matches Ok(v) && v@ == bs,
            None => r matches Err(e) && e == BuildError::BadValue,
        },
{
    let cs = str_to_chars(input);
    if cs.len() >= 2 && cs[0] == '0' && (cs[1] == 'x' || cs[1] == 'X') {
        let mut padded: Vec<char> = Vec::new();
        if (cs.len() - 2) % 2 == 1 {
            padded.push('0');
        }
        let mut i: usize = 2;
        let ghost base = padded@;
        while i < cs.len()
            invariant
                2 <= i <= cs@.len(),
                padded@ == base + cs@.subrange(2, i as int),
            decreases cs@.len() - i,
        {
            padded.push(cs[i]);
            assert(base + cs@.subrange(2, i + 1) =~= (base + cs@.subrange(2, i as int)).push(
                cs@[i as int],
            ));
            i += 1;
        }
        proof {
            assert(cs@.subrange(2, cs@.len() as int) =~= cs@.skip(2));
            if (cs@.len() - 2) % 2 == 1 {
                assert(padded@ =~= seq!['0'] + cs@.skip(2));
            } else {
                assert(padded@ =~= cs@.skip(2));
            }
        }
        proof {
            assert(spec_string_to_bytes(input@) == spec_hex_pairs(padded@));
        }
        // Validate every digit; an invalid one is a fatal value error.
        let mut j: usize = 0;
        while j < padded.len()
            invariant
                j <= padded@.len(),
                spec_string_to_bytes(input@) == spec_hex_pairs(padded@),
                forall|t: int| 0 <= t < j ==> spec_hex_val(padded@[t]) is Some,
            decreases padded@.len() - j,
        {
            if hex_val(padded[j]).is_none() {
                assert(spec_hex_pairs(padded@) is None) by {
                    lemma_hex_pairs_invalid(padded@, j as int);
                }
                return Err(BuildError::BadValue);
            }
            j += 1;
        }
        proof {
            lemma_hex_pairs(padded@);
        }
        let hs = string_from_chars(&padded);
        let bytes = hex_decode(hs.as_str());
        proof {
            assert(bytes@ =~= spec_hex_pairs(padded@)->0);
        }
        Ok(bytes)
    } else {
        assert(cs@.skip(0) =~= cs@);
        unescape(&cs, 0)
    }
}

/// An invalid digit anywhere makes `spec_hex_pairs` fail.
proof fn lemma_hex_pairs_invalid(p: Seq<char>, bad: int)
    requires
        0 <= bad < p.len(),
        spec_hex_val(p[bad]) is None,
    ensures
        spec_hex_pairs(p) is None,
    decreases p.len(),
{
    if p.len() > 1 && bad >= 2 {
        lemma_hex_pairs_invalid(p.skip(2), bad - 2);
    }
}

/// Unescapes the character vector from position `from` on.
fn unescape(cs: &Vec<char>, from: usize) -> (r: Result<Vec<u8>, BuildError>)
    requires
        from <= cs@.len(),
    ensures
        match spec_unescape(cs@.skip(from as int)) {
            Some(bs) => r matches Ok(v) && v@ == bs,
            None => r matches Err(e) && e == BuildError::BadValue,
        },
    decreases cs@.len() - from,
{
    let n = cs.len();
    if from == n {
        assert(cs@.skip(from as int) =~= Seq::<char>::empty());
        return Ok(Vec::new());
    }
    let ghost s = cs@.skip(from as int);
    assert(s[0] == cs@[from as int]);
    let c0 = cs[from];
    if c0 == '\\' {
        if from + 1 == n {
            assert(s.len() == 1);
            return Ok(Vec::new());
        }
        let c1 = cs[from + 1];
        assert(s[1] == c1);
        if c1 == 'x' {
            if n - from < 4 {
                assert(s.len() < 4);
                return Err(BuildError::BadValue);
            }
            assert(s.len() >= 4 && s[2] == cs@[from + 2] && s[3] == cs@[from + 3]);
            let h = hex_val(cs[from + 2]);
            let l = hex_val(cs[from + 3]);
            match (h, l) {
                (Some(hv), Some(lv)) => {
                    assert(cs@.skip(from + 4) =~= s.skip(4));
                    let rest = unescape(cs, from + 4)?;
                    let mut out: Vec<u8> = Vec::new();
                    out.push(16 * hv + lv);
                    let r = concat_bytes(out, rest);
                    assert(r@ =~= seq![(16 * spec_hex_val(s[2])->0 + spec_hex_val(s[3])->0) as u8]
                        + spec_unescape(s.skip(4))->0);
                    Ok(r)
                },
                _ => {
                    assert(spec_unescape(s) is None);
                    Err(BuildError::BadValue)
                },
            }
        } else if is_octal_char(c1) {
            // Up to three octal digits, starting at the peeked one.
            let mut k: usize = 1;
            if from + 2 < n && is_octal_char(cs[from + 2]) {
                k = 2;
                if from + 3 < n && is_octal_char(cs[from + 3]) {
                    k = 3;
                }
            }
            assert(forall|t: int| 0 <= t < s.len() ==> s[t] == cs@[from + t]);
            assert(k as int == spec_octal_run(s, 1));
            let mut val: u32 = 0;
            let mut t: usize = 0;
            while t < k
                invariant
                    t <= k,
                    1 <= k <= 3,
                    from + 1 + k <= n,
                    n == cs@.len(),
                    s == cs@.skip(from as int),
                    from <= cs@.len(),
                    forall|u: int| 1 <= u <= k ==> spec_is_octal(s[u]),
                    forall|u: int| 0 <= u < s.len() ==> s[u] == cs@[from + u],
                    val == spec_octal_value(s, 1, t as int),
                    t == 0 ==> val == 0,
                    t == 1 ==> val <= 7,
                    t == 2 ==> val <= 63,
                    t == 3 ==> val <= 511,
                decreases k - t,
            {
                assert(s[1 + t] == cs@[from + 1 + t]);
                assert(spec_is_octal(s[1 + t]));
                let c = cs[from + 1 + t];
                let d = c as u32;
                assert(48 <= d <= 55);
                val = val * 8 + (d - 48);
                t += 1;
            }
            if val > 255 {
                return Err(BuildError::BadValue);
            }
            assert(cs@.skip(from + 1 + k as int) =~= s.skip(1 + k as int));
            let rest = unescape(cs, from + 1 + k)?;
            let mut out: Vec<u8> = Vec::new();
            out.push(val as u8);
            let r = concat_bytes(out, rest);
            assert(r@ =~= seq![spec_octal_value(s, 1, spec_octal_run(s, 1)) as u8]
                + spec_unescape(s.skip(1 + spec_octal_run(s, 1)))->0);
            Ok(r)
        } else {
            match escape_char(c1) {
                Some(b) => {
                    assert(cs@.skip(from + 2) =~= s.skip(2));
                    let rest = unescape(cs, from + 2)?;
                    let mut out: Vec<u8> = Vec::new();
                    out.push(b);
                    let r = concat_bytes(out, rest);
                    assert(r@ =~= seq![spec_escape_char(s[1])->0] + spec_unescape(s.skip(2))->0);
                    Ok(r)
                },
                None => {
                    assert(spec_unescape(s) is None);
                    Err(BuildError::BadValue)
                },
            }
        }
    } else {
        assert(cs@.skip(from + 1) =~= s.drop_first());
        let rest = unescape(cs, from + 1)?;
        let mut out: Vec<u8> = Vec::new();
        let b = c0 as u32;
        out.push((b % 256) as u8);
        let r = concat_bytes(out, rest);
        assert(r@ =~= seq![(s[0] as u32 % 256) as u8] + spec_unescape(s.drop_first())->0);
        Ok(r)
    }
}

/// Appends `tail` to `head`.
fn concat_bytes(head: Vec<u8>, tail: Vec<u8>) -> (r: Vec<u8>)
    ensures
        r@ == head@ + tail@,
{
    let mut r = head;
    let mut i: usize = 0;
    while i < tail.len()
        invariant
            i <= tail@.len(),
            r@ == head@ + tail@.subrange(0, i as int),
        decreases tail@.len() - i,
    {
        r.push(tail[i]);
        assert(head@ + tail@.subrange(0, i + 1) =~= (head@ + tail@.subrange(0, i as int)).push(
            tail@[i as int],
        ));
        i += 1;
    }
    assert(head@ + tail@.subrange(0, tail@.len() as int) =~= head@ + tail@);
    r
}

/// The value of one digit under a radix; letters count from ten,
/// case-insensitively.
pub open spec fn spec_digit_val(c: char, radix: u32) -> Option<u32> {
    let u = c as u32;
    let v = if 48 <= u <= 57 {
        (u - 48) as u32
    } else if 97 <= u <= 122 {
        (u - 87) as u32
    } else if 65 <= u <= 90 {
        (u - 55) as u32
    } else {
        36u32
    };
    if v < radix {
        Some(v)
    } else {
        None
    }
}

fn digit_val(c: char, radix: u32) -> (r: Option<u32>)
    ensures
        r == spec_digit_val(c, radix),
{
    let u = c as u32;
    let v: u32 = if 48 <= u && u <= 57 {
        u - 48
    } else if 97 <= u && u <= 122 {
        u - 87
    } else if 65 <= u && u <= 90 {
        u - 55
    } else {
        36
    };
    if v < radix {
        Some(v)
    } else {
        None
    }
}

/// Folds digits left to right; `None` on an invalid digit or 32-bit
/// overflow.
pub open spec fn spec_fold_digits(s: Seq<char>, radix: u32, acc: u32) -> Option<u32>
    decreases s.len(),
{
    if s.len() == 0 {
        Some(acc)
    } else {
        match spec_digit_val(s[0], radix) {
            Some(d) => if acc * radix + d <= u32::MAX {
                spec_fold_digits(s.drop_first(), radix, (acc * radix + d) as u32)
            } else {
                None
            },
            None => None,
        }
    }
}

/// A non-empty digit run under a radix.
pub open spec fn spec_parse_digits(s: Seq<char>, radix: u32) -> Option<u32> {
    if s.len() == 0 {
        None
    } else {
        spec_fold_digits(s, radix, 0)
    }
}

/// An unsigned integer with an optional sign: `+` is accepted, and `-`
/// only in front of an all-zero digit run.
pub open spec fn spec_parse_uint(s: Seq<char>, radix: u32) -> Option<u32> {
    if s.len() == 0 {
        None
    } else if s[0] == '+' {
        spec_parse_digits(s.drop_first(), radix)
    } else if s[0] == '-' {
        match spec_parse_digits(s.drop_first(), radix) {
            Some(v) => if v == 0 {
                Some(0u32)
            } else {
                None
            },
            None => None,
        }
    } else {
        spec_parse_digits(s, radix)
    }
}

/// Folds the digit run `t[from..to]` under a radix.
fn fold_digits_chars(t: &Vec<char>, from: usize, to: usize, radix: u32) -> (r: Option<u32>)
    requires
        from < to <= t@.len(),
        2 <= radix <= 36,
    ensures
        r == spec_fold_digits(t@.subrange(from as int, to as int), radix, 0),
{
    let ghost digits = t@.subrange(from as int, to as int);
    let mut acc: u32 = 0;
    let mut j: usize = from;
    while j < to
        invariant
            from <= j <= to <= t@.len(),
            2 <= radix <= 36,
            digits == t@.subrange(from as int, to as int),
            spec_fold_digits(digits, radix, 0) == spec_fold_digits(
                t@.subrange(j as int, to as int),
                radix,
                acc,
            ),
        decreases to - j,
    {
        let ghost restj = t@.subrange(j as int, to as int);
        assert(restj[0] == t@[j as int]);
        match digit_val(t[j], radix) {
            Some(d) => {
                assert((acc as u64) * (radix as u64) <= 0xffff_ffffu64 * 36u64)
                    by (nonlinear_arith)
                    requires
                        acc <= u32::MAX,
                        radix <= 36,
                ;
                let next = acc as u64 * radix as u64 + d as u64;
                if next > u32::MAX as u64 {
                    assert(spec_fold_digits(restj, radix, acc) is None);
                    return None;
                }
                acc = next as u32;
                assert(restj.drop_first() =~= t@.subrange(j + 1, to as int));
            },
            None => {
                assert(spec_fold_digits(restj, radix, acc) is None);
                return None;
            },
        }
        j += 1;
    }
    assert(t@.subrange(to as int, to as int) =~= Seq::<char>::empty());
    Some(acc)
}

/// Parses `t[from..to]` as an unsigned integer under a radix.
pub fn parse_uint_chars(t: &Vec<char>, from: usize, to: usize, radix: u32) -> (r: Option<u32>)
    requires
        from <= to <= t@.len(),
        2 <= radix <= 36,
    ensures
        r == spec_parse_uint(t@.subrange(from as int, to as int), radix),
{
    let ghost s = t@.subrange(from as int, to as int);
    if from == to {
        return None;
    }
    let first = t[from];
    assert(s[0] == first);
    let mut i: usize = from;
    let mut neg = false;
    if first == '+' || first == '-' {
        neg = first == '-';
        i = from + 1;
        if i == to {
            assert(s.drop_first() =~= Seq::<char>::empty());
            return None;
        }
    }
    proof {
        if first == '+' || first == '-' {
            assert(t@.subrange(i as int, to as int) =~= s.drop_first());
        } else {
            assert(t@.subrange(i as int, to as int) =~= s);
        }
    }
    let folded = fold_digits_chars(t, i, to, radix);
    match folded {
        Some(v) => {
            if neg {
                if v == 0 {
                    Some(0)
                } else {
                    None
                }
            } else {
                Some(v)
            }
        },
        None => None,
    }
}

/// What an integer literal denotes, after trimming: radix prefixes
/// `0x`/`0X`, `0o`/`0O`, `0b`/`0B`, `0n`, a bare leading zero as legacy
/// octal, else decimal.
pub open spec fn spec_parse_int(s: Seq<char>) -> Option<u32> {
    if s.len() >= 2 && s[0] == '0' && (s[1] == 'x' || s[1] == 'X') {
        spec_parse_uint(s.skip(2), 16)
    } else if s.len() >= 2 && s[0] == '0' && (s[1] == 'o' || s[1] == 'O') {
        spec_parse_uint(s.skip(2), 8)
    } else if s.len() >= 2 && s[0] == '0' && (s[1] == 'b' || s[1] == 'B') {
        spec_parse_uint(s.skip(2), 2)
    } else if s.len() >= 2 && s[0] == '0' && s[1] == 'n' {
        spec_parse_uint(s.skip(2), 10)
    } else if s.len() > 1 && s[0] == '0' {
        spec_parse_uint(s.skip(1), 8)
    } else {
        spec_parse_uint(s, 10)
    }
}

/// Parses an integer literal with automatic radix detection, or reports
/// it unparseable.
pub fn parse_int_auto(input: &str) -> (r: Result<u32, BuildError>)
    ensures
        match spec_parse_int(spec_trim(input@)) {
            Some(v) => r matches Ok(x) && x == v,
            None => r matches Err(e) && e == BuildError::BadInt,
        },
{
    let cs = str_to_chars(input);
    let t = trim_chars(&cs);
    let n = t.len();
    let verdict: Option<u32> = if n >= 2 && t[0] == '0' && (t[1] == 'x' || t[1] == 'X') {
        assert(t@.subrange(2, n as int) =~= t@.skip(2));
        parse_uint_chars(&t, 2, n, 16)
    } else if n >= 2 && t[0] == '0' && (t[1] == 'o' || t[1] == 'O') {
        assert(t@.subrange(2, n as int) =~= t@.skip(2));
        parse_uint_chars(&t, 2, n, 8)
    } else if n >= 2 && t[0] == '0' && (t[1] == 'b' || t[1] == 'B') {
        assert(t@.subrange(2, n as int) =~= t@.skip(2));
        parse_uint_chars(&t, 2, n, 2)
    } else if n >= 2 && t[0] == '0' && t[1] == 'n' {
        assert(t@.subrange(2, n as int) =~= t@.skip(2));
        parse_uint_chars(&t, 2, n, 10)
    } else if n > 1 && t[0] == '0' {
        assert(t@.subrange(1, n as int) =~= t@.skip(1));
        parse_uint_chars(&t, 1, n, 8)
    } else {
        assert(t@.subrange(0, n as int) =~= t@);
        parse_uint_chars(&t, 0, n, 10)
    };
    match verdict {
        Some(v) => Ok(v),
        None => Err(BuildError::BadInt),
    }
}

} // verus!
