//! The rule compiler: turns signature definition records into the
//! compiled, immutable registries.

use crate::document::{Glob, Magic, Match, MimeType, Offset};
use crate::errors::BuildError;
use crate::matchers;
use crate::rules::{spec_eval_all, spec_eval_any, MatchRule};
use crate::registry::{
    lemma_lookup_entries_at, lemma_lookup_entries_none, spec_lookup_entries, MapEntry, Registry,
    TypeNode,
};
use crate::strutil::{spec_trim, str_eq};
use crate::values::{
    parse_int_auto, spec_parse_int, spec_string_to_bytes, string_to_bytes,
};
use vstd::prelude::*;

verus! {

broadcast use vstd::std_specs::vec::axiom_vec_index_decreases, vstd::string::group_string_axioms;

/// Identifier munging: the characters a mime string may carry that an
/// identifier may not become underscores.
pub open spec fn spec_munge_char(c: char) -> char {
    if c == '-' || c == '.' || c == '+' || c == ';' || c == '=' || c == ' ' {
        '_'
    } else {
        c
    }
}

pub open spec fn spec_munge(s: Seq<char>) -> Seq<char> {
    s.map(|_i: int, c: char| spec_munge_char(c))
}

/// Splitting on a separator; splitting the empty string yields one
/// empty segment.
pub open spec fn spec_split(s: Seq<char>, sep: char) -> Seq<Seq<char>>
    decreases s.len(),
{
    if s.len() == 0 {
        seq![Seq::<char>::empty()]
    } else {
        let rest = spec_split(s.drop_first(), sep);
        if s[0] == sep {
            seq![Seq::<char>::empty()] + rest
        } else {
            seq![seq![s[0]] + rest[0]] + rest.drop_first()
        }
    }
}

/// Joining segments with a separator.
pub open spec fn spec_join(parts: Seq<Seq<char>>, sep: char) -> Seq<char>
    decreases parts.len(),
{
    if parts.len() == 0 {
        Seq::empty()
    } else if parts.len() == 1 {
        parts[0]
    } else {
        parts[0] + seq![sep] + spec_join(parts.drop_first(), sep)
    }
}

/// The derived short identifier of a mime string: its slash-separated
/// segments reversed, munged, joined with underscores, behind a `T_`
/// prefix.
pub open spec fn spec_short_name(m: Seq<char>) -> Seq<char> {
    seq!['T', '_'] + spec_join(
        spec_split(m, '/').reverse().map(|_i: int, p: Seq<char>| spec_munge(p)),
        '_',
    )
}

/// Splitting never yields an empty segment list.
proof fn lemma_split_nonempty(s: Seq<char>, sep: char)
    ensures
        spec_split(s, sep).len() >= 1,
    decreases s.len(),
{
    if s.len() > 0 {
        lemma_split_nonempty(s.drop_first(), sep);
    }
}

/// Joining after pushing one more segment appends a separator and the
/// segment.
proof fn lemma_join_push(parts: Seq<Seq<char>>, sep: char, p: Seq<char>)
    requires
        parts.len() >= 1,
    ensures
        spec_join(parts.push(p), sep) == spec_join(parts, sep) + seq![sep] + p,
    decreases parts.len(),
{
    if parts.len() == 1 {
        assert(parts.push(p).drop_first() =~= seq![p]);
        assert(parts.push(p)[0] == parts[0]);
        assert(spec_join(seq![p], sep) == p);
    } else {
        lemma_join_push(parts.drop_first(), sep, p);
        assert(parts.push(p).drop_first() =~= parts.drop_first().push(p));
        assert(parts.push(p)[0] == parts[0]);
        assert(parts[0] + seq![sep] + (spec_join(parts.drop_first(), sep) + seq![sep] + p) =~= (
        parts[0] + seq![sep] + spec_join(parts.drop_first(), sep)) + seq![sep] + p);
    }
}

/// Splits the characters of `cs` from position `from` on at `sep`.
fn split_chars(cs: &Vec<char>, from: usize, sep: char) -> (r: Vec<Vec<char>>)
    requires
        from <= cs@.len(),
    ensures
        r@.map(|_i: int, v: Vec<char>| v@) == spec_split(cs@.skip(from as int), sep),
    decreases cs@.len() - from,
{
    let ghost s = cs@.skip(from as int);
    if from == cs.len() {
        let mut r: Vec<Vec<char>> = Vec::new();
        r.push(Vec::new());
        assert(s.len() == 0);
        assert(r@.map(|_i: int, v: Vec<char>| v@) =~= spec_split(s, sep));
        return r;
    }
    let c = cs[from];
    assert(s[0] == c);
    let mut rest = split_chars(cs, from + 1, sep);
    proof {
        assert(cs@.skip(from + 1) =~= s.drop_first());
        lemma_split_nonempty(s.drop_first(), sep);
    }
    let ghost rest_view = rest@.map(|_i: int, v: Vec<char>| v@);
    if c == sep {
        rest.insert(0, Vec::new());
        assert(rest@.map(|_i: int, v: Vec<char>| v@) =~= seq![Seq::<char>::empty()] + rest_view);
    } else {
        let mut first = rest.remove(0);
        assert(first@ == rest_view[0]);
        assert(rest@.map(|_i: int, v: Vec<char>| v@) =~= rest_view.drop_first());
        let ghost tail_vecs = rest@;
        first.insert(0, c);
        assert(first@ =~= seq![s[0]] + rest_view[0]);
        rest.insert(0, first);
        assert(rest@ =~= seq![first] + tail_vecs);
        assert(rest@.map(|_i: int, v: Vec<char>| v@) =~= seq![seq![s[0]] + rest_view[0]]
            + rest_view.drop_first());
    }
    assert(rest@.map(|_i: int, v: Vec<char>| v@) =~= spec_split(s, sep));
    rest
}

/// Derives the short identifier used in duplicate detection.
pub fn mime_to_short_name(mime_type: &str) -> (r: String)
    ensures
        r@ == spec_short_name(mime_type@),
{
    let cs = crate::strutil::str_to_chars(mime_type);
    assert(cs@.skip(0) =~= mime_type@);
    let parts = split_chars(&cs, 0, '/');
    let ghost split = spec_split(mime_type@, '/');
    let ghost rev_munged = split.reverse().map(|_i: int, p: Seq<char>| spec_munge(p));
    proof {
        lemma_split_nonempty(mime_type@, '/');
    }
    let np = parts.len();
    let mut out: Vec<char> = Vec::new();
    out.push('T');
    out.push('_');
    let mut t: usize = 0;
    while t < np
        invariant
            t <= np,
            np == parts@.len(),
            np >= 1,
            parts@.map(|_i: int, v: Vec<char>| v@) == split,
            rev_munged == split.reverse().map(|_i: int, p: Seq<char>| spec_munge(p)),
            split.len() == np,
            out@ == seq!['T', '_'] + spec_join(rev_munged.subrange(0, t as int), '_'),
        decreases np - t,
    {
        let part = &parts[np - 1 - t];
        assert(split.reverse()[t as int] == split[np - 1 - t]);
        assert(rev_munged[t as int] == spec_munge(split[np - 1 - t]));
        assert(part@ == split[np - 1 - t]);
        if t > 0 {
            out.push('_');
        }
        let mut j: usize = 0;
        let ghost out_base = out@;
        while j < part.len()
            invariant
                j <= part@.len(),
                out@ == out_base + spec_munge(part@).subrange(0, j as int),
            decreases part@.len() - j,
        {
            let c = part[j];
            let mc = if c == '-' || c == '.' || c == '+' || c == ';' || c == '=' || c == ' ' {
                '_'
            } else {
                c
            };
            assert(mc == spec_munge_char(part@[j as int]));
            out.push(mc);
            assert(out_base + spec_munge(part@).subrange(0, j + 1) =~= (out_base + spec_munge(
                part@,
            ).subrange(0, j as int)).push(spec_munge_char(part@[j as int])));
            j += 1;
        }
        proof {
            assert(spec_munge(part@).subrange(0, part@.len() as int) =~= spec_munge(part@));
            if t == 0 {
                assert(rev_munged.subrange(0, 1) =~= seq![rev_munged[0]]);
                assert(spec_join(rev_munged.subrange(0, 1), '_') == rev_munged[0]);
                assert(out@ =~= seq!['T', '_'] + spec_join(rev_munged.subrange(0, 1), '_'));
            } else {
                lemma_join_push(rev_munged.subrange(0, t as int), '_', rev_munged[t as int]);
                assert(rev_munged.subrange(0, t + 1) =~= rev_munged.subrange(0, t as int).push(
                    rev_munged[t as int],
                ));
                assert(out@ =~= seq!['T', '_'] + spec_join(rev_munged.subrange(0, t + 1), '_'));
            }
        }
        t += 1;
    }
    proof {
        assert(rev_munged.subrange(0, np as int) =~= rev_munged);
    }
    crate::strutil::string_from_chars(&out)
}

/// A type's priority: the maximum across its magic blocks, zero when it
/// declares none.
pub open spec fn spec_priority_from(ms: Seq<Magic>, k: int) -> u32
    decreases ms.len() - k,
{
    if 0 <= k < ms.len() {
        let rest = spec_priority_from(ms, k + 1);
        if ms[k].priority >= rest {
            ms[k].priority
        } else {
            rest
        }
    } else {
        0u32
    }
}

pub open spec fn spec_priority_of(m: MimeType) -> u32 {
    spec_priority_from(m.magics@, 0)
}

/// Computes a type's priority.
pub fn priority_of(m: &MimeType) -> (r: u32)
    ensures
        r == spec_priority_of(*m),
{
    let mut best: u32 = 0;
    let mut k: usize = m.magics.len();
    while k > 0
        invariant
            k <= m.magics@.len(),
            best == spec_priority_from(m.magics@, k as int),
        decreases k,
    {
        k -= 1;
        if m.magics[k].priority >= best {
            best = m.magics[k].priority;
        }
    }
    best
}


/// The bytes a match element's value literal denotes.
pub open spec fn spec_val_bytes(m: Match) -> Option<Seq<u8>> {
    if m.value is Some {
        spec_string_to_bytes(m.value->0@)
    } else {
        None
    }
}

/// The bytes a match element's mask literal denotes.
pub open spec fn spec_mask_bytes(m: Match) -> Option<Seq<u8>> {
    if m.mask is Some {
        spec_string_to_bytes(m.mask->0@)
    } else {
        None
    }
}

/// The integer a match element's value literal denotes.
pub open spec fn spec_val_int(m: Match) -> Option<u32> {
    if m.value is Some {
        spec_parse_int(spec_trim(m.value->0@))
    } else {
        None
    }
}

/// The little-endian bytes of a 16-bit value.
pub open spec fn spec_le2(x: u32) -> Seq<u8> {
    seq![(x % 256) as u8, ((x / 256) % 256) as u8]
}

/// The big-endian bytes of a 16-bit value.
pub open spec fn spec_be2(x: u32) -> Seq<u8> {
    seq![((x / 256) % 256) as u8, (x % 256) as u8]
}

/// The little-endian bytes of a 32-bit value.
pub open spec fn spec_le4(x: u32) -> Seq<u8> {
    seq![
        (x % 256) as u8,
        ((x / 0x100) % 256) as u8,
        ((x / 0x10000) % 256) as u8,
        ((x / 0x1000000) % 256) as u8,
    ]
}

/// Whether a match element is a regex whose pattern the engine refuses:
/// such an element degrades to the always-false placeholder instead of
/// failing the build.
pub open spec fn spec_degraded(m: Match) -> bool {
    &&& m.match_type@ == "regex"@
    &&& m.value is Some
    &&& m.offset is Some
    &&& !matchers::regex_compiles(m.value->0@)
}

/// The build error a match element's own attributes raise, if any.
pub open spec fn spec_own_err(m: Match) -> Option<BuildError> {
    let t = m.match_type@;
    if t == "string"@ {
        match (m.offset, m.value, m.mask) {
            (None, Some(_), None) => spec_err_of_val(m),
            (Some(Offset::Start(_)), Some(_), None) => spec_err_of_val(m),
            (Some(Offset::Range { .. }), Some(_), None) => spec_err_of_val(m),
            (Some(Offset::Start(_)), Some(_), Some(_)) => spec_err_of_val_mask(m),
            (None, Some(_), Some(_)) => spec_err_of_val_mask(m),
            (Some(Offset::Range { .. }), Some(_), Some(_)) => spec_err_of_val_mask(m),
            (None, None, None) => None,
            _ => Some(BuildError::UnhandledMatch),
        }
    } else if t == "stringignorecase"@ {
        match (m.offset, m.value, m.mask) {
            (Some(Offset::Start(_)), Some(_), None) => spec_err_of_val(m),
            (Some(Offset::Range { .. }), Some(_), None) => spec_err_of_val(m),
            (Some(Offset::Start(_)), Some(_), Some(_)) => spec_err_of_val_mask(m),
            (Some(Offset::Range { .. }), Some(_), Some(_)) => spec_err_of_val_mask(m),
            _ => Some(BuildError::UnhandledMatch),
        }
    } else if t == "regex"@ {
        match (m.offset, m.value) {
            (Some(Offset::Start(_)), Some(_)) => None,
            (Some(Offset::Range { .. }), Some(_)) => None,
            _ => Some(BuildError::UnhandledMatch),
        }
    } else if t == "little16"@ || t == "host16"@ || t == "big16"@ {
        match (m.offset, m.value) {
            (Some(Offset::Start(_)), Some(_)) => spec_err_of_int16(m),
            _ => Some(BuildError::UnhandledMatch),
        }
    } else if t == "little32"@ || t == "host32"@ || t == "big32"@ {
        match (m.offset, m.value) {
            (Some(Offset::Start(_)), Some(_)) => spec_err_of_int32(m),
            _ => Some(BuildError::UnhandledMatch),
        }
    } else if t == "unicodeLE"@ {
        match (m.offset, m.value, m.mask) {
            (None, Some(_), None) => spec_err_of_val(m),
            (Some(Offset::Start(_)), Some(_), None) => spec_err_of_val(m),
            (Some(Offset::Range { .. }), Some(_), None) => spec_err_of_val(m),
            _ => Some(BuildError::UnhandledMatch),
        }
    } else {
        Some(BuildError::UnhandledMatch)
    }
}

pub open spec fn spec_err_of_val(m: Match) -> Option<BuildError> {
    if spec_val_bytes(m) is None {
        Some(BuildError::BadValue)
    } else {
        None
    }
}

pub open spec fn spec_err_of_val_mask(m: Match) -> Option<BuildError> {
    if spec_val_bytes(m) is None {
        Some(BuildError::BadValue)
    } else if spec_mask_bytes(m) is None {
        Some(BuildError::BadValue)
    } else {
        None
    }
}

pub open spec fn spec_err_of_int16(m: Match) -> Option<BuildError> {
    match spec_val_int(m) {
        Some(x) => if x > 0xFFFF {
            Some(BuildError::BadInt)
        } else {
            None
        },
        None => Some(BuildError::BadInt),
    }
}

pub open spec fn spec_err_of_int32(m: Match) -> Option<BuildError> {
    if spec_val_int(m) is None {
        Some(BuildError::BadInt)
    } else {
        None
    }
}

/// What a match element's own comparison says of a buffer, assuming its
/// attributes raised no error.
pub open spec fn spec_own_sem(m: Match, bytes: Seq<u8>) -> bool {
    let t = m.match_type@;
    let b = spec_val_bytes(m)->0;
    let mk = spec_mask_bytes(m)->0;
    let x = spec_val_int(m)->0;
    if t == "string"@ {
        match (m.offset, m.value, m.mask) {
            (None, Some(_), None) => matchers::spec_offset(bytes, 0, b),
            (Some(Offset::Start(o)), Some(_), None) => matchers::spec_offset(bytes, o as int, b),
            (Some(Offset::Range { start, end }), Some(_), None) => b.len() >= 1
                && matchers::spec_offset_range(bytes, start as int, end as int, b),
            (Some(Offset::Start(o)), Some(_), Some(_)) => matchers::spec_offset_mask(
                bytes,
                o as int,
                b,
                mk,
            ),
            (None, Some(_), Some(_)) => matchers::spec_offset_mask(bytes, 0, b, mk),
            (Some(Offset::Range { start, end }), Some(_), Some(_)) => b.len() >= 1
                && matchers::spec_offset_mask_range(bytes, start as int, end as int, b, mk),
            _ => false,
        }
    } else if t == "stringignorecase"@ {
        match (m.offset, m.value, m.mask) {
            (Some(Offset::Start(o)), Some(_), None) => matchers::spec_offset_ci(
                bytes,
                o as int,
                b,
            ),
            (Some(Offset::Range { start, end }), Some(_), None) => b.len() >= 1
                && matchers::spec_offset_range_ci(bytes, start as int, end as int, b),
            (Some(Offset::Start(o)), Some(_), Some(_)) => matchers::spec_offset_mask_ci(
                bytes,
                o as int,
                b,
                mk,
            ),
            (Some(Offset::Range { start, end }), Some(_), Some(_)) => b.len() >= 1
                && matchers::spec_offset_mask_range_ci(bytes, start as int, end as int, b, mk),
            _ => false,
        }
    } else if t == "regex"@ {
        match (m.offset, m.value) {
            (Some(Offset::Start(o)), Some(v)) => matchers::spec_regex_at(bytes, o as int, v@),
            (Some(Offset::Range { start, end }), Some(v)) => matchers::spec_regex_range(
                bytes,
                start as int,
                end as int,
                v@,
            ),
            _ => false,
        }
    } else if t == "little16"@ || t == "host16"@ {
        match (m.offset, m.value) {
            (Some(Offset::Start(o)), Some(_)) => matchers::spec_offset(
                bytes,
                o as int,
                spec_le2(x),
            ),
            _ => false,
        }
    } else if t == "big16"@ {
        match (m.offset, m.value) {
            (Some(Offset::Start(o)), Some(_)) => matchers::spec_offset(
                bytes,
                o as int,
                spec_be2(x),
            ),
            _ => false,
        }
    } else if t == "little32"@ || t == "host32"@ || t == "big32"@ {
        match (m.offset, m.value) {
            (Some(Offset::Start(o)), Some(_)) => matchers::spec_offset(
                bytes,
                o as int,
                spec_le4(x),
            ),
            _ => false,
        }
    } else if t == "unicodeLE"@ {
        match (m.offset, m.value, m.mask) {
            (None, Some(_), None) => matchers::spec_offset(bytes, 0, b),
            (Some(Offset::Start(o)), Some(_), None) => matchers::spec_offset(bytes, o as int, b),
            (Some(Offset::Range { start, end }), Some(_), None) => b.len() >= 1
                && matchers::spec_unicode_le_range(bytes, start as int, end as int, b),
            _ => false,
        }
    } else {
        false
    }
}

/// The build error a whole match element raises: its own attributes
/// first, then its sub-matches in order.  A degraded regex raises none
/// and hides its sub-matches.
pub open spec fn spec_match_err(m: Match) -> Option<BuildError>
    decreases m, 0int, 0int,
{
    match spec_own_err(m) {
        Some(e) => Some(e),
        None => if spec_degraded(m) {
            None
        } else {
            spec_subs_err(m.sub_matches, 0)
        },
    }
}

/// The first error among the elements from position `k` on.
pub open spec fn spec_subs_err(ms: Vec<Match>, k: int) -> Option<BuildError>
    decreases ms, ms.len() - k, 1int,
{
    if 0 <= k < ms.len() {
        match spec_match_err(ms[k]) {
            Some(e) => Some(e),
            None => spec_subs_err(ms, k + 1),
        }
    } else {
        None
    }
}

/// What a whole match element says of a buffer: its own comparison,
/// and-combined with its sub-matches (a single sub-match directly, two
/// or more or-combined).  A degraded regex says nothing of any buffer.
pub open spec fn spec_match_sem(m: Match, bytes: Seq<u8>) -> bool
    decreases m, 0int, 0int,
{
    if spec_degraded(m) {
        false
    } else if m.sub_matches@.len() == 0 {
        spec_own_sem(m, bytes)
    } else if m.sub_matches@.len() == 1 {
        spec_own_sem(m, bytes) && spec_match_sem(m.sub_matches@[0], bytes)
    } else {
        spec_own_sem(m, bytes) && spec_subs_any(m.sub_matches, 0, bytes)
    }
}

/// Some element from position `k` on matches the buffer.
pub open spec fn spec_subs_any(ms: Vec<Match>, k: int, bytes: Seq<u8>) -> bool
    decreases ms, ms.len() - k, 1int,
{
    0 <= k < ms.len() && (spec_match_sem(ms[k], bytes) || spec_subs_any(ms, k + 1, bytes))
}

/// Conjunction over a rule list is the pointwise conjunction.
proof fn lemma_eval_all_is_forall(a: Vec<MatchRule>, bytes: Seq<u8>, k: int)
    requires
        0 <= k <= a.len(),
    ensures
        spec_eval_all(a, bytes, k) == (forall|j: int|
            k <= j < a@.len() ==> (#[trigger] a@[j]).spec_eval(bytes)),
    decreases a.len() - k,
{
    if k < a.len() {
        lemma_eval_all_is_forall(a, bytes, k + 1);
    }
}

/// Disjunction over a rule list is the pointwise disjunction.
proof fn lemma_eval_any_is_exists(a: Vec<MatchRule>, bytes: Seq<u8>, k: int)
    requires
        0 <= k <= a.len(),
    ensures
        spec_eval_any(a, bytes, k) == (exists|j: int|
            k <= j < a@.len() && (#[trigger] a@[j]).spec_eval(bytes)),
    decreases a.len() - k,
{
    if k < a.len() {
        lemma_eval_any_is_exists(a, bytes, k + 1);
    }
}

/// Disjunction over match elements is the pointwise disjunction.
proof fn lemma_subs_any_is_exists(ms: Vec<Match>, bytes: Seq<u8>, k: int)
    requires
        0 <= k <= ms.len(),
    ensures
        spec_subs_any(ms, k, bytes) == (exists|j: int|
            k <= j < ms@.len() && spec_match_sem(#[trigger] ms@[j], bytes)),
    decreases ms.len() - k,
{
    if k < ms.len() {
        lemma_subs_any_is_exists(ms, bytes, k + 1);
    }
}

/// An error-free prefix does not change the first error.
proof fn lemma_subs_err_skip(ms: Vec<Match>, k: int)
    requires
        0 <= k <= ms.len(),
        forall|j: int| 0 <= j < k ==> spec_match_err(#[trigger] ms@[j]) is None,
    ensures
        spec_subs_err(ms, 0) == spec_subs_err(ms, k),
    decreases k,
{
    if k > 0 {
        lemma_subs_err_skip_step(ms, 0, k);
    }
}

proof fn lemma_subs_err_skip_step(ms: Vec<Match>, from: int, k: int)
    requires
        0 <= from <= k <= ms.len(),
        forall|j: int| from <= j < k ==> spec_match_err(#[trigger] ms@[j]) is None,
    ensures
        spec_subs_err(ms, from) == spec_subs_err(ms, k),
    decreases k - from,
{
    if from < k {
        lemma_subs_err_skip_step(ms, from + 1, k);
    }
}

/// Moves every element of `src` onto the end of `dst`.
fn append_all(dst: &mut Vec<MatchRule>, src: Vec<MatchRule>)
    ensures
        final(dst)@ == old(dst)@ + src@,
{
    let mut src = src;
    let n0 = src.len();
    let mut moved: usize = 0;
    let ghost src0 = src@;
    while src.len() > 0
        invariant
            src0.len() == n0,
            moved + src@.len() == src0.len(),
            src@ == src0.subrange(moved as int, src0.len() as int),
            dst@ == old(dst)@ + src0.subrange(0, moved as int),
        decreases src@.len(),
    {
        let x = src.remove(0);
        assert(src0.subrange(moved as int, src0.len() as int)[0] == src0[moved as int]);
        dst.push(x);
        proof {
            assert(src@ =~= src0.subrange(moved + 1, src0.len() as int));
            assert(old(dst)@ + src0.subrange(0, moved + 1) =~= (old(dst)@ + src0.subrange(
                0,
                moved as int,
            )).push(src0[moved as int]));
        }
        moved += 1;
    }
    assert(src0.subrange(0, src0.len() as int) =~= src0);
}

/// The literal names of the supported match types are pairwise
/// distinct.
proof fn reveal_type_names()
    ensures
        "string"@ != "stringignorecase"@,
        "string"@ != "regex"@,
        "string"@ != "little16"@,
        "string"@ != "host16"@,
        "string"@ != "big16"@,
        "string"@ != "little32"@,
        "string"@ != "host32"@,
        "string"@ != "big32"@,
        "string"@ != "unicodeLE"@,
        "stringignorecase"@ != "regex"@,
        "stringignorecase"@ != "little16"@,
        "stringignorecase"@ != "host16"@,
        "stringignorecase"@ != "big16"@,
        "stringignorecase"@ != "little32"@,
        "stringignorecase"@ != "host32"@,
        "stringignorecase"@ != "big32"@,
        "stringignorecase"@ != "unicodeLE"@,
        "regex"@ != "little16"@,
        "regex"@ != "host16"@,
        "regex"@ != "big16"@,
        "regex"@ != "little32"@,
        "regex"@ != "host32"@,
        "regex"@ != "big32"@,
        "regex"@ != "unicodeLE"@,
        "little16"@ != "host16"@,
        "little16"@ != "big16"@,
        "little16"@ != "little32"@,
        "little16"@ != "host32"@,
        "little16"@ != "big32"@,
        "little16"@ != "unicodeLE"@,
        "host16"@ != "big16"@,
        "host16"@ != "little32"@,
        "host16"@ != "host32"@,
        "host16"@ != "big32"@,
        "host16"@ != "unicodeLE"@,
        "big16"@ != "little32"@,
        "big16"@ != "host32"@,
        "big16"@ != "big32"@,
        "big16"@ != "unicodeLE"@,
        "little32"@ != "host32"@,
        "little32"@ != "big32"@,
        "little32"@ != "unicodeLE"@,
        "host32"@ != "big32"@,
        "host32"@ != "unicodeLE"@,
        "big32"@ != "unicodeLE"@,
{
    reveal_strlit("string");
    reveal_strlit("stringignorecase");
    reveal_strlit("regex");
    reveal_strlit("little16");
    reveal_strlit("host16");
    reveal_strlit("big16");
    reveal_strlit("little32");
    reveal_strlit("host32");
    reveal_strlit("big32");
    reveal_strlit("unicodeLE");
    assert("string"@.len() == 6);
    assert("stringignorecase"@.len() == 16);
    assert("regex"@.len() == 5);
    assert("little16"@.len() == 8);
    assert("host16"@.len() == 6);
    assert("big16"@.len() == 5);
    assert("little32"@.len() == 8);
    assert("host32"@.len() == 6);
    assert("big32"@.len() == 5);
    assert("unicodeLE"@.len() == 9);
    assert("string"@[0] == 's');
    assert("string"@[1] == 't');
    assert("string"@[2] == 'r');
    assert("string"@[3] == 'i');
    assert("string"@[4] == 'n');
    assert("string"@[5] == 'g');
    assert("host16"@[0] == 'h');
    assert("host16"@[1] == 'o');
    assert("host16"@[2] == 's');
    assert("host16"@[3] == 't');
    assert("host16"@[4] == '1');
    assert("host16"@[5] == '6');
    assert("host32"@[0] == 'h');
    assert("host32"@[1] == 'o');
    assert("host32"@[2] == 's');
    assert("host32"@[3] == 't');
    assert("host32"@[4] == '3');
    assert("host32"@[5] == '2');
    assert("regex"@[0] == 'r');
    assert("regex"@[1] == 'e');
    assert("regex"@[2] == 'g');
    assert("regex"@[3] == 'e');
    assert("regex"@[4] == 'x');
    assert("big16"@[0] == 'b');
    assert("big16"@[1] == 'i');
    assert("big16"@[2] == 'g');
    assert("big16"@[3] == '1');
    assert("big16"@[4] == '6');
    assert("big32"@[0] == 'b');
    assert("big32"@[1] == 'i');
    assert("big32"@[2] == 'g');
    assert("big32"@[3] == '3');
    assert("big32"@[4] == '2');
    assert("little16"@[0] == 'l');
    assert("little16"@[1] == 'i');
    assert("little16"@[2] == 't');
    assert("little16"@[3] == 't');
    assert("little16"@[4] == 'l');
    assert("little16"@[5] == 'e');
    assert("little16"@[6] == '1');
    assert("little16"@[7] == '6');
    assert("little32"@[0] == 'l');
    assert("little32"@[1] == 'i');
    assert("little32"@[2] == 't');
    assert("little32"@[3] == 't');
    assert("little32"@[4] == 'l');
    assert("little32"@[5] == 'e');
    assert("little32"@[6] == '3');
    assert("little32"@[7] == '2');
}

/// Compiles a `string` element.
fn own_string(m: &Match) -> (r: Result<MatchRule, BuildError>)
    requires
        m.match_type@ == "string"@,
    ensures
        (r is Err) == (spec_own_err(*m) is Some),
        r matches Err(e) ==> Some(e) == spec_own_err(*m),
        r matches Ok(rule) ==> forall|bs: Seq<u8>|
            #[trigger] rule.spec_eval(bs) == spec_own_sem(*m, bs),
{
    proof {
        reveal_type_names();
    }
    match (m.offset, &m.value, &m.mask) {
        (None, Some(v), None) => Ok(MatchRule::Str(0, string_to_bytes(v.as_str())?)),
        (Some(Offset::Start(o)), Some(v), None) => Ok(
            MatchRule::Str(o, string_to_bytes(v.as_str())?),
        ),
        (Some(Offset::Range { start, end }), Some(v), None) => Ok(
            MatchRule::StrRange(start, end, string_to_bytes(v.as_str())?),
        ),
        (Some(Offset::Start(o)), Some(v), Some(mk)) => {
            let vb = string_to_bytes(v.as_str())?;
            Ok(MatchRule::StrMask(o, vb, string_to_bytes(mk.as_str())?))
        },
        (None, Some(v), Some(mk)) => {
            let vb = string_to_bytes(v.as_str())?;
            Ok(MatchRule::StrMask(0, vb, string_to_bytes(mk.as_str())?))
        },
        (Some(Offset::Range { start, end }), Some(v), Some(mk)) => {
            let vb = string_to_bytes(v.as_str())?;
            Ok(MatchRule::StrMaskRange(start, end, vb, string_to_bytes(mk.as_str())?))
        },
        (None, None, None) => Ok(MatchRule::Empty),
        _ => Err(BuildError::UnhandledMatch),
    }
}

/// Compiles a `stringignorecase` element.
fn own_string_ci(m: &Match) -> (r: Result<MatchRule, BuildError>)
    requires
        m.match_type@ == "stringignorecase"@,
    ensures
        (r is Err) == (spec_own_err(*m) is Some),
        r matches Err(e) ==> Some(e) == spec_own_err(*m),
        r matches Ok(rule) ==> forall|bs: Seq<u8>|
            #[trigger] rule.spec_eval(bs) == spec_own_sem(*m, bs),
{
    proof {
        reveal_type_names();
    }
    match (m.offset, &m.value, &m.mask) {
        (Some(Offset::Start(o)), Some(v), None) => Ok(
            MatchRule::StrCaseInsensitive(o, string_to_bytes(v.as_str())?),
        ),
        (Some(Offset::Range { start, end }), Some(v), None) => Ok(
            MatchRule::StrRangeCaseInsensitive(start, end, string_to_bytes(v.as_str())?),
        ),
        (Some(Offset::Start(o)), Some(v), Some(mk)) => {
            let vb = string_to_bytes(v.as_str())?;
            Ok(MatchRule::StrMaskCaseInsensitive(o, vb, string_to_bytes(mk.as_str())?))
        },
        (Some(Offset::Range { start, end }), Some(v), Some(mk)) => {
            let vb = string_to_bytes(v.as_str())?;
            Ok(
                MatchRule::StrMaskRangeCaseInsensitive(
                    start,
                    end,
                    vb,
                    string_to_bytes(mk.as_str())?,
                ),
            )
        },
        _ => Err(BuildError::UnhandledMatch),
    }
}

/// Compiles a 16-bit integer element; the stored needle bytes follow
/// the declared endianness.
fn own_int16(m: &Match, big: bool) -> (r: Result<MatchRule, BuildError>)
    requires
        !big ==> m.match_type@ == "little16"@ || m.match_type@ == "host16"@,
        big ==> m.match_type@ == "big16"@,
    ensures
        (r is Err) == (spec_own_err(*m) is Some),
        r matches Err(e) ==> Some(e) == spec_own_err(*m),
        r matches Ok(rule) ==> forall|bs: Seq<u8>|
            #[trigger] rule.spec_eval(bs) == spec_own_sem(*m, bs),
{
    proof {
        reveal_type_names();
    }
    match (m.offset, &m.value) {
        (Some(Offset::Start(o)), Some(v)) => {
            let x = parse_int_auto(v.as_str())?;
            if x > 0xFFFF {
                return Err(BuildError::BadInt);
            }
            let mut nb: Vec<u8> = Vec::new();
            if big {
                nb.push(((x / 256) % 256) as u8);
                nb.push((x % 256) as u8);
                assert(nb@ =~= spec_be2(x));
            } else {
                nb.push((x % 256) as u8);
                nb.push(((x / 256) % 256) as u8);
                assert(nb@ =~= spec_le2(x));
            }
            Ok(MatchRule::ValueU16(o, nb))
        },
        _ => Err(BuildError::UnhandledMatch),
    }
}

/// Compiles a 32-bit integer element; all three declared forms store
/// little-endian needle bytes.
fn own_int32(m: &Match) -> (r: Result<MatchRule, BuildError>)
    requires
        m.match_type@ == "little32"@ || m.match_type@ == "host32"@ || m.match_type@ == "big32"@,
    ensures
        (r is Err) == (spec_own_err(*m) is Some),
        r matches Err(e) ==> Some(e) == spec_own_err(*m),
        r matches Ok(rule) ==> forall|bs: Seq<u8>|
            #[trigger] rule.spec_eval(bs) == spec_own_sem(*m, bs),
{
    proof {
        reveal_type_names();
    }
    match (m.offset, &m.value) {
        (Some(Offset::Start(o)), Some(v)) => {
            let x = parse_int_auto(v.as_str())?;
            let mut nb: Vec<u8> = Vec::new();
            nb.push((x % 256) as u8);
            nb.push(((x / 0x100) % 256) as u8);
            nb.push(((x / 0x10000) % 256) as u8);
            nb.push(((x / 0x1000000) % 256) as u8);
            assert(nb@ =~= spec_le4(x));
            Ok(MatchRule::ValueU32(o, nb))
        },
        _ => Err(BuildError::UnhandledMatch),
    }
}

/// Compiles a `unicodeLE` element.
fn own_unicode(m: &Match) -> (r: Result<MatchRule, BuildError>)
    requires
        m.match_type@ == "unicodeLE"@,
    ensures
        (r is Err) == (spec_own_err(*m) is Some),
        r matches Err(e) ==> Some(e) == spec_own_err(*m),
        r matches Ok(rule) ==> forall|bs: Seq<u8>|
            #[trigger] rule.spec_eval(bs) == spec_own_sem(*m, bs),
{
    proof {
        reveal_type_names();
    }
    match (m.offset, &m.value, &m.mask) {
        (None, Some(v), None) => Ok(MatchRule::UnicodeLE(0, string_to_bytes(v.as_str())?)),
        (Some(Offset::Start(o)), Some(v), None) => Ok(
            MatchRule::UnicodeLE(o, string_to_bytes(v.as_str())?),
        ),
        (Some(Offset::Range { start, end }), Some(v), None) => Ok(
            MatchRule::UnicodeLERange(start, end, string_to_bytes(v.as_str())?),
        ),
        _ => Err(BuildError::UnhandledMatch),
    }
}

/// Compiles a match element's own comparison: `Ok(None)` when a bad
/// regex degrades the element, else the leaf rule or the first error
/// the attributes raise.
fn compile_own(m: &Match) -> (r: Result<Option<MatchRule>, BuildError>)
    ensures
        (r is Err) == (spec_own_err(*m) is Some),
        r matches Err(e) ==> Some(e) == spec_own_err(*m),
        r matches Ok(o) ==> ((o is None) == spec_degraded(*m)),
        r matches Ok(o) ==> (o matches Some(rule) ==> forall|bs: Seq<u8>|
            #[trigger] rule.spec_eval(bs) == spec_own_sem(*m, bs)),
{
    proof {
        reveal_type_names();
    }
    if str_eq(m.match_type.as_str(), "string") {
        match own_string(m) {
            Ok(rule) => Ok(Some(rule)),
            Err(e) => Err(e),
        }
    } else if str_eq(m.match_type.as_str(), "stringignorecase") {
        match own_string_ci(m) {
            Ok(rule) => Ok(Some(rule)),
            Err(e) => Err(e),
        }
    } else if str_eq(m.match_type.as_str(), "regex") {
        match (m.offset, &m.value) {
            (Some(Offset::Start(o)), Some(v)) => {
                if !matchers::regex_is_valid(v.as_str()) {
                    // A bad pattern degrades the element rather than
                    // failing the build.
                    Ok(None)
                } else {
                    Ok(Some(MatchRule::Regex(o, v.clone())))
                }
            },
            (Some(Offset::Range { start, end }), Some(v)) => {
                if !matchers::regex_is_valid(v.as_str()) {
                    Ok(None)
                } else {
                    Ok(Some(MatchRule::RegexRange(start, end, v.clone())))
                }
            },
            _ => Err(BuildError::UnhandledMatch),
        }
    } else if str_eq(m.match_type.as_str(), "little16") || str_eq(
        m.match_type.as_str(),
        "host16",
    ) {
        match own_int16(m, false) {
            Ok(rule) => Ok(Some(rule)),
            Err(e) => Err(e),
        }
    } else if str_eq(m.match_type.as_str(), "big16") {
        match own_int16(m, true) {
            Ok(rule) => Ok(Some(rule)),
            Err(e) => Err(e),
        }
    } else if str_eq(m.match_type.as_str(), "little32") || str_eq(m.match_type.as_str(), "host32")
        || str_eq(m.match_type.as_str(), "big32") {
        match own_int32(m) {
            Ok(rule) => Ok(Some(rule)),
            Err(e) => Err(e),
        }
    } else if str_eq(m.match_type.as_str(), "unicodeLE") {
        match own_unicode(m) {
            Ok(rule) => Ok(Some(rule)),
            Err(e) => Err(e),
        }
    } else {
        Err(BuildError::UnhandledMatch)
    }
}

/// Compiles one match element into a matcher expression.  The result
/// evaluates exactly as the element prescribes on every buffer; a
/// malformed element reports the first error that its attributes or its
/// sub-matches raise.
#[verifier::rlimit(50)]
pub fn match_to_rule(m: &Match) -> (r: Result<MatchRule, BuildError>)
    ensures
        (r is Err) == (spec_match_err(*m) is Some),
        r matches Err(e) ==> Some(e) == spec_match_err(*m),
        r matches Ok(rule) ==> forall|bs: Seq<u8>|
            #[trigger] rule.spec_eval(bs) == spec_match_sem(*m, bs),
    decreases *m, 1int, 0int,
{
    let own: MatchRule = match compile_own(m)? {
        Some(rule) => rule,
        None => {
            return Ok(MatchRule::Empty);
        },
    };
    assert(spec_own_err(*m) is None);
    assert(!spec_degraded(*m));
    assert(forall|bs: Seq<u8>| #[trigger] own.spec_eval(bs) == spec_own_sem(*m, bs));

    if m.sub_matches.len() == 0 {
        return Ok(own);
    }
    let mut sub_rules: Vec<MatchRule> = Vec::new();
    let mut k: usize = 0;
    while k < m.sub_matches.len()
        invariant
            k <= m.sub_matches@.len(),
            sub_rules@.len() == k,
            spec_own_err(*m) is None,
            !spec_degraded(*m),
            forall|bs: Seq<u8>| #[trigger] own.spec_eval(bs) == spec_own_sem(*m, bs),
            forall|j: int| 0 <= j < k ==> spec_match_err(#[trigger] m.sub_matches@[j]) is None,
            forall|j: int, bs: Seq<u8>|
                0 <= j < k ==> #[trigger] sub_rules@[j].spec_eval(bs) == spec_match_sem(
                    m.sub_matches@[j],
                    bs,
                ),
        decreases m.sub_matches@.len() - k,
    {
        match match_to_rule(&m.sub_matches[k]) {
            Ok(r) => {
                sub_rules.push(r);
            },
            Err(e) => {
                proof {
                    lemma_subs_err_skip(m.sub_matches, k as int);
                }
                return Err(e);
            },
        }
        k += 1;
    }
    proof {
        lemma_subs_err_skip(m.sub_matches, m.sub_matches@.len() as int);
    }
    let mut parts: Vec<MatchRule> = Vec::new();
    parts.push(own);
    if sub_rules.len() == 1 {
        let first = sub_rules.remove(0);
        let ghost gfirst = first;
        let ghost first_sem_src = m.sub_matches@[0];
        assert(forall|bs: Seq<u8>|
            #[trigger] gfirst.spec_eval(bs) == spec_match_sem(first_sem_src, bs));
        match first {
            MatchRule::And(r) => {
                let ghost gr = r;
                proof {
                    assert(gfirst == MatchRule::And(gr));
                    assert forall|bs: Seq<u8>|
                        #[trigger] spec_eval_all(gr, bs, 0) == spec_match_sem(
                            first_sem_src,
                            bs,
                        ) by {
                        assert(gfirst.spec_eval(bs) == spec_match_sem(first_sem_src, bs));
                    }
                }
                append_all(&mut parts, r);
                assert forall|bs: Seq<u8>|
                    #[trigger] spec_eval_all(parts, bs, 0) == spec_match_sem(*m, bs) by {
                    lemma_eval_all_is_forall(parts, bs, 0);
                    lemma_eval_all_is_forall(gr, bs, 0);
                    assert(spec_eval_all(gr, bs, 0) == spec_match_sem(first_sem_src, bs));
                    assert(parts@[0] == own);
                    assert(forall|j: int| 0 <= j < gr@.len() ==> parts@[j + 1] == gr@[j]);
                    assert(forall|j: int| 1 <= j < parts@.len() ==> parts@[j] == gr@[j - 1]);
                }
            },
            other => {
                let ghost gother = other;
                parts.push(other);
                assert forall|bs: Seq<u8>|
                    #[trigger] spec_eval_all(parts, bs, 0) == spec_match_sem(*m, bs) by {
                    lemma_eval_all_is_forall(parts, bs, 0);
                    assert(gfirst.spec_eval(bs) == spec_match_sem(first_sem_src, bs));
                    assert(parts@[0] == own);
                    assert(parts@[1] == gother);
                }
            },
        }
        let ghost gparts = parts;
        let result = MatchRule::And(parts);
        assert forall|bs: Seq<u8>| #[trigger] result.spec_eval(bs) == spec_match_sem(*m, bs) by {
            assert(result == MatchRule::And(gparts));
            assert(spec_eval_all(gparts, bs, 0) == spec_match_sem(*m, bs));
        }
        Ok(result)
    } else {
        let ghost sr = sub_rules;
        let ghost subs = m.sub_matches;
        let or_rule = MatchRule::Or(sub_rules);
        parts.push(or_rule);
        assert forall|bs: Seq<u8>|
            #[trigger] spec_eval_all(parts, bs, 0) == spec_match_sem(*m, bs) by {
            lemma_eval_all_is_forall(parts, bs, 0);
            lemma_eval_any_is_exists(sr, bs, 0);
            lemma_subs_any_is_exists(subs, bs, 0);
            assert(forall|j: int|
                0 <= j < sr@.len() ==> #[trigger] sr@[j].spec_eval(bs) == spec_match_sem(
                    subs@[j],
                    bs,
                ));
            assert(parts@[0] == own);
            assert(parts@[1] == MatchRule::Or(sr));
            assert(spec_eval_any(sr, bs, 0) == spec_subs_any(subs, 0, bs)) by {
                if spec_eval_any(sr, bs, 0) {
                    let j = choose|j: int|
                        0 <= j < sr@.len() && #[trigger] sr@[j].spec_eval(bs);
                    assert(spec_match_sem(subs@[j], bs));
                }
                if spec_subs_any(subs, 0, bs) {
                    let j = choose|j: int|
                        0 <= j < subs@.len() && spec_match_sem(#[trigger] subs@[j], bs);
                    assert(sr@[j].spec_eval(bs));
                }
            }
        }
        let ghost gparts = parts;
        let result = MatchRule::And(parts);
        assert forall|bs: Seq<u8>| #[trigger] result.spec_eval(bs) == spec_match_sem(*m, bs) by {
            assert(result == MatchRule::And(gparts));
            assert(spec_eval_all(gparts, bs, 0) == spec_match_sem(*m, bs));
        }
        Ok(result)
    }
}


/// The first build error among a type's magic blocks, in order.
pub open spec fn spec_magics_err(gs: Vec<Magic>, g: int) -> Option<BuildError>
    decreases gs.len() - g,
{
    if 0 <= g < gs.len() {
        match spec_subs_err(gs[g].matches, 0) {
            Some(e) => Some(e),
            None => spec_magics_err(gs, g + 1),
        }
    } else {
        None
    }
}

pub open spec fn spec_mime_err(m: MimeType) -> Option<BuildError> {
    spec_magics_err(m.magics, 0)
}

/// A type's own signature: some match tree of some of its magic blocks
/// matches the buffer.
pub open spec fn spec_mime_sem(m: MimeType, bytes: Seq<u8>) -> bool {
    exists|g: int, k: int|
        0 <= g < m.magics@.len() && 0 <= k < m.magics@[g].matches@.len() && spec_match_sem(
            #[trigger] m.magics@[g].matches@[k],
            bytes,
        )
}

/// An error-free prefix of magic blocks does not change the first
/// error.
proof fn lemma_magics_err_skip(gs: Vec<Magic>, from: int, g: int)
    requires
        0 <= from <= g <= gs.len(),
        forall|g2: int| from <= g2 < g ==> spec_subs_err((#[trigger] gs@[g2]).matches, 0) is None,
    ensures
        spec_magics_err(gs, from) == spec_magics_err(gs, g),
    decreases g - from,
{
    if from < g {
        lemma_magics_err_skip(gs, from + 1, g);
    }
}

/// Combines a type's magic blocks into one matcher expression: every
/// match tree of every block, or-combined.  The result evaluates
/// exactly as the type's signature prescribes on every buffer; a
/// malformed block reports the first error it raises.
#[verifier::rlimit(50)]
pub fn actions_to_rules(mime: &MimeType) -> (r: Result<MatchRule, BuildError>)
    ensures
        (r is Err) == (spec_mime_err(*mime) is Some),
        r matches Err(e) ==> Some(e) == spec_mime_err(*mime),
        r matches Ok(rule) ==> forall|bs: Seq<u8>|
            #[trigger] rule.spec_eval(bs) == spec_mime_sem(*mime, bs),
{
    let mut or_rules: Vec<MatchRule> = Vec::new();
    let mut g: usize = 0;
    while g < mime.magics.len()
        invariant
            g <= mime.magics@.len(),
            forall|g2: int|
                0 <= g2 < g ==> spec_subs_err((#[trigger] mime.magics@[g2]).matches, 0) is None,
            forall|bs: Seq<u8>|
                #[trigger] spec_eval_any(or_rules, bs, 0) == (exists|g2: int, k2: int|
                    0 <= g2 < g && 0 <= k2 < mime.magics@[g2].matches@.len() && spec_match_sem(
                        #[trigger] mime.magics@[g2].matches@[k2],
                        bs,
                    )),
        decreases mime.magics@.len() - g,
    {
        let nmatches = mime.magics[g].matches.len();
        let mut k: usize = 0;
        while k < nmatches
            invariant
                g < mime.magics@.len(),
                k <= nmatches,
                nmatches == mime.magics@[g as int].matches@.len(),
                forall|g2: int|
                    0 <= g2 < g ==> spec_subs_err(
                        (#[trigger] mime.magics@[g2]).matches,
                        0,
                    ) is None,
                forall|j: int|
                    0 <= j < k ==> spec_match_err(
                        #[trigger] mime.magics@[g as int].matches@[j],
                    ) is None,
                forall|bs: Seq<u8>|
                    #[trigger] spec_eval_any(or_rules, bs, 0) == (exists|g2: int, k2: int|
                        0 <= g2 < mime.magics@.len() && 0 <= k2
                            < mime.magics@[g2].matches@.len() && (g2 < g || (g2 == g && k2 < k))
                            && spec_match_sem(#[trigger] mime.magics@[g2].matches@[k2], bs)),
            decreases nmatches - k,
        {
            match match_to_rule(&mime.magics[g].matches[k]) {
                Ok(rule) => {
                    let ghost pre = or_rules;
                    let ghost grule = rule;
                    or_rules.push(rule);
                    assert forall|bs: Seq<u8>|
                        #[trigger] spec_eval_any(or_rules, bs, 0) == (exists|g2: int, k2: int|
                            0 <= g2 < mime.magics@.len() && 0 <= k2
                                < mime.magics@[g2].matches@.len() && (g2 < g || (g2 == g && k2 < k
                                + 1)) && spec_match_sem(
                                #[trigger] mime.magics@[g2].matches@[k2],
                                bs,
                            )) by {
                        lemma_eval_any_is_exists(or_rules, bs, 0);
                        lemma_eval_any_is_exists(pre, bs, 0);
                        assert(or_rules@ == pre@.push(grule));
                        if spec_eval_any(or_rules, bs, 0) {
                            let j = choose|j: int|
                                0 <= j < or_rules@.len() && (#[trigger] or_rules@[j]).spec_eval(
                                    bs,
                                );
                            if j < pre@.len() {
                                assert(pre@[j].spec_eval(bs));
                                assert(spec_eval_any(pre, bs, 0));
                            } else {
                                assert(or_rules@[j] == grule);
                                assert(spec_match_sem(mime.magics@[g as int].matches@[k as int], bs));
                            }
                        }
                        if (exists|g2: int, k2: int|
                            0 <= g2 < mime.magics@.len() && 0 <= k2
                                < mime.magics@[g2].matches@.len() && (g2 < g || (g2 == g && k2 < k
                                + 1)) && spec_match_sem(
                                #[trigger] mime.magics@[g2].matches@[k2],
                                bs,
                            )) {
                            let (g2, k2) = choose|g2: int, k2: int|
                                0 <= g2 < mime.magics@.len() && 0 <= k2
                                    < mime.magics@[g2].matches@.len() && (g2 < g || (g2 == g && k2
                                    < k + 1)) && spec_match_sem(
                                    #[trigger] mime.magics@[g2].matches@[k2],
                                    bs,
                                );
                            if g2 == g && k2 == k {
                                assert(grule.spec_eval(bs));
                                assert(or_rules@[or_rules@.len() - 1].spec_eval(bs));
                            } else {
                                assert(spec_eval_any(pre, bs, 0));
                                let j = choose|j: int|
                                    0 <= j < pre@.len() && (#[trigger] pre@[j]).spec_eval(bs);
                                assert(or_rules@[j].spec_eval(bs));
                            }
                        }
                    }
                },
                Err(e) => {
                    proof {
                        lemma_magics_err_skip(mime.magics, 0, g as int);
                        lemma_subs_err_skip(mime.magics@[g as int].matches, k as int);
                    }
                    return Err(e);
                },
            }
            k += 1;
        }
        proof {
            lemma_subs_err_skip(mime.magics@[g as int].matches, nmatches as int);
        }
        g += 1;
    }
    proof {
        lemma_magics_err_skip(mime.magics, 0, mime.magics@.len() as int);
    }
    let n = or_rules.len();
    if n > 1 {
        let ghost gor = or_rules;
        let result = MatchRule::Or(or_rules);
        assert forall|bs: Seq<u8>|
            #[trigger] result.spec_eval(bs) == spec_mime_sem(*mime, bs) by {
            assert(result == MatchRule::Or(gor));
            assert(spec_eval_any(gor, bs, 0) == spec_mime_sem(*mime, bs));
        }
        Ok(result)
    } else if n == 1 {
        let ghost gor = or_rules;
        let result = or_rules.remove(0);
        assert forall|bs: Seq<u8>|
            #[trigger] result.spec_eval(bs) == spec_mime_sem(*mime, bs) by {
            assert(result == gor@[0]);
            assert(spec_eval_any(gor, bs, 0) == (gor@[0].spec_eval(bs) || spec_eval_any(
                gor,
                bs,
                1,
            )));
            assert(!spec_eval_any(gor, bs, 1));
        }
        Ok(result)
    } else {
        let result = MatchRule::Empty;
        assert forall|bs: Seq<u8>|
            #[trigger] result.spec_eval(bs) == spec_mime_sem(*mime, bs) by {
            assert(!spec_eval_any(or_rules, bs, 0));
        }
        Ok(result)
    }
}


/// Whether a definition declares itself a subclass of `parent`.
pub open spec fn spec_declares_subclass(def: MimeType, parent: Seq<char>) -> bool {
    exists|s: int|
        0 <= s < def.sub_classes@.len() && (#[trigger] def.sub_classes@[s]).class_type is Some
            && def.sub_classes@[s].class_type->0@ == parent
}

/// Checks whether a definition declares itself a subclass of `parent`.
pub fn declares_subclass(def: &MimeType, parent: &str) -> (r: bool)
    ensures
        r == spec_declares_subclass(*def, parent@),
{
    let mut i: usize = 0;
    while i < def.sub_classes.len()
        invariant
            i <= def.sub_classes@.len(),
            forall|s: int|
                0 <= s < i ==> !((#[trigger] def.sub_classes@[s]).class_type is Some
                    && def.sub_classes@[s].class_type->0@ == parent@),
        decreases def.sub_classes@.len() - i,
    {
        match &def.sub_classes[i].class_type {
            Some(t) => {
                if str_eq(t.as_str(), parent) {
                    return true;
                }
            },
            None => {},
        }
        i += 1;
    }
    false
}

/// The document positions, in order, of the definitions that declare
/// themselves subclasses of `parent`, from position `e` on.
pub open spec fn spec_child_docs_from(defs: Seq<MimeType>, parent: Seq<char>, e: int) -> Seq<int>
    decreases defs.len() - e,
{
    if 0 <= e < defs.len() {
        if spec_declares_subclass(defs[e], parent) {
            seq![e] + spec_child_docs_from(defs, parent, e + 1)
        } else {
            spec_child_docs_from(defs, parent, e + 1)
        }
    } else {
        Seq::empty()
    }
}

pub open spec fn spec_child_docs(defs: Seq<MimeType>, parent: Seq<char>) -> Seq<int> {
    spec_child_docs_from(defs, parent, 0)
}

/// Every listed child document really declares the subclass relation,
/// and lies in range.
proof fn lemma_child_docs_members(defs: Seq<MimeType>, parent: Seq<char>, e: int)
    requires
        0 <= e <= defs.len(),
    ensures
        forall|k: int|
            0 <= k < spec_child_docs_from(defs, parent, e).len() ==> {
                let d = #[trigger] spec_child_docs_from(defs, parent, e)[k];
                e <= d < defs.len() && spec_declares_subclass(defs[d], parent)
            },
    decreases defs.len() - e,
{
    if e < defs.len() {
        lemma_child_docs_members(defs, parent, e + 1);
        let whole = spec_child_docs_from(defs, parent, e);
        let rest = spec_child_docs_from(defs, parent, e + 1);
        if spec_declares_subclass(defs[e], parent) {
            assert forall|k: int| 0 <= k < whole.len() implies {
                let d = #[trigger] whole[k];
                e <= d < defs.len() && spec_declares_subclass(defs[d], parent)
            } by {
                if k > 0 {
                    assert(whole[k] == rest[k - 1]);
                }
            }
        } else {
            assert(whole =~= rest);
        }
    }
}

/// The glob patterns of a definition, in order, skipping empty entries.
pub open spec fn spec_globs_from(gs: Seq<Glob>, k: int) -> Seq<Seq<char>>
    decreases gs.len() - k,
{
    if 0 <= k < gs.len() {
        if gs[k].pattern is Some {
            seq![gs[k].pattern->0@] + spec_globs_from(gs, k + 1)
        } else {
            spec_globs_from(gs, k + 1)
        }
    } else {
        Seq::empty()
    }
}

/// Collects a definition's glob patterns.
pub fn globs_of(def: &MimeType) -> (r: Vec<String>)
    ensures
        r@.map(|_i: int, s: String| s@) == spec_globs_from(def.globs@, 0),
{
    let mut out: Vec<String> = Vec::new();
    let mut k: usize = 0;
    while k < def.globs.len()
        invariant
            k <= def.globs@.len(),
            spec_globs_from(def.globs@, 0) =~= out@.map(|_i: int, s: String| s@)
                + spec_globs_from(def.globs@, k as int),
        decreases def.globs@.len() - k,
    {
        let ghost pre = out@;
        match &def.globs[k].pattern {
            Some(pat) => {
                out.push(pat.clone());
                assert(out@.map(|_i: int, s: String| s@) =~= pre.map(|_i: int, s: String| s@)
                    + seq![def.globs@[k as int].pattern->0@]);
            },
            None => {},
        }
        k += 1;
    }
    assert(spec_globs_from(def.globs@, def.globs@.len() as int) =~= Seq::<Seq<char>>::empty());
    assert(out@.map(|_i: int, s: String| s@) + Seq::<Seq<char>>::empty() =~= out@.map(
        |_i: int, s: String| s@,
    ));
    out
}

/// The first build error across the definitions, in document order.
pub open spec fn spec_first_def_err(defs: Seq<MimeType>, d: int) -> Option<BuildError>
    decreases defs.len() - d,
{
    if 0 <= d < defs.len() {
        match spec_mime_err(defs[d]) {
            Some(e) => Some(e),
            None => spec_first_def_err(defs, d + 1),
        }
    } else {
        None
    }
}

proof fn lemma_first_def_err_skip(defs: Seq<MimeType>, from: int, d: int)
    requires
        0 <= from <= d <= defs.len(),
        forall|d2: int| from <= d2 < d ==> spec_mime_err(#[trigger] defs[d2]) is None,
    ensures
        spec_first_def_err(defs, from) == spec_first_def_err(defs, d),
    decreases d - from,
{
    if from < d {
        lemma_first_def_err_skip(defs, from + 1, d);
    }
}

/// Two definitions collide when the later one's mime or short
/// identifier repeats the earlier one's mime or short identifier.
pub open spec fn spec_collides(a: MimeType, b: MimeType) -> bool {
    ||| b.mime_type@ == a.mime_type@
    ||| b.mime_type@ == spec_short_name(a.mime_type@)
    ||| spec_short_name(b.mime_type@) == a.mime_type@
    ||| spec_short_name(b.mime_type@) == spec_short_name(a.mime_type@)
}

/// Whether any two definitions collide.
pub open spec fn spec_has_dup(defs: Seq<MimeType>) -> bool {
    exists|i: int, j: int|
        0 <= i < j < defs.len() && spec_collides(#[trigger] defs[i], #[trigger] defs[j])
}

/// Rejects a database in which two definitions share a mime string or
/// a derived short identifier.
fn check_duplicates(defs: &Vec<MimeType>, shorts: &Vec<String>) -> (r: Result<(), BuildError>)
    requires
        shorts@.len() == defs@.len(),
        forall|d: int|
            0 <= d < defs@.len() ==> (#[trigger] shorts@[d])@ == spec_short_name(
                defs@[d].mime_type@,
            ),
    ensures
        (r is Err) == spec_has_dup(defs@),
        r matches Err(e) ==> e == BuildError::DuplicateType,
{
    let n = defs.len();
    let mut j: usize = 1;
    while j < n
        invariant
            1 <= j <= n || n == 0,
            n == defs@.len(),
            shorts@.len() == n,
            forall|d: int|
                0 <= d < n ==> (#[trigger] shorts@[d])@ == spec_short_name(defs@[d].mime_type@),
            forall|i2: int, j2: int|
                0 <= i2 < j2 < j ==> !spec_collides(#[trigger] defs@[i2], #[trigger] defs@[j2]),
        decreases n - j,
    {
        let mut i: usize = 0;
        while i < j
            invariant
                i <= j < n,
                n == defs@.len(),
                shorts@.len() == n,
                forall|d: int|
                    0 <= d < n ==> (#[trigger] shorts@[d])@ == spec_short_name(
                        defs@[d].mime_type@,
                    ),
                forall|i2: int|
                    0 <= i2 < i ==> !spec_collides(
                        #[trigger] defs@[i2],
                        defs@[j as int],
                    ),
            decreases j - i,
        {
            let hit = str_eq(defs[j].mime_type.as_str(), defs[i].mime_type.as_str()) || str_eq(
                defs[j].mime_type.as_str(),
                shorts[i].as_str(),
            ) || str_eq(shorts[j].as_str(), defs[i].mime_type.as_str()) || str_eq(
                shorts[j].as_str(),
                shorts[i].as_str(),
            );
            if hit {
                assert(spec_collides(defs@[i as int], defs@[j as int]));
                return Err(BuildError::DuplicateType);
            }
            i += 1;
        }
        j += 1;
    }
    assert(!spec_has_dup(defs@));
    Ok(())
}

/// The strict order the compiled list is sorted by: descending
/// priority, then ascending child count, then document order.
pub open spec fn spec_key_lt(p1: u32, c1: int, d1: int, p2: u32, c2: int, d2: int) -> bool {
    ||| p1 > p2
    ||| (p1 == p2 && c1 < c2)
    ||| (p1 == p2 && c1 == c2 && d1 < d2)
}

/// Sorts the document indices by the registry order.
fn sort_doc_order(prios: &Vec<u32>, counts: &Vec<usize>) -> (perm: Vec<usize>)
    requires
        counts@.len() == prios@.len(),
    ensures
        perm@.len() == prios@.len(),
        forall|t: int| 0 <= t < perm@.len() ==> (#[trigger] perm@[t]) < prios@.len(),
        forall|t1: int, t2: int|
            #![trigger perm@[t1], perm@[t2]]
            0 <= t1 < t2 < perm@.len() ==> spec_key_lt(
                prios@[perm@[t1] as int],
                counts@[perm@[t1] as int] as int,
                perm@[t1] as int,
                prios@[perm@[t2] as int],
                counts@[perm@[t2] as int] as int,
                perm@[t2] as int,
            ),
        forall|d: int| 0 <= d < prios@.len() ==> #[trigger] spec_covered(perm@, d),
{
    let n = prios.len();
    let mut picked: Vec<bool> = Vec::new();
    let mut t0: usize = 0;
    while t0 < n
        invariant
            t0 <= n,
            picked@.len() == t0,
            forall|d: int| 0 <= d < t0 ==> !(#[trigger] picked@[d]),
        decreases n - t0,
    {
        picked.push(false);
        t0 += 1;
    }
    let mut perm: Vec<usize> = Vec::new();
    let mut t: usize = 0;
    while t < n
        invariant
            t <= n,
            n == prios@.len(),
            counts@.len() == n,
            picked@.len() == n,
            perm@.len() == t,
            forall|k: int| 0 <= k < t ==> (#[trigger] perm@[k]) < n,
            // picked flags mirror membership in perm
            forall|d: int| 0 <= d < n ==> (#[trigger] picked@[d] == spec_covered(perm@, d)),
            // perm entries are distinct
            forall|k1: int, k2: int|
                #![trigger perm@[k1], perm@[k2]]
                0 <= k1 < k2 < t ==> perm@[k1] != perm@[k2],
            // sortedness of what is placed
            forall|k1: int, k2: int|
                #![trigger perm@[k1], perm@[k2]]
                0 <= k1 < k2 < t ==> spec_key_lt(
                    prios@[perm@[k1] as int],
                    counts@[perm@[k1] as int] as int,
                    perm@[k1] as int,
                    prios@[perm@[k2] as int],
                    counts@[perm@[k2] as int] as int,
                    perm@[k2] as int,
                ),
            // everything placed precedes everything unplaced
            forall|k: int, d: int|
                #![trigger perm@[k], picked@[d]]
                0 <= k < t && 0 <= d < n && !picked@[d] ==> spec_key_lt(
                    prios@[perm@[k] as int],
                    counts@[perm@[k] as int] as int,
                    perm@[k] as int,
                    prios@[d],
                    counts@[d] as int,
                    d,
                ),
        decreases n - t,
    {
        // pick the unpicked index with the least key
        let mut best: usize = n;
        let mut d: usize = 0;
        while d < n
            invariant
                d <= n,
                n == prios@.len(),
                counts@.len() == n,
                picked@.len() == n,
                best <= n,
                best == n ==> forall|d2: int| 0 <= d2 < d ==> #[trigger] picked@[d2],
                best < n ==> !picked@[best as int],
                best < n ==> forall|d2: int|
                    0 <= d2 < d && !(#[trigger] picked@[d2]) && d2 != best ==> spec_key_lt(
                        prios@[best as int],
                        counts@[best as int] as int,
                        best as int,
                        prios@[d2],
                        counts@[d2] as int,
                        d2,
                    ),
            decreases n - d,
        {
            if !picked[d] {
                if best == n {
                    best = d;
                } else {
                    let pb = prios[best];
                    let pd = prios[d];
                    let better = pd > pb || (pd == pb && (counts[d] < counts[best] || (counts[d]
                        == counts[best] && d < best)));
                    if better {
                        best = d;
                    }
                }
            }
            d += 1;
        }
        // there is at least one unpicked index, so a best was found
        assert(best < n) by {
            if best == n {
                let ghost count_picked = t as int;
                // every index picked contradicts perm holding only t < n
                // distinct values covering all n indices
                assert(forall|d2: int| 0 <= d2 < n ==> #[trigger] picked@[d2]);
                assert forall|d2: int| 0 <= d2 < n implies #[trigger] spec_covered(perm@, d2) by {
                    assert(picked@[d2]);
                }
                lemma_pigeon(perm@, n as int);
            }
        }
        let ghost pre = perm@;
        let ghost pre_picked = picked@;
        perm.push(best);
        picked.set(best, true);
        proof {
            assert(perm@[t as int] == best);
            assert(!spec_covered(pre, best as int));
            assert forall|d2: int|
                0 <= d2 < n implies ((#[trigger] picked@[d2]) == spec_covered(perm@, d2)) by {
                if d2 == best as int {
                    assert(spec_covered(perm@, d2));
                } else {
                    assert(picked@[d2] == pre_picked[d2]);
                    if spec_covered(perm@, d2) {
                        let k = choose|k: int|
                            0 <= k < perm@.len() && (#[trigger] perm@[k]) == d2;
                        assert(k < t);
                        assert(pre[k] == perm@[k]);
                        assert(spec_covered(pre, d2));
                    }
                    if spec_covered(pre, d2) {
                        let k = choose|k: int| 0 <= k < pre.len() && (#[trigger] pre[k]) == d2;
                        assert(perm@[k] == d2);
                        assert(spec_covered(perm@, d2));
                    }
                }
            }
        }
        t += 1;
    }
    proof {
        lemma_distinct_full(perm@, n as int);
    }
    perm
}

/// Whether some entry of `perm` equals `d`.
pub open spec fn spec_covered(perm: Seq<usize>, d: int) -> bool {
    exists|k: int| 0 <= k < perm.len() && (#[trigger] perm[k]) == d
}

/// An injection from `a` into `b` bounds the size of `a`.
proof fn lemma_inj_le(a: Set<int>, b: Set<int>, f: spec_fn(int) -> int)
    requires
        a.finite(),
        b.finite(),
        forall|x: int| a.contains(x) ==> b.contains(#[trigger] f(x)),
        forall|x: int, y: int| a.contains(x) && a.contains(y) && x != y ==> f(x) != f(y),
    ensures
        a.len() <= b.len(),
    decreases a.len(),
{
    broadcast use vstd::set::axiom_set_remove_len, vstd::set::axiom_set_empty_len;

    if a.len() > 0 {
        assert(exists|x: int| a.contains(x)) by {
            if forall|x: int| !(#[trigger] a.contains(x)) {
                assert(a =~= Set::<int>::empty());
            }
        }
        let x = a.choose();
        assert(a.contains(x));
        lemma_inj_le(a.remove(x), b.remove(f(x)), f);
    }
}

/// A list covering all of `0..n` holds at least `n` entries.
proof fn lemma_pigeon(perm: Seq<usize>, n: int)
    requires
        n >= 0,
        forall|k: int| 0 <= k < perm.len() ==> (#[trigger] perm[k]) < n,
        forall|d: int| 0 <= d < n ==> #[trigger] spec_covered(perm, d),
    ensures
        perm.len() >= n,
{
    let values = vstd::set_lib::set_int_range(0, n);
    let positions = vstd::set_lib::set_int_range(0, perm.len() as int);
    vstd::set_lib::lemma_int_range(0, n);
    vstd::set_lib::lemma_int_range(0, perm.len() as int);
    let f = |d: int| choose|k: int| 0 <= k < perm.len() && (#[trigger] perm[k]) == d;
    assert forall|d: int| values.contains(d) implies positions.contains(#[trigger] f(d)) by {
        assert(spec_covered(perm, d));
        assert(0 <= f(d) < perm.len() && perm[f(d)] == d);
    }
    assert forall|x: int, y: int|
        values.contains(x) && values.contains(y) && x != y implies f(x) != f(y) by {
        assert(spec_covered(perm, x));
        assert(spec_covered(perm, y));
        assert(perm[f(x)] == x && perm[f(y)] == y);
    }
    lemma_inj_le(values, positions, f);
}

/// A list of `n` distinct values below `n` covers all of `0..n`.
proof fn lemma_distinct_full(perm: Seq<usize>, n: int)
    requires
        n >= 0,
        perm.len() == n,
        forall|k: int| 0 <= k < perm.len() ==> (#[trigger] perm[k]) < n,
        forall|k1: int, k2: int|
            #![trigger perm[k1], perm[k2]]
            0 <= k1 < k2 < perm.len() ==> perm[k1] != perm[k2],
    ensures
        forall|d: int| 0 <= d < n ==> #[trigger] spec_covered(perm, d),
{
    broadcast use vstd::set::axiom_set_remove_len, vstd::set::axiom_set_empty_len;

    assert forall|d: int| 0 <= d < n implies #[trigger] spec_covered(perm, d) by {
        if !spec_covered(perm, d) {
            let positions = vstd::set_lib::set_int_range(0, n);
            let values = vstd::set_lib::set_int_range(0, n).remove(d);
            vstd::set_lib::lemma_int_range(0, n);
            assert(values.len() == n - 1);
            let f = |k: int| perm[k] as int;
            assert forall|k: int| positions.contains(k) implies values.contains(#[trigger] f(k)) by {
                assert(perm[k] < n);
                assert(perm[k] as int != d);
            }
            assert forall|x: int, y: int|
                positions.contains(x) && positions.contains(y) && x != y implies f(x) != f(y) by {
                if x < y {
                    assert(perm[x] != perm[y]);
                } else {
                    assert(perm[y] != perm[x]);
                }
            }
            lemma_inj_le(positions, values, f);
            assert(false);
        }
    }
}


/// Counts, for every definition, how many definitions declare
/// themselves its subclasses.
fn child_counts(defs: &Vec<MimeType>) -> (r: Vec<usize>)
    ensures
        r@.len() == defs@.len(),
        forall|d: int|
            0 <= d < defs@.len() ==> (#[trigger] r@[d]) as int == spec_child_docs(
                defs@,
                defs@[d].mime_type@,
            ).len(),
{
    let n = defs.len();
    let mut out: Vec<usize> = Vec::new();
    let mut d: usize = 0;
    while d < n
        invariant
            d <= n,
            n == defs@.len(),
            out@.len() == d,
            forall|d2: int|
                0 <= d2 < d ==> (#[trigger] out@[d2]) as int == spec_child_docs(
                    defs@,
                    defs@[d2].mime_type@,
                ).len(),
        decreases n - d,
    {
        let ghost parent = defs@[d as int].mime_type@;
        let mut cnt: usize = 0;
        let mut e: usize = 0;
        while e < n
            invariant
                e <= n,
                n == defs@.len(),
                d < n,
                cnt <= e,
                parent == defs@[d as int].mime_type@,
                spec_child_docs(defs@, parent).len() == cnt + spec_child_docs_from(
                    defs@,
                    parent,
                    e as int,
                ).len(),
            decreases n - e,
        {
            if declares_subclass(&defs[e], defs[d].mime_type.as_str()) {
                cnt += 1;
            }
            e += 1;
        }
        out.push(cnt);
        d += 1;
    }
    out
}

/// The first entry whose key equals `key`.
pub open spec fn spec_find_entry(entries: Seq<MapEntry>, key: Seq<char>) -> Option<int>
    decreases entries.len(),
{
    if entries.len() == 0 {
        None
    } else if entries[0].key@ == key {
        Some(0int)
    } else {
        match spec_find_entry(entries.drop_first(), key) {
            Some(e) => Some(e + 1),
            None => None,
        }
    }
}

proof fn lemma_find_entry_at(entries: Seq<MapEntry>, key: Seq<char>, e: int)
    requires
        0 <= e < entries.len(),
        entries[e].key@ == key,
        forall|j: int| 0 <= j < e ==> (#[trigger] entries[j].key)@ != key,
    ensures
        spec_find_entry(entries, key) == Some(e),
    decreases e,
{
    if e > 0 {
        lemma_find_entry_at(entries.drop_first(), key, e - 1);
    }
}

proof fn lemma_find_entry_none(entries: Seq<MapEntry>, key: Seq<char>)
    requires
        forall|j: int| 0 <= j < entries.len() ==> (#[trigger] entries[j].key)@ != key,
    ensures
        spec_find_entry(entries, key) is None,
    decreases entries.len(),
{
    if entries.len() > 0 {
        lemma_find_entry_none(entries.drop_first(), key);
    }
}

/// Registers `idx` under `key`: appended to the entry that already
/// carries the key, or in a fresh entry at the end.
fn insert_or_append(map: &mut Vec<MapEntry>, key: String, idx: usize)
    ensures
        match spec_find_entry(old(map)@, key@) {
            Some(e) => {
                &&& final(map)@.len() == old(map)@.len()
                &&& forall|e2: int|
                    0 <= e2 < old(map)@.len() && e2 != e ==> final(map)@[e2] == old(map)@[e2]
                &&& final(map)@[e].key == old(map)@[e].key
                &&& final(map)@[e].nodes@ == old(map)@[e].nodes@.push(idx)
            },
            None => {
                &&& final(map)@.len() == old(map)@.len() + 1
                &&& forall|e2: int|
                    0 <= e2 < old(map)@.len() ==> final(map)@[e2] == old(map)@[e2]
                &&& final(map)@[old(map)@.len() as int].key@ == key@
                &&& final(map)@[old(map)@.len() as int].nodes@ == seq![idx]
            },
        },
{
    let n = map.len();
    let mut e: usize = 0;
    while e < n
        invariant
            e <= n,
            n == map@.len(),
            map@ == old(map)@,
            forall|j: int| 0 <= j < e ==> (#[trigger] map@[j].key)@ != key@,
        decreases n - e,
    {
        if str_eq(map[e].key.as_str(), key.as_str()) {
            proof {
                lemma_find_entry_at(map@, key@, e as int);
            }
            let mut entry = map.remove(e);
            entry.nodes.push(idx);
            map.insert(e, entry);
            assert(forall|e2: int|
                0 <= e2 < old(map)@.len() && e2 != e ==> map@[e2] == old(map)@[e2]);
            return ;
        }
        e += 1;
    }
    proof {
        lemma_find_entry_none(map@, key@);
    }
    let mut nodes: Vec<usize> = Vec::new();
    nodes.push(idx);
    map.push(MapEntry { key, nodes });
}

/// Whether the subclass declarations admit a ranking in which every
/// declared child stands strictly below its parent; equivalently,
/// whether the hierarchy is free of cycles.
pub open spec fn spec_acyclic(defs: Seq<MimeType>) -> bool {
    exists|rk: Seq<int>|
        #![trigger rk.len()]
        rk.len() == defs.len() && forall|d: int, e: int|
            #![trigger spec_declares_subclass(defs[e], defs[d].mime_type@)]
            0 <= d < defs.len() && 0 <= e < defs.len() && spec_declares_subclass(
                defs[e],
                defs[d].mime_type@,
            ) ==> rk[e] < rk[d]
}

/// A nonempty set of positions has one of minimal value.
proof fn lemma_min_unmarked(marked: Seq<bool>, vals: Seq<int>, w: int)
    requires
        marked.len() == vals.len(),
        0 <= w < marked.len(),
        !marked[w],
    ensures
        exists|u: int|
            0 <= u < marked.len() && !marked[u] && (forall|v: int|
                0 <= v < marked.len() && !(#[trigger] marked[v]) ==> vals[u] <= vals[v]),
    decreases marked.len(),
{
    let n = marked.len() as int;
    if n == 1 {
        assert(0 <= w < marked.len() && !marked[w] && (forall|v: int|
            0 <= v < marked.len() && !(#[trigger] marked[v]) ==> vals[w] <= vals[v]));
    } else {
        let m2 = marked.drop_last();
        let v2 = vals.drop_last();
        assert(forall|x: int| 0 <= x < n - 1 ==> m2[x] == marked[x] && v2[x] == vals[x]);
        if marked[n - 1] {
            lemma_min_unmarked(m2, v2, w);
            let u = choose|u: int|
                0 <= u < m2.len() && !m2[u] && (forall|v: int|
                    0 <= v < m2.len() && !(#[trigger] m2[v]) ==> v2[u] <= v2[v]);
            assert forall|v: int|
                0 <= v < marked.len() && !(#[trigger] marked[v]) implies vals[u] <= vals[v] by {
                assert(v < n - 1);
                assert(!m2[v]);
                assert(v2[u] <= v2[v]);
            }
            assert(0 <= u < marked.len() && !marked[u] && (forall|v: int|
                0 <= v < marked.len() && !(#[trigger] marked[v]) ==> vals[u] <= vals[v]));
        } else if !(exists|x: int| 0 <= x < n - 1 && !m2[x]) {
            // only the last position is unmarked
            assert forall|v: int|
                0 <= v < marked.len() && !(#[trigger] marked[v]) implies vals[n - 1] <= vals[v] by {
                if v < n - 1 {
                    assert(!m2[v]);
                    assert(false);
                }
            }
            assert(0 <= n - 1 < marked.len() && !marked[n - 1] && (forall|v: int|
                0 <= v < marked.len() && !(#[trigger] marked[v]) ==> vals[n - 1] <= vals[v]));
        } else {
            let w2 = choose|x: int| 0 <= x < n - 1 && !(#[trigger] m2[x]);
            lemma_min_unmarked(m2, v2, w2);
            let u = choose|u: int|
                0 <= u < m2.len() && !m2[u] && (forall|v: int|
                    0 <= v < m2.len() && !(#[trigger] m2[v]) ==> v2[u] <= v2[v]);
            if vals[u] <= vals[n - 1] {
                assert forall|v: int|
                    0 <= v < marked.len() && !(#[trigger] marked[v]) implies vals[u]
                    <= vals[v] by {
                    if v < n - 1 {
                        assert(!m2[v]);
                        assert(v2[u] <= v2[v]);
                    }
                }
                assert(0 <= u < marked.len() && !marked[u] && (forall|v: int|
                    0 <= v < marked.len() && !(#[trigger] marked[v]) ==> vals[u] <= vals[v]));
            } else {
                assert forall|v: int|
                    0 <= v < marked.len() && !(#[trigger] marked[v]) implies vals[n - 1]
                    <= vals[v] by {
                    if v < n - 1 {
                        assert(!m2[v]);
                        assert(v2[u] <= v2[v]);
                        assert(vals[u] <= vals[v]);
                    }
                }
                assert(0 <= n - 1 < marked.len() && !marked[n - 1] && (forall|v: int|
                    0 <= v < marked.len() && !(#[trigger] marked[v]) ==> vals[n - 1] <= vals[v]));
            }
        }
    }
}

/// How many positions are marked.
pub open spec fn spec_marked_count(s: Seq<bool>) -> int
    decreases s.len(),
{
    if s.len() == 0 {
        0
    } else {
        spec_marked_count(s.drop_last()) + if s.last() {
            1int
        } else {
            0
        }
    }
}

proof fn lemma_marked_count_zero(s: Seq<bool>)
    requires
        forall|i: int| 0 <= i < s.len() ==> !(#[trigger] s[i]),
    ensures
        spec_marked_count(s) == 0,
    decreases s.len(),
{
    if s.len() > 0 {
        lemma_marked_count_zero(s.drop_last());
    }
}

proof fn lemma_marked_count_le(s: Seq<bool>)
    ensures
        0 <= spec_marked_count(s) <= s.len(),
    decreases s.len(),
{
    if s.len() > 0 {
        lemma_marked_count_le(s.drop_last());
    }
}

proof fn lemma_marked_count_lt(s: Seq<bool>, i: int)
    requires
        0 <= i < s.len(),
        !s[i],
    ensures
        spec_marked_count(s) < s.len(),
    decreases s.len(),
{
    if i == s.len() - 1 {
        lemma_marked_count_le(s.drop_last());
    } else {
        lemma_marked_count_lt(s.drop_last(), i);
    }
}

proof fn lemma_marked_count_set(s: Seq<bool>, i: int)
    requires
        0 <= i < s.len(),
        !s[i],
    ensures
        spec_marked_count(s.update(i, true)) == spec_marked_count(s) + 1,
    decreases s.len(),
{
    let t = s.update(i, true);
    if i == s.len() - 1 {
        assert(t.drop_last() =~= s.drop_last());
    } else {
        lemma_marked_count_set(s.drop_last(), i);
        assert(t.drop_last() =~= s.drop_last().update(i, true));
        assert(t.last() == s.last());
    }
}

/// The structural facts the cycle check relies on: every child edge of
/// the arena reflects a subclass declaration in the documents.
pub open spec fn spec_edges_reflect(nodes: Seq<TypeNode>, defs: Seq<MimeType>) -> bool {
    &&& nodes.len() == defs.len()
    &&& forall|i: int|
        0 <= i < nodes.len() ==> (#[trigger] nodes[i].doc_index) < defs.len()
            && nodes[i].mime@ == defs[nodes[i].doc_index as int].mime_type@
    &&& forall|i: int, k: int|
        0 <= i < nodes.len() && 0 <= k < nodes[i].children@.len() ==> {
            let c = #[trigger] nodes[i].children@[k];
            c < nodes.len() && spec_declares_subclass(
                defs[nodes[c as int].doc_index as int],
                nodes[i].mime@,
            )
        }
}

/// When peeling stalls with unmarked nodes left, the hierarchy has a
/// cycle: a minimal-rank unmarked node would need a child of smaller
/// rank, itself unmarked.
#[verifier::rlimit(100)]
proof fn lemma_stall_cyclic(
    nodes: Seq<TypeNode>,
    defs: Seq<MimeType>,
    marked: Seq<bool>,
    w: int,
)
    requires
        spec_edges_reflect(nodes, defs),
        marked.len() == nodes.len(),
        0 <= w < nodes.len(),
        !marked[w],
        forall|i: int|
            0 <= i < nodes.len() && !(#[trigger] marked[i]) ==> exists|k: int|
                0 <= k < nodes[i].children@.len() && !marked[nodes[i].children@[k] as int],
    ensures
        !spec_acyclic(defs),
{
    if spec_acyclic(defs) {
        let rk = choose|rk: Seq<int>|
            #![trigger rk.len()]
            rk.len() == defs.len() && forall|d: int, e: int|
                #![trigger spec_declares_subclass(defs[e], defs[d].mime_type@)]
                0 <= d < defs.len() && 0 <= e < defs.len() && spec_declares_subclass(
                    defs[e],
                    defs[d].mime_type@,
                ) ==> rk[e] < rk[d];
        let vals = Seq::new(nodes.len(), |i: int| rk[nodes[i].doc_index as int]);
        lemma_min_unmarked(marked, vals, w);
        let u = choose|u: int|
            0 <= u < marked.len() && !marked[u] && (forall|v: int|
                0 <= v < marked.len() && !(#[trigger] marked[v]) ==> vals[u] <= vals[v]);
        let k = choose|k: int|
            0 <= k < nodes[u].children@.len() && !marked[nodes[u].children@[k] as int];
        let c = nodes[u].children@[k] as int;
        assert(spec_declares_subclass(
            defs[nodes[c].doc_index as int],
            defs[nodes[u].doc_index as int].mime_type@,
        ));
        assert(rk[nodes[c].doc_index as int] < rk[nodes[u].doc_index as int]);
        assert(vals[c] < vals[u]);
        assert(vals[u] <= vals[c]);
        assert(false);
    }
}

/// Checks that every child of the node is already marked.
fn all_kids_marked(ch: &Vec<usize>, marked: &Vec<bool>) -> (r: bool)
    requires
        forall|k: int| 0 <= k < ch@.len() ==> (#[trigger] ch@[k]) < marked@.len(),
    ensures
        r == (forall|k: int| 0 <= k < ch@.len() ==> marked@[(#[trigger] ch@[k]) as int]),
{
    let mut k: usize = 0;
    while k < ch.len()
        invariant
            k <= ch@.len(),
            forall|k2: int| 0 <= k2 < ch@.len() ==> (#[trigger] ch@[k2]) < marked@.len(),
            forall|k2: int| 0 <= k2 < k ==> marked@[(#[trigger] ch@[k2]) as int],
        decreases ch@.len() - k,
    {
        if !marked[ch[k]] {
            return false;
        }
        k += 1;
    }
    true
}

/// Marks leaves first, giving every node a rank above all its
/// children's, or reports that the hierarchy closes a cycle.
fn peel_ranks(nodes: &Vec<TypeNode>, defs: &Vec<MimeType>) -> (r: Result<
    Ghost<Seq<int>>,
    BuildError,
>)
    requires
        spec_edges_reflect(nodes@, defs@),
    ensures
        r matches Ok(g) ==> {
            &&& g@.len() == nodes@.len()
            &&& forall|i: int| 0 <= i < nodes@.len() ==> 0 <= #[trigger] g@[i] < nodes@.len()
            &&& forall|i: int, k: int|
                0 <= i < nodes@.len() && 0 <= k < nodes@[i].children@.len() ==> g@[(
                #[trigger] nodes@[i].children@[k]) as int] < g@[i]
        },
        r matches Err(e) ==> e == BuildError::CyclicHierarchy && !spec_acyclic(defs@),
{
    let n = nodes.len();
    let mut marked: Vec<bool> = Vec::new();
    let mut ranks: Vec<usize> = Vec::new();
    let mut z: usize = 0;
    while z < n
        invariant
            z <= n,
            marked@.len() == z,
            ranks@.len() == z,
            forall|i: int| 0 <= i < z ==> !(#[trigger] marked@[i]),
        decreases n - z,
    {
        marked.push(false);
        ranks.push(0);
        z += 1;
    }
    proof {
        lemma_marked_count_zero(marked@);
    }
    let mut done: usize = 0;
    loop
        invariant
            n == nodes@.len(),
            spec_edges_reflect(nodes@, defs@),
            marked@.len() == n,
            ranks@.len() == n,
            done <= n,
            done as int == spec_marked_count(marked@),
            forall|i: int| 0 <= i < n && #[trigger] marked@[i] ==> ranks@[i] < done,
            forall|i: int, k: int|
                0 <= i < n && #[trigger] marked@[i] && 0 <= k < nodes@[i].children@.len() ==> {
                    let c = (#[trigger] nodes@[i].children@[k]) as int;
                    marked@[c] && ranks@[c] < ranks@[i]
                },
        decreases n - done,
    {
        let mut progress = false;
        let mut i: usize = 0;
        let ghost done0 = done;
        while i < n
            invariant
                i <= n,
                n == nodes@.len(),
                spec_edges_reflect(nodes@, defs@),
                marked@.len() == n,
                ranks@.len() == n,
                done <= n,
                done0 <= done,
                done as int == spec_marked_count(marked@),
                progress == (done0 < done),
                !progress ==> forall|i2: int|
                    0 <= i2 < i && !(#[trigger] marked@[i2]) ==> exists|k: int|
                        0 <= k < nodes@[i2].children@.len() && !marked@[nodes@[i2].children@[k] as int],
                forall|i2: int| 0 <= i2 < n && #[trigger] marked@[i2] ==> ranks@[i2] < done,
                forall|i2: int, k: int|
                    0 <= i2 < n && #[trigger] marked@[i2] && 0 <= k
                        < nodes@[i2].children@.len() ==> {
                        let c = (#[trigger] nodes@[i2].children@[k]) as int;
                        marked@[c] && ranks@[c] < ranks@[i2]
                    },
            decreases n - i,
        {
            if !marked[i] {
                let all = all_kids_marked(&nodes[i].children, &marked);
                if all {
                    proof {
                        lemma_marked_count_lt(marked@, i as int);
                        lemma_marked_count_set(marked@, i as int);
                    }
                    ranks.set(i, done);
                    marked.set(i, true);
                    done += 1;
                    progress = true;
                }
            }
            i += 1;
        }
        if !progress {
            // either everything is marked, or the remainder closes a
            // cycle
            let mut w: usize = 0;
            while w < n
                invariant
                    w <= n,
                    n == nodes@.len(),
                    spec_edges_reflect(nodes@, defs@),
                    marked@.len() == n,
                    ranks@.len() == n,
                    done <= n,
                    forall|i2: int| 0 <= i2 < w ==> #[trigger] marked@[i2],
                    forall|i2: int|
                        0 <= i2 < n && !(#[trigger] marked@[i2]) ==> exists|k: int|
                            0 <= k < nodes@[i2].children@.len() && !marked@[nodes@[i2].children@[k] as int],
                    forall|i2: int| 0 <= i2 < n && #[trigger] marked@[i2] ==> ranks@[i2] < done,
                    forall|i2: int, k: int|
                        0 <= i2 < n && #[trigger] marked@[i2] && 0 <= k
                            < nodes@[i2].children@.len() ==> {
                            let c = (#[trigger] nodes@[i2].children@[k]) as int;
                            marked@[c] && ranks@[c] < ranks@[i2]
                        },
                decreases n - w,
            {
                if !marked[w] {
                    proof {
                        lemma_stall_cyclic(nodes@, defs@, marked@, w as int);
                    }
                    return Err(BuildError::CyclicHierarchy);
                }
                w += 1;
            }
            // all nodes marked: the ranks certify the hierarchy
            let ghost g = ranks@.map(|_i: int, v: usize| v as int);
            assert forall|i: int|
                0 <= i < nodes@.len() implies 0 <= #[trigger] g[i] < nodes@.len() by {
                assert(marked@[i]);
                assert(ranks@[i] < done);
            }
            assert forall|i: int, k: int|
                0 <= i < nodes@.len() && 0 <= k < nodes@[i].children@.len() implies g[(
                #[trigger] nodes@[i].children@[k]) as int] < g[i] by {
                assert(marked@[i]);
            }
            return Ok(Ghost(g));
        }
    }
}


/// A declared child appears somewhere in the child-document list.
proof fn lemma_child_docs_complete(defs: Seq<MimeType>, parent: Seq<char>, start: int, e: int)
    requires
        0 <= start <= e < defs.len(),
        spec_declares_subclass(defs[e], parent),
    ensures
        exists|k: int|
            0 <= k < spec_child_docs_from(defs, parent, start).len() && (
            #[trigger] spec_child_docs_from(defs, parent, start)[k]) == e,
    decreases e - start,
{
    let whole = spec_child_docs_from(defs, parent, start);
    let rest = spec_child_docs_from(defs, parent, start + 1);
    if start == e {
        assert(whole[0] == e);
    } else {
        lemma_child_docs_complete(defs, parent, start + 1, e);
        let k = choose|k: int| 0 <= k < rest.len() && (#[trigger] rest[k]) == e;
        if spec_declares_subclass(defs[start], parent) {
            assert(whole[k + 1] == rest[k]);
        } else {
            assert(whole =~= rest);
        }
    }
}

/// One node of the compiled arena corresponds to the definition it was
/// compiled from.
pub open spec fn spec_node_corresponds(node: TypeNode, defs: Seq<MimeType>) -> bool {
    &&& (node.doc_index as int) < defs.len()
    &&& node.mime@ == defs[node.doc_index as int].mime_type@
    &&& node.priority == spec_priority_of(defs[node.doc_index as int])
    &&& forall|bs: Seq<u8>|
        #[trigger] node.rule.spec_eval(bs) == spec_mime_sem(defs[node.doc_index as int], bs)
    &&& node.exts@.map(|_i: int, sx: String| sx@) == spec_globs_from(
        defs[node.doc_index as int].globs@,
        0,
    )
    &&& node.children@.len() == spec_child_docs(defs, node.mime@).len()
}

/// Some node registered under `key` was compiled from document `d`.
pub open spec fn spec_registered_under(entries: Seq<MapEntry>, nodes: Seq<TypeNode>, key: Seq<char>, d: int) -> bool {
    match spec_lookup_entries(entries, key) {
        Some(ns) => exists|p: int|
            0 <= p < ns.len() && (#[trigger] ns[p]) < nodes.len() && nodes[ns[p] as int].doc_index
                as int == d,
        None => false,
    }
}

/// The curated probe list: the canonical nodes of a handful of very
/// common types, in a fixed order, skipping the ones the database does
/// not declare.
pub open spec fn spec_curated_step(entries: Seq<MapEntry>, acc: Seq<usize>, key: Seq<char>) -> Seq<
    usize,
> {
    match spec_lookup_entries(entries, key) {
        Some(ns) => if ns.len() > 0 {
            acc.push(ns[0])
        } else {
            acc
        },
        None => acc,
    }
}

pub open spec fn spec_curated(entries: Seq<MapEntry>) -> Seq<usize> {
    let l0 = Seq::<usize>::empty();
    let l1 = spec_curated_step(entries, l0, "image/png"@);
    let l2 = spec_curated_step(entries, l1, "image/gif"@);
    let l3 = spec_curated_step(entries, l2, "image/jpeg"@);
    let l4 = spec_curated_step(entries, l3, "application/zip"@);
    let l5 = spec_curated_step(entries, l4, "application/pdf"@);
    spec_curated_step(entries, l5, "application/x-dosexec"@)
}

/// What it means for a registry to have been compiled from a document
/// list: the arena holds exactly one node per definition, in registry
/// order, with exact rules, children, lookup entries and probe list.
pub open spec fn spec_compiled_from(reg: Registry, defs: Seq<MimeType>) -> bool {
    let n = defs.len() as int;
    &&& reg.nodes@.len() == n
    &&& forall|i: int| 0 <= i < n ==> spec_node_corresponds(#[trigger] reg.nodes@[i], defs)
    &&& forall|i: int, j: int|
        #![trigger reg.nodes@[i].doc_index, reg.nodes@[j].doc_index]
        0 <= i < j < n ==> reg.nodes@[i].doc_index != reg.nodes@[j].doc_index
    &&& forall|i: int, k: int|
        0 <= i < n && 0 <= k < reg.nodes@[i].children@.len() ==> {
            let c = #[trigger] reg.nodes@[i].children@[k];
            (c as int) < n && reg.nodes@[c as int].doc_index as int == spec_child_docs(
                defs,
                reg.nodes@[i].mime@,
            )[k]
        }
    &&& forall|i: int, j: int|
        #![trigger reg.nodes@[i].priority, reg.nodes@[j].priority]
        0 <= i < j < n ==> spec_key_lt(
            reg.nodes@[i].priority,
            reg.nodes@[i].children@.len() as int,
            reg.nodes@[i].doc_index as int,
            reg.nodes@[j].priority,
            reg.nodes@[j].children@.len() as int,
            reg.nodes@[j].doc_index as int,
        )
    &&& forall|i: int|
        0 <= i < n ==> match reg.spec_lookup((#[trigger] reg.nodes@[i]).mime@) {
            Some(ns) => ns.len() >= 1 && ns[0] as int == i,
            None => false,
        }
    &&& forall|d: int, a: int|
        0 <= d < n && 0 <= a < defs[d].aliases@.len() && (#[trigger] defs[d].aliases@[a]).alias_type
            is Some ==> spec_registered_under(
            reg.mime_map@,
            reg.nodes@,
            defs[d].aliases@[a].alias_type->0@,
            d,
        )
    &&& forall|d: int, gi: int|
        0 <= d < n && 0 <= gi < defs[d].globs@.len() && (#[trigger] defs[d].globs@[gi]).pattern
            is Some ==> spec_registered_under(
            reg.ext_map@,
            reg.nodes@,
            defs[d].globs@[gi].pattern->0@,
            d,
        )
    &&& reg.priority_nodes@ == spec_curated(reg.mime_map@)
}

/// Builds the exact-lookup map: every mime string first, in document
/// order, then every alias appended to the entry it resolves to.
fn build_mime_map(defs: &Vec<MimeType>, arena_of: &Vec<usize>) -> (map: Vec<MapEntry>)
    requires
        arena_of@.len() == defs@.len(),
        forall|d: int| 0 <= d < defs@.len() ==> (#[trigger] arena_of@[d]) < defs@.len(),
        forall|d1: int, d2: int|
            #![trigger defs@[d1].mime_type, defs@[d2].mime_type]
            0 <= d1 < d2 < defs@.len() ==> defs@[d1].mime_type@ != defs@[d2].mime_type@,
    ensures
        map@.len() >= defs@.len(),
        forall|d: int|
            0 <= d < defs@.len() ==> (#[trigger] map@[d]).key@ == defs@[d].mime_type@
                && map@[d].nodes@.len() >= 1 && map@[d].nodes@[0] == arena_of@[d],
        forall|e1: int, e2: int|
            #![trigger map@[e1].key, map@[e2].key]
            0 <= e1 < e2 < map@.len() ==> map@[e1].key@ != map@[e2].key@,
        forall|e: int, k: int|
            0 <= e < map@.len() && 0 <= k < map@[e].nodes@.len() ==> (#[trigger] map@[e].nodes@[k])
                < defs@.len(),
        forall|d: int, a: int|
            0 <= d < defs@.len() && 0 <= a < defs@[d].aliases@.len() && (
            #[trigger] defs@[d].aliases@[a]).alias_type is Some ==> spec_contains_doc(
                map@,
                defs@[d].aliases@[a].alias_type->0@,
                arena_of@[d],
            ),
{
    let n = defs.len();
    let mut map: Vec<MapEntry> = Vec::new();
    let mut d: usize = 0;
    while d < n
        invariant
            d <= n,
            n == defs@.len(),
            arena_of@.len() == n,
            forall|d2: int| 0 <= d2 < n ==> (#[trigger] arena_of@[d2]) < n,
            forall|d1: int, d2: int|
                #![trigger defs@[d1].mime_type, defs@[d2].mime_type]
                0 <= d1 < d2 < n ==> defs@[d1].mime_type@ != defs@[d2].mime_type@,
            map@.len() == d,
            forall|d2: int|
                0 <= d2 < d ==> (#[trigger] map@[d2]).key@ == defs@[d2].mime_type@
                    && map@[d2].nodes@ == seq![arena_of@[d2]],
        decreases n - d,
    {
        proof {
            assert forall|j: int| 0 <= j < map@.len() implies (#[trigger] map@[j].key)@
                != defs@[d as int].mime_type@ by {
                assert(map@[j].key@ == defs@[j].mime_type@);
            }
            lemma_find_entry_none(map@, defs@[d as int].mime_type@);
        }
        insert_or_append(&mut map, defs[d].mime_type.clone(), arena_of[d]);
        d += 1;
    }
    // aliases
    let mut d2: usize = 0;
    while d2 < n
        invariant
            d2 <= n,
            n == defs@.len(),
            arena_of@.len() == n,
            forall|dx: int| 0 <= dx < n ==> (#[trigger] arena_of@[dx]) < n,
            map@.len() >= n,
            forall|dx: int|
                0 <= dx < n ==> (#[trigger] map@[dx]).key@ == defs@[dx].mime_type@
                    && map@[dx].nodes@.len() >= 1 && map@[dx].nodes@[0] == arena_of@[dx],
            forall|e1: int, e2: int|
                #![trigger map@[e1].key, map@[e2].key]
                0 <= e1 < e2 < map@.len() ==> map@[e1].key@ != map@[e2].key@,
            forall|e: int, k: int|
                0 <= e < map@.len() && 0 <= k < map@[e].nodes@.len() ==> (
                #[trigger] map@[e].nodes@[k]) < n,
            forall|dx: int, ax: int|
                0 <= dx < d2 && 0 <= ax < defs@[dx].aliases@.len() && (
                #[trigger] defs@[dx].aliases@[ax]).alias_type is Some ==> spec_contains_doc(
                    map@,
                    defs@[dx].aliases@[ax].alias_type->0@,
                    arena_of@[dx],
                ),
        decreases n - d2,
    {
        let na = defs[d2].aliases.len();
        let mut a: usize = 0;
        while a < na
            invariant
                a <= na,
                d2 < n,
                na == defs@[d2 as int].aliases@.len(),
                n == defs@.len(),
                arena_of@.len() == n,
                forall|dx: int| 0 <= dx < n ==> (#[trigger] arena_of@[dx]) < n,
                map@.len() >= n,
                forall|dx: int|
                    0 <= dx < n ==> (#[trigger] map@[dx]).key@ == defs@[dx].mime_type@
                        && map@[dx].nodes@.len() >= 1 && map@[dx].nodes@[0] == arena_of@[dx],
                forall|e1: int, e2: int|
                    #![trigger map@[e1].key, map@[e2].key]
                    0 <= e1 < e2 < map@.len() ==> map@[e1].key@ != map@[e2].key@,
                forall|e: int, k: int|
                    0 <= e < map@.len() && 0 <= k < map@[e].nodes@.len() ==> (
                    #[trigger] map@[e].nodes@[k]) < n,
                forall|dx: int, ax: int|
                    (0 <= dx < d2 || (dx == d2 && 0 <= ax < a)) && 0 <= ax
                        < defs@[dx].aliases@.len() && (#[trigger] defs@[dx].aliases@[ax]).alias_type
                        is Some ==> spec_contains_doc(
                        map@,
                        defs@[dx].aliases@[ax].alias_type->0@,
                        arena_of@[dx],
                    ),
            decreases na - a,
        {
            match &defs[d2].aliases[a].alias_type {
                Some(alias) => {
                    let ghost pre = map@;
                    insert_or_append(&mut map, alias.clone(), arena_of[d2]);
                    proof {
                        lemma_registration_preserved(pre, map@, alias@, arena_of@[d2 as int]);
                        if spec_find_entry(pre, alias@) is None {
                            lemma_find_none_keys(pre, alias@);
                        } else {
                            lemma_find_entry_props(pre, alias@);
                        }
                    }
                },
                None => {},
            }
            a += 1;
        }
        d2 += 1;
    }
    map
}

/// Some entry of `entries` carries `key` and lists `idx`.
pub open spec fn spec_contains_doc(entries: Seq<MapEntry>, key: Seq<char>, idx: usize) -> bool {
    exists|e: int, px: int|
        #![trigger entries[e].nodes@[px]]
        0 <= e < entries.len() && entries[e].key@ == key && 0 <= px < entries[e].nodes@.len()
            && entries[e].nodes@[px] == idx
}

/// One registration step preserves every earlier registration and adds
/// the new one.
proof fn lemma_registration_preserved(pre: Seq<MapEntry>, post: Seq<MapEntry>, key: Seq<char>, idx: usize)
    requires
        match spec_find_entry(pre, key) {
            Some(e) => {
                &&& post.len() == pre.len()
                &&& forall|e2: int| 0 <= e2 < pre.len() && e2 != e ==> post[e2] == pre[e2]
                &&& post[e].key == pre[e].key
                &&& post[e].nodes@ == pre[e].nodes@.push(idx)
            },
            None => {
                &&& post.len() == pre.len() + 1
                &&& forall|e2: int| 0 <= e2 < pre.len() ==> post[e2] == pre[e2]
                &&& post[pre.len() as int].key@ == key
                &&& post[pre.len() as int].nodes@ == seq![idx]
            },
        },
    ensures
        forall|k2: Seq<char>, i2: usize|
            spec_contains_doc(pre, k2, i2) ==> #[trigger] spec_contains_doc(post, k2, i2),
        spec_contains_doc(post, key, idx),
{
    assert forall|k2: Seq<char>, i2: usize|
        spec_contains_doc(pre, k2, i2) implies #[trigger] spec_contains_doc(post, k2, i2) by {
        let (e, px) = choose|e: int, px: int|
            #![trigger pre[e].nodes@[px]]
            0 <= e < pre.len() && pre[e].key@ == k2 && 0 <= px < pre[e].nodes@.len()
                && pre[e].nodes@[px] == i2;
        match spec_find_entry(pre, key) {
            Some(ef) => {
                if e == ef {
                    assert(post[e].key@ == k2 && post[e].nodes@[px] == i2);
                } else {
                    assert(post[e] == pre[e]);
                }
            },
            None => {
                assert(post[e] == pre[e]);
            },
        }
    }
    match spec_find_entry(pre, key) {
        Some(ef) => {
            lemma_find_entry_props(pre, key);
            assert(post[ef].key@ == key);
            assert(post[ef].nodes@[post[ef].nodes@.len() - 1] == idx);
        },
        None => {
            assert(post[pre.len() as int].key@ == key);
            assert(post[pre.len() as int].nodes@[0] == idx);
        },
    }
}

/// What a found entry index satisfies.
/// A missing key differs from every entry's key.
proof fn lemma_find_none_keys(entries: Seq<MapEntry>, key: Seq<char>)
    requires
        spec_find_entry(entries, key) is None,
    ensures
        forall|j: int| 0 <= j < entries.len() ==> (#[trigger] entries[j].key)@ != key,
    decreases entries.len(),
{
    if entries.len() > 0 {
        lemma_find_none_keys(entries.drop_first(), key);
        assert forall|j: int| 0 <= j < entries.len() implies (#[trigger] entries[j].key)@
            != key by {
            if j > 0 {
                assert(entries.drop_first()[j - 1] == entries[j]);
            }
        }
    }
}

proof fn lemma_find_entry_props(entries: Seq<MapEntry>, key: Seq<char>)
    ensures
        match spec_find_entry(entries, key) {
            Some(e) => 0 <= e < entries.len() && entries[e].key@ == key,
            None => true,
        },
    decreases entries.len(),
{
    if entries.len() > 0 && entries[0].key@ != key {
        lemma_find_entry_props(entries.drop_first(), key);
    }
}

/// Builds the extension map from the glob patterns, in document order.
fn build_ext_map(defs: &Vec<MimeType>, arena_of: &Vec<usize>) -> (map: Vec<MapEntry>)
    requires
        arena_of@.len() == defs@.len(),
        forall|d: int| 0 <= d < defs@.len() ==> (#[trigger] arena_of@[d]) < defs@.len(),
    ensures
        forall|e: int, k: int|
            0 <= e < map@.len() && 0 <= k < map@[e].nodes@.len() ==> (#[trigger] map@[e].nodes@[k])
                < defs@.len(),
        forall|e1: int, e2: int|
            #![trigger map@[e1].key, map@[e2].key]
            0 <= e1 < e2 < map@.len() ==> map@[e1].key@ != map@[e2].key@,
        forall|d: int, gi: int|
            0 <= d < defs@.len() && 0 <= gi < defs@[d].globs@.len() && (
            #[trigger] defs@[d].globs@[gi]).pattern is Some ==> spec_contains_doc(
                map@,
                defs@[d].globs@[gi].pattern->0@,
                arena_of@[d],
            ),
{
    let n = defs.len();
    let mut map: Vec<MapEntry> = Vec::new();
    let mut d: usize = 0;
    while d < n
        invariant
            d <= n,
            n == defs@.len(),
            arena_of@.len() == n,
            forall|dx: int| 0 <= dx < n ==> (#[trigger] arena_of@[dx]) < n,
            forall|e: int, k: int|
                0 <= e < map@.len() && 0 <= k < map@[e].nodes@.len() ==> (
                #[trigger] map@[e].nodes@[k]) < n,
            forall|e1: int, e2: int|
                #![trigger map@[e1].key, map@[e2].key]
                0 <= e1 < e2 < map@.len() ==> map@[e1].key@ != map@[e2].key@,
            forall|dx: int, gi: int|
                0 <= dx < d && 0 <= gi < defs@[dx].globs@.len() && (
                #[trigger] defs@[dx].globs@[gi]).pattern is Some ==> spec_contains_doc(
                    map@,
                    defs@[dx].globs@[gi].pattern->0@,
                    arena_of@[dx],
                ),
        decreases n - d,
    {
        let ng = defs[d].globs.len();
        let mut gi: usize = 0;
        while gi < ng
            invariant
                gi <= ng,
                d < n,
                ng == defs@[d as int].globs@.len(),
                n == defs@.len(),
                arena_of@.len() == n,
                forall|dx: int| 0 <= dx < n ==> (#[trigger] arena_of@[dx]) < n,
                forall|e: int, k: int|
                    0 <= e < map@.len() && 0 <= k < map@[e].nodes@.len() ==> (
                    #[trigger] map@[e].nodes@[k]) < n,
                forall|e1: int, e2: int|
                    #![trigger map@[e1].key, map@[e2].key]
                    0 <= e1 < e2 < map@.len() ==> map@[e1].key@ != map@[e2].key@,
                forall|dx: int, gx: int|
                    (0 <= dx < d || (dx == d && 0 <= gx < gi)) && 0 <= gx
                        < defs@[dx].globs@.len() && (#[trigger] defs@[dx].globs@[gx]).pattern
                        is Some ==> spec_contains_doc(
                        map@,
                        defs@[dx].globs@[gx].pattern->0@,
                        arena_of@[dx],
                    ),
            decreases ng - gi,
        {
            match &defs[d].globs[gi].pattern {
                Some(pat) => {
                    let ghost pre = map@;
                    insert_or_append(&mut map, pat.clone(), arena_of[d]);
                    proof {
                        lemma_registration_preserved(pre, map@, pat@, arena_of@[d as int]);
                        if spec_find_entry(pre, pat@) is None {
                            lemma_find_none_keys(pre, pat@);
                        } else {
                            lemma_find_entry_props(pre, pat@);
                        }
                    }
                },
                None => {},
            }
            gi += 1;
        }
        d += 1;
    }
    map
}


/// Finds the first map entry carrying `key`.
fn find_entry_vec(entries: &Vec<MapEntry>, key: &str) -> (r: Option<usize>)
    ensures
        match r {
            Some(e) => e < entries@.len() && spec_lookup_entries(entries@, key@) == Some(
                entries@[e as int].nodes@,
            ),
            None => spec_lookup_entries(entries@, key@) is None,
        },
{
    let mut e: usize = 0;
    while e < entries.len()
        invariant
            e <= entries@.len(),
            forall|j: int| 0 <= j < e ==> (#[trigger] entries@[j].key)@ != key@,
        decreases entries@.len() - e,
    {
        if str_eq(entries[e].key.as_str(), key) {
            proof {
                lemma_lookup_entries_at(entries@, key@, e as int);
            }
            return Some(e);
        }
        e += 1;
    }
    proof {
        lemma_lookup_entries_none(entries@, key@);
    }
    None
}

/// Appends the canonical node of one curated type, when the database
/// declares it.
fn curated_step(entries: &Vec<MapEntry>, acc: &mut Vec<usize>, key: &str)
    ensures
        final(acc)@ == spec_curated_step(entries@, old(acc)@, key@),
        forall|p: int|
            0 <= p < final(acc)@.len() ==> (0 <= p < old(acc)@.len()
                && (#[trigger] final(acc)@[p]) == old(acc)@[p]) || (exists|e: int, k: int|
                #![trigger entries@[e].nodes@[k]]
                0 <= e < entries@.len() && 0 <= k < entries@[e].nodes@.len()
                    && entries@[e].nodes@[k] == final(acc)@[p]),
{
    match find_entry_vec(entries, key) {
        Some(e) => {
            if entries[e].nodes.len() > 0 {
                let idx = entries[e].nodes[0];
                acc.push(idx);
            }
        },
        None => {},
    }
}

/// Builds the compiled arena in registry order.
#[verifier::rlimit(100)]
fn build_arena(
    defs: &Vec<MimeType>,
    perm: &Vec<usize>,
    arena_of: &Vec<usize>,
    prios: &Vec<u32>,
) -> (r: Vec<TypeNode>)
    requires
        perm@.len() == defs@.len(),
        arena_of@.len() == defs@.len(),
        prios@.len() == defs@.len(),
        forall|t: int| 0 <= t < perm@.len() ==> (#[trigger] perm@[t]) < defs@.len(),
        forall|dx: int|
            0 <= dx < defs@.len() ==> (#[trigger] arena_of@[dx]) < defs@.len()
                && perm@[arena_of@[dx] as int] == dx,
        forall|d2: int|
            0 <= d2 < defs@.len() ==> spec_mime_err(#[trigger] defs@[d2]) is None,
        forall|d2: int|
            0 <= d2 < defs@.len() ==> (#[trigger] prios@[d2]) == spec_priority_of(defs@[d2]),
    ensures
        r@.len() == defs@.len(),
        forall|i: int| 0 <= i < r@.len() ==> (#[trigger] r@[i].doc_index) == perm@[i],
        forall|i: int| 0 <= i < r@.len() ==> spec_node_corresponds(#[trigger] r@[i], defs@),
        forall|i: int, k: int|
            0 <= i < r@.len() && 0 <= k < r@[i].children@.len() ==> {
                let c = #[trigger] r@[i].children@[k];
                (c as int) < defs@.len() && c == arena_of@[spec_child_docs(defs@, r@[i].mime@)[k]]
            },
{
    let n = defs.len();
    let mut nodes: Vec<TypeNode> = Vec::new();
    let mut t: usize = 0;
    while t < n
        invariant
            t <= n,
            n == defs@.len(),
            perm@.len() == n,
            arena_of@.len() == n,
            prios@.len() == n,
            forall|t2: int| 0 <= t2 < n ==> (#[trigger] perm@[t2]) < n,
            forall|dx: int|
                0 <= dx < n ==> (#[trigger] arena_of@[dx]) < n && perm@[arena_of@[dx] as int]
                    == dx,
            forall|d2: int| 0 <= d2 < n ==> spec_mime_err(#[trigger] defs@[d2]) is None,
            forall|d2: int|
                0 <= d2 < n ==> (#[trigger] prios@[d2]) == spec_priority_of(defs@[d2]),
            nodes@.len() == t,
            forall|i: int| 0 <= i < t ==> (#[trigger] nodes@[i].doc_index) == perm@[i],
            forall|i: int| 0 <= i < t ==> spec_node_corresponds(#[trigger] nodes@[i], defs@),
            forall|i: int, k: int|
                0 <= i < t && 0 <= k < nodes@[i].children@.len() ==> {
                    let c = #[trigger] nodes@[i].children@[k];
                    (c as int) < n && c == arena_of@[spec_child_docs(defs@, nodes@[i].mime@)[k]]
                },
        decreases n - t,
    {
        let dd = perm[t];
        let rule = match actions_to_rules(&defs[dd]) {
            Ok(rule) => rule,
            Err(_) => {
                proof {
                    assert(false);
                }
                return nodes;
            },
        };
        // the children, in document order, as arena indices
        let ghost parent = defs@[dd as int].mime_type@;
        let mut ch: Vec<usize> = Vec::new();
        let ghost mut gdocs: Seq<int> = Seq::empty();
        let mut e: usize = 0;
        while e < n
            invariant
                e <= n,
                n == defs@.len(),
                dd < n,
                arena_of@.len() == n,
                forall|dx: int|
                    0 <= dx < n ==> (#[trigger] arena_of@[dx]) < n && perm@[arena_of@[dx] as int]
                        == dx,
                parent == defs@[dd as int].mime_type@,
                ch@.len() == gdocs.len(),
                forall|k: int|
                    0 <= k < gdocs.len() ==> 0 <= #[trigger] gdocs[k] < n,
                forall|k: int|
                    0 <= k < ch@.len() ==> (#[trigger] ch@[k]) == arena_of@[gdocs[k]],
                spec_child_docs(defs@, parent) =~= gdocs + spec_child_docs_from(
                    defs@,
                    parent,
                    e as int,
                ),
            decreases n - e,
        {
            if declares_subclass(&defs[e], defs[dd].mime_type.as_str()) {
                ch.push(arena_of[e]);
                proof {
                    gdocs = gdocs.push(e as int);
                    assert(gdocs + spec_child_docs_from(defs@, parent, e + 1) =~= gdocs.drop_last()
                        + (seq![e as int] + spec_child_docs_from(defs@, parent, e + 1)));
                }
            }
            e += 1;
        }
        proof {
            assert(spec_child_docs_from(defs@, parent, n as int) =~= Seq::<int>::empty());
            assert(gdocs + Seq::<int>::empty() =~= gdocs);
            assert(spec_child_docs(defs@, parent) =~= gdocs);
        }
        let node = TypeNode {
            mime: defs[dd].mime_type.clone(),
            exts: globs_of(&defs[dd]),
            children: ch,
            rule,
            priority: prios[dd],
            doc_index: dd,
        };
        nodes.push(node);
        t += 1;
    }
    nodes
}

/// Compiles a signature database into the immutable registries, or
/// fails the whole build with a diagnostic: the first malformed rule in
/// document order, a duplicate identifier, or a cyclic hierarchy.
#[verifier::rlimit(100)]
pub fn compile(defs: &Vec<MimeType>) -> (r: Result<Registry, BuildError>)
    requires
        defs@.len() < usize::MAX,
    ensures
        r matches Ok(reg) ==> reg.wf() && spec_compiled_from(reg, defs@) && spec_first_def_err(
            defs@,
            0,
        ) is None && !spec_has_dup(defs@) && spec_acyclic(defs@),
        r matches Err(e) ==> if spec_first_def_err(defs@, 0) is Some {
            Some(e) == spec_first_def_err(defs@, 0)
        } else if spec_has_dup(defs@) {
            e == BuildError::DuplicateType
        } else {
            e == BuildError::CyclicHierarchy && !spec_acyclic(defs@)
        },
{
    let n = defs.len();
    // document-order error pass, priorities, short identifiers
    let mut prios: Vec<u32> = Vec::new();
    let mut shorts: Vec<String> = Vec::new();
    let mut d: usize = 0;
    while d < n
        invariant
            d <= n,
            n == defs@.len(),
            prios@.len() == d,
            shorts@.len() == d,
            forall|d2: int| 0 <= d2 < d ==> spec_mime_err(#[trigger] defs@[d2]) is None,
            forall|d2: int|
                0 <= d2 < d ==> (#[trigger] prios@[d2]) == spec_priority_of(defs@[d2]),
            forall|d2: int|
                0 <= d2 < d ==> (#[trigger] shorts@[d2])@ == spec_short_name(
                    defs@[d2].mime_type@,
                ),
        decreases n - d,
    {
        match actions_to_rules(&defs[d]) {
            Ok(_) => {},
            Err(e) => {
                proof {
                    lemma_first_def_err_skip(defs@, 0, d as int);
                }
                return Err(e);
            },
        }
        prios.push(priority_of(&defs[d]));
        shorts.push(mime_to_short_name(defs[d].mime_type.as_str()));
        d += 1;
    }
    proof {
        lemma_first_def_err_skip(defs@, 0, n as int);
    }
    // duplicate detection
    match check_duplicates(defs, &shorts) {
        Ok(()) => {},
        Err(e) => {
            return Err(e);
        },
    }
    assert forall|d1: int, d2: int|
        #![trigger defs@[d1].mime_type, defs@[d2].mime_type]
        0 <= d1 < d2 < n implies defs@[d1].mime_type@ != defs@[d2].mime_type@ by {
        if defs@[d1].mime_type@ == defs@[d2].mime_type@ {
            assert(spec_collides(defs@[d1], defs@[d2]));
            assert(spec_has_dup(defs@));
        }
    }
    // registry order
    let counts = child_counts(defs);
    let perm = sort_doc_order(&prios, &counts);
    // the inverse placement
    let mut arena_of: Vec<usize> = Vec::new();
    let mut z: usize = 0;
    while z < n
        invariant
            z <= n,
            arena_of@.len() == z,
        decreases n - z,
    {
        arena_of.push(0);
        z += 1;
    }
    let mut t: usize = 0;
    while t < n
        invariant
            t <= n,
            n == defs@.len(),
            perm@.len() == n,
            arena_of@.len() == n,
            forall|t2: int| 0 <= t2 < n ==> (#[trigger] perm@[t2]) < n,
            forall|t1: int, t2: int|
                #![trigger perm@[t1], perm@[t2]]
                0 <= t1 < t2 < n ==> perm@[t1] != perm@[t2],
            forall|t2: int| 0 <= t2 < t ==> (#[trigger] arena_of@[perm@[t2] as int]) == t2,
        decreases n - t,
    {
        arena_of.set(perm[t], t);
        assert forall|t2: int|
            0 <= t2 < t + 1 implies (#[trigger] arena_of@[perm@[t2] as int]) == t2 by {
            if t2 < t {
                assert(perm@[t2] != perm@[t as int]);
            }
        }
        t += 1;
    }
    assert forall|dx: int|
        0 <= dx < n implies (#[trigger] arena_of@[dx]) < n && perm@[arena_of@[dx] as int]
        == dx by {
        assert(spec_covered(perm@, dx));
        let tx = choose|tx: int| 0 <= tx < perm@.len() && (#[trigger] perm@[tx]) == dx;
        assert(arena_of@[perm@[tx] as int] == tx);
    }
    // the arena itself
    let nodes = build_arena(defs, &perm, &arena_of, &prios);
    // children edges reflect subclass declarations
    assert(spec_edges_reflect(nodes@, defs@)) by {
        assert forall|i: int, k: int|
            0 <= i < nodes@.len() && 0 <= k < nodes@[i].children@.len() implies {
            let c = #[trigger] nodes@[i].children@[k];
            c < nodes@.len() && spec_declares_subclass(
                defs@[nodes@[c as int].doc_index as int],
                nodes@[i].mime@,
            )
        } by {
            let c = nodes@[i].children@[k];
            lemma_child_docs_members(defs@, nodes@[i].mime@, 0);
            let cd = spec_child_docs(defs@, nodes@[i].mime@)[k];
            assert(c == arena_of@[cd]);
            assert(nodes@[c as int].doc_index == perm@[c as int]);
            assert(perm@[arena_of@[cd] as int] == cd);
        }
    }
    // cycle check and rank certificate
    let ranks = match peel_ranks(&nodes, defs) {
        Ok(g) => g,
        Err(e) => {
            return Err(e);
        },
    };
    // lookup maps and curated probe list
    let mime_map = build_mime_map(defs, &arena_of);
    let ext_map = build_ext_map(defs, &arena_of);
    let mut priority_nodes: Vec<usize> = Vec::new();
    curated_step(&mime_map, &mut priority_nodes, "image/png");
    assert(forall|px: int|
        0 <= px < priority_nodes@.len() ==> (#[trigger] priority_nodes@[px]) < n);
    curated_step(&mime_map, &mut priority_nodes, "image/gif");
    assert(forall|px: int|
        0 <= px < priority_nodes@.len() ==> (#[trigger] priority_nodes@[px]) < n);
    curated_step(&mime_map, &mut priority_nodes, "image/jpeg");
    assert(forall|px: int|
        0 <= px < priority_nodes@.len() ==> (#[trigger] priority_nodes@[px]) < n);
    curated_step(&mime_map, &mut priority_nodes, "application/zip");
    assert(forall|px: int|
        0 <= px < priority_nodes@.len() ==> (#[trigger] priority_nodes@[px]) < n);
    curated_step(&mime_map, &mut priority_nodes, "application/pdf");
    assert(forall|px: int|
        0 <= px < priority_nodes@.len() ==> (#[trigger] priority_nodes@[px]) < n);
    curated_step(&mime_map, &mut priority_nodes, "application/x-dosexec");
    assert(forall|px: int|
        0 <= px < priority_nodes@.len() ==> (#[trigger] priority_nodes@[px]) < n);
    assert(priority_nodes@ == spec_curated(mime_map@));
    let reg = Registry { nodes, mime_map, ext_map, priority_nodes, ranks };
    // the hierarchy admits a document-level ranking
    assert(spec_acyclic(defs@)) by {
        let rk = Seq::new(n as nat, |dx: int| ranks@[arena_of@[dx] as int]);
        assert(rk.len() == defs@.len());
        assert forall|dp: int, ec: int|
            #![trigger spec_declares_subclass(defs@[ec], defs@[dp].mime_type@)]
            0 <= dp < n && 0 <= ec < n && spec_declares_subclass(
                defs@[ec],
                defs@[dp].mime_type@,
            ) implies rk[ec] < rk[dp] by {
            let i = arena_of@[dp] as int;
            assert(reg.nodes@[i].mime@ == defs@[dp].mime_type@);
            lemma_child_docs_complete(defs@, defs@[dp].mime_type@, 0, ec);
            let k = choose|k: int|
                0 <= k < spec_child_docs(defs@, defs@[dp].mime_type@).len() && (
                #[trigger] spec_child_docs(defs@, defs@[dp].mime_type@)[k]) == ec;
            assert(reg.nodes@[i].children@.len() == spec_child_docs(
                defs@,
                defs@[dp].mime_type@,
            ).len());
            let c = reg.nodes@[i].children@[k];
            assert(c == arena_of@[ec]);
            assert(ranks@[c as int] < ranks@[i]);
        }
    }
    // well-formedness
    assert(reg.wf()) by {
        assert forall|i: int, j: int|
            #![trigger reg.nodes@[i].mime, reg.nodes@[j].mime]
            0 <= i < j < n implies reg.nodes@[i].mime@ != reg.nodes@[j].mime@ by {
            assert(reg.nodes@[i].doc_index == perm@[i]);
            assert(reg.nodes@[j].doc_index == perm@[j]);
            assert(perm@[i] != perm@[j]);
        }
        assert forall|i: int, j: int|
            #![trigger reg.nodes@[i].priority, reg.nodes@[j].priority]
            0 <= i < j < n implies reg.nodes@[i].priority >= reg.nodes@[j].priority by {
            assert(spec_key_lt(
                prios@[perm@[i] as int],
                counts@[perm@[i] as int] as int,
                perm@[i] as int,
                prios@[perm@[j] as int],
                counts@[perm@[j] as int] as int,
                perm@[j] as int,
            ));
            assert(reg.nodes@[i].priority == prios@[perm@[i] as int]);
        }
    }
    // full correspondence
    assert(spec_compiled_from(reg, defs@)) by {
        assert forall|i: int, k: int|
            0 <= i < n && 0 <= k < reg.nodes@[i].children@.len() implies {
            let c = #[trigger] reg.nodes@[i].children@[k];
            (c as int) < n && reg.nodes@[c as int].doc_index as int == spec_child_docs(
                defs@,
                reg.nodes@[i].mime@,
            )[k]
        } by {
            let c = reg.nodes@[i].children@[k];
            let cd = spec_child_docs(defs@, reg.nodes@[i].mime@)[k];
            lemma_child_docs_members(defs@, reg.nodes@[i].mime@, 0);
            assert(c == arena_of@[cd]);
            assert(reg.nodes@[c as int].doc_index == perm@[c as int]);
        }
        assert forall|i: int, j: int|
            #![trigger reg.nodes@[i].priority, reg.nodes@[j].priority]
            0 <= i < j < n implies spec_key_lt(
            reg.nodes@[i].priority,
            reg.nodes@[i].children@.len() as int,
            reg.nodes@[i].doc_index as int,
            reg.nodes@[j].priority,
            reg.nodes@[j].children@.len() as int,
            reg.nodes@[j].doc_index as int,
        ) by {
            assert(spec_key_lt(
                prios@[perm@[i] as int],
                counts@[perm@[i] as int] as int,
                perm@[i] as int,
                prios@[perm@[j] as int],
                counts@[perm@[j] as int] as int,
                perm@[j] as int,
            ));
            assert(reg.nodes@[i].children@.len() == spec_child_docs(
                defs@,
                reg.nodes@[i].mime@,
            ).len());
            assert(counts@[perm@[i] as int] as int == spec_child_docs(
                defs@,
                defs@[perm@[i] as int].mime_type@,
            ).len());
        }
        assert forall|i: int|
            0 <= i < n implies match reg.spec_lookup((#[trigger] reg.nodes@[i]).mime@) {
            Some(ns) => ns.len() >= 1 && ns[0] as int == i,
            None => false,
        } by {
            let dx = reg.nodes@[i].doc_index as int;
            assert(reg.mime_map@[dx].key@ == defs@[dx].mime_type@);
            assert forall|j: int| 0 <= j < dx implies (#[trigger] reg.mime_map@[j].key)@
                != reg.nodes@[i].mime@ by {
                assert(reg.mime_map@[j].key@ == defs@[j].mime_type@);
            }
            lemma_lookup_entries_at(reg.mime_map@, reg.nodes@[i].mime@, dx);
            assert(reg.mime_map@[dx].nodes@[0] == arena_of@[dx]);
            assert(arena_of@[perm@[i] as int] == i);
        }
        assert forall|dx: int, a: int|
            0 <= dx < n && 0 <= a < defs@[dx].aliases@.len() && (
            #[trigger] defs@[dx].aliases@[a]).alias_type is Some implies spec_registered_under(
            reg.mime_map@,
            reg.nodes@,
            defs@[dx].aliases@[a].alias_type->0@,
            dx,
        ) by {
            let key = defs@[dx].aliases@[a].alias_type->0@;
            assert(spec_contains_doc(reg.mime_map@, key, arena_of@[dx as int]));
            lemma_contains_to_registered(reg.mime_map@, reg.nodes@, key, arena_of@[dx as int]);
            assert(reg.nodes@[arena_of@[dx] as int].doc_index == perm@[arena_of@[dx] as int]);
        }
        assert forall|dx: int, gi: int|
            0 <= dx < n && 0 <= gi < defs@[dx].globs@.len() && (
            #[trigger] defs@[dx].globs@[gi]).pattern is Some implies spec_registered_under(
            reg.ext_map@,
            reg.nodes@,
            defs@[dx].globs@[gi].pattern->0@,
            dx,
        ) by {
            let key = defs@[dx].globs@[gi].pattern->0@;
            assert(spec_contains_doc(reg.ext_map@, key, arena_of@[dx as int]));
            lemma_contains_to_registered(reg.ext_map@, reg.nodes@, key, arena_of@[dx as int]);
            assert(reg.nodes@[arena_of@[dx] as int].doc_index == perm@[arena_of@[dx] as int]);
        }
    }
    Ok(reg)
}

/// With pairwise-distinct keys, a contained registration is found by
/// lookup.
proof fn lemma_contains_to_registered(
    entries: Seq<MapEntry>,
    nodes: Seq<TypeNode>,
    key: Seq<char>,
    idx: usize,
)
    requires
        forall|e1: int, e2: int|
            #![trigger entries[e1].key, entries[e2].key]
            0 <= e1 < e2 < entries.len() ==> entries[e1].key@ != entries[e2].key@,
        spec_contains_doc(entries, key, idx),
        (idx as int) < nodes.len(),
    ensures
        match spec_lookup_entries(entries, key) {
            Some(ns) => exists|p: int|
                0 <= p < ns.len() && (#[trigger] ns[p]) == idx && ns[p] < nodes.len(),
            None => false,
        },
{
    let (e, px) = choose|e: int, px: int|
        #![trigger entries[e].nodes@[px]]
        0 <= e < entries.len() && entries[e].key@ == key && 0 <= px < entries[e].nodes@.len()
            && entries[e].nodes@[px] == idx;
    assert forall|j: int| 0 <= j < e implies (#[trigger] entries[j].key)@ != key by {
        if entries[j].key@ == key {
            assert(entries[j].key@ != entries[e].key@);
        }
    }
    lemma_lookup_entries_at(entries, key, e);
    let ns = spec_lookup_entries(entries, key)->0;
    assert(ns[px] == idx && ns[px] < nodes.len());
}

} // verus!
