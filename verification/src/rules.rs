//! Compiled matcher expressions.
//!
//! The rule compiler turns each type's match trees into one boolean
//! expression over the matcher primitives; the detection engine
//! interprets that expression against a byte buffer.  `Empty` is the
//! always-false placeholder left by a malformed or degraded rule.

use crate::matchers;
use vstd::prelude::*;

verus! {

broadcast use vstd::std_specs::vec::axiom_vec_index_decreases;

/// One node of a compiled matcher expression.
#[derive(Debug, PartialEq, Eq)]
pub enum MatchRule {
    /// Bytes at a fixed offset.
    Str(u32, Vec<u8>),
    /// Bytes anywhere within an inclusive range of start positions.
    StrRange(u32, u32, Vec<u8>),
    /// Case-insensitive bytes at a fixed offset.
    StrCaseInsensitive(u32, Vec<u8>),
    /// Case-insensitive bytes within a range.
    StrRangeCaseInsensitive(u32, u32, Vec<u8>),
    /// Bitwise-masked bytes at a fixed offset.
    StrMask(u32, Vec<u8>, Vec<u8>),
    /// Bitwise-masked bytes within a range.
    StrMaskRange(u32, u32, Vec<u8>, Vec<u8>),
    /// Masked, case-insensitive bytes at a fixed offset.
    StrMaskCaseInsensitive(u32, Vec<u8>, Vec<u8>),
    /// Masked, case-insensitive bytes within a range.
    StrMaskRangeCaseInsensitive(u32, u32, Vec<u8>, Vec<u8>),
    /// A regular expression anchored at or after a fixed offset.
    Regex(u32, String),
    /// A regular expression within an inclusive byte range.
    RegexRange(u32, u32, String),
    /// A 32-bit integer match, stored as its encoded bytes.
    ValueU32(u32, Vec<u8>),
    /// A 16-bit integer match, stored as its encoded bytes.
    ValueU16(u32, Vec<u8>),
    /// A UTF-16LE byte sequence at a fixed offset.
    UnicodeLE(u32, Vec<u8>),
    /// A UTF-16LE byte sequence within a range.
    UnicodeLERange(u32, u32, Vec<u8>),
    /// All children must match.
    And(Vec<MatchRule>),
    /// At least one child must match.
    Or(Vec<MatchRule>),
    /// The always-false placeholder.
    Empty,
}

impl MatchRule {
    /// What the rule says of a buffer.  A ranged search with an empty
    /// needle matches nothing.
    pub open spec fn spec_eval(self, bytes: Seq<u8>) -> bool
        decreases self,
    {
        match self {
            MatchRule::Str(off, n) => matchers::spec_offset(bytes, off as int, n@),
            MatchRule::StrRange(s, e, n) => n@.len() >= 1 && matchers::spec_offset_range(
                bytes,
                s as int,
                e as int,
                n@,
            ),
            MatchRule::StrCaseInsensitive(off, n) => matchers::spec_offset_ci(
                bytes,
                off as int,
                n@,
            ),
            MatchRule::StrRangeCaseInsensitive(s, e, n) => n@.len() >= 1
                && matchers::spec_offset_range_ci(bytes, s as int, e as int, n@),
            MatchRule::StrMask(off, n, m) => matchers::spec_offset_mask(bytes, off as int, n@, m@),
            MatchRule::StrMaskRange(s, e, n, m) => n@.len() >= 1 && matchers::spec_offset_mask_range(
                bytes,
                s as int,
                e as int,
                n@,
                m@,
            ),
            MatchRule::StrMaskCaseInsensitive(off, n, m) => matchers::spec_offset_mask_ci(
                bytes,
                off as int,
                n@,
                m@,
            ),
            MatchRule::StrMaskRangeCaseInsensitive(s, e, n, m) => n@.len() >= 1
                && matchers::spec_offset_mask_range_ci(bytes, s as int, e as int, n@, m@),
            MatchRule::Regex(off, p) => matchers::spec_regex_at(bytes, off as int, p@),
            MatchRule::RegexRange(s, e, p) => matchers::spec_regex_range(
                bytes,
                s as int,
                e as int,
                p@,
            ),
            MatchRule::ValueU32(off, n) => matchers::spec_offset(bytes, off as int, n@),
            MatchRule::ValueU16(off, n) => matchers::spec_offset(bytes, off as int, n@),
            MatchRule::UnicodeLE(off, n) => matchers::spec_offset(bytes, off as int, n@),
            MatchRule::UnicodeLERange(s, e, n) => n@.len() >= 1 && matchers::spec_unicode_le_range(
                bytes,
                s as int,
                e as int,
                n@,
            ),
            MatchRule::And(rs) => spec_eval_all(rs, bytes, 0),
            MatchRule::Or(rs) => spec_eval_any(rs, bytes, 0),
            MatchRule::Empty => false,
        }
    }

    /// A virtual rule carries no signature of its own.
    pub open spec fn spec_is_virtual(self) -> bool {
        self is Empty
    }

    /// True when the rule is the always-false placeholder, so the node
    /// exists purely to group children.
    pub fn is_virtual(&self) -> (r: bool)
        ensures
            r == self.spec_is_virtual(),
    {
        matches!(self, MatchRule::Empty)
    }

    /// Interprets the rule against a buffer; conjunctions and
    /// disjunctions evaluate left to right with short-circuit.
    pub fn eval(&self, bytes: &[u8]) -> (r: bool)
        ensures
            r == self.spec_eval(bytes@),
        decreases *self,
    {
        match self {
            MatchRule::Str(off, n) => matchers::offset(bytes, *off as usize, n.as_slice()),
            MatchRule::StrRange(s, e, n) => {
                if n.len() == 0 {
                    false
                } else {
                    matchers::offset_range(bytes, *s as usize, *e as usize, n.as_slice())
                }
            },
            MatchRule::StrCaseInsensitive(off, n) => matchers::offset_case_insensitive(
                bytes,
                *off as usize,
                n.as_slice(),
            ),
            MatchRule::StrRangeCaseInsensitive(s, e, n) => {
                if n.len() == 0 {
                    false
                } else {
                    matchers::offset_range_case_insensitive(
                        bytes,
                        *s as usize,
                        *e as usize,
                        n.as_slice(),
                    )
                }
            },
            MatchRule::StrMask(off, n, m) => matchers::offset_mask(
                bytes,
                *off as usize,
                n.as_slice(),
                m.as_slice(),
            ),
            MatchRule::StrMaskRange(s, e, n, m) => {
                if n.len() == 0 {
                    false
                } else {
                    matchers::offset_mask_range(
                        bytes,
                        *s as usize,
                        *e as usize,
                        n.as_slice(),
                        m.as_slice(),
                    )
                }
            },
            MatchRule::StrMaskCaseInsensitive(off, n, m) => matchers::offset_mask_case_insensitive(
                bytes,
                *off as usize,
                n.as_slice(),
                m.as_slice(),
            ),
            MatchRule::StrMaskRangeCaseInsensitive(s, e, n, m) => {
                if n.len() == 0 {
                    false
                } else {
                    matchers::offset_mask_range_case_insensitive(
                        bytes,
                        *s as usize,
                        *e as usize,
                        n.as_slice(),
                        m.as_slice(),
                    )
                }
            },
            MatchRule::Regex(off, p) => matchers::regex(bytes, *off as usize, p.as_str()),
            MatchRule::RegexRange(s, e, p) => matchers::regex_range(
                bytes,
                *s as usize,
                *e as usize,
                p.as_str(),
            ),
            MatchRule::ValueU32(off, n) => matchers::offset(bytes, *off as usize, n.as_slice()),
            MatchRule::ValueU16(off, n) => matchers::offset(bytes, *off as usize, n.as_slice()),
            MatchRule::UnicodeLE(off, n) => matchers::unicode_le(bytes, *off as usize, n.as_slice()),
            MatchRule::UnicodeLERange(s, e, n) => {
                if n.len() == 0 {
                    false
                } else {
                    matchers::unicode_le_range(bytes, *s as usize, *e as usize, n.as_slice())
                }
            },
            MatchRule::And(rs) => {
                let mut k: usize = 0;
                while k < rs.len()
                    invariant
                        k <= rs@.len(),
                        *self == MatchRule::And(*rs),
                        self.spec_eval(bytes@) == spec_eval_all(*rs, bytes@, k as int),
                    decreases rs@.len() - k,
                {
                    if !rs[k].eval(bytes) {
                        return false;
                    }
                    k += 1;
                }
                true
            },
            MatchRule::Or(rs) => {
                let mut k: usize = 0;
                while k < rs.len()
                    invariant
                        k <= rs@.len(),
                        *self == MatchRule::Or(*rs),
                        self.spec_eval(bytes@) == spec_eval_any(*rs, bytes@, k as int),
                    decreases rs@.len() - k,
                {
                    if rs[k].eval(bytes) {
                        return true;
                    }
                    k += 1;
                }
                false
            },
            MatchRule::Empty => false,
        }
    }
}

/// All rules from position `k` on match.
pub open spec fn spec_eval_all(rs: Vec<MatchRule>, bytes: Seq<u8>, k: int) -> bool
    decreases rs, rs.len() - k,
{
    if 0 <= k < rs.len() {
        rs[k].spec_eval(bytes) && spec_eval_all(rs, bytes, k + 1)
    } else {
        true
    }
}

/// Some rule from position `k` on matches.
pub open spec fn spec_eval_any(rs: Vec<MatchRule>, bytes: Seq<u8>, k: int) -> bool
    decreases rs, rs.len() - k,
{
    if 0 <= k < rs.len() {
        rs[k].spec_eval(bytes) || spec_eval_any(rs, bytes, k + 1)
    } else {
        false
    }
}

} // verus!
