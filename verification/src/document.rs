//! The signature document model: one parsed definition record per
//! declared type, as the rule compiler consumes it.
//!
//! The markup dialect that carries these records is an external
//! contract; whatever reads it hands the compiler plain values in these
//! shapes.

use crate::errors::BuildError;
use crate::strutil::str_to_chars;
use crate::values::{parse_uint_chars, spec_parse_uint};
use vstd::prelude::*;
use vstd::string::StringExecFns;

verus! {

/// Where a match applies: a fixed start offset, or an inclusive range
/// of start positions.
#[derive(Debug, PartialEq, Eq, Structural, Copy, Clone)]
pub enum Offset {
    Start(u32),
    Range { start: u32, end: u32 },
}

/// One match element: a typed comparison with optional value, offset
/// and mask, and nested sub-matches.
#[derive(Debug)]
pub struct Match {
    pub value: Option<String>,
    pub match_type: String,
    pub offset: Option<Offset>,
    pub mask: Option<String>,
    pub sub_matches: Vec<Match>,
}

/// A priority-tagged group of match trees.
#[derive(Debug)]
pub struct Magic {
    pub priority: u32,
    pub matches: Vec<Match>,
}

/// An extension hint.
#[derive(Debug, Clone)]
pub struct Glob {
    pub pattern: Option<String>,
}

/// Another identifier that resolves to the same type.
#[derive(Debug, Clone)]
pub struct Alias {
    pub alias_type: Option<String>,
}

/// A parent type that this type specializes.
#[derive(Debug, Clone)]
pub struct SubClass {
    pub class_type: Option<String>,
}

/// An XML root-tag hint: local element name and/or namespace URI.
#[derive(Debug, Clone)]
pub struct RootXml {
    pub local_name: Option<String>,
    pub namespace_uri: Option<String>,
}

/// One declared type: its mime identifier and everything attached to
/// it.
#[derive(Debug)]
pub struct MimeType {
    pub mime_type: String,
    pub globs: Vec<Glob>,
    pub magics: Vec<Magic>,
    pub aliases: Vec<Alias>,
    pub sub_classes: Vec<SubClass>,
    pub root_xml: Vec<RootXml>,
}

/// A whole signature document: an ordered collection of type records.
#[derive(Debug)]
pub struct MimeInfo {
    pub mime_types: Vec<MimeType>,
}

/// The priority a magic block carries when it declares none.
pub fn default_priority() -> (r: u32)
    ensures
        r == 0,
{
    0
}

/// The match type an element carries when it declares none.
pub fn default_type() -> (r: String)
    ensures
        r@ == "string"@,
{
    String::from_str("string")
}

/// The position of the first occurrence of `c` in `s`.
pub open spec fn spec_find_char(s: Seq<char>, c: char) -> Option<int>
    decreases s.len(),
{
    if s.len() == 0 {
        None
    } else if s[0] == c {
        Some(0int)
    } else {
        match spec_find_char(s.drop_first(), c) {
            Some(i) => Some(i + 1),
            None => None,
        }
    }
}

proof fn lemma_find_char_at(s: Seq<char>, c: char, i: int)
    requires
        0 <= i < s.len(),
        s[i] == c,
        forall|j: int| 0 <= j < i ==> s[j] != c,
    ensures
        spec_find_char(s, c) == Some(i),
    decreases i,
{
    if i > 0 {
        lemma_find_char_at(s.drop_first(), c, i - 1);
    }
}

proof fn lemma_find_char_none(s: Seq<char>, c: char)
    requires
        forall|j: int| 0 <= j < s.len() ==> s[j] != c,
    ensures
        spec_find_char(s, c) is None,
    decreases s.len(),
{
    if s.len() > 0 {
        lemma_find_char_none(s.drop_first(), c);
    }
}

/// What an offset literal denotes: a bare decimal integer is a fixed
/// start, `start:end` is an inclusive range, anything else fails.
pub open spec fn spec_parse_offset(s: Seq<char>) -> Option<Offset> {
    match spec_find_char(s, ':') {
        Some(i) => match (spec_parse_uint(s.subrange(0, i), 10), spec_parse_uint(
            s.skip(i + 1),
            10,
        )) {
            (Some(a), Some(b)) => Some(Offset::Range { start: a, end: b }),
            _ => None,
        },
        None => match spec_parse_uint(s, 10) {
            Some(v) => Some(Offset::Start(v)),
            None => None,
        },
    }
}

impl Offset {
    /// Parses an offset literal, or reports it malformed.
    pub fn parse(input: &str) -> (r: Result<Offset, BuildError>)
        ensures
            match spec_parse_offset(input@) {
                Some(o) => r matches Ok(v) && v == o,
                None => r matches Err(e) && e == BuildError::BadOffset,
            },
    {
        let cs = str_to_chars(input);
        let n = cs.len();
        let mut i: usize = 0;
        while i < n && cs[i] != ':'
            invariant
                i <= n,
                n == cs@.len(),
                cs@ == input@,
                forall|j: int| 0 <= j < i ==> cs@[j] != ':',
            decreases n - i,
        {
            i += 1;
        }
        if i < n {
            proof {
                lemma_find_char_at(input@, ':', i as int);
            }
            let a = parse_uint_chars(&cs, 0, i, 10);
            let b = parse_uint_chars(&cs, i + 1, n, 10);
            proof {
                assert(cs@.subrange(i + 1, n as int) =~= input@.skip(i + 1));
            }
            match (a, b) {
                (Some(start), Some(end)) => Ok(Offset::Range { start, end }),
                _ => Err(BuildError::BadOffset),
            }
        } else {
            proof {
                lemma_find_char_none(input@, ':');
                assert(cs@.subrange(0, n as int) =~= input@);
            }
            match parse_uint_chars(&cs, 0, n, 10) {
                Some(v) => Ok(Offset::Start(v)),
                None => Err(BuildError::BadOffset),
            }
        }
    }
}

} // verus!
