//! A deduplicated cache of the regex patterns found in a rule, each
//! remembered with the index of its first insertion.

use crate::strutil::str_eq;
use vstd::prelude::*;

verus! {

/// The position of the first occurrence of `x` among the patterns.
pub open spec fn spec_pattern_index(ps: Seq<Seq<char>>, x: Seq<char>) -> Option<int>
    decreases ps.len(),
{
    if ps.len() == 0 {
        None
    } else if ps[0] == x {
        Some(0int)
    } else {
        match spec_pattern_index(ps.drop_first(), x) {
            Some(i) => Some(i + 1),
            None => None,
        }
    }
}

proof fn lemma_pattern_index_at(ps: Seq<Seq<char>>, x: Seq<char>, i: int)
    requires
        0 <= i < ps.len(),
        ps[i] == x,
        forall|j: int| 0 <= j < i ==> ps[j] != x,
    ensures
        spec_pattern_index(ps, x) == Some(i),
    decreases i,
{
    if i > 0 {
        lemma_pattern_index_at(ps.drop_first(), x, i - 1);
    }
}

proof fn lemma_pattern_index_none(ps: Seq<Seq<char>>, x: Seq<char>)
    requires
        forall|j: int| 0 <= j < ps.len() ==> ps[j] != x,
    ensures
        spec_pattern_index(ps, x) is None,
    decreases ps.len(),
{
    if ps.len() > 0 {
        lemma_pattern_index_none(ps.drop_first(), x);
    }
}

/// A deduplicated cache of the regexes found in a rule.
#[derive(Debug)]
pub struct RuleRegexes {
    patterns: Vec<String>,
}

impl RuleRegexes {
    /// The cached patterns, in insertion order.
    pub closed spec fn view_patterns(self) -> Seq<Seq<char>> {
        self.patterns@.map(|_i: int, s: String| s@)
    }

    /// An empty cache.
    pub fn new() -> (r: RuleRegexes)
        ensures
            r.view_patterns() == Seq::<Seq<char>>::empty(),
    {
        let r = RuleRegexes { patterns: Vec::new() };
        assert(r.view_patterns() =~= Seq::<Seq<char>>::empty());
        r
    }

    /// Remembers a pattern, once: a pattern already cached keeps its
    /// first index.
    pub fn insert(&mut self, value: &str)
        ensures
            spec_pattern_index(old(self).view_patterns(), value@) is Some ==> final(self).view_patterns()
                == old(self).view_patterns(),
            spec_pattern_index(old(self).view_patterns(), value@) is None ==> final(self).view_patterns()
                == old(self).view_patterns().push(value@),
    {
        match self.position_of(value) {
            Some(_) => {},
            None => {
                let ghost pre = self.view_patterns();
                self.patterns.push(value.to_owned());
                assert(self.view_patterns() =~= pre.push(value@));
            },
        }
    }

    /// The index a pattern was first inserted at.
    pub fn get_index(&self, value: &str) -> (r: Option<usize>)
        ensures
            match spec_pattern_index(self.view_patterns(), value@) {
                Some(i) => r matches Some(v) && v as int == i,
                None => r is None,
            },
    {
        self.position_of(value)
    }

    fn position_of(&self, value: &str) -> (r: Option<usize>)
        ensures
            match spec_pattern_index(self.view_patterns(), value@) {
                Some(i) => r matches Some(v) && v as int == i,
                None => r is None,
            },
    {
        let ghost ps = self.view_patterns();
        let mut i: usize = 0;
        while i < self.patterns.len()
            invariant
                i <= self.patterns@.len(),
                ps == self.view_patterns(),
                forall|j: int| 0 <= j < i ==> #[trigger] ps[j] != value@,
            decreases self.patterns@.len() - i,
        {
            if str_eq(self.patterns[i].as_str(), value) {
                proof {
                    assert(ps[i as int] == value@);
                    lemma_pattern_index_at(ps, value@, i as int);
                }
                return Some(i);
            }
            i += 1;
        }
        proof {
            lemma_pattern_index_none(ps, value@);
        }
        None
    }

    /// The cached patterns with their indices, in insertion order.
    pub fn cloned_iter(&self) -> (r: Vec<(String, usize)>)
        ensures
            r@.len() == self.view_patterns().len(),
            forall|k: int|
                0 <= k < r@.len() ==> (#[trigger] r@[k]).0@ == self.view_patterns()[k]
                    && r@[k].1 == k,
    {
        let mut out: Vec<(String, usize)> = Vec::new();
        let mut i: usize = 0;
        while i < self.patterns.len()
            invariant
                i <= self.patterns@.len(),
                out@.len() == i,
                forall|k: int|
                    0 <= k < i ==> (#[trigger] out@[k]).0@ == self.view_patterns()[k] && out@[k].1
                        == k,
            decreases self.patterns@.len() - i,
        {
            out.push((self.patterns[i].clone(), i));
            i += 1;
        }
        out
    }
}

impl Default for RuleRegexes {
    /// The empty cache.
    fn default() -> (r: RuleRegexes)
        ensures
            r.view_patterns() == Seq::<Seq<char>>::empty(),
    {
        RuleRegexes::new()
    }
}

} // verus!
