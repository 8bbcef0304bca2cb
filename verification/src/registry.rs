//! The compiled, immutable registries: an arena of type nodes with
//! parent-to-child edges stored as indices, the exact-lookup map from
//! mime and alias strings to nodes, the extension map, and the curated
//! probe list.

use crate::rules::MatchRule;
use crate::strutil::str_eq;
use vstd::prelude::*;

verus! {

/// One compiled type: its mime string, extension hints, edges to its
/// more-specific children, its matcher expression and its priority.
#[derive(Debug)]
pub struct TypeNode {
    pub mime: String,
    pub exts: Vec<String>,
    pub children: Vec<usize>,
    pub rule: MatchRule,
    pub priority: u32,
    /// Which definition record the node was compiled from.
    pub doc_index: usize,
}

/// One entry of an exact-lookup map: a key and the nodes registered
/// under it.
#[derive(Debug)]
pub struct MapEntry {
    pub key: String,
    pub nodes: Vec<usize>,
}

/// The compiled registries, built once and never mutated.
pub struct Registry {
    /// Every compiled type, sorted by descending priority, ties broken
    /// by ascending child count and then by document order.
    pub nodes: Vec<TypeNode>,
    /// Mime and alias strings to the nodes that implement them.
    pub mime_map: Vec<MapEntry>,
    /// Glob patterns to nodes; populated but not consulted by the
    /// detection engine.
    pub ext_map: Vec<MapEntry>,
    /// A short curated list of very common types, probed before the
    /// full scan.
    pub priority_nodes: Vec<usize>,
    /// A build-time certificate that the child graph is acyclic: every
    /// edge descends strictly in rank.
    pub ranks: Ghost<Seq<int>>,
}

impl Registry {
    /// Well-formedness: indices in range, edges descending in rank,
    /// mime strings pairwise distinct, arena sorted by descending
    /// priority, lookup keys pairwise distinct.
    pub open spec fn wf(self) -> bool {
        let n = self.nodes@.len() as int;
        &&& self.ranks@.len() == n
        &&& forall|i: int| 0 <= i < n ==> 0 <= #[trigger] self.ranks@[i] < n
        &&& forall|i: int, k: int|
            0 <= i < n && 0 <= k < self.nodes@[i].children@.len() ==> (
            #[trigger] self.nodes@[i].children@[k]) < n && self.ranks@[self.nodes@[i].children@[k] as int]
                < self.ranks@[i]
        &&& forall|p: int|
            0 <= p < self.priority_nodes@.len() ==> (#[trigger] self.priority_nodes@[p]) < n
        &&& forall|e: int, k: int|
            0 <= e < self.mime_map@.len() && 0 <= k < self.mime_map@[e].nodes@.len() ==> (
            #[trigger] self.mime_map@[e].nodes@[k]) < n
        &&& forall|i: int, j: int|
            #![trigger self.nodes@[i].mime, self.nodes@[j].mime]
            0 <= i < j < n ==> self.nodes@[i].mime@ != self.nodes@[j].mime@
        &&& forall|i: int, j: int|
            #![trigger self.nodes@[i].priority, self.nodes@[j].priority]
            0 <= i < j < n ==> self.nodes@[i].priority >= self.nodes@[j].priority
        &&& forall|e1: int, e2: int|
            #![trigger self.mime_map@[e1].key, self.mime_map@[e2].key]
            0 <= e1 < e2 < self.mime_map@.len() ==> self.mime_map@[e1].key@
                != self.mime_map@[e2].key@
    }

    /// The node list registered under a key, if any.
    pub open spec fn spec_lookup(self, key: Seq<char>) -> Option<Seq<usize>> {
        spec_lookup_entries(self.mime_map@, key)
    }

    /// Resolves a mime or alias string to the index of its map entry.
    pub fn lookup_entry(&self, key: &str) -> (r: Option<usize>)
        ensures
            match r {
                Some(e) => e < self.mime_map@.len() && self.spec_lookup(key@) == Some(
                    self.mime_map@[e as int].nodes@,
                ),
                None => self.spec_lookup(key@) is None,
            },
    {
        let mut e: usize = 0;
        while e < self.mime_map.len()
            invariant
                e <= self.mime_map@.len(),
                forall|j: int| 0 <= j < e ==> (#[trigger] self.mime_map@[j].key)@ != key@,
        decreases self.mime_map@.len() - e,
        {
            if str_eq(self.mime_map[e].key.as_str(), key) {
                proof {
                    lemma_lookup_entries_at(self.mime_map@, key@, e as int);
                }
                return Some(e);
            }
            e += 1;
        }
        proof {
            lemma_lookup_entries_none(self.mime_map@, key@);
        }
        None
    }
}

/// First-match lookup over an entry list.
pub open spec fn spec_lookup_entries(entries: Seq<MapEntry>, key: Seq<char>) -> Option<Seq<usize>>
    decreases entries.len(),
{
    if entries.len() == 0 {
        None
    } else if entries[0].key@ == key {
        Some(entries[0].nodes@)
    } else {
        spec_lookup_entries(entries.drop_first(), key)
    }
}

pub proof fn lemma_lookup_entries_at(entries: Seq<MapEntry>, key: Seq<char>, e: int)
    requires
        0 <= e < entries.len(),
        entries[e].key@ == key,
        forall|j: int| 0 <= j < e ==> (#[trigger] entries[j].key)@ != key,
    ensures
        spec_lookup_entries(entries, key) == Some(entries[e].nodes@),
    decreases e,
{
    if e > 0 {
        lemma_lookup_entries_at(entries.drop_first(), key, e - 1);
    }
}

pub proof fn lemma_lookup_entries_none(entries: Seq<MapEntry>, key: Seq<char>)
    requires
        forall|j: int| 0 <= j < entries.len() ==> (#[trigger] entries[j].key)@ != key,
    ensures
        spec_lookup_entries(entries, key) is None,
    decreases entries.len(),
{
    if entries.len() > 0 {
        lemma_lookup_entries_none(entries.drop_first(), key);
    }
}

} // verus!
