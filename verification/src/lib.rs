//! Content-type detection over byte buffers.
//!
//! A declarative signature database is compiled into an immutable
//! registry of typed matcher expressions; a detection engine then
//! classifies byte buffers against that registry, consulting
//! container-aware inspectors for ZIP-family and OLE compound files
//! before generic signature scanning.

pub mod errors;
pub mod matchers;
pub mod strutil;
pub mod values;
pub mod document;
pub mod rules;
pub mod registry;
pub mod compile;
pub mod zip_inspect;
pub mod ole_inspect;
pub mod rule_regexes;

use crate::ole_inspect::OleSpecialHandler;
use crate::registry::Registry;
use crate::strutil::str_eq;
use crate::zip_inspect::ZipSpecialHandler;
use vstd::prelude::*;
use vstd::string::StringExecFns;

verus! {

/// The recursive containment result for node `i`: the index of the
/// winning node, if any.  When the node's own signature matches, or the
/// node is virtual, its children are consulted in declared order and
/// the first winner below is preferred; the node itself wins only when
/// it matched and no descendant did.  The fuel bounds the recursion
/// depth; the engine always supplies more fuel than the arena is deep.
pub open spec fn spec_node_result(reg: Registry, i: int, bytes: Seq<u8>, fuel: int) -> Option<int>
    decreases fuel, 0int,
{
    if fuel <= 0 || i < 0 || i >= reg.nodes@.len() {
        None
    } else {
        let matched = reg.nodes@[i].rule.spec_eval(bytes);
        if matched || reg.nodes@[i].rule.spec_is_virtual() {
            let c = spec_children_result(reg, reg.nodes@[i].children@, bytes, fuel - 1, 0);
            if c is Some {
                c
            } else if matched {
                Some(i)
            } else {
                None
            }
        } else {
            None
        }
    }
}

/// The first winner among the children from position `k` on.
pub open spec fn spec_children_result(
    reg: Registry,
    children: Seq<usize>,
    bytes: Seq<u8>,
    fuel: int,
    k: int,
) -> Option<int>
    decreases fuel, children.len() - k,
{
    if k < 0 || k >= children.len() {
        None
    } else {
        match spec_node_result(reg, children[k] as int, bytes, fuel) {
            Some(w) => Some(w),
            None => spec_children_result(reg, children, bytes, fuel, k + 1),
        }
    }
}

/// The first winner when scanning the whole arena from position `k`.
pub open spec fn spec_scan(reg: Registry, bytes: Seq<u8>, k: int, fuel: int) -> Option<int>
    decreases reg.nodes@.len() - k,
{
    if 0 <= k < reg.nodes@.len() {
        match spec_node_result(reg, k, bytes, fuel) {
            Some(w) => Some(w),
            None => spec_scan(reg, bytes, k + 1, fuel),
        }
    } else {
        None
    }
}

/// The first winner when probing the curated list from position `p`.
pub open spec fn spec_probe(reg: Registry, bytes: Seq<u8>, p: int, fuel: int) -> Option<int>
    decreases reg.priority_nodes@.len() - p,
{
    if 0 <= p < reg.priority_nodes@.len() {
        match spec_node_result(reg, reg.priority_nodes@[p] as int, bytes, fuel) {
            Some(w) => Some(w),
            None => spec_probe(reg, bytes, p + 1, fuel),
        }
    } else {
        None
    }
}

/// What the container inspectors conclude, ZIP first.
pub open spec fn spec_handle_special(reg: Registry, bytes: Seq<u8>) -> Option<Seq<char>> {
    match crate::zip_inspect::spec_zip_check(reg, bytes) {
        Some(m) => Some(m),
        None => crate::ole_inspect::spec_ole_check(bytes),
    }
}

/// The fuel the engine runs with: one more than the arena could ever
/// be deep.
pub open spec fn spec_engine_fuel(reg: Registry) -> int {
    reg.nodes@.len() as int + 1
}

/// What best-match classification returns: the inspectors' verdict,
/// else the first hit of the curated probe, else the first hit of the
/// full scan, else the generic binary type.
pub open spec fn spec_from_u8(reg: Registry, bytes: Seq<u8>) -> Seq<char> {
    match spec_handle_special(reg, bytes) {
        Some(m) => m,
        None => {
            let fuel = spec_engine_fuel(reg);
            match spec_probe(reg, bytes, 0, fuel) {
                Some(w) => reg.nodes@[w].mime@,
                None => match spec_scan(reg, bytes, 0, fuel) {
                    Some(w) => reg.nodes@[w].mime@,
                    None => "application/octet-stream"@,
                },
            }
        },
    }
}

/// What the exact-type check returns: the inspectors' verdict compared
/// to the requested mime — which must itself resolve through the
/// alias-aware map, so a string registered nowhere never matches — else
/// whether any resolved checker matches by its own signature.  An
/// unknown mime never raises an error.
pub open spec fn spec_match_u8(reg: Registry, m: Seq<char>, bytes: Seq<u8>) -> bool {
    match spec_handle_special(reg, bytes) {
        Some(t) => t == m && reg.spec_lookup(m) is Some,
        None => match reg.spec_lookup(m) {
            Some(ns) => exists|k: int|
                0 <= k < ns.len() && ((#[trigger] ns[k]) as int) < reg.nodes@.len()
                    && reg.nodes@[ns[k] as int].rule.spec_eval(bytes),
            None => false,
        },
    }
}

/// What exhaustive classification returns: every type, in registry
/// order, whose own signature matches, with no recursion into children
/// and no container inspection.
pub open spec fn spec_exhaustive(reg: Registry, bytes: Seq<u8>, k: int) -> Seq<Seq<char>>
    decreases reg.nodes@.len() - k,
{
    if 0 <= k < reg.nodes@.len() {
        let rest = spec_exhaustive(reg, bytes, k + 1);
        if reg.nodes@[k].rule.spec_eval(bytes) {
            seq![reg.nodes@[k].mime@] + rest
        } else {
            rest
        }
    } else {
        Seq::empty()
    }
}

/// A winner is always a node of the arena, and its own signature
/// matched.
pub proof fn lemma_node_result_winner(reg: Registry, i: int, bytes: Seq<u8>, fuel: int)
    ensures
        match spec_node_result(reg, i, bytes, fuel) {
            Some(w) => 0 <= w < reg.nodes@.len() && reg.nodes@[w].rule.spec_eval(bytes),
            None => true,
        },
    decreases fuel, 0int,
{
    if !(fuel <= 0 || i < 0 || i >= reg.nodes@.len()) {
        lemma_children_result_winner(reg, reg.nodes@[i].children@, bytes, fuel - 1, 0);
    }
}

proof fn lemma_children_result_winner(
    reg: Registry,
    children: Seq<usize>,
    bytes: Seq<u8>,
    fuel: int,
    k: int,
)
    ensures
        match spec_children_result(reg, children, bytes, fuel, k) {
            Some(w) => 0 <= w < reg.nodes@.len() && reg.nodes@[w].rule.spec_eval(bytes),
            None => true,
        },
    decreases fuel, children.len() - k,
{
    if 0 <= k < children.len() {
        lemma_node_result_winner(reg, children[k] as int, bytes, fuel);
        lemma_children_result_winner(reg, children, bytes, fuel, k + 1);
    }
}

/// Opens the buffer as a ZIP-family container, when it is one.
fn maybe_open_zip(reg: &Registry, bytes: &[u8]) -> (r: Option<String>)
    ensures
        match crate::zip_inspect::spec_zip_check(*reg, bytes@) {
            Some(m) => r matches Some(s) && s@ == m,
            None => r is None,
        },
{
    let handler = ZipSpecialHandler;
    handler.check(reg, bytes)
}

/// Opens the buffer as an OLE compound file, when it is one.
fn maybe_open_ole(bytes: &[u8]) -> (r: Option<String>)
    ensures
        match crate::ole_inspect::spec_ole_check(bytes@) {
            Some(m) => r matches Some(s) && s@ == m,
            None => r is None,
        },
{
    let handler = OleSpecialHandler;
    handler.check(bytes)
}

/// Runs the ZIP-family inspector, then the OLE inspector.
pub fn handle_special_files(reg: &Registry, bytes: &[u8]) -> (r: Option<String>)
    ensures
        match spec_handle_special(*reg, bytes@) {
            Some(m) => r matches Some(s) && s@ == m,
            None => r is None,
        },
{
    match maybe_open_zip(reg, bytes) {
        Some(m) => {
            return Some(m);
        },
        None => {},
    }
    maybe_open_ole(bytes)
}

/// The recursive containment algorithm for one node.
pub fn check_recursive(reg: &Registry, i: usize, bytes: &[u8], fuel: usize) -> (r: Option<usize>)
    ensures
        match spec_node_result(*reg, i as int, bytes@, fuel as int) {
            Some(w) => r matches Some(v) && v as int == w,
            None => r is None,
        },
    decreases fuel,
{
    if fuel == 0 || i >= reg.nodes.len() {
        return None;
    }
    let matched = reg.nodes[i].rule.eval(bytes);
    let virt = reg.nodes[i].rule.is_virtual();
    if !(matched || virt) {
        return None;
    }
    let nch = reg.nodes[i].children.len();
    let mut k: usize = 0;
    while k < nch
        invariant
            k <= nch,
            i < reg.nodes@.len(),
            fuel >= 1,
            nch == reg.nodes@[i as int].children@.len(),
            matched == reg.nodes@[i as int].rule.spec_eval(bytes@),
            virt == reg.nodes@[i as int].rule.spec_is_virtual(),
            matched || virt,
            spec_children_result(
                *reg,
                reg.nodes@[i as int].children@,
                bytes@,
                fuel - 1,
                0,
            ) == spec_children_result(
                *reg,
                reg.nodes@[i as int].children@,
                bytes@,
                fuel - 1,
                k as int,
            ),
        decreases nch - k,
    {
        let c = reg.nodes[i].children[k];
        match check_recursive(reg, c, bytes, fuel - 1) {
            Some(w) => {
                return Some(w);
            },
            None => {},
        }
        k += 1;
    }
    if matched {
        Some(i)
    } else {
        None
    }
}

/// Checks whether the buffer matches the given mime type; an alias
/// resolves to its canonical type, and an unknown mime yields false.
pub fn match_u8(reg: &Registry, mimetype: &str, bytes: &[u8]) -> (r: bool)
    ensures
        r == spec_match_u8(*reg, mimetype@, bytes@),
{
    match handle_special_files(reg, bytes) {
        Some(t) => {
            let known = match reg.lookup_entry(mimetype) {
                Some(_) => true,
                None => false,
            };
            return str_eq(t.as_str(), mimetype) && known;
        },
        None => {},
    }
    match reg.lookup_entry(mimetype) {
        Some(e) => {
            let nn = reg.mime_map[e].nodes.len();
            let ghost ns = reg.mime_map@[e as int].nodes@;
            let mut k: usize = 0;
            while k < nn
                invariant
                    k <= nn,
                    e < reg.mime_map@.len(),
                    ns == reg.mime_map@[e as int].nodes@,
                    nn == ns.len(),
                    spec_handle_special(*reg, bytes@) is None,
                    reg.spec_lookup(mimetype@) == Some(ns),
                    forall|j: int|
                        0 <= j < k ==> !(((#[trigger] ns[j]) as int) < reg.nodes@.len()
                            && reg.nodes@[ns[j] as int].rule.spec_eval(bytes@)),
                decreases nn - k,
            {
                let idx = reg.mime_map[e].nodes[k];
                if idx < reg.nodes.len() {
                    if reg.nodes[idx].rule.eval(bytes) {
                        return true;
                    }
                }
                k += 1;
            }
            false
        },
        None => false,
    }
}

/// Classifies the buffer: the container inspectors first, then the
/// curated probe list, then the full priority-ordered scan, falling
/// back to the generic binary type.
pub fn from_u8(reg: &Registry, bytes: &[u8]) -> (r: String)
    requires
        reg.nodes@.len() < usize::MAX,
    ensures
        r@ == spec_from_u8(*reg, bytes@),
{
    match handle_special_files(reg, bytes) {
        Some(m) => {
            return m;
        },
        None => {},
    }
    let fuel = reg.nodes.len() + 1;
    let np = reg.priority_nodes.len();
    let mut p: usize = 0;
    while p < np
        invariant
            p <= np,
            np == reg.priority_nodes@.len(),
            fuel == reg.nodes@.len() + 1,
            spec_handle_special(*reg, bytes@) is None,
            spec_probe(*reg, bytes@, 0, fuel as int) == spec_probe(
                *reg,
                bytes@,
                p as int,
                fuel as int,
            ),
        decreases np - p,
    {
        let idx = reg.priority_nodes[p];
        match check_recursive(reg, idx, bytes, fuel) {
            Some(w) => {
                proof {
                    lemma_node_result_winner(*reg, idx as int, bytes@, fuel as int);
                }
                return reg.nodes[w].mime.clone();
            },
            None => {},
        }
        p += 1;
    }
    let n = reg.nodes.len();
    let mut k: usize = 0;
    while k < n
        invariant
            k <= n,
            n == reg.nodes@.len(),
            fuel == reg.nodes@.len() + 1,
            spec_handle_special(*reg, bytes@) is None,
            spec_probe(*reg, bytes@, 0, fuel as int) is None,
            spec_scan(*reg, bytes@, 0, fuel as int) == spec_scan(
                *reg,
                bytes@,
                k as int,
                fuel as int,
            ),
        decreases n - k,
    {
        match check_recursive(reg, k, bytes, fuel) {
            Some(w) => {
                proof {
                    lemma_node_result_winner(*reg, k as int, bytes@, fuel as int);
                }
                return reg.nodes[w].mime.clone();
            },
            None => {},
        }
        k += 1;
    }
    String::from_str("application/octet-stream")
}

/// Reports every type whose own signature matches the buffer,
/// independently, in registry order.
pub fn from_u8_exhaustive(reg: &Registry, bytes: &[u8]) -> (r: Vec<String>)
    ensures
        r@.map(|_i: int, s: String| s@) == spec_exhaustive(*reg, bytes@, 0),
{
    let n = reg.nodes.len();
    let mut out: Vec<String> = Vec::new();
    let mut k: usize = 0;
    while k < n
        invariant
            k <= n,
            n == reg.nodes@.len(),
            spec_exhaustive(*reg, bytes@, 0) =~= out@.map(|_i: int, s: String| s@)
                + spec_exhaustive(*reg, bytes@, k as int),
        decreases n - k,
    {
        let ghost pre = out@;
        if reg.nodes[k].rule.eval(bytes) {
            out.push(reg.nodes[k].mime.clone());
            assert(out@.map(|_i: int, s: String| s@) =~= pre.map(|_i: int, s: String| s@) + seq![
                reg.nodes@[k as int].mime@,
            ]);
        }
        k += 1;
    }
    assert(spec_exhaustive(*reg, bytes@, n as int) =~= Seq::<Seq<char>>::empty());
    assert(out@.map(|_i: int, s: String| s@) + Seq::<Seq<char>>::empty() =~= out@.map(
        |_i: int, s: String| s@,
    ));
    out
}


/// Whether some node of the arena lists `w` among its children.
pub open spec fn spec_is_child(reg: Registry, w: int) -> bool {
    exists|p: int, k: int|
        #![trigger reg.nodes@[p].children@[k]]
        0 <= p < reg.nodes@.len() && 0 <= k < reg.nodes@[p].children@.len()
            && reg.nodes@[p].children@[k] as int == w
}

/// A node whose own signature matches always yields a winner, given
/// any fuel at all.
proof fn lemma_matched_some(reg: Registry, i: int, bytes: Seq<u8>, fuel: int)
    requires
        0 <= i < reg.nodes@.len(),
        reg.nodes@[i].rule.spec_eval(bytes),
        fuel >= 1,
    ensures
        spec_node_result(reg, i, bytes, fuel) is Some,
{
}

/// A matching child makes the children loop yield a winner.
proof fn lemma_children_some(
    reg: Registry,
    children: Seq<usize>,
    bytes: Seq<u8>,
    fuel: int,
    k: int,
    kc: int,
)
    requires
        0 <= k <= kc < children.len(),
        spec_node_result(reg, children[kc] as int, bytes, fuel) is Some,
    ensures
        spec_children_result(reg, children, bytes, fuel, k) is Some,
    decreases kc - k,
{
    if k < kc {
        if spec_node_result(reg, children[k] as int, bytes, fuel) is None {
            lemma_children_some(reg, children, bytes, fuel, k + 1, kc);
        }
    }
}

/// A winner is the scanned node itself or a child of some node.
proof fn lemma_winner_structure(reg: Registry, i: int, bytes: Seq<u8>, fuel: int)
    ensures
        match spec_node_result(reg, i, bytes, fuel) {
            Some(w) => w == i || spec_is_child(reg, w),
            None => true,
        },
    decreases fuel, 0int,
{
    if !(fuel <= 0 || i < 0 || i >= reg.nodes@.len()) {
        lemma_children_winner_structure(reg, i, bytes, fuel - 1, 0);
    }
}

proof fn lemma_children_winner_structure(reg: Registry, i: int, bytes: Seq<u8>, fuel: int, k: int)
    requires
        0 <= i < reg.nodes@.len(),
    ensures
        match spec_children_result(reg, reg.nodes@[i].children@, bytes, fuel, k) {
            Some(w) => spec_is_child(reg, w),
            None => true,
        },
    decreases fuel, reg.nodes@[i].children@.len() - k,
{
    let children = reg.nodes@[i].children@;
    if 0 <= k < children.len() {
        lemma_winner_structure(reg, children[k] as int, bytes, fuel);
        lemma_children_winner_structure(reg, i, bytes, fuel, k + 1);
        match spec_node_result(reg, children[k] as int, bytes, fuel) {
            Some(w) => {
                if w == children[k] as int {
                    assert(reg.nodes@[i].children@[k] as int == w);
                }
            },
            None => {},
        }
    }
}

/// Once some child of `pi` matches, no sufficiently fueled containment
/// run returns `pi` itself: the parent always defers to a descendant.
proof fn lemma_avoid_parent(reg: Registry, bytes: Seq<u8>, pi: int, j: int, fuel: int)
    requires
        reg.wf(),
        0 <= pi < reg.nodes@.len(),
        exists|k: int|
            0 <= k < reg.nodes@[pi].children@.len() && reg.nodes@[(
            #[trigger] reg.nodes@[pi].children@[k]) as int].rule.spec_eval(bytes),
        0 <= j < reg.nodes@.len(),
        fuel >= reg.ranks@[j] + 2,
    ensures
        spec_node_result(reg, j, bytes, fuel) != Some(pi),
    decreases fuel, 0int,
{
    let matched = reg.nodes@[j].rule.spec_eval(bytes);
    if matched || reg.nodes@[j].rule.spec_is_virtual() {
        lemma_avoid_parent_children(reg, bytes, pi, j, fuel - 1, 0);
        let cr = spec_children_result(reg, reg.nodes@[j].children@, bytes, fuel - 1, 0);
        if cr is None && matched && j == pi {
            let k = choose|k: int|
                0 <= k < reg.nodes@[pi].children@.len() && reg.nodes@[(
                #[trigger] reg.nodes@[pi].children@[k]) as int].rule.spec_eval(bytes);
            let cm = reg.nodes@[pi].children@[k] as int;
            assert(reg.ranks@[cm] < reg.ranks@[pi]);
            lemma_matched_some(reg, cm, bytes, fuel - 1);
            lemma_children_some(reg, reg.nodes@[pi].children@, bytes, fuel - 1, 0, k);
            assert(false);
        }
    }
}

proof fn lemma_avoid_parent_children(
    reg: Registry,
    bytes: Seq<u8>,
    pi: int,
    j: int,
    fuel: int,
    k: int,
)
    requires
        reg.wf(),
        0 <= pi < reg.nodes@.len(),
        exists|k2: int|
            0 <= k2 < reg.nodes@[pi].children@.len() && reg.nodes@[(
            #[trigger] reg.nodes@[pi].children@[k2]) as int].rule.spec_eval(bytes),
        0 <= j < reg.nodes@.len(),
        fuel >= reg.ranks@[j] + 1,
    ensures
        spec_children_result(reg, reg.nodes@[j].children@, bytes, fuel, k) != Some(pi),
    decreases fuel, reg.nodes@[j].children@.len() - k,
{
    let children = reg.nodes@[j].children@;
    if 0 <= k < children.len() {
        let c = children[k] as int;
        assert(reg.ranks@[c] < reg.ranks@[j]);
        lemma_avoid_parent(reg, bytes, pi, c, fuel);
        lemma_avoid_parent_children(reg, bytes, pi, j, fuel, k + 1);
    }
}

/// A probe hit comes from some curated entry.
proof fn lemma_probe_from(reg: Registry, bytes: Seq<u8>, p: int, fuel: int)
    ensures
        match spec_probe(reg, bytes, p, fuel) {
            Some(w) => exists|p2: int|
                p <= p2 < reg.priority_nodes@.len() && spec_node_result(
                    reg,
                    (#[trigger] reg.priority_nodes@[p2]) as int,
                    bytes,
                    fuel,
                ) == Some(w),
            None => true,
        },
    decreases reg.priority_nodes@.len() - p,
{
    if 0 <= p < reg.priority_nodes@.len() {
        lemma_probe_from(reg, bytes, p + 1, fuel);
    }
}

/// A scan hit comes from the first position that yields a winner, and
/// no later than any known hit.
proof fn lemma_scan_first(reg: Registry, bytes: Seq<u8>, k: int, fuel: int, hit: int)
    requires
        0 <= k <= hit < reg.nodes@.len(),
        spec_node_result(reg, hit, bytes, fuel) is Some,
    ensures
        exists|s: int|
            k <= s <= hit && spec_node_result(reg, s, bytes, fuel) is Some && spec_scan(
                reg,
                bytes,
                k,
                fuel,
            ) == #[trigger] spec_node_result(reg, s, bytes, fuel),
    decreases hit - k,
{
    if spec_node_result(reg, k, bytes, fuel) is Some {
        assert(spec_scan(reg, bytes, k, fuel) == spec_node_result(reg, k, bytes, fuel));
    } else {
        lemma_scan_first(reg, bytes, k + 1, fuel, hit);
    }
}

/// A string that resolves to no registered type or alias never
/// matches any buffer, whether or not a container inspector claimed a
/// type for the bytes.
pub proof fn lemma_match_unknown_mime(reg: Registry, m: Seq<char>, bytes: Seq<u8>)
    requires
        reg.spec_lookup(m) is None,
    ensures
        !spec_match_u8(reg, m, bytes),
{
}


/// The exact-type check confirms the classification: when the
/// inspectors yield nothing, every lookup entry is canonical (as the
/// compiler guarantees), and classification found a signature match,
/// then checking the returned mime against the same bytes succeeds.
pub proof fn lemma_classify_then_match(reg: Registry, bytes: Seq<u8>)
    requires
        spec_handle_special(reg, bytes) is None,
        forall|i: int|
            0 <= i < reg.nodes@.len() ==> match reg.spec_lookup(
                (#[trigger] reg.nodes@[i]).mime@,
            ) {
                Some(ns) => ns.len() >= 1 && ns[0] as int == i,
                None => false,
            },
        spec_from_u8(reg, bytes) != "application/octet-stream"@,
    ensures
        spec_match_u8(reg, spec_from_u8(reg, bytes), bytes),
{
    let fuel = spec_engine_fuel(reg);
    match spec_probe(reg, bytes, 0, fuel) {
        Some(w) => {
            lemma_probe_from(reg, bytes, 0, fuel);
            let p2 = choose|p2: int|
                0 <= p2 < reg.priority_nodes@.len() && spec_node_result(
                    reg,
                    (#[trigger] reg.priority_nodes@[p2]) as int,
                    bytes,
                    fuel,
                ) == Some(w);
            lemma_node_result_winner(reg, reg.priority_nodes@[p2] as int, bytes, fuel);
            let ns = reg.spec_lookup(reg.nodes@[w].mime@)->0;
            assert(0 <= 0 < ns.len() && (ns[0] as int) < reg.nodes@.len()
                && reg.nodes@[ns[0] as int].rule.spec_eval(bytes));
        },
        None => {
            match spec_scan(reg, bytes, 0, fuel) {
                Some(w) => {
                    lemma_scan_range(reg, bytes, 0, fuel);
                    let ns = reg.spec_lookup(reg.nodes@[w].mime@)->0;
                    assert(0 <= 0 < ns.len() && (ns[0] as int) < reg.nodes@.len()
                        && reg.nodes@[ns[0] as int].rule.spec_eval(bytes));
                },
                None => {},
            }
        },
    }
}

/// Classification is total, and what it returns is always the generic
/// binary type, an inspector verdict, or the mime of a registered
/// type.
pub proof fn lemma_classify_total(reg: Registry, bytes: Seq<u8>)
    ensures
        spec_from_u8(reg, bytes) == "application/octet-stream"@ || (spec_handle_special(
            reg,
            bytes,
        ) matches Some(m) && spec_from_u8(reg, bytes) == m) || (exists|i: int|
            0 <= i < reg.nodes@.len() && spec_from_u8(reg, bytes) == (
            #[trigger] reg.nodes@[i]).mime@),
{
    if spec_handle_special(reg, bytes) is None {
        let fuel = spec_engine_fuel(reg);
        match spec_probe(reg, bytes, 0, fuel) {
            Some(w) => {
                lemma_probe_from(reg, bytes, 0, fuel);
                let p2 = choose|p2: int|
                    0 <= p2 < reg.priority_nodes@.len() && spec_node_result(
                        reg,
                        (#[trigger] reg.priority_nodes@[p2]) as int,
                        bytes,
                        fuel,
                    ) == Some(w);
                lemma_node_result_winner(reg, reg.priority_nodes@[p2] as int, bytes, fuel);
            },
            None => {
                match spec_scan(reg, bytes, 0, fuel) {
                    Some(w) => {
                        lemma_scan_range(reg, bytes, 0, fuel);
                    },
                    None => {},
                }
            },
        }
    }
}

/// A scan winner is a node of the arena whose own signature matched.
proof fn lemma_scan_range(reg: Registry, bytes: Seq<u8>, k: int, fuel: int)
    ensures
        match spec_scan(reg, bytes, k, fuel) {
            Some(w) => 0 <= w < reg.nodes@.len() && reg.nodes@[w].rule.spec_eval(bytes),
            None => true,
        },
    decreases reg.nodes@.len() - k,
{
    if 0 <= k < reg.nodes@.len() {
        lemma_node_result_winner(reg, k, bytes, fuel);
        lemma_scan_range(reg, bytes, k + 1, fuel);
    }
}

/// A matching node makes the exhaustive set carry its mime.
proof fn lemma_exhaustive_contains(reg: Registry, bytes: Seq<u8>, k: int, w: int)
    requires
        0 <= k <= w < reg.nodes@.len(),
        reg.nodes@[w].rule.spec_eval(bytes),
    ensures
        exists|px: int|
            0 <= px < spec_exhaustive(reg, bytes, k).len() && #[trigger] spec_exhaustive(
                reg,
                bytes,
                k,
            )[px] == reg.nodes@[w].mime@,
    decreases w - k,
{
    let whole = spec_exhaustive(reg, bytes, k);
    if k == w {
        assert(whole[0] == reg.nodes@[w].mime@);
    } else {
        lemma_exhaustive_contains(reg, bytes, k + 1, w);
        let rest = spec_exhaustive(reg, bytes, k + 1);
        let px = choose|px: int|
            0 <= px < rest.len() && #[trigger] rest[px] == reg.nodes@[w].mime@;
        if reg.nodes@[k].rule.spec_eval(bytes) {
            assert(whole[px + 1] == rest[px]);
        }
    }
}

/// When the container inspectors did not short-circuit, the best
/// match's mime is a member of the exhaustive result set, unless
/// nothing matched and the generic binary type was returned.
pub proof fn lemma_exhaustive_superset(reg: Registry, bytes: Seq<u8>)
    requires
        spec_handle_special(reg, bytes) is None,
    ensures
        spec_from_u8(reg, bytes) == "application/octet-stream"@ || exists|px: int|
            0 <= px < spec_exhaustive(reg, bytes, 0).len() && #[trigger] spec_exhaustive(
                reg,
                bytes,
                0,
            )[px] == spec_from_u8(reg, bytes),
{
    let fuel = spec_engine_fuel(reg);
    match spec_probe(reg, bytes, 0, fuel) {
        Some(w) => {
            lemma_probe_from(reg, bytes, 0, fuel);
            let p2 = choose|p2: int|
                0 <= p2 < reg.priority_nodes@.len() && spec_node_result(
                    reg,
                    (#[trigger] reg.priority_nodes@[p2]) as int,
                    bytes,
                    fuel,
                ) == Some(w);
            lemma_node_result_winner(reg, reg.priority_nodes@[p2] as int, bytes, fuel);
            lemma_exhaustive_contains(reg, bytes, 0, w);
        },
        None => {
            match spec_scan(reg, bytes, 0, fuel) {
                Some(w) => {
                    lemma_scan_range(reg, bytes, 0, fuel);
                    lemma_exhaustive_contains(reg, bytes, 0, w);
                },
                None => {},
            }
        },
    }
}

/// The specificity law: when a type's signature matches together with
/// the signature of one of its declared children, classification never
/// returns the parent's own mime — a generic container always defers
/// to a more specific descendant.
pub proof fn lemma_specificity(reg: Registry, bytes: Seq<u8>, pi: int)
    requires
        reg.wf(),
        spec_handle_special(reg, bytes) is None,
        0 <= pi < reg.nodes@.len(),
        exists|k: int|
            0 <= k < reg.nodes@[pi].children@.len() && reg.nodes@[(
            #[trigger] reg.nodes@[pi].children@[k]) as int].rule.spec_eval(bytes),
    ensures
        spec_from_u8(reg, bytes) != reg.nodes@[pi].mime@,
{
    let n = reg.nodes@.len() as int;
    let fuel = spec_engine_fuel(reg);
    let k = choose|k: int|
        0 <= k < reg.nodes@[pi].children@.len() && reg.nodes@[(
        #[trigger] reg.nodes@[pi].children@[k]) as int].rule.spec_eval(bytes);
    let cm = reg.nodes@[pi].children@[k] as int;
    assert(0 <= cm < n);
    lemma_matched_some(reg, cm, bytes, fuel);
    match spec_probe(reg, bytes, 0, fuel) {
        Some(w) => {
            lemma_probe_from(reg, bytes, 0, fuel);
            let p2 = choose|p2: int|
                0 <= p2 < reg.priority_nodes@.len() && spec_node_result(
                    reg,
                    (#[trigger] reg.priority_nodes@[p2]) as int,
                    bytes,
                    fuel,
                ) == Some(w);
            let s = reg.priority_nodes@[p2] as int;
            lemma_node_result_winner(reg, s, bytes, fuel);
            lemma_avoid_parent(reg, bytes, pi, s, fuel);
            assert(w != pi);
        },
        None => {
            lemma_scan_first(reg, bytes, 0, fuel, cm);
            let s = choose|s: int|
                0 <= s <= cm && spec_node_result(reg, s, bytes, fuel) is Some && spec_scan(
                    reg,
                    bytes,
                    0,
                    fuel,
                ) == #[trigger] spec_node_result(reg, s, bytes, fuel);
            let w = spec_scan(reg, bytes, 0, fuel)->0;
            lemma_node_result_winner(reg, s, bytes, fuel);
            lemma_avoid_parent(reg, bytes, pi, s, fuel);
            assert(w != pi);
        },
    }
}

/// The priority law: when a strictly higher-priority type matches, a
/// lower-priority root type outside the curated probe list is never
/// the classification result.
pub proof fn lemma_priority(reg: Registry, bytes: Seq<u8>, i: int, j: int)
    requires
        reg.wf(),
        spec_handle_special(reg, bytes) is None,
        0 <= i < reg.nodes@.len(),
        0 <= j < reg.nodes@.len(),
        reg.nodes@[i].priority > reg.nodes@[j].priority,
        reg.nodes@[i].rule.spec_eval(bytes),
        forall|p: int, k: int|
            #![trigger reg.nodes@[p].children@[k]]
            0 <= p < reg.nodes@.len() && 0 <= k < reg.nodes@[p].children@.len()
                ==> reg.nodes@[p].children@[k] as int != j,
        forall|p: int|
            0 <= p < reg.priority_nodes@.len() ==> (#[trigger] reg.priority_nodes@[p]) as int != j,
    ensures
        spec_from_u8(reg, bytes) != reg.nodes@[j].mime@,
{
    let n = reg.nodes@.len() as int;
    let fuel = spec_engine_fuel(reg);
    // the arena is sorted by descending priority, so `i` precedes `j`
    assert(i < j) by {
        if j <= i {
            if j < i {
                assert(reg.nodes@[j].priority >= reg.nodes@[i].priority);
            }
        }
    }
    lemma_matched_some(reg, i, bytes, fuel);
    match spec_probe(reg, bytes, 0, fuel) {
        Some(w) => {
            lemma_probe_from(reg, bytes, 0, fuel);
            let p2 = choose|p2: int|
                0 <= p2 < reg.priority_nodes@.len() && spec_node_result(
                    reg,
                    (#[trigger] reg.priority_nodes@[p2]) as int,
                    bytes,
                    fuel,
                ) == Some(w);
            let s = reg.priority_nodes@[p2] as int;
            lemma_node_result_winner(reg, s, bytes, fuel);
            lemma_winner_structure(reg, s, bytes, fuel);
            assert(w != j);
        },
        None => {
            lemma_scan_first(reg, bytes, 0, fuel, i);
            let s = choose|s: int|
                0 <= s <= i && spec_node_result(reg, s, bytes, fuel) is Some && spec_scan(
                    reg,
                    bytes,
                    0,
                    fuel,
                ) == #[trigger] spec_node_result(reg, s, bytes, fuel);
            let w = spec_scan(reg, bytes, 0, fuel)->0;
            lemma_node_result_winner(reg, s, bytes, fuel);
            lemma_winner_structure(reg, s, bytes, fuel);
            assert(s <= i < j);
            assert(w != j);
        },
    }
}

} // verus!
