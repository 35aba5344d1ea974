//! Cyclic sequences of vertices and what it means for them to be cycles of a graph.
use crate::graph::Graph;
use std::collections::HashSet;
use vstd::prelude::*;

verus! {

broadcast use vstd::std_specs::hash::group_hash_axioms;

/// Consecutive entries `i` and `i + 1` (wrapping around) of `c` are adjacent in `g`.
pub open spec fn edge_at(g: Graph, c: Seq<i32>, i: int) -> bool {
    g.has_edge(c[i], c[(i + 1) % (c.len() as int)])
}

/// `c` has at least three entries and every cyclically consecutive pair is an
/// edge of `g` (vertices may repeat).
pub open spec fn closed_walk(g: Graph, c: Seq<i32>) -> bool {
    &&& c.len() >= 3
    &&& forall|i: int| 0 <= i < c.len() ==> #[trigger] edge_at(g, c, i)
}

/// `c` is a closed walk of `g` that visits no vertex twice.
pub open spec fn simple_cycle(g: Graph, c: Seq<i32>) -> bool {
    closed_walk(g, c) && c.no_duplicates()
}

/// `t` visits every vertex of the non-empty graph `g` exactly once and returns
/// to its start along edges of `g`.
pub open spec fn hamiltonian_tour(g: Graph, t: Seq<i32>) -> bool {
    &&& g.adj().dom().len() > 0
    &&& t.len() == g.adj().dom().len()
    &&& forall|i: int| 0 <= i < t.len() ==> g.adj().contains_key(#[trigger] t[i])
    &&& t.no_duplicates()
    &&& forall|i: int| 0 <= i < t.len() ==> #[trigger] edge_at(g, t, i)
}

/// Whether `cycle` is a closed walk of `g`.
pub fn is_closed_walk(cycle: &[i32], g: &Graph) -> (b: bool)
    ensures
        b == closed_walk(*g, cycle@),
{
    let len = cycle.len();
    if len < 3 {
        return false;
    }
    let mut i: usize = 0;
    while i < len
        invariant
            len == cycle@.len(),
            len >= 3,
            0 <= i <= len,
            forall|k: int| 0 <= k < i ==> #[trigger] edge_at(*g, cycle@, k),
        decreases len - i,
    {
        let u = cycle[i];
        let v = cycle[(i + 1) % len];
        if !g.contains_edge(u, v) {
            assert(!edge_at(*g, cycle@, i as int));
            return false;
        }
        i = i + 1;
    }
    true
}

/// Whether all entries of `s` are distinct.
pub fn all_distinct(s: &[i32]) -> (b: bool)
    ensures
        b == s@.no_duplicates(),
{
    let mut seen: HashSet<i32> = HashSet::new();
    let mut i: usize = 0;
    while i < s.len()
        invariant
            0 <= i <= s@.len(),
            s@.subrange(0, i as int).no_duplicates(),
            forall|v: i32| seen@.contains(v) <==> s@.subrange(0, i as int).contains(v),
        decreases s@.len() - i,
    {
        let v = s[i];
        if !seen.insert(v) {
            proof {
                let k = choose|k: int| 0 <= k < i && s@.subrange(0, i as int)[k] == v;
                assert(s@[k] == s@[i as int]);
            }
            return false;
        }
        proof {
            let p = s@.subrange(0, i as int);
            assert(s@.subrange(0, i + 1) =~= p.push(v));
            assert forall|w: i32| seen@.contains(w) <==> s@.subrange(0, i + 1).contains(w) by {
                if p.contains(w) {
                    let k = choose|k: int| 0 <= k < p.len() && p[k] == w;
                    assert(p.push(v)[k] == w);
                }
                if w == v {
                    assert(p.push(v)[p.len() as int] == w);
                }
            }
        }
        i = i + 1;
    }
    assert(s@.subrange(0, s@.len() as int) =~= s@);
    true
}

/// Whether `cycle` is a closed walk of `g` with no repeated vertex.
pub fn is_simple_cycle(cycle: &[i32], g: &Graph) -> (b: bool)
    ensures
        b == simple_cycle(*g, cycle@),
{
    is_closed_walk(cycle, g) && all_distinct(cycle)
}

} // verus!
