//! Multi-cycle swap moves: 2-opt bridges between two cycles and 3-opt
//! triangles among three cycles, their discovery, the components of the
//! cycles they connect, and the rebuilding of the cycles once a set of
//! swaps has been chosen.
use crate::graph::Graph;
use crate::hub_sub_hcp::{next_pos, prev_pos};
use crate::module_dual_path_extractor::min_max;
use crate::modular_ring_dp_solver::{in_some_cluster, increasing, index_views, insert_increasing};
use crate::sorting::sorted_copy;
use std::collections::{HashMap, HashSet};
use vstd::prelude::*;

verus! {

/// A swap that merges cycles by removing one edge from each and adding the
/// same number of connecting edges.
#[derive(Debug)]
pub enum CycleSwap {
    TwoOpt {
        c1: usize,
        c2: usize,
        rem1: (i32, i32),
        rem2: (i32, i32),
        add1: (i32, i32),
        add2: (i32, i32),
    },
    ThreeOptTriangle {
        c1: usize,
        c2: usize,
        c3: usize,
        rem1: (i32, i32),
        rem2: (i32, i32),
        rem3: (i32, i32),
        add1: (i32, i32),
        add2: (i32, i32),
        add3: (i32, i32),
    },
}

impl CycleSwap {
    /// The removed edges, one per cycle, in cycle order.
    pub fn removed_edges(&self) -> (r: Vec<(i32, i32)>)
        ensures
            r@ == (match *self {
                CycleSwap::TwoOpt { rem1, rem2, .. } => seq![rem1, rem2],
                CycleSwap::ThreeOptTriangle { rem1, rem2, rem3, .. } => seq![rem1, rem2, rem3],
            }),
    {
        match self {
            CycleSwap::TwoOpt { rem1, rem2, .. } => vec![*rem1, *rem2],
            CycleSwap::ThreeOptTriangle { rem1, rem2, rem3, .. } => vec![*rem1, *rem2, *rem3],
        }
    }

    /// The added connecting edges.
    pub fn added_edges(&self) -> (r: Vec<(i32, i32)>)
        ensures
            r@ == (match *self {
                CycleSwap::TwoOpt { add1, add2, .. } => seq![add1, add2],
                CycleSwap::ThreeOptTriangle { add1, add2, add3, .. } => seq![add1, add2, add3],
            }),
    {
        match self {
            CycleSwap::TwoOpt { add1, add2, .. } => vec![*add1, *add2],
            CycleSwap::ThreeOptTriangle { add1, add2, add3, .. } => vec![*add1, *add2, *add3],
        }
    }

    /// The positions of the cycles the swap merges.
    pub fn cycles(&self) -> (r: Vec<usize>)
        ensures
            r@ == (match *self {
                CycleSwap::TwoOpt { c1, c2, .. } => seq![c1, c2],
                CycleSwap::ThreeOptTriangle { c1, c2, c3, .. } => seq![c1, c2, c3],
            }),
    {
        match self {
            CycleSwap::TwoOpt { c1, c2, .. } => vec![*c1, *c2],
            CycleSwap::ThreeOptTriangle { c1, c2, c3, .. } => vec![*c1, *c2, *c3],
        }
    }
}

broadcast use vstd::std_specs::hash::group_hash_axioms;

/// Merging of disjoint cycles by simultaneous 2-opt and 3-opt swaps.
pub struct MultiOptSatSplicer;

/// The edge from position `p` of cycle `c` to the next position is `e`
/// (smaller end first).
pub open spec fn cycle_edge_at(cycles: Seq<Seq<i32>>, c: int, p: int, e: (i32, i32)) -> bool {
    &&& 0 <= c < cycles.len()
    &&& 0 <= p < cycles[c].len()
    &&& e == min_max(cycles[c][p], cycles[c][next_pos(p, cycles[c].len() as int)])
}

/// `e` is an edge of cycle `c`.
pub open spec fn cycle_edge(cycles: Seq<Seq<i32>>, c: int, e: (i32, i32)) -> bool {
    exists|p: int| #[trigger] cycle_edge_at(cycles, c, p, e)
}

/// `v` stands at position `p` of cycle `c` between `nb.0` and `nb.1`.
pub open spec fn cycle_slot(cycles: Seq<Seq<i32>>, c: int, p: int, v: i32, nb: (i32, i32)) -> bool {
    &&& 0 <= c < cycles.len()
    &&& 0 <= p < cycles[c].len()
    &&& cycles[c][p] == v
    &&& nb == (cycles[c][prev_pos(p, cycles[c].len() as int)], cycles[c][next_pos(p, cycles[c].len() as int)])
}

/// The cycle and neighbour maps record an occurrence of each of their vertices.
#[verifier::opaque]
pub open spec fn slot_maps_ok(cycles: Seq<Seq<i32>>, vtc: Map<i32, usize>, nbr: Map<i32, (i32, i32)>) -> bool {
    &&& forall|v: i32| #[trigger] vtc.contains_key(v) <==> nbr.contains_key(v)
    &&& forall|v: i32| #[trigger] vtc.contains_key(v) ==> exists|p: int| #[trigger] cycle_slot(cycles, vtc[v] as int, p, v, nbr[v])
}

/// The protected edge list names `e` (in either orientation).
pub open spec fn is_protected(prot: Seq<(i32, i32)>, e: (i32, i32)) -> bool {
    exists|q: int| 0 <= q < prot.len() && #[trigger] min_max(prot[q].0, prot[q].1) == e
}

/// The shape of a 2-opt bridge: `rem1 = {u1, u2}` and `rem2 = {v1, v2}`
/// are replaced by the graph edges `{u1, v1}` and `{u2, v2}`, listed in
/// increasing order.
pub open spec fn two_opt_shape(
    g: Graph,
    rem1: (i32, i32),
    rem2: (i32, i32),
    add1: (i32, i32),
    add2: (i32, i32),
    u1: i32,
    u2: i32,
    v1: i32,
    v2: i32,
) -> bool {
    &&& rem1 == min_max(u1, u2)
    &&& rem2 == min_max(v1, v2)
    &&& g.has_edge(u1, v1)
    &&& g.has_edge(u2, v2)
    &&& ((add1, add2) == (min_max(u1, v1), min_max(u2, v2)) || (add1, add2) == (min_max(u2, v2), min_max(u1, v1)))
    &&& pair_le(add1, add2)
}

/// The shape of a 3-opt triangle: `rem_t = {x_t, y_t}` for each of the three
/// cycles, replaced by the graph edges `{x1, y2}`, `{x2, y3}` and `{x3, y1}`.
pub open spec fn three_opt_shape(
    g: Graph,
    rem: ((i32, i32), (i32, i32), (i32, i32)),
    add: ((i32, i32), (i32, i32), (i32, i32)),
    x1: i32,
    y1: i32,
    x2: i32,
    y2: i32,
    x3: i32,
    y3: i32,
) -> bool {
    &&& rem == (min_max(x1, y1), min_max(x2, y2), min_max(x3, y3))
    &&& add == (min_max(x1, y2), min_max(x2, y3), min_max(x3, y1))
    &&& g.has_edge(x1, y2)
    &&& g.has_edge(x2, y3)
    &&& g.has_edge(x3, y1)
}

/// Lexicographic order on pairs.
pub open spec fn pair_le(a: (i32, i32), b: (i32, i32)) -> bool {
    a.0 < b.0 || (a.0 == b.0 && a.1 <= b.1)
}

/// A swap as discovered: its cycles are distinct and listed from the
/// smallest, each removed edge is an unprotected edge of its cycle, and the
/// added edges reconnect the freed ends by edges of `g`.
#[verifier::opaque]
pub open spec fn swap_ok(cycles: Seq<Seq<i32>>, g: Graph, prot: Seq<(i32, i32)>, s: CycleSwap) -> bool {
    match s {
        CycleSwap::TwoOpt { c1, c2, rem1, rem2, add1, add2 } => {
            &&& c1 < c2 < cycles.len()
            &&& cycle_edge(cycles, c1 as int, rem1)
            &&& cycle_edge(cycles, c2 as int, rem2)
            &&& !is_protected(prot, rem1)
            &&& !is_protected(prot, rem2)
            &&& exists|u1: i32, u2: i32, v1: i32, v2: i32| #[trigger] two_opt_shape(g, rem1, rem2, add1, add2, u1, u2, v1, v2)
        },
        CycleSwap::ThreeOptTriangle { c1, c2, c3, rem1, rem2, rem3, add1, add2, add3 } => {
            &&& c1 < c2 < cycles.len()
            &&& c1 < c3 < cycles.len()
            &&& c2 != c3
            &&& cycle_edge(cycles, c1 as int, rem1)
            &&& cycle_edge(cycles, c2 as int, rem2)
            &&& cycle_edge(cycles, c3 as int, rem3)
            &&& !is_protected(prot, rem1)
            &&& !is_protected(prot, rem2)
            &&& !is_protected(prot, rem3)
            &&& exists|x1: i32, y1: i32, x2: i32, y2: i32, x3: i32, y3: i32|
                #[trigger] three_opt_shape(g, (rem1, rem2, rem3), (add1, add2, add3), x1, y1, x2, y2, x3, y3)
        },
    }
}

/// The same swap, field by field.
pub open spec fn same_swap(a: CycleSwap, b: CycleSwap) -> bool {
    a == b
}

/// `{u, v}` with its smaller end first.
fn min_max_of(u: i32, v: i32) -> (r: (i32, i32))
    ensures
        r == min_max(u, v),
{
    if u < v {
        (u, v)
    } else {
        (v, u)
    }
}

/// Whether `a` comes before `b` lexicographically, or equals it.
fn pair_le_of(a: (i32, i32), b: (i32, i32)) -> (r: bool)
    ensures
        r == pair_le(a, b),
{
    a.0 < b.0 || (a.0 == b.0 && a.1 <= b.1)
}

/// Whether the edge `e` is protected.
fn protected_contains(prot: &Vec<(i32, i32)>, e: (i32, i32)) -> (r: bool)
    ensures
        r == is_protected(prot@, e),
{
    let mut q: usize = 0;
    while q < prot.len()
        invariant
            0 <= q <= prot@.len(),
            forall|k: int| 0 <= k < q ==> #[trigger] min_max(prot@[k].0, prot@[k].1) != e,
        decreases prot@.len() - q,
    {
        let (a, b) = prot[q];
        let c = min_max_of(a, b);
        if c.0 == e.0 && c.1 == e.1 {
            assert(min_max(prot@[q as int].0, prot@[q as int].1) == e);
            return true;
        }
        q = q + 1;
    }
    false
}

/// Whether two swaps are the same, field by field.
fn swap_eq(a: &CycleSwap, b: &CycleSwap) -> (r: bool)
    ensures
        r == same_swap(*a, *b),
{
    match (a, b) {
        (
            CycleSwap::TwoOpt { c1: a1, c2: a2, rem1: ar1, rem2: ar2, add1: aa1, add2: aa2 },
            CycleSwap::TwoOpt { c1: b1, c2: b2, rem1: br1, rem2: br2, add1: ba1, add2: ba2 },
        ) => {
            *a1 == *b1 && *a2 == *b2 && ar1.0 == br1.0 && ar1.1 == br1.1 && ar2.0 == br2.0 && ar2.1 == br2.1 && aa1.0 == ba1.0
                && aa1.1 == ba1.1 && aa2.0 == ba2.0 && aa2.1 == ba2.1
        },
        (
            CycleSwap::ThreeOptTriangle {
                c1: a1,
                c2: a2,
                c3: a3,
                rem1: ar1,
                rem2: ar2,
                rem3: ar3,
                add1: aa1,
                add2: aa2,
                add3: aa3,
            },
            CycleSwap::ThreeOptTriangle {
                c1: b1,
                c2: b2,
                c3: b3,
                rem1: br1,
                rem2: br2,
                rem3: br3,
                add1: ba1,
                add2: ba2,
                add3: ba3,
            },
        ) => {
            *a1 == *b1 && *a2 == *b2 && *a3 == *b3 && ar1.0 == br1.0 && ar1.1 == br1.1 && ar2.0 == br2.0 && ar2.1 == br2.1
                && ar3.0 == br3.0 && ar3.1 == br3.1 && aa1.0 == ba1.0 && aa1.1 == ba1.1 && aa2.0 == ba2.0 && aa2.1 == ba2.1
                && aa3.0 == ba3.0 && aa3.1 == ba3.1
        },
        _ => false,
    }
}

/// Every swap in `out` is valid.
pub open spec fn swaps_valid(cycles: Seq<Seq<i32>>, g: Graph, prot: Seq<(i32, i32)>, out: Seq<CycleSwap>) -> bool {
    forall|k: int| 0 <= k < out.len() ==> swap_ok(cycles, g, prot, #[trigger] out[k])
}

/// No swap is listed twice.
pub open spec fn swaps_distinct(out: Seq<CycleSwap>) -> bool {
    forall|a: int, b: int| 0 <= a < b < out.len() ==> !same_swap(#[trigger] out[a], #[trigger] out[b])
}

/// No vertex occurs twice over all the cycles.
#[verifier::opaque]
pub open spec fn cycles_disjoint(cycles: Seq<Seq<i32>>) -> bool {
    forall|c1: int, p1: int, c2: int, p2: int|
        0 <= c1 < cycles.len() && 0 <= c2 < cycles.len() && 0 <= p1 < cycles[c1].len() && 0 <= p2 < cycles[c2].len()
            && #[trigger] cycles[c1][p1] == #[trigger] cycles[c2][p2] ==> c1 == c2 && p1 == p2
}

/// The views of the cycles.
pub open spec fn cycle_views(cycles: Seq<Vec<i32>>) -> Seq<Seq<i32>> {
    cycles.map_values(|c: Vec<i32>| c@)
}

/// Appends `s` unless the same swap is already listed.
fn push_new_swap(
    out: &mut Vec<CycleSwap>,
    s: CycleSwap,
    Ghost(cycles): Ghost<Seq<Seq<i32>>>,
    Ghost(g): Ghost<Graph>,
    Ghost(prot): Ghost<Seq<(i32, i32)>>,
    Ghost(dj): Ghost<bool>,
)
    requires
        swaps_distinct(old(out)@),
        dj ==> swaps_valid(cycles, g, prot, old(out)@),
        dj ==> swap_ok(cycles, g, prot, s),
    ensures
        swaps_distinct(final(out)@),
        dj ==> swaps_valid(cycles, g, prot, final(out)@),
        (exists|q: int| 0 <= q < old(out)@.len() && same_swap(#[trigger] old(out)@[q], s)) ==> final(out)@ == old(out)@,
        !(exists|q: int| 0 <= q < old(out)@.len() && same_swap(#[trigger] old(out)@[q], s)) ==> final(out)@ == old(out)@.push(s),
        keeps_listed(old(out)@, final(out)@),
        listed(final(out)@, s),
{
    let mut k: usize = 0;
    while k < out.len()
        invariant
            0 <= k <= out@.len(),
            out@ == old(out)@,
            swaps_distinct(out@),
            dj ==> swaps_valid(cycles, g, prot, out@),
            forall|q: int| 0 <= q < k ==> !same_swap(#[trigger] out@[q], s),
        decreases out@.len() - k,
    {
        if swap_eq(&out[k], &s) {
            proof {
                assert(same_swap(out@[k as int], s));
            }
            return;
        }
        k = k + 1;
    }
    let ghost o0 = out@;
    out.push(s);
    proof {
        if dj {
            assert forall|q: int| 0 <= q < out@.len() implies swap_ok(cycles, g, prot, #[trigger] out@[q]) by {
                if q < o0.len() {
                    assert(out@[q] == o0[q]);
                }
            }
        }
        assert forall|a: int, b: int| 0 <= a < b < out@.len() implies !same_swap(#[trigger] out@[a], #[trigger] out@[b]) by {
            assert(out@[a] == o0[a]);
            if b < o0.len() {
                assert(out@[b] == o0[b]);
            }
        }
        assert forall|x: CycleSwap| #[trigger] listed(o0, x) implies listed(out@, x) by {
            let q = choose|q: int| 0 <= q < o0.len() && same_swap(#[trigger] o0[q], x);
            assert(out@[q] == o0[q]);
        }
        lemma_same_swap_refl(s);
        assert(out@[o0.len() as int] == s);
    }
}

/// A swap is the same as itself.
proof fn lemma_same_swap_refl(s: CycleSwap)
    ensures
        same_swap(s, s),
{
}


/// The neighbours recorded at a slot are joined to its vertex by edges of its cycle.
proof fn lemma_slot_edges(cycles: Seq<Seq<i32>>, c: int, p: int, v: i32, nb: (i32, i32))
    requires
        cycle_slot(cycles, c, p, v, nb),
    ensures
        cycle_edge(cycles, c, min_max(v, nb.1)),
        cycle_edge(cycles, c, min_max(v, nb.0)),
{
    let n = cycles[c].len() as int;
    assert(cycle_edge_at(cycles, c, p, min_max(v, nb.1)));
    let q = prev_pos(p, n);
    assert(next_pos(q, n) == p);
    assert(min_max(nb.0, v) == min_max(v, nb.0));
    assert(cycle_edge_at(cycles, c, q, min_max(v, nb.0)));
}

/// What the maps say of a recorded vertex `v`: its cycle is a valid index and
/// the edges to both recorded neighbours are edges of that cycle.
proof fn lemma_slot_of(cycles: Seq<Seq<i32>>, vtc: Map<i32, usize>, nbr: Map<i32, (i32, i32)>, v: i32)
    requires
        slot_maps_ok(cycles, vtc, nbr),
        vtc.contains_key(v),
    ensures
        nbr.contains_key(v),
        vtc[v] < cycles.len(),
        cycle_edge(cycles, vtc[v] as int, min_max(v, nbr[v].0)),
        cycle_edge(cycles, vtc[v] as int, min_max(v, nbr[v].1)),
        min_max(nbr[v].0, v) == min_max(v, nbr[v].0),
        min_max(nbr[v].1, v) == min_max(v, nbr[v].1),
{
    reveal(slot_maps_ok);
    let p = choose|p: int| #[trigger] cycle_slot(cycles, vtc[v] as int, p, v, nbr[v]);
    lemma_slot_edges(cycles, vtc[v] as int, p, v, nbr[v]);
}

/// The cycle and neighbour maps: for each vertex, its cycle and its two
/// neighbours there (a later occurrence replacing an earlier one).
fn slot_maps(cycles: &Vec<Vec<i32>>) -> (r: (HashMap<i32, usize>, HashMap<i32, (i32, i32)>))
    ensures
        slot_maps_ok(cycle_views(cycles@), r.0@, r.1@),
        forall|c: int, p: int|
            0 <= c < cycles@.len() && 0 <= p < cycles@[c]@.len() ==> r.0@.contains_key(#[trigger] cycle_views(cycles@)[c][p]),
{
    let ghost cv = cycle_views(cycles@);
    let mut vtc: HashMap<i32, usize> = HashMap::new();
    let mut nbr: HashMap<i32, (i32, i32)> = HashMap::new();
    proof {
        reveal(slot_maps_ok);
    }
    let mut c: usize = 0;
    while c < cycles.len()
        invariant
            cv == cycle_views(cycles@),
            0 <= c <= cycles@.len(),
            slot_maps_ok(cv, vtc@, nbr@),
            forall|c2: int, p: int| 0 <= c2 < c && 0 <= p < cv[c2].len() ==> vtc@.contains_key(#[trigger] cv[c2][p]),
        decreases cycles@.len() - c,
    {
        let cycle = &cycles[c];
        let n = cycle.len();
        let mut pos: usize = 0;
        while pos < n
            invariant
                cv == cycle_views(cycles@),
                0 <= c < cycles@.len(),
                cycle@ == cv[c as int],
                n == cycle@.len(),
                0 <= pos <= n,
                slot_maps_ok(cv, vtc@, nbr@),
                forall|c2: int, p: int| 0 <= c2 < c && 0 <= p < cv[c2].len() ==> vtc@.contains_key(#[trigger] cv[c2][p]),
                forall|p: int| 0 <= p < pos ==> vtc@.contains_key(#[trigger] cv[c as int][p]),
            decreases n - pos,
        {
            let u = cycle[pos];
            let pi = if pos == 0 {
                n - 1
            } else {
                pos - 1
            };
            let ni = if pos + 1 == n {
                0
            } else {
                pos + 1
            };
            let prev = cycle[pi];
            let next = cycle[ni];
            let ghost vt0 = vtc@;
            let ghost nb0 = nbr@;
            vtc.insert(u, c);
            nbr.insert(u, (prev, next));
            proof {
                reveal(slot_maps_ok);
                assert(cycle_slot(cv, c as int, pos as int, u, (prev, next)));
                assert forall|v: i32| #[trigger] vtc@.contains_key(v) implies exists|p: int| #[trigger] cycle_slot(cv, vtc@[v] as int, p, v, nbr@[v]) by {
                    if v != u {
                        assert(vt0.contains_key(v));
                        assert(vtc@[v] == vt0[v] && nbr@[v] == nb0[v]);
                    } else {
                        assert(cycle_slot(cv, vtc@[v] as int, pos as int, v, nbr@[v]));
                    }
                }
                assert forall|p: int| 0 <= p < pos + 1 implies vtc@.contains_key(#[trigger] cv[c as int][p]) by {
                    if p == pos {
                        assert(cv[c as int][p] == u);
                    }
                }
            }
            pos = pos + 1;
        }
        c = c + 1;
    }
    (vtc, nbr)
}

/// Some entry of `out` is the same swap as `s`.
pub open spec fn listed(out: Seq<CycleSwap>, s: CycleSwap) -> bool {
    exists|q: int| 0 <= q < out.len() && same_swap(#[trigger] out[q], s)
}

/// Every swap listed in `a` is listed in `b`.
pub open spec fn keeps_listed(a: Seq<CycleSwap>, b: Seq<CycleSwap>) -> bool {
    forall|s: CycleSwap| #[trigger] listed(a, s) ==> listed(b, s)
}

/// `out` with `s` appended unless the same swap is already listed.
pub open spec fn with_new_swap(out: Seq<CycleSwap>, s: CycleSwap) -> Seq<CycleSwap> {
    if exists|q: int| 0 <= q < out.len() && same_swap(#[trigger] out[q], s) {
        out
    } else {
        out.push(s)
    }
}

/// The 2-opt bridge removing `{u1, u2}` from cycle `i` and `{v1, v2}` from
/// cycle `j`, adding `{u1, v1}` and `{u2, v2}` (smaller pair first).
pub open spec fn two_opt_swap(i: usize, j: usize, u1: i32, u2: i32, v1: i32, v2: i32) -> CycleSwap {
    let x1 = min_max(u1, v1);
    let x2 = min_max(u2, v2);
    CycleSwap::TwoOpt {
        c1: i,
        c2: j,
        rem1: min_max(u1, u2),
        rem2: min_max(v1, v2),
        add1: if pair_le(x1, x2) { x1 } else { x2 },
        add2: if pair_le(x1, x2) { x2 } else { x1 },
    }
}

/// The 3-opt triangle of `try_three_opt`, listed from the smallest cycle.
pub open spec fn three_opt_swap(ijk: (usize, usize, usize), u: (i32, i32), v: (i32, i32), w: (i32, i32)) -> CycleSwap {
    let (i, j, k) = ijk;
    let e1 = min_max(u.0, u.1);
    let e2 = min_max(v.0, v.1);
    let e3 = min_max(w.0, w.1);
    let a1 = min_max(u.0, v.1);
    let a2 = min_max(v.0, w.1);
    let a3 = min_max(w.0, u.1);
    if i < j && i < k {
        CycleSwap::ThreeOptTriangle { c1: i, c2: j, c3: k, rem1: e1, rem2: e2, rem3: e3, add1: a1, add2: a2, add3: a3 }
    } else if j < i && j < k {
        CycleSwap::ThreeOptTriangle { c1: j, c2: k, c3: i, rem1: e2, rem2: e3, rem3: e1, add1: a2, add2: a3, add3: a1 }
    } else {
        CycleSwap::ThreeOptTriangle { c1: k, c2: i, c3: j, rem1: e3, rem2: e1, rem3: e2, add1: a3, add2: a1, add3: a2 }
    }
}

/// Records the 2-opt bridge between cycle `i` (edge `{u1, u2}`) and cycle
/// `j` (edge `{v1, v2}`) when `{v1, v2}` is unprotected and `{u2, v2}` is an
/// edge of `g`.
fn try_two_opt(
    out: &mut Vec<CycleSwap>,
    g: &Graph,
    prot: &Vec<(i32, i32)>,
    i: usize,
    j: usize,
    u1: i32,
    u2: i32,
    v1: i32,
    v2: i32,
    Ghost(cycles): Ghost<Seq<Seq<i32>>>,
    Ghost(dj): Ghost<bool>,
)
    requires
        i < j < cycles.len(),
        cycle_edge(cycles, i as int, min_max(u1, u2)),
        !is_protected(prot@, min_max(u1, u2)),
        cycle_edge(cycles, j as int, min_max(v1, v2)),
        g.has_edge(u1, v1),
        swaps_distinct(old(out)@),
        dj ==> swaps_valid(cycles, *g, prot@, old(out)@),
    ensures
        swaps_distinct(final(out)@),
        keeps_listed(old(out)@, final(out)@),
        dj ==> swaps_valid(cycles, *g, prot@, final(out)@),
        final(out)@ == if !is_protected(prot@, min_max(v1, v2)) && g.has_edge(u2, v2) {
            with_new_swap(old(out)@, two_opt_swap(i, j, u1, u2, v1, v2))
        } else {
            old(out)@
        },
        !is_protected(prot@, min_max(v1, v2)) && g.has_edge(u2, v2) ==> listed(final(out)@, two_opt_swap(i, j, u1, u2, v1, v2)),
{
    let e_i = min_max_of(u1, u2);
    let e_j = min_max_of(v1, v2);
    if protected_contains(prot, e_j) {
        return;
    }
    if !g.contains_edge(u2, v2) {
        return;
    }
    let x1 = min_max_of(u1, v1);
    let x2 = min_max_of(u2, v2);
    let (add1, add2) = if pair_le_of(x1, x2) {
        (x1, x2)
    } else {
        (x2, x1)
    };
    let swap = CycleSwap::TwoOpt { c1: i, c2: j, rem1: e_i, rem2: e_j, add1, add2 };
    proof {
        assert(two_opt_shape(*g, e_i, e_j, add1, add2, u1, u2, v1, v2));
        assert(i < j < cycles.len());
        assert(cycle_edge(cycles, i as int, e_i));
        assert(cycle_edge(cycles, j as int, e_j));
        assert(!is_protected(prot@, e_i));
        assert(!is_protected(prot@, e_j));
        assert(exists|a: i32, b: i32, c: i32, d: i32| #[trigger] two_opt_shape(*g, e_i, e_j, add1, add2, a, b, c, d));
        assert(swap is TwoOpt);
        assert(swap->TwoOpt_c1 == i && swap->TwoOpt_c2 == j);
        assert(swap->TwoOpt_rem1 == e_i && swap->TwoOpt_rem2 == e_j);
        assert(swap->TwoOpt_add1 == add1 && swap->TwoOpt_add2 == add2);
        reveal(swap_ok);
        assert(swap_ok(cycles, *g, prot@, swap));
    }
    push_new_swap(out, swap, Ghost(cycles), Ghost(*g), Ghost(prot@), Ghost(dj));
}

/// The 2-opt bridge at position `p` of cycle `i` towards `v1` and its
/// recorded neighbour `v2` is one that the scan records: `{u1, u2}` and
/// `{v1, v2}` are unprotected, `v1` lies in a later cycle, and `{u1, v1}`
/// and `{u2, v2}` are edges of `g`.
pub open spec fn two_opt_due(
    cv: Seq<Seq<i32>>,
    g: Graph,
    vtc: Map<i32, usize>,
    nbr: Map<i32, (i32, i32)>,
    prot: Seq<(i32, i32)>,
    i: int,
    p: int,
    v1: i32,
    v2: i32,
) -> bool {
    &&& 0 <= i < cv.len()
    &&& 0 <= p < cv[i].len()
    &&& !is_protected(prot, min_max(cv[i][p], cv[i][next_pos(p, cv[i].len() as int)]))
    &&& g.has_edge(cv[i][p], v1)
    &&& vtc.contains_key(v1)
    &&& vtc[v1] > i
    &&& (v2 == nbr[v1].0 || v2 == nbr[v1].1)
    &&& !is_protected(prot, min_max(v1, v2))
    &&& g.has_edge(cv[i][next_pos(p, cv[i].len() as int)], v2)
}

/// The swap of `two_opt_due`.
pub open spec fn two_opt_at(cv: Seq<Seq<i32>>, vtc: Map<i32, usize>, i: int, p: int, v1: i32, v2: i32) -> CycleSwap {
    two_opt_swap(i as usize, vtc[v1], cv[i][p], cv[i][next_pos(p, cv[i].len() as int)], v1, v2)
}

/// A 2-opt bridge between position `p` of cycle `i` and position `q` of a
/// later cycle `j`: `v2` is a cycle neighbour of `v1 = cycles[j][q]`, the
/// removed edges `{u1, u2}` and `{v1, v2}` are unprotected, and `{u1, v1}`
/// and `{u2, v2}` are edges of `g`.
pub open spec fn two_opt_bridge(cv: Seq<Seq<i32>>, g: Graph, prot: Seq<(i32, i32)>, i: int, p: int, j: int, q: int, v2: i32) -> bool {
    let u1 = cv[i][p];
    let u2 = cv[i][next_pos(p, cv[i].len() as int)];
    let v1 = cv[j][q];
    &&& 0 <= i < j < cv.len()
    &&& 0 <= p < cv[i].len()
    &&& 0 <= q < cv[j].len()
    &&& (v2 == cv[j][prev_pos(q, cv[j].len() as int)] || v2 == cv[j][next_pos(q, cv[j].len() as int)])
    &&& !is_protected(prot, min_max(u1, u2))
    &&& !is_protected(prot, min_max(v1, v2))
    &&& g.has_edge(u1, v1)
    &&& g.has_edge(u2, v2)
}

/// A 3-opt triangle over three different cycles `t.0`, `t.1`, `t.2` at
/// positions `pos`: `u1`, `v2`, `w2` are the entries there and `u2`, `v1`,
/// `w1` cycle neighbours of them; the removed edges `{u1, u2}`, `{v1, v2}`,
/// `{w1, w2}` are unprotected and `{u1, v2}`, `{v1, w2}`, `{w1, u2}` are edges of `g`.
pub open spec fn tri_bridge(cv: Seq<Seq<i32>>, g: Graph, prot: Seq<(i32, i32)>, t: (int, int, int), pos: (int, int, int), u2: i32, v1: i32, w1: i32) -> bool {
    let u1 = cv[t.0][pos.0];
    let v2 = cv[t.1][pos.1];
    let w2 = cv[t.2][pos.2];
    &&& 0 <= t.0 < cv.len() && 0 <= t.1 < cv.len() && 0 <= t.2 < cv.len()
    &&& t.0 != t.1 && t.0 != t.2 && t.1 != t.2
    &&& 0 <= pos.0 < cv[t.0].len() && 0 <= pos.1 < cv[t.1].len() && 0 <= pos.2 < cv[t.2].len()
    &&& (u2 == cv[t.0][prev_pos(pos.0, cv[t.0].len() as int)] || u2 == cv[t.0][next_pos(pos.0, cv[t.0].len() as int)])
    &&& (v1 == cv[t.1][prev_pos(pos.1, cv[t.1].len() as int)] || v1 == cv[t.1][next_pos(pos.1, cv[t.1].len() as int)])
    &&& (w1 == cv[t.2][prev_pos(pos.2, cv[t.2].len() as int)] || w1 == cv[t.2][next_pos(pos.2, cv[t.2].len() as int)])
    &&& !is_protected(prot, min_max(u1, u2))
    &&& !is_protected(prot, min_max(v1, v2))
    &&& !is_protected(prot, min_max(w1, w2))
    &&& g.has_edge(u1, v2)
    &&& g.has_edge(v1, w2)
    &&& g.has_edge(w1, u2)
}

/// Over disjoint cycles, the maps record each vertex at its own slot.
proof fn lemma_slot_at(cv: Seq<Seq<i32>>, vtc: Map<i32, usize>, nbr: Map<i32, (i32, i32)>, v: i32, j: int, q: int)
    requires
        slot_maps_ok(cv, vtc, nbr),
        cycles_disjoint(cv),
        vtc.contains_key(v),
        0 <= j < cv.len(),
        0 <= q < cv[j].len(),
        cv[j][q] == v,
    ensures
        vtc[v] == j,
        nbr[v] == (cv[j][prev_pos(q, cv[j].len() as int)], cv[j][next_pos(q, cv[j].len() as int)]),
{
    reveal(slot_maps_ok);
    reveal(cycles_disjoint);
    let p2 = choose|p2: int| #[trigger] cycle_slot(cv, vtc[v] as int, p2, v, nbr[v]);
    assert(cv[vtc[v] as int][p2] == cv[j][q]);
}

/// The 2-opt bridges: for each unprotected edge `{u1, u2}` of a cycle `i`
/// and each neighbour `v1` of `u1` in a later cycle `j`, the unprotected
/// edges `{v1, v2}` at `v1` (previous neighbour first) with `{u2, v2}` an edge of `g`.
fn discover_two_opt(
    out: &mut Vec<CycleSwap>,
    cycles: &Vec<Vec<i32>>,
    g: &Graph,
    vtc: &HashMap<i32, usize>,
    nbr: &HashMap<i32, (i32, i32)>,
    prot: &Vec<(i32, i32)>,
)
    requires
        slot_maps_ok(cycle_views(cycles@), vtc@, nbr@),
        swaps_distinct(old(out)@),
    ensures
        swaps_distinct(final(out)@),
        keeps_listed(old(out)@, final(out)@),
        forall|i: int, p: int, v1: i32, v2: i32| #[trigger] two_opt_due(cycle_views(cycles@), *g, vtc@, nbr@, prot@, i, p, v1, v2) ==> listed(
            final(out)@,
            two_opt_at(cycle_views(cycles@), vtc@, i, p, v1, v2),
        ),
        swaps_valid(cycle_views(cycles@), *g, prot@, old(out)@) ==> swaps_valid(cycle_views(cycles@), *g, prot@, final(out)@),
{
    let ghost o_start = out@;
    let ghost cv = cycle_views(cycles@);
    let ghost dj = swaps_valid(cv, *g, prot@, out@);
    let m = cycles.len();
    let mut i: usize = 0;
    while i < m
        invariant
            cv == cycle_views(cycles@),
            m == cycles@.len(),
            slot_maps_ok(cv, vtc@, nbr@),
            swaps_distinct(out@),
            keeps_listed(o_start, out@),
            dj ==> swaps_valid(cv, *g, prot@, out@),
            0 <= i <= m,
            forall|i2: int, p: int, v1: i32, v2: i32| i2 < i && #[trigger] two_opt_due(cv, *g, vtc@, nbr@, prot@, i2, p, v1, v2) ==> listed(
                out@,
                two_opt_at(cv, vtc@, i2, p, v1, v2),
            ),
        decreases m - i,
    {
        let cycle = &cycles[i];
        let n = cycle.len();
        let mut pos: usize = 0;
        while pos < n
            invariant
                cv == cycle_views(cycles@),
                m == cycles@.len(),
                slot_maps_ok(cv, vtc@, nbr@),
                swaps_distinct(out@),
                keeps_listed(o_start, out@),
                dj ==> swaps_valid(cv, *g, prot@, out@),
                0 <= i < m,
                cycle@ == cv[i as int],
                n == cycle@.len(),
                0 <= pos <= n,
                forall|i2: int, p: int, v1: i32, v2: i32| i2 < i && #[trigger] two_opt_due(cv, *g, vtc@, nbr@, prot@, i2, p, v1, v2) ==> listed(
                    out@,
                    two_opt_at(cv, vtc@, i2, p, v1, v2),
                ),
                forall|p: int, v1: i32, v2: i32| p < pos && #[trigger] two_opt_due(cv, *g, vtc@, nbr@, prot@, i as int, p, v1, v2) ==> listed(
                    out@,
                    two_opt_at(cv, vtc@, i as int, p, v1, v2),
                ),
            decreases n - pos,
        {
            let u1 = cycle[pos];
            let ni = if pos + 1 == n {
                0
            } else {
                pos + 1
            };
            let u2 = cycle[ni];
            let e_i = min_max_of(u1, u2);
            proof {
                assert(cycle_edge_at(cv, i as int, pos as int, e_i));
            }
            if !protected_contains(prot, e_i) {
                match g.neighbors(u1) {
                    Some(nbrs) => {
                        let mut t: usize = 0;
                        while t < nbrs.len()
                            invariant
                                cv == cycle_views(cycles@),
                                m == cycles@.len(),
                                slot_maps_ok(cv, vtc@, nbr@),
                                swaps_distinct(out@),
                                keeps_listed(o_start, out@),
                                dj ==> swaps_valid(cv, *g, prot@, out@),
                                0 <= i < m,
                                cycle_edge(cv, i as int, min_max(u1, u2)),
                                !is_protected(prot@, min_max(u1, u2)),
                                g.adj().contains_key(u1),
                                nbrs@ == g.adj()[u1],
                                0 <= t <= nbrs@.len(),
                                cycle@ == cv[i as int],
                                n == cycle@.len(),
                                0 <= pos < n,
                                u1 == cv[i as int][pos as int],
                                u2 == cv[i as int][next_pos(pos as int, n as int)],
                                forall|i2: int, p: int, v1: i32, v2: i32| i2 < i && #[trigger] two_opt_due(cv, *g, vtc@, nbr@, prot@, i2, p, v1, v2) ==> listed(
                                    out@,
                                    two_opt_at(cv, vtc@, i2, p, v1, v2),
                                ),
                                forall|p: int, v1: i32, v2: i32| p < pos && #[trigger] two_opt_due(cv, *g, vtc@, nbr@, prot@, i as int, p, v1, v2) ==> listed(
                                    out@,
                                    two_opt_at(cv, vtc@, i as int, p, v1, v2),
                                ),
                                forall|q: int, v2: i32| 0 <= q < t && #[trigger] two_opt_due(cv, *g, vtc@, nbr@, prot@, i as int, pos as int, nbrs@[q], v2) ==> listed(
                                    out@,
                                    two_opt_at(cv, vtc@, i as int, pos as int, nbrs@[q], v2),
                                ),
                            decreases nbrs@.len() - t,
                        {
                            let v1 = nbrs[t];
                            proof {
                                assert(g.has_edge(u1, v1)) by {
                                    assert(nbrs@[t as int] == v1);
                                }
                            }
                            match vtc.get(&v1) {
                                Some(jr) => {
                                    let j = *jr;
                                    if j > i {
                                        proof {
                                            lemma_slot_of(cv, vtc@, nbr@, v1);
                                        }
                                        let nb = *nbr.get(&v1).unwrap();
                                        let ghost oa = out@;
                                        try_two_opt(out, g, prot, i, j, u1, u2, v1, nb.0, Ghost(cv), Ghost(dj));
                                        let ghost ob = out@;
                                        try_two_opt(out, g, prot, i, j, u1, u2, v1, nb.1, Ghost(cv), Ghost(dj));
                                        proof {
                                            assert(nbrs@[t as int] == v1);
                                            assert forall|q: int, v2: i32| 0 <= q < t + 1 && #[trigger] two_opt_due(cv, *g, vtc@, nbr@, prot@, i as int, pos as int, nbrs@[q], v2) implies listed(
                                                out@,
                                                two_opt_at(cv, vtc@, i as int, pos as int, nbrs@[q], v2),
                                            ) by {
                                                if q == t {
                                                    if v2 == nb.0 {
                                                        assert(listed(ob, two_opt_swap(i, j, u1, u2, v1, nb.0)));
                                                    }
                                                } else {
                                                    assert(listed(oa, two_opt_at(cv, vtc@, i as int, pos as int, nbrs@[q], v2)));
                                                }
                                            }
                                        }
                                    }
                                },
                                None => {},
                            }
                            t = t + 1;
                        }
                    },
                    None => {},
                }
            }
            pos = pos + 1;
        }
        i = i + 1;
    }
}

/// Records the 3-opt triangle that removes `{u1, u2}` from cycle `i`,
/// `{v1, v2}` from cycle `j` and `{w1, w2}` from cycle `k`, and adds
/// `{u1, v2}`, `{v1, w2}` and `{w1, u2}`, when `{w1, w2}` is unprotected and
/// `{w1, u2}` is an edge of `g`; the cycles are rotated to start from the smallest.
fn try_three_opt(
    out: &mut Vec<CycleSwap>,
    g: &Graph,
    prot: &Vec<(i32, i32)>,
    ijk: (usize, usize, usize),
    u: (i32, i32),
    v: (i32, i32),
    w: (i32, i32),
    Ghost(cycles): Ghost<Seq<Seq<i32>>>,
    Ghost(dj): Ghost<bool>,
)
    requires
        ijk.0 < cycles.len(),
        ijk.1 < cycles.len(),
        ijk.2 < cycles.len(),
        ijk.0 != ijk.1,
        ijk.0 != ijk.2,
        ijk.1 != ijk.2,
        dj ==> cycle_edge(cycles, ijk.0 as int, min_max(u.0, u.1)),
        cycle_edge(cycles, ijk.1 as int, min_max(v.0, v.1)),
        cycle_edge(cycles, ijk.2 as int, min_max(w.0, w.1)),
        !is_protected(prot@, min_max(u.0, u.1)),
        !is_protected(prot@, min_max(v.0, v.1)),
        g.has_edge(u.0, v.1),
        g.has_edge(v.0, w.1),
        swaps_distinct(old(out)@),
        dj ==> swaps_valid(cycles, *g, prot@, old(out)@),
    ensures
        swaps_distinct(final(out)@),
        keeps_listed(old(out)@, final(out)@),
        dj ==> swaps_valid(cycles, *g, prot@, final(out)@),
        final(out)@ == if !is_protected(prot@, min_max(w.0, w.1)) && g.has_edge(w.0, u.1) {
            with_new_swap(old(out)@, three_opt_swap(ijk, u, v, w))
        } else {
            old(out)@
        },
        !is_protected(prot@, min_max(w.0, w.1)) && g.has_edge(w.0, u.1) ==> listed(final(out)@, three_opt_swap(ijk, u, v, w)),
{
    let (i, j, k) = ijk;
    let (u1, u2) = u;
    let (v1, v2) = v;
    let (w1, w2) = w;
    let e1 = min_max_of(u1, u2);
    let e2 = min_max_of(v1, v2);
    let e3 = min_max_of(w1, w2);
    if protected_contains(prot, e3) {
        return;
    }
    if !g.contains_edge(w1, u2) {
        return;
    }
    let a1 = min_max_of(u1, v2);
    let a2 = min_max_of(v1, w2);
    let a3 = min_max_of(w1, u2);
    let swap = if i < j && i < k {
        CycleSwap::ThreeOptTriangle { c1: i, c2: j, c3: k, rem1: e1, rem2: e2, rem3: e3, add1: a1, add2: a2, add3: a3 }
    } else if j < i && j < k {
        CycleSwap::ThreeOptTriangle { c1: j, c2: k, c3: i, rem1: e2, rem2: e3, rem3: e1, add1: a2, add2: a3, add3: a1 }
    } else {
        CycleSwap::ThreeOptTriangle { c1: k, c2: i, c3: j, rem1: e3, rem2: e1, rem3: e2, add1: a3, add2: a1, add3: a2 }
    };
    proof {
        if dj {
            assert(swap is ThreeOptTriangle);
            if i < j && i < k {
                assert(three_opt_shape(*g, (e1, e2, e3), (a1, a2, a3), u1, u2, v1, v2, w1, w2));
                assert(swap->ThreeOptTriangle_c1 == i && swap->ThreeOptTriangle_c2 == j && swap->ThreeOptTriangle_c3 == k);
                assert(swap->ThreeOptTriangle_rem1 == e1 && swap->ThreeOptTriangle_rem2 == e2 && swap->ThreeOptTriangle_rem3 == e3);
                assert(swap->ThreeOptTriangle_add1 == a1 && swap->ThreeOptTriangle_add2 == a2 && swap->ThreeOptTriangle_add3 == a3);
            } else if j < i && j < k {
                assert(three_opt_shape(*g, (e2, e3, e1), (a2, a3, a1), v1, v2, w1, w2, u1, u2));
                assert(swap->ThreeOptTriangle_c1 == j && swap->ThreeOptTriangle_c2 == k && swap->ThreeOptTriangle_c3 == i);
                assert(swap->ThreeOptTriangle_rem1 == e2 && swap->ThreeOptTriangle_rem2 == e3 && swap->ThreeOptTriangle_rem3 == e1);
                assert(swap->ThreeOptTriangle_add1 == a2 && swap->ThreeOptTriangle_add2 == a3 && swap->ThreeOptTriangle_add3 == a1);
            } else {
                assert(three_opt_shape(*g, (e3, e1, e2), (a3, a1, a2), w1, w2, u1, u2, v1, v2));
                assert(swap->ThreeOptTriangle_c1 == k && swap->ThreeOptTriangle_c2 == i && swap->ThreeOptTriangle_c3 == j);
                assert(swap->ThreeOptTriangle_rem1 == e3 && swap->ThreeOptTriangle_rem2 == e1 && swap->ThreeOptTriangle_rem3 == e2);
                assert(swap->ThreeOptTriangle_add1 == a3 && swap->ThreeOptTriangle_add2 == a1 && swap->ThreeOptTriangle_add3 == a2);
            }
            reveal(swap_ok);
            assert(swap_ok(cycles, *g, prot@, swap));
        }
    }
    push_new_swap(out, swap, Ghost(cycles), Ghost(*g), Ghost(prot@), Ghost(dj));
}

/// The 3-opt triangle that removes `{u1, u2}` from cycle `i`, `{v1, v2}` from
/// the cycle of `v2` and `{w1, w2}` from the cycle of `w2` is one that the
/// scan records: the removed edges are unprotected, `v1` and `w1` are the
/// recorded neighbours of `v2` and `w2`, the three cycles differ, and
/// `{u1, v2}`, `{v1, w2}`, `{w1, u2}` are edges of `g`.
pub open spec fn tri_due(
    g: Graph,
    vtc: Map<i32, usize>,
    nbr: Map<i32, (i32, i32)>,
    prot: Seq<(i32, i32)>,
    i: int,
    u: (i32, i32),
    v: (i32, i32),
    w: (i32, i32),
) -> bool {
    &&& !is_protected(prot, min_max(u.0, u.1))
    &&& g.has_edge(u.0, v.1)
    &&& vtc.contains_key(v.1)
    &&& vtc[v.1] != i
    &&& (v.0 == nbr[v.1].0 || v.0 == nbr[v.1].1)
    &&& !is_protected(prot, min_max(v.0, v.1))
    &&& g.has_edge(v.0, w.1)
    &&& vtc.contains_key(w.1)
    &&& vtc[w.1] != i
    &&& vtc[w.1] != vtc[v.1]
    &&& (w.0 == nbr[w.1].0 || w.0 == nbr[w.1].1)
    &&& !is_protected(prot, min_max(w.0, w.1))
    &&& g.has_edge(w.0, u.1)
}

/// The swap of `tri_due`.
pub open spec fn tri_swap(vtc: Map<i32, usize>, i: int, u: (i32, i32), v: (i32, i32), w: (i32, i32)) -> CycleSwap {
    three_opt_swap((i as usize, vtc[v.1], vtc[w.1]), u, v, w)
}

/// The triangles through the unprotected edge `{v1, v2}` of cycle `j`, given
/// the edge `{u1, u2}` of cycle `i` and the edge `{u1, v2}`: each neighbour
/// `w2` of `v1` in a third cycle `k`, with its previous then its next neighbour as `w1`.
fn three_opt_from_second(
    out: &mut Vec<CycleSwap>,
    g: &Graph,
    vtc: &HashMap<i32, usize>,
    nbr: &HashMap<i32, (i32, i32)>,
    prot: &Vec<(i32, i32)>,
    ij: (usize, usize),
    u: (i32, i32),
    v: (i32, i32),
    Ghost(cycles): Ghost<Seq<Seq<i32>>>,
    Ghost(dj): Ghost<bool>,
)
    requires
        slot_maps_ok(cycles, vtc@, nbr@),
        ij.0 < cycles.len(),
        ij.1 < cycles.len(),
        ij.0 != ij.1,
        dj ==> cycle_edge(cycles, ij.0 as int, min_max(u.0, u.1)),
        cycle_edge(cycles, ij.1 as int, min_max(v.0, v.1)),
        !is_protected(prot@, min_max(u.0, u.1)),
        g.has_edge(u.0, v.1),
        swaps_distinct(old(out)@),
        dj ==> swaps_valid(cycles, *g, prot@, old(out)@),
    ensures
        swaps_distinct(final(out)@),
        keeps_listed(old(out)@, final(out)@),
        vtc@.contains_key(v.1) && vtc@[v.1] == ij.1 ==> forall|w: (i32, i32)| #[trigger] tri_due(*g, vtc@, nbr@, prot@, ij.0 as int, u, v, w) ==> listed(
            final(out)@,
            tri_swap(vtc@, ij.0 as int, u, v, w),
        ),
        dj ==> swaps_valid(cycles, *g, prot@, final(out)@),
{
    let ghost o_start = out@;
    let (i, j) = ij;
    let (v1, v2) = v;
    let e2 = min_max_of(v1, v2);
    if protected_contains(prot, e2) {
        return;
    }
    match g.neighbors(v1) {
        Some(nbrs) => {
            let mut t: usize = 0;
            while t < nbrs.len()
                invariant
                    slot_maps_ok(cycles, vtc@, nbr@),
                    i < cycles.len(),
                    j < cycles.len(),
                    i != j,
                    ij == (i, j),
                    v == (v1, v2),
                    dj ==> cycle_edge(cycles, i as int, min_max(u.0, u.1)),
                    cycle_edge(cycles, j as int, min_max(v1, v2)),
                    !is_protected(prot@, min_max(u.0, u.1)),
                    !is_protected(prot@, min_max(v1, v2)),
                    g.has_edge(u.0, v2),
                    g.adj().contains_key(v1),
                    nbrs@ == g.adj()[v1],
                    0 <= t <= nbrs@.len(),
                    swaps_distinct(out@),
                    keeps_listed(o_start, out@),
                    dj ==> swaps_valid(cycles, *g, prot@, out@),
                    vtc@.contains_key(v.1) && vtc@[v.1] == j ==> forall|q: int, w1: i32| 0 <= q < t && #[trigger] tri_due(*g, vtc@, nbr@, prot@, i as int, u, v, (w1, nbrs@[q])) ==> listed(
                        out@,
                        tri_swap(vtc@, i as int, u, v, (w1, nbrs@[q])),
                    ),
                decreases nbrs@.len() - t,
            {
                let w2 = nbrs[t];
                proof {
                    assert(g.has_edge(v1, w2)) by {
                        assert(nbrs@[t as int] == w2);
                    }
                }
                match vtc.get(&w2) {
                    Some(kr) => {
                        let k = *kr;
                        if k != i && k != j {
                            proof {
                                lemma_slot_of(cycles, vtc@, nbr@, w2);
                            }
                            let nb = *nbr.get(&w2).unwrap();
                            let ghost oa = out@;
                            try_three_opt(out, g, prot, (i, j, k), u, (v1, v2), (nb.0, w2), Ghost(cycles), Ghost(dj));
                            let ghost ob = out@;
                            try_three_opt(out, g, prot, (i, j, k), u, (v1, v2), (nb.1, w2), Ghost(cycles), Ghost(dj));
                            proof {
                                if vtc@.contains_key(v.1) && vtc@[v.1] == j {
                                    assert(nbrs@[t as int] == w2);
                                    assert forall|q: int, w1: i32| 0 <= q < t + 1 && #[trigger] tri_due(*g, vtc@, nbr@, prot@, i as int, u, v, (w1, nbrs@[q])) implies listed(
                                        out@,
                                        tri_swap(vtc@, i as int, u, v, (w1, nbrs@[q])),
                                    ) by {
                                        if q == t {
                                            if w1 == nb.0 {
                                                assert(listed(ob, three_opt_swap((i, j, k), u, (v1, v2), (nb.0, w2))));
                                            }
                                        } else {
                                            assert(listed(oa, tri_swap(vtc@, i as int, u, v, (w1, nbrs@[q]))));
                                        }
                                    }
                                }
                            }
                        }
                    },
                    None => {},
                }
                t = t + 1;
            }
            proof {
                if vtc@.contains_key(v.1) && vtc@[v.1] == j {
                    assert forall|w: (i32, i32)| #[trigger] tri_due(*g, vtc@, nbr@, prot@, i as int, u, v, w) implies listed(
                        out@,
                        tri_swap(vtc@, i as int, u, v, w),
                    ) by {
                        assert(g.adj()[v1].contains(w.1));
                        let q = choose|q: int| 0 <= q < nbrs@.len() && nbrs@[q] == w.1;
                        assert(tri_due(*g, vtc@, nbr@, prot@, i as int, u, v, (w.0, nbrs@[q])));
                    }
                }
            }
        },
        None => {},
    }
}

/// The triangles through the unprotected edge `{u1, u2}` of cycle `i`: each
/// neighbour `v2` of `u1` in another cycle `j`, with its previous then its
/// next neighbour as `v1`.
fn three_opt_from_edge(
    out: &mut Vec<CycleSwap>,
    g: &Graph,
    vtc: &HashMap<i32, usize>,
    nbr: &HashMap<i32, (i32, i32)>,
    prot: &Vec<(i32, i32)>,
    i: usize,
    u1: i32,
    u2: i32,
    Ghost(cycles): Ghost<Seq<Seq<i32>>>,
    Ghost(dj): Ghost<bool>,
)
    requires
        slot_maps_ok(cycles, vtc@, nbr@),
        i < cycles.len(),
        dj ==> cycle_edge(cycles, i as int, min_max(u1, u2)),
        swaps_distinct(old(out)@),
        dj ==> swaps_valid(cycles, *g, prot@, old(out)@),
    ensures
        swaps_distinct(final(out)@),
        keeps_listed(old(out)@, final(out)@),
        forall|v: (i32, i32), w: (i32, i32)| #[trigger] tri_due(*g, vtc@, nbr@, prot@, i as int, (u1, u2), v, w) ==> listed(
            final(out)@,
            tri_swap(vtc@, i as int, (u1, u2), v, w),
        ),
        dj ==> swaps_valid(cycles, *g, prot@, final(out)@),
{
    let ghost o_start = out@;
    let e1 = min_max_of(u1, u2);
    if protected_contains(prot, e1) {
        return;
    }
    match g.neighbors(u1) {
        Some(nbrs) => {
            let mut t: usize = 0;
            while t < nbrs.len()
                invariant
                    slot_maps_ok(cycles, vtc@, nbr@),
                    i < cycles.len(),
                    dj ==> cycle_edge(cycles, i as int, min_max(u1, u2)),
                    !is_protected(prot@, min_max(u1, u2)),
                    g.adj().contains_key(u1),
                    nbrs@ == g.adj()[u1],
                    0 <= t <= nbrs@.len(),
                    swaps_distinct(out@),
                    keeps_listed(o_start, out@),
                    dj ==> swaps_valid(cycles, *g, prot@, out@),
                    forall|q: int, v1: i32, w: (i32, i32)| 0 <= q < t && #[trigger] tri_due(*g, vtc@, nbr@, prot@, i as int, (u1, u2), (v1, nbrs@[q]), w) ==> listed(
                        out@,
                        tri_swap(vtc@, i as int, (u1, u2), (v1, nbrs@[q]), w),
                    ),
                decreases nbrs@.len() - t,
            {
                let v2 = nbrs[t];
                proof {
                    assert(g.has_edge(u1, v2)) by {
                        assert(nbrs@[t as int] == v2);
                    }
                }
                match vtc.get(&v2) {
                    Some(jr) => {
                        let j = *jr;
                        if j != i {
                            proof {
                                lemma_slot_of(cycles, vtc@, nbr@, v2);
                            }
                            let nb = *nbr.get(&v2).unwrap();
                            let ghost oa = out@;
                            three_opt_from_second(out, g, vtc, nbr, prot, (i, j), (u1, u2), (nb.0, v2), Ghost(cycles), Ghost(dj));
                            let ghost ob = out@;
                            three_opt_from_second(out, g, vtc, nbr, prot, (i, j), (u1, u2), (nb.1, v2), Ghost(cycles), Ghost(dj));
                            proof {
                                assert(nbrs@[t as int] == v2);
                                assert forall|q: int, v1: i32, w: (i32, i32)| 0 <= q < t + 1 && #[trigger] tri_due(*g, vtc@, nbr@, prot@, i as int, (u1, u2), (v1, nbrs@[q]), w) implies listed(
                                    out@,
                                    tri_swap(vtc@, i as int, (u1, u2), (v1, nbrs@[q]), w),
                                ) by {
                                    if q == t {
                                        if v1 == nb.0 {
                                            assert(tri_due(*g, vtc@, nbr@, prot@, i as int, (u1, u2), (nb.0, v2), w));
                                            assert(listed(ob, tri_swap(vtc@, i as int, (u1, u2), (nb.0, v2), w)));
                                        } else {
                                            assert(tri_due(*g, vtc@, nbr@, prot@, i as int, (u1, u2), (nb.1, v2), w));
                                        }
                                    } else {
                                        assert(listed(oa, tri_swap(vtc@, i as int, (u1, u2), (v1, nbrs@[q]), w)));
                                    }
                                }
                            }
                        }
                    },
                    None => {},
                }
                t = t + 1;
            }
            proof {
                assert forall|v: (i32, i32), w: (i32, i32)| #[trigger] tri_due(*g, vtc@, nbr@, prot@, i as int, (u1, u2), v, w) implies listed(
                    out@,
                    tri_swap(vtc@, i as int, (u1, u2), v, w),
                ) by {
                    assert(g.adj()[u1].contains(v.1));
                    let q = choose|q: int| 0 <= q < nbrs@.len() && nbrs@[q] == v.1;
                    assert(tri_due(*g, vtc@, nbr@, prot@, i as int, (u1, u2), (v.0, nbrs@[q]), w));
                }
            }
        },
        None => {},
    }
}

/// The 3-opt triangles: for each vertex `u1` of each cycle `i`, with its
/// previous then its next neighbour as `u2`.
fn discover_three_opt(
    out: &mut Vec<CycleSwap>,
    cycles: &Vec<Vec<i32>>,
    g: &Graph,
    vtc: &HashMap<i32, usize>,
    nbr: &HashMap<i32, (i32, i32)>,
    prot: &Vec<(i32, i32)>,
)
    requires
        slot_maps_ok(cycle_views(cycles@), vtc@, nbr@),
        forall|c: int, p: int|
            0 <= c < cycles@.len() && 0 <= p < cycles@[c]@.len() ==> vtc@.contains_key(#[trigger] cycle_views(cycles@)[c][p]),
        swaps_distinct(old(out)@),
    ensures
        swaps_distinct(final(out)@),
        keeps_listed(old(out)@, final(out)@),
        forall|i: int, p: int, u2: i32, v: (i32, i32), w: (i32, i32)|
            0 <= i < cycles@.len() && 0 <= p < cycles@[i]@.len() && (u2 == nbr@[cycle_views(cycles@)[i][p]].0 || u2 == nbr@[cycle_views(
                cycles@,
            )[i][p]].1) && #[trigger] tri_due(*g, vtc@, nbr@, prot@, i, (cycle_views(cycles@)[i][p], u2), v, w) ==> listed(
                final(out)@,
                tri_swap(vtc@, i, (cycle_views(cycles@)[i][p], u2), v, w),
            ),
        swaps_valid(cycle_views(cycles@), *g, prot@, old(out)@) && cycles_disjoint(cycle_views(cycles@)) ==> swaps_valid(
            cycle_views(cycles@),
            *g,
            prot@,
            final(out)@,
        ),
{
    let ghost o_start = out@;
    let ghost cv = cycle_views(cycles@);
    let ghost dj = swaps_valid(cv, *g, prot@, out@) && cycles_disjoint(cv);
    let m = cycles.len();
    let mut i: usize = 0;
    while i < m
        invariant
            cv == cycle_views(cycles@),
            m == cycles@.len(),
            slot_maps_ok(cv, vtc@, nbr@),
            forall|c: int, p: int| 0 <= c < cycles@.len() && 0 <= p < cycles@[c]@.len() ==> vtc@.contains_key(#[trigger] cv[c][p]),
            dj ==> cycles_disjoint(cv),
            swaps_distinct(out@),
            keeps_listed(o_start, out@),
            dj ==> swaps_valid(cv, *g, prot@, out@),
            0 <= i <= m,
            forall|i2: int, p: int, u2: i32, v: (i32, i32), w: (i32, i32)|
                0 <= i2 < i && 0 <= p < cv[i2].len() && (u2 == nbr@[cv[i2][p]].0 || u2 == nbr@[cv[i2][p]].1) && #[trigger] tri_due(
                    *g,
                    vtc@,
                    nbr@,
                    prot@,
                    i2,
                    (cv[i2][p], u2),
                    v,
                    w,
                ) ==> listed(out@, tri_swap(vtc@, i2, (cv[i2][p], u2), v, w)),
        decreases m - i,
    {
        let cycle = &cycles[i];
        let n = cycle.len();
        let mut pos: usize = 0;
        while pos < n
            invariant
                cv == cycle_views(cycles@),
                m == cycles@.len(),
                slot_maps_ok(cv, vtc@, nbr@),
                forall|c: int, p: int| 0 <= c < cycles@.len() && 0 <= p < cycles@[c]@.len() ==> vtc@.contains_key(#[trigger] cv[c][p]),
                dj ==> cycles_disjoint(cv),
                swaps_distinct(out@),
                keeps_listed(o_start, out@),
                dj ==> swaps_valid(cv, *g, prot@, out@),
                0 <= i < m,
                cycle@ == cv[i as int],
                n == cycle@.len(),
                0 <= pos <= n,
                forall|i2: int, p: int, u2: i32, v: (i32, i32), w: (i32, i32)|
                    0 <= i2 < i && 0 <= p < cv[i2].len() && (u2 == nbr@[cv[i2][p]].0 || u2 == nbr@[cv[i2][p]].1) && #[trigger] tri_due(
                        *g,
                        vtc@,
                        nbr@,
                        prot@,
                        i2,
                        (cv[i2][p], u2),
                        v,
                        w,
                    ) ==> listed(out@, tri_swap(vtc@, i2, (cv[i2][p], u2), v, w)),
                forall|p: int, u2: i32, v: (i32, i32), w: (i32, i32)|
                    0 <= p < pos && (u2 == nbr@[cv[i as int][p]].0 || u2 == nbr@[cv[i as int][p]].1) && #[trigger] tri_due(
                        *g,
                        vtc@,
                        nbr@,
                        prot@,
                        i as int,
                        (cv[i as int][p], u2),
                        v,
                        w,
                    ) ==> listed(out@, tri_swap(vtc@, i as int, (cv[i as int][p], u2), v, w)),
            decreases n - pos,
        {
            let u1 = cycle[pos];
            proof {
                assert(cycles@[i as int]@ == cv[i as int]);
                assert(vtc@.contains_key(cv[i as int][pos as int]));
                lemma_slot_of(cv, vtc@, nbr@, u1);
            }
            let nb = *nbr.get(&u1).unwrap();
            proof {
                if dj {
                    lemma_unique_slot(cv, vtc@, nbr@, i as int, pos as int);
                }
            }
            let ghost oa = out@;
            three_opt_from_edge(out, g, vtc, nbr, prot, i, u1, nb.0, Ghost(cv), Ghost(dj));
            let ghost ob = out@;
            three_opt_from_edge(out, g, vtc, nbr, prot, i, u1, nb.1, Ghost(cv), Ghost(dj));
            proof {
                assert(cv[i as int][pos as int] == u1);
                assert forall|p: int, u2: i32, v: (i32, i32), w: (i32, i32)|
                    0 <= p < pos + 1 && (u2 == nbr@[cv[i as int][p]].0 || u2 == nbr@[cv[i as int][p]].1) && #[trigger] tri_due(
                        *g,
                        vtc@,
                        nbr@,
                        prot@,
                        i as int,
                        (cv[i as int][p], u2),
                        v,
                        w,
                    ) implies listed(out@, tri_swap(vtc@, i as int, (cv[i as int][p], u2), v, w)) by {
                    if p == pos {
                        if u2 == nb.0 {
                            assert(listed(ob, tri_swap(vtc@, i as int, (u1, nb.0), v, w)));
                        }
                    } else {
                        assert(listed(oa, tri_swap(vtc@, i as int, (cv[i as int][p], u2), v, w)));
                    }
                }
            }
            pos = pos + 1;
        }
        i = i + 1;
    }
}

/// When no vertex repeats, the slot recorded for a vertex is its only one.
proof fn lemma_unique_slot(cycles: Seq<Seq<i32>>, vtc: Map<i32, usize>, nbr: Map<i32, (i32, i32)>, i: int, pos: int)
    requires
        slot_maps_ok(cycles, vtc, nbr),
        cycles_disjoint(cycles),
        0 <= i < cycles.len(),
        0 <= pos < cycles[i].len(),
        vtc.contains_key(cycles[i][pos]),
    ensures
        cycle_edge(cycles, i, min_max(cycles[i][pos], nbr[cycles[i][pos]].0)),
        cycle_edge(cycles, i, min_max(cycles[i][pos], nbr[cycles[i][pos]].1)),
{
    reveal(cycles_disjoint);
    reveal(slot_maps_ok);
    let u1 = cycles[i][pos];
    let p = choose|p: int| #[trigger] cycle_slot(cycles, vtc[u1] as int, p, u1, nbr[u1]);
    let c = vtc[u1] as int;
    assert(cycles[c][p] == cycles[i][pos]);
    assert(c == i && p == pos);
    lemma_slot_edges(cycles, i, pos, u1, nbr[u1]);
}

impl MultiOptSatSplicer {
    /// The candidate swaps between the cycles, without repetition: first the
    /// 2-opt bridges, then the 3-opt triangles, each in the order of the
    /// cycles, their positions and the adjacency lists. Edges listed in
    /// `protected_edges` (in either orientation) are never removed. When no
    /// vertex occurs twice among the cycles, every swap is valid (`swap_ok`).
    pub fn discover_swaps(cycles: &Vec<Vec<i32>>, g: &Graph, protected_edges: &Vec<(i32, i32)>) -> (r: Vec<CycleSwap>)
        ensures
            swaps_distinct(r@),
            cycles_disjoint(cycle_views(cycles@)) ==> swaps_valid(cycle_views(cycles@), *g, protected_edges@, r@),
            cycles_disjoint(cycle_views(cycles@)) ==> forall|i: int, p: int, j: int, q: int, v2: i32|
                #[trigger] two_opt_bridge(cycle_views(cycles@), *g, protected_edges@, i, p, j, q, v2) ==> listed(
                    r@,
                    two_opt_swap(
                        i as usize,
                        j as usize,
                        cycle_views(cycles@)[i][p],
                        cycle_views(cycles@)[i][next_pos(p, cycle_views(cycles@)[i].len() as int)],
                        cycle_views(cycles@)[j][q],
                        v2,
                    ),
                ),
            cycles_disjoint(cycle_views(cycles@)) ==> forall|t: (int, int, int), pos: (int, int, int), u2: i32, v1: i32, w1: i32|
                #[trigger] tri_bridge(cycle_views(cycles@), *g, protected_edges@, t, pos, u2, v1, w1) ==> listed(
                    r@,
                    three_opt_swap(
                        (t.0 as usize, t.1 as usize, t.2 as usize),
                        (cycle_views(cycles@)[t.0][pos.0], u2),
                        (v1, cycle_views(cycles@)[t.1][pos.1]),
                        (w1, cycle_views(cycles@)[t.2][pos.2]),
                    ),
                ),
    {
        let (vtc, nbr) = slot_maps(cycles);
        let mut out: Vec<CycleSwap> = Vec::new();
        proof {
            assert(swaps_valid(cycle_views(cycles@), *g, protected_edges@, out@));
        }
        discover_two_opt(&mut out, cycles, g, &vtc, &nbr, protected_edges);
        let ghost o2 = out@;
        discover_three_opt(&mut out, cycles, g, &vtc, &nbr, protected_edges);
        proof {
            let cv = cycle_views(cycles@);
            if cycles_disjoint(cv) {
                assert forall|i: int, p: int, j: int, q: int, v2: i32|
                    #[trigger] two_opt_bridge(cv, *g, protected_edges@, i, p, j, q, v2) implies listed(
                        out@,
                        two_opt_swap(i as usize, j as usize, cv[i][p], cv[i][next_pos(p, cv[i].len() as int)], cv[j][q], v2),
                    ) by {
                    let v1 = cv[j][q];
                    assert(vtc@.contains_key(v1));
                    lemma_slot_at(cv, vtc@, nbr@, v1, j, q);
                    assert(two_opt_due(cv, *g, vtc@, nbr@, protected_edges@, i, p, v1, v2));
                    assert(listed(o2, two_opt_at(cv, vtc@, i, p, v1, v2)));
                }
                assert forall|t: (int, int, int), pos: (int, int, int), u2: i32, v1: i32, w1: i32|
                    #[trigger] tri_bridge(cv, *g, protected_edges@, t, pos, u2, v1, w1) implies listed(
                        out@,
                        three_opt_swap((t.0 as usize, t.1 as usize, t.2 as usize), (cv[t.0][pos.0], u2), (v1, cv[t.1][pos.1]), (w1, cv[t.2][pos.2])),
                    ) by {
                    let u1 = cv[t.0][pos.0];
                    let v2 = cv[t.1][pos.1];
                    let w2 = cv[t.2][pos.2];
                    assert(vtc@.contains_key(u1) && vtc@.contains_key(v2) && vtc@.contains_key(w2));
                    lemma_slot_at(cv, vtc@, nbr@, u1, t.0, pos.0);
                    lemma_slot_at(cv, vtc@, nbr@, v2, t.1, pos.1);
                    lemma_slot_at(cv, vtc@, nbr@, w2, t.2, pos.2);
                    assert(cycles@[t.0]@ == cv[t.0]);
                    assert(tri_due(*g, vtc@, nbr@, protected_edges@, t.0, (u1, u2), (v1, v2), (w1, w2)));
                }
            }
        }
        out
    }
}

/// The cycle indices a swap joins.
pub open spec fn swap_cycles(s: CycleSwap) -> Seq<usize> {
    match s {
        CycleSwap::TwoOpt { c1, c2, .. } => seq![c1, c2],
        CycleSwap::ThreeOptTriangle { c1, c2, c3, .. } => seq![c1, c2, c3],
    }
}

/// Cycles `a` and `b` differ and some swap joins both.
pub open spec fn swap_linked(swaps: Seq<CycleSwap>, a: usize, b: usize) -> bool {
    a != b && exists|k: int| 0 <= k < swaps.len() && #[trigger] swap_cycles(swaps[k]).contains(a) && swap_cycles(swaps[k]).contains(b)
}

/// Every swap joins cycles below `m`.
pub open spec fn swaps_within(swaps: Seq<CycleSwap>, m: int) -> bool {
    forall|k: int, x: int| 0 <= k < swaps.len() && 0 <= x < swap_cycles(swaps[k]).len() ==> (#[trigger] swap_cycles(swaps[k])[x]) < m
}

/// `p` is a walk of the swap relation.
pub open spec fn swap_walk(swaps: Seq<CycleSwap>, p: Seq<usize>) -> bool {
    &&& p.len() >= 1
    &&& forall|i: int| 0 <= i < p.len() - 1 ==> swap_linked(swaps, #[trigger] p[i], p[i + 1])
}

/// The components of the cycles under the swaps: increasing lists that
/// partition `0..m`, each closed under the swap relation and joined by walks
/// from its first (smallest) entry, ordered by that entry.
pub open spec fn components_ok(swaps: Seq<CycleSwap>, m: int, comps: Seq<Seq<usize>>) -> bool {
    &&& forall|i: int| 0 <= i < comps.len() ==> (#[trigger] comps[i]).len() >= 1
    &&& forall|i: int, x: int| 0 <= i < comps.len() && 0 <= x < comps[i].len() ==> (#[trigger] comps[i][x]) < m
    &&& forall|i: int, a: int, b: int| 0 <= i < comps.len() && 0 <= a < b < comps[i].len() ==> (#[trigger] comps[i][a]) < (#[trigger] comps[i][b])
    &&& forall|j: usize| j < m ==> #[trigger] in_some_cluster(comps, j)
    &&& forall|i: int, i2: int, j: usize| 0 <= i < i2 < comps.len() ==> !(#[trigger] comps[i].contains(j) && #[trigger] comps[i2].contains(j))
    &&& forall|i: int, a: usize, b: usize| 0 <= i < comps.len() && #[trigger] comps[i].contains(a) && #[trigger] swap_linked(swaps, a, b) ==> comps[i].contains(b)
    &&& forall|i: int, x: usize| 0 <= i < comps.len() && #[trigger] comps[i].contains(x) ==> exists|p: Seq<usize>|
        #[trigger] swap_walk(swaps, p) && p[0] == comps[i][0] && p.last() == x
}

/// The adjacency lists of the swap relation on `0..m`.
fn swap_adjacency(swaps: &Vec<CycleSwap>, m: usize) -> (adj: Vec<Vec<usize>>)
    requires
        swaps_within(swaps@, m as int),
    ensures
        adj@.len() == m,
        forall|a: int, b: usize| 0 <= a < m ==> (#[trigger] adj@[a]@.contains(b) <==> swap_linked(swaps@, a as usize, b)),
{
    let mut adj: Vec<Vec<usize>> = Vec::new();
    let mut i: usize = 0;
    while i < m
        invariant
            0 <= i <= m,
            adj@.len() == i,
            forall|a: int| 0 <= a < i ==> (#[trigger] adj@[a])@.len() == 0,
        decreases m - i,
    {
        adj.push(Vec::new());
        i = i + 1;
    }
    let mut k: usize = 0;
    while k < swaps.len()
        invariant
            swaps_within(swaps@, m as int),
            0 <= k <= swaps@.len(),
            adj@.len() == m,
            forall|a: int, b: usize| 0 <= a < m ==> (#[trigger] adj@[a]@.contains(b) <==> a as usize != b && exists|q: int|
                0 <= q < k && #[trigger] swap_cycles(swaps@[q]).contains(a as usize) && swap_cycles(swaps@[q]).contains(b)),
        decreases swaps@.len() - k,
    {
        let cs = swaps[k].cycles();
        let ghost sc = swap_cycles(swaps@[k as int]);
        proof {
            assert(cs@ == sc);
            assert forall|x: int| 0 <= x < cs@.len() implies cs@[x] < m by {
                assert(swap_cycles(swaps@[k as int])[x] < m);
            }
        }
        let mut x: usize = 0;
        while x < cs.len()
            invariant
                swaps_within(swaps@, m as int),
                0 <= k < swaps@.len(),
                cs@ == swap_cycles(swaps@[k as int]),
                forall|z: int| 0 <= z < cs@.len() ==> cs@[z] < m,
                adj@.len() == m,
                0 <= x <= cs@.len(),
                forall|a: int, b: usize| 0 <= a < m ==> (#[trigger] adj@[a]@.contains(b) <==> a as usize != b && ((exists|q: int|
                    0 <= q < k && #[trigger] swap_cycles(swaps@[q]).contains(a as usize) && swap_cycles(swaps@[q]).contains(b))
                    || (cs@.take(x as int).contains(a as usize) && cs@.contains(b)))),
            decreases cs@.len() - x,
        {
            let a = cs[x];
            let mut y: usize = 0;
            let ghost adj0 = adj@;
            while y < cs.len()
                invariant
                    swaps_within(swaps@, m as int),
                    0 <= k < swaps@.len(),
                    cs@ == swap_cycles(swaps@[k as int]),
                    forall|z: int| 0 <= z < cs@.len() ==> cs@[z] < m,
                    0 <= x < cs@.len(),
                    a == cs@[x as int],
                    adj@.len() == m,
                    0 <= y <= cs@.len(),
                    forall|a2: int| 0 <= a2 < m && a2 != a ==> (#[trigger] adj@[a2]) == adj0[a2],
                    forall|b: usize| #[trigger] adj@[a as int]@.contains(b) <==> adj0[a as int]@.contains(b) || (b != a && cs@.take(y as int).contains(b)),
                decreases cs@.len() - y,
            {
                let b = cs[y];
                if b != a {
                    let mut row = adj[a].clone();
                    row.push(b);
                    let ghost r0 = adj@[a as int]@;
                    adj.set(a, row);
                    proof {
                        assert forall|z: usize| #[trigger] adj@[a as int]@.contains(z) <==> r0.contains(z) || z == b by {
                            let rr = adj@[a as int]@;
                            assert(rr == r0.push(b));
                            if r0.contains(z) {
                                let j = choose|j: int| 0 <= j < r0.len() && r0[j] == z;
                                assert(rr[j] == z);
                            }
                            if rr.contains(z) && z != b {
                                let j = choose|j: int| 0 <= j < rr.len() && rr[j] == z;
                                assert(r0[j] == z);
                            }
                            if z == b {
                                assert(rr[r0.len() as int] == b);
                            }
                        }
                    }
                }
                proof {
                    assert forall|z: usize| #[trigger] adj@[a as int]@.contains(z) <==> adj0[a as int]@.contains(z) || (z != a && cs@.take(y + 1).contains(z)) by {
                        let p0 = cs@.take(y as int);
                        let p1 = cs@.take(y + 1);
                        assert(p1 == p0.push(b));
                        if p0.contains(z) {
                            let j = choose|j: int| 0 <= j < p0.len() && p0[j] == z;
                            assert(p1[j] == z);
                        }
                        if p1.contains(z) && z != b {
                            let j = choose|j: int| 0 <= j < p1.len() && p1[j] == z;
                            assert(p0[j] == z);
                        }
                        if z == b {
                            assert(p1[y as int] == b);
                        }
                    }
                }
                y = y + 1;
            }
            proof {
                assert(cs@.take(cs@.len() as int) == cs@);
                assert forall|a2: int, b: usize| 0 <= a2 < m implies (#[trigger] adj@[a2]@.contains(b) <==> a2 as usize != b && ((exists|q: int|
                    0 <= q < k && #[trigger] swap_cycles(swaps@[q]).contains(a2 as usize) && swap_cycles(swaps@[q]).contains(b))
                    || (cs@.take(x + 1).contains(a2 as usize) && cs@.contains(b)))) by {
                    let p0 = cs@.take(x as int);
                    let p1 = cs@.take(x + 1);
                    assert(p1 == p0.push(a));
                    if p0.contains(a2 as usize) {
                        let j = choose|j: int| 0 <= j < p0.len() && p0[j] == a2 as usize;
                        assert(p1[j] == a2 as usize);
                    }
                    if p1.contains(a2 as usize) && a2 as usize != a {
                        let j = choose|j: int| 0 <= j < p1.len() && p1[j] == a2 as usize;
                        assert(p0[j] == a2 as usize);
                    }
                    if a2 as usize == a {
                        assert(p1[x as int] == a);
                    }
                }
            }
            x = x + 1;
        }
        proof {
            assert(cs@.take(cs@.len() as int) == cs@);
            assert forall|a2: int, b: usize| 0 <= a2 < m implies (#[trigger] adj@[a2]@.contains(b) <==> a2 as usize != b && exists|q: int|
                0 <= q < k + 1 && #[trigger] swap_cycles(swaps@[q]).contains(a2 as usize) && swap_cycles(swaps@[q]).contains(b)) by {
                if cs@.contains(a2 as usize) && cs@.contains(b) {
                    assert(swap_cycles(swaps@[k as int]).contains(a2 as usize) && swap_cycles(swaps@[k as int]).contains(b));
                }
            }
        }
        k = k + 1;
    }
    adj
}

/// A duplicate-free sequence of indices below `m` has at most `m` entries.
pub(crate) proof fn lemma_distinct_below(p: Seq<usize>, m: int)
    requires
        p.no_duplicates(),
        forall|i: int| 0 <= i < p.len() ==> (#[trigger] p[i]) < m,
        m >= 0,
    ensures
        p.len() <= m,
{
    let q = p.map_values(|x: usize| x as int);
    assert(q.no_duplicates()) by {
        assert forall|a: int, b: int| 0 <= a < q.len() && 0 <= b < q.len() && a != b implies q[a] != q[b] by {
            assert(p[a] != p[b]);
        }
    }
    q.unique_seq_to_set();
    vstd::set_lib::lemma_int_range(0, m);
    let range = vstd::set_lib::set_int_range(0, m);
    assert(q.to_set().subset_of(range)) by {
        assert forall|x: int| q.to_set().contains(x) implies range.contains(x) by {
            let i = choose|i: int| 0 <= i < q.len() && q[i] == x;
            assert(p[i] < m);
        }
    }
    vstd::set_lib::lemma_len_subset(q.to_set(), range);
}

/// The set of visited indices is closed under the swap relation.
pub open spec fn visited_closed(swaps: Seq<CycleSwap>, visited: Seq<bool>) -> bool {
    forall|a: usize, b: usize| a < visited.len() && b < visited.len() && visited[a as int] && #[trigger] swap_linked(swaps, a, b) ==> visited[b as int]
}

/// The component of `root` among the unvisited cycles, in breadth-first order;
/// it joins `visited`.
fn swap_component(
    adj: &Vec<Vec<usize>>,
    root: usize,
    visited: &mut Vec<bool>,
    Ghost(swaps): Ghost<Seq<CycleSwap>>,
) -> (q: Vec<usize>)
    requires
        swaps_within(swaps, adj@.len() as int),
        forall|a: int, b: usize| 0 <= a < adj@.len() ==> (#[trigger] adj@[a]@.contains(b) <==> swap_linked(swaps, a as usize, b)),
        old(visited)@.len() == adj@.len(),
        root < adj@.len(),
        !old(visited)@[root as int],
        visited_closed(swaps, old(visited)@),
    ensures
        final(visited)@.len() == adj@.len(),
        q@.len() >= 1,
        q@[0] == root,
        q@.no_duplicates(),
        forall|i: int| 0 <= i < q@.len() ==> (#[trigger] q@[i]) < adj@.len(),
        forall|x: int| 0 <= x < adj@.len() ==> (final(visited)@[x] <==> old(visited)@[x] || q@.contains(x as usize)),
        forall|x: usize| #[trigger] q@.contains(x) ==> !old(visited)@[x as int],
        forall|a: usize, b: usize| #[trigger] q@.contains(a) && #[trigger] swap_linked(swaps, a, b) ==> q@.contains(b),
        forall|x: usize| #[trigger] q@.contains(x) ==> exists|p: Seq<usize>| #[trigger] swap_walk(swaps, p) && p[0] == root && p.last() == x,
        visited_closed(swaps, final(visited)@),
{
    let m = adj.len();
    let ghost v0 = visited@;
    let mut q: Vec<usize> = Vec::new();
    q.push(root);
    visited.set(root, true);
    let ghost mut walks: Seq<Seq<usize>> = seq![seq![root]];
    proof {
        assert(swap_walk(swaps, walks[0]));
        assert forall|x: int| 0 <= x < m implies (visited@[x] <==> v0[x] || q@.contains(x as usize)) by {
            if x == root {
                assert(q@[0] == root);
            }
            if q@.contains(x as usize) {
                assert(q@[0] == x as usize);
            }
        }
    }
    let mut head: usize = 0;
    while head < q.len()
        invariant
            m == adj@.len(),
            swaps_within(swaps, m as int),
            forall|a: int, b: usize| 0 <= a < m ==> (#[trigger] adj@[a]@.contains(b) <==> swap_linked(swaps, a as usize, b)),
            visited_closed(swaps, v0),
            v0.len() == m,
            visited@.len() == m,
            0 <= head <= q@.len(),
            q@.len() <= m,
            q@.len() >= 1,
            q@[0] == root,
            q@.no_duplicates(),
            forall|i: int| 0 <= i < q@.len() ==> (#[trigger] q@[i]) < m,
            forall|x: int| 0 <= x < m ==> (visited@[x] <==> v0[x] || q@.contains(x as usize)),
            forall|x: usize| #[trigger] q@.contains(x) ==> !v0[x as int],
            forall|t: int, b: usize| 0 <= t < head && #[trigger] swap_linked(swaps, q@[t], b) ==> q@.contains(b),
            walks.len() == q@.len(),
            forall|t: int| 0 <= t < q@.len() ==> swap_walk(swaps, #[trigger] walks[t]) && walks[t][0] == root && walks[t].last() == q@[t],
        decreases 2 * m - q@.len() - head,
    {
        let x = q[head];
        let nb = &adj[x];
        let ghost qlen0 = q@.len();
        let mut t: usize = 0;
        while t < nb.len()
            invariant
                m == adj@.len(),
                swaps_within(swaps, m as int),
                forall|a: int, b: usize| 0 <= a < m ==> (#[trigger] adj@[a]@.contains(b) <==> swap_linked(swaps, a as usize, b)),
                visited_closed(swaps, v0),
                v0.len() == m,
                visited@.len() == m,
                0 <= head < q@.len(),
                x == q@[head as int],
                x < m,
                nb@ == adj@[x as int]@,
                0 <= t <= nb@.len(),
                q@.len() >= qlen0,
                q@.len() <= m,
                q@[0] == root,
                q@.no_duplicates(),
                forall|i: int| 0 <= i < q@.len() ==> (#[trigger] q@[i]) < m,
                forall|y: int| 0 <= y < m ==> (visited@[y] <==> v0[y] || q@.contains(y as usize)),
                forall|y: usize| #[trigger] q@.contains(y) ==> !v0[y as int],
                forall|t2: int, b: usize| 0 <= t2 < head && #[trigger] swap_linked(swaps, q@[t2], b) ==> q@.contains(b),
                forall|k: int| 0 <= k < t ==> q@.contains(#[trigger] nb@[k]),
                walks.len() == q@.len(),
                forall|t2: int| 0 <= t2 < q@.len() ==> swap_walk(swaps, #[trigger] walks[t2]) && walks[t2][0] == root && walks[t2].last() == q@[t2],
            decreases nb@.len() - t,
        {
            let y = nb[t];
            proof {
                assert(adj@[x as int]@.contains(y)) by {
                    assert(nb@[t as int] == y);
                }
                assert(swap_linked(swaps, x, y));
                let k = choose|k: int| 0 <= k < swaps.len() && #[trigger] swap_cycles(swaps[k]).contains(x) && swap_cycles(swaps[k]).contains(y);
                let z = choose|z: int| 0 <= z < swap_cycles(swaps[k]).len() && swap_cycles(swaps[k])[z] == y;
                assert(swap_cycles(swaps[k])[z] < m);
            }
            if !visited[y] {
                let ghost q0 = q@;
                let ghost w0 = walks;
                visited.set(y, true);
                q.push(y);
                proof {
                    walks = walks.push(walks[head as int].push(y));
                    assert(!q0.contains(y));
                    assert(!v0[y as int]);
                    assert forall|z: usize| q@.contains(z) <==> q0.contains(z) || z == y by {
                        if q0.contains(z) {
                            let j = choose|j: int| 0 <= j < q0.len() && q0[j] == z;
                            assert(q@[j] == z);
                        }
                        if q@.contains(z) && z != y {
                            let j = choose|j: int| 0 <= j < q@.len() && q@[j] == z;
                            assert(q0[j] == z);
                        }
                        if z == y {
                            assert(q@[q0.len() as int] == y);
                        }
                    }
                    assert forall|i: int| 0 <= i < q@.len() implies (#[trigger] q@[i]) < m by {
                        if i < q0.len() {
                            assert(q@[i] == q0[i]);
                        }
                    }
                    lemma_distinct_below(q@, m as int);
                    assert forall|y2: int| 0 <= y2 < m implies (visited@[y2] <==> v0[y2] || q@.contains(y2 as usize)) by {
                        if y2 != y as int {
                            assert(q@.contains(y2 as usize) <==> q0.contains(y2 as usize));
                        }
                    }
                    assert forall|t2: int, b: usize| 0 <= t2 < head && #[trigger] swap_linked(swaps, q@[t2], b) implies q@.contains(b) by {
                        assert(q@[t2] == q0[t2]);
                    }
                    assert forall|z: usize| #[trigger] q@.contains(z) implies !v0[z as int] by {
                        if z != y {
                            assert(q0.contains(z));
                        }
                    }
                    assert forall|k: int| 0 <= k < t + 1 implies q@.contains(#[trigger] nb@[k]) by {
                    }
                    let wy = w0[head as int].push(y);
                    assert(swap_walk(swaps, wy)) by {
                        let wh = w0[head as int];
                        assert(swap_walk(swaps, wh));
                        assert forall|i: int| 0 <= i < wy.len() - 1 implies swap_linked(swaps, #[trigger] wy[i], wy[i + 1]) by {
                            if i < wh.len() - 1 {
                                assert(wy[i] == wh[i] && wy[i + 1] == wh[i + 1]);
                            } else {
                                assert(wy[i] == x && wy[i + 1] == y);
                            }
                        }
                    }
                    assert forall|t2: int| 0 <= t2 < q@.len() implies swap_walk(swaps, #[trigger] walks[t2]) && walks[t2][0] == root
                        && walks[t2].last() == q@[t2] by {
                        if t2 < q0.len() {
                            assert(walks[t2] == w0[t2]);
                            assert(q@[t2] == q0[t2]);
                        } else {
                            assert(walks[t2] == wy);
                        }
                    }
                }
            } else {
                proof {
                    if v0[y as int] {
                        assert(swap_linked(swaps, y, x));
                        assert(v0[x as int]);
                        assert(q@.contains(x)) by {
                            assert(q@[head as int] == x);
                        }
                    }
                }
            }
            t = t + 1;
        }
        proof {
            assert forall|t2: int, b: usize| 0 <= t2 < head + 1 && #[trigger] swap_linked(swaps, q@[t2], b) implies q@.contains(b) by {
                if t2 == head {
                    assert(adj@[x as int]@.contains(b));
                    let k = choose|k: int| 0 <= k < nb@.len() && nb@[k] == b;
                }
            }
        }
        head = head + 1;
    }
    proof {
        assert forall|a: usize, b: usize| #[trigger] q@.contains(a) && #[trigger] swap_linked(swaps, a, b) implies q@.contains(b) by {
            let t = choose|t: int| 0 <= t < q@.len() && q@[t] == a;
        }
        assert forall|x: usize| #[trigger] q@.contains(x) implies exists|p: Seq<usize>| #[trigger] swap_walk(swaps, p) && p[0] == root && p.last() == x by {
            let t = choose|t: int| 0 <= t < q@.len() && q@[t] == x;
            assert(swap_walk(swaps, walks[t]));
        }
        assert forall|a: usize, b: usize| a < visited@.len() && b < visited@.len() && visited@[a as int] && #[trigger] swap_linked(swaps, a, b) implies visited@[b as int] by {
            if !v0[a as int] {
                assert(q@.contains(a));
                assert(q@.contains(b));
            }
        }
    }
    q
}

/// The entries of `q`, in increasing order.
fn increasing_copy(q: &Vec<usize>) -> (r: Vec<usize>)
    requires
        q@.no_duplicates(),
    ensures
        increasing(r@),
        r@.len() == q@.len(),
        forall|x: usize| r@.contains(x) <==> q@.contains(x),
{
    let mut r: Vec<usize> = Vec::new();
    let mut t: usize = 0;
    while t < q.len()
        invariant
            q@.no_duplicates(),
            0 <= t <= q@.len(),
            increasing(r@),
            r@.len() == t,
            forall|x: usize| r@.contains(x) <==> q@.take(t as int).contains(x),
        decreases q@.len() - t,
    {
        let x = q[t];
        proof {
            assert forall|z: usize| q@.take(t + 1).contains(z) <==> q@.take(t as int).contains(z) || z == x by {
                let p0 = q@.take(t as int);
                let p1 = q@.take(t + 1);
                assert(p1 == p0.push(x));
                if p0.contains(z) {
                    let j = choose|j: int| 0 <= j < p0.len() && p0[j] == z;
                    assert(p1[j] == z);
                }
                if p1.contains(z) && z != x {
                    let j = choose|j: int| 0 <= j < p1.len() && p1[j] == z;
                    assert(p0[j] == z);
                }
                if z == x {
                    assert(p1[t as int] == x);
                }
            }
            assert(!q@.take(t as int).contains(x)) by {
                if q@.take(t as int).contains(x) {
                    let j = choose|j: int| 0 <= j < t && q@.take(t as int)[j] == x;
                    assert(q@[j] == q@[t as int]);
                }
            }
        }
        insert_increasing(&mut r, x);
        t = t + 1;
    }
    assert(q@.take(q@.len() as int) == q@);
    r
}

impl MultiOptSatSplicer {
    /// The groups of cycles `0..m` that the swaps connect: each component in
    /// increasing order, the components ordered by their smallest cycle.
    pub fn swap_components(swaps: &Vec<CycleSwap>, m: usize) -> (comps: Vec<Vec<usize>>)
        requires
            swaps_within(swaps@, m as int),
        ensures
            components_ok(swaps@, m as int, index_views(comps@)),
    {
        let adj = swap_adjacency(swaps, m);
        let mut visited: Vec<bool> = Vec::new();
        let mut k: usize = 0;
        while k < m
            invariant
                0 <= k <= m,
                visited@.len() == k,
                forall|x: int| 0 <= x < k ==> !visited@[x],
            decreases m - k,
        {
            visited.push(false);
            k = k + 1;
        }
        let mut comps: Vec<Vec<usize>> = Vec::new();
        proof {
            assert(index_views(comps@) =~= Seq::<Seq<usize>>::empty());
        }
        let mut i: usize = 0;
        while i < m
            invariant
                adj@.len() == m,
                swaps_within(swaps@, m as int),
                forall|a: int, b: usize| 0 <= a < m ==> (#[trigger] adj@[a]@.contains(b) <==> swap_linked(swaps@, a as usize, b)),
                visited@.len() == m,
                visited_closed(swaps@, visited@),
                0 <= i <= m,
                forall|x: int| 0 <= x < i ==> visited@[x],
                forall|x: int| 0 <= x < m ==> (visited@[x] <==> #[trigger] in_some_cluster(index_views(comps@), x as usize)),
                forall|c: int| 0 <= c < comps@.len() ==> (#[trigger] comps@[c])@.len() >= 1,
                forall|c: int, x: int| 0 <= c < comps@.len() && 0 <= x < comps@[c]@.len() ==> (#[trigger] comps@[c]@[x]) < m,
                forall|c: int| 0 <= c < comps@.len() ==> increasing(#[trigger] comps@[c]@),
                forall|c: int, c2: int, j: usize| 0 <= c < c2 < comps@.len() ==> !(#[trigger] comps@[c]@.contains(j) && #[trigger] comps@[c2]@.contains(j)),
                forall|c: int, a: usize, b: usize| 0 <= c < comps@.len() && #[trigger] comps@[c]@.contains(a) && #[trigger] swap_linked(swaps@, a, b) ==> comps@[c]@.contains(b),
                forall|c: int, x: usize| 0 <= c < comps@.len() && #[trigger] comps@[c]@.contains(x) ==> exists|p: Seq<usize>|
                    #[trigger] swap_walk(swaps@, p) && p[0] == comps@[c]@[0] && p.last() == x,
            decreases m - i,
        {
            if !visited[i] {
                let ghost vis0 = visited@;
                let ghost c0 = comps@;
                let q = swap_component(&adj, i, &mut visited, Ghost(swaps@));
                let sorted = increasing_copy(&q);
                proof {
                    assert(q@.contains(i)) by {
                        assert(q@[0] == i);
                    }
                    assert forall|x: usize| #[trigger] q@.contains(x) implies x >= i by {
                        if x < i {
                            assert(vis0[x as int]);
                        }
                    }
                    assert(sorted@.contains(i));
                    let idx = choose|idx: int| 0 <= idx < sorted@.len() && sorted@[idx] == i;
                    if idx > 0 {
                        assert(sorted@[0] < sorted@[idx]);
                    }
                    assert(sorted@.contains(sorted@[0]));
                    assert(sorted@[0] == i);
                }
                comps.push(sorted);
                proof {
                    let v = index_views(comps@);
                    let n0 = c0.len() as int;
                    assert(comps@[n0]@ == sorted@);
                    assert forall|x: int| 0 <= x < m implies (visited@[x] <==> #[trigger] in_some_cluster(index_views(comps@), x as usize)) by {
                        if vis0[x] {
                            assert(in_some_cluster(index_views(c0), x as usize));
                            let c = choose|c: int| 0 <= c < c0.len() && #[trigger] index_views(c0)[c].contains(x as usize);
                            assert(v[c] == index_views(c0)[c]);
                        }
                        if q@.contains(x as usize) {
                            assert(v[n0].contains(x as usize));
                        }
                        if in_some_cluster(v, x as usize) {
                            let c = choose|c: int| 0 <= c < v.len() && #[trigger] v[c].contains(x as usize);
                            if c < n0 {
                                assert(v[c] == index_views(c0)[c]);
                                assert(in_some_cluster(index_views(c0), x as usize));
                            }
                        }
                    }
                    assert forall|c: int, x: int| 0 <= c < comps@.len() && 0 <= x < comps@[c]@.len() implies (#[trigger] comps@[c]@[x]) < m by {
                        if c < n0 {
                            assert(comps@[c] == c0[c]);
                        } else {
                            assert(sorted@.contains(sorted@[x]));
                        }
                    }
                    assert forall|c: int, c2: int, j: usize| 0 <= c < c2 < comps@.len() implies !(#[trigger] comps@[c]@.contains(j) && #[trigger] comps@[c2]@.contains(j)) by {
                        assert(comps@[c] == c0[c]);
                        if c2 < n0 {
                            assert(comps@[c2] == c0[c2]);
                        } else if c0[c]@.contains(j) {
                            assert(index_views(c0)[c].contains(j));
                            let jj = choose|jj: int| 0 <= jj < c0[c]@.len() && c0[c]@[jj] == j;
                            assert(c0[c]@[jj] < m);
                            assert(in_some_cluster(index_views(c0), j));
                            assert(vis0[j as int]);
                        }
                    }
                    assert forall|c: int, a: usize, b: usize| 0 <= c < comps@.len() && #[trigger] comps@[c]@.contains(a) && #[trigger] swap_linked(swaps@, a, b) implies comps@[c]@.contains(b) by {
                        if c < n0 {
                            assert(comps@[c] == c0[c]);
                        }
                    }
                    assert forall|c: int, x: usize| 0 <= c < comps@.len() && #[trigger] comps@[c]@.contains(x) implies exists|p: Seq<usize>|
                        #[trigger] swap_walk(swaps@, p) && p[0] == comps@[c]@[0] && p.last() == x by {
                        if c < n0 {
                            assert(comps@[c] == c0[c]);
                        } else {
                            assert(q@.contains(x));
                        }
                    }
                    assert forall|c: int| 0 <= c < comps@.len() implies increasing(#[trigger] comps@[c]@) by {
                        if c < n0 {
                            assert(comps@[c] == c0[c]);
                        }
                    }
                    assert forall|c: int| 0 <= c < comps@.len() implies (#[trigger] comps@[c])@.len() >= 1 by {
                        if c < n0 {
                            assert(comps@[c] == c0[c]);
                        }
                    }
                }
            }
            i = i + 1;
        }
        proof {
            let v = index_views(comps@);
            assert forall|c: int| 0 <= c < v.len() implies (#[trigger] v[c]).len() >= 1 by {
                assert(v[c] == comps@[c]@);
            }
            assert forall|c: int, x: int| 0 <= c < v.len() && 0 <= x < v[c].len() implies (#[trigger] v[c][x]) < m by {
                assert(v[c] == comps@[c]@);
            }
            assert forall|c: int, a: int, b: int| 0 <= c < v.len() && 0 <= a < b < v[c].len() implies (#[trigger] v[c][a]) < (#[trigger] v[c][b]) by {
                assert(v[c] == comps@[c]@);
                assert(increasing(comps@[c]@));
            }
            assert forall|j: usize| j < m implies #[trigger] in_some_cluster(v, j) by {
                let x = j as int;
                assert(visited@[x]);
                assert(in_some_cluster(index_views(comps@), x as usize));
                assert(x as usize == j);
            }
            assert forall|c: int, c2: int, j: usize| 0 <= c < c2 < v.len() implies !(#[trigger] v[c].contains(j) && #[trigger] v[c2].contains(j)) by {
                assert(v[c] == comps@[c]@ && v[c2] == comps@[c2]@);
            }
            assert forall|c: int, a: usize, b: usize| 0 <= c < v.len() && #[trigger] v[c].contains(a) && #[trigger] swap_linked(swaps@, a, b) implies v[c].contains(b) by {
                assert(v[c] == comps@[c]@);
            }
            assert forall|c: int, x: usize| 0 <= c < v.len() && #[trigger] v[c].contains(x) implies exists|p: Seq<usize>|
                #[trigger] swap_walk(swaps@, p) && p[0] == v[c][0] && p.last() == x by {
                assert(v[c] == comps@[c]@);
            }
        }
        comps
    }
}

/// The removed edges of the swaps, in order.
pub open spec fn all_removed(swaps: Seq<CycleSwap>) -> Seq<(i32, i32)>
    decreases swaps.len(),
{
    if swaps.len() == 0 {
        Seq::empty()
    } else {
        all_removed(swaps.drop_last()) + removed_of(swaps.last())
    }
}

/// The added edges of the swaps, in order.
pub open spec fn all_added(swaps: Seq<CycleSwap>) -> Seq<(i32, i32)>
    decreases swaps.len(),
{
    if swaps.len() == 0 {
        Seq::empty()
    } else {
        all_added(swaps.drop_last()) + added_of(swaps.last())
    }
}

/// The removed edges of one swap.
pub open spec fn removed_of(s: CycleSwap) -> Seq<(i32, i32)> {
    match s {
        CycleSwap::TwoOpt { rem1, rem2, .. } => seq![rem1, rem2],
        CycleSwap::ThreeOptTriangle { rem1, rem2, rem3, .. } => seq![rem1, rem2, rem3],
    }
}

/// The added edges of one swap.
pub open spec fn added_of(s: CycleSwap) -> Seq<(i32, i32)> {
    match s {
        CycleSwap::TwoOpt { add1, add2, .. } => seq![add1, add2],
        CycleSwap::ThreeOptTriangle { add1, add2, add3, .. } => seq![add1, add2, add3],
    }
}

/// After the swaps, `u` and `v` are joined: by an edge of a cycle whose
/// undirected form is not removed, or by an added edge, in either direction.
pub open spec fn spliced_edge(cycles: Seq<Seq<i32>>, removed: Seq<(i32, i32)>, added: Seq<(i32, i32)>, u: i32, v: i32) -> bool {
    ||| (exists|c: int, p: int| #[trigger] cycle_edge_at(cycles, c, p, min_max(u, v)) && ((cycles[c][p] == u && cycles[c][next_pos(p, cycles[c].len() as int)] == v)
        || (cycles[c][p] == v && cycles[c][next_pos(p, cycles[c].len() as int)] == u))) && !removed.contains(min_max(u, v))
    ||| added.contains((u, v))
    ||| added.contains((v, u))
}

/// The sum of the lengths of the cycles.
pub open spec fn total_len(cycles: Seq<Seq<i32>>) -> int
    decreases cycles.len(),
{
    if cycles.len() == 0 {
        0
    } else {
        total_len(cycles.drop_last()) + cycles.last().len()
    }
}

/// The removed and added edges of the chosen swaps.
fn swap_edges(selected: &Vec<CycleSwap>) -> (r: (Vec<(i32, i32)>, Vec<(i32, i32)>))
    ensures
        r.0@ == all_removed(selected@),
        r.1@ == all_added(selected@),
{
    let mut removed: Vec<(i32, i32)> = Vec::new();
    let mut added: Vec<(i32, i32)> = Vec::new();
    let mut k: usize = 0;
    while k < selected.len()
        invariant
            0 <= k <= selected@.len(),
            removed@ == all_removed(selected@.take(k as int)),
            added@ == all_added(selected@.take(k as int)),
        decreases selected@.len() - k,
    {
        let rs = selected[k].removed_edges();
        let ads = selected[k].added_edges();
        let mut t: usize = 0;
        let ghost r0 = removed@;
        while t < rs.len()
            invariant
                0 <= t <= rs@.len(),
                removed@ == r0 + rs@.take(t as int),
            decreases rs@.len() - t,
        {
            removed.push(rs[t]);
            proof {
                assert(rs@.take(t + 1) == rs@.take(t as int).push(rs@[t as int]));
                assert(removed@ =~= r0 + rs@.take(t + 1));
            }
            t = t + 1;
        }
        let mut t: usize = 0;
        let ghost a0 = added@;
        while t < ads.len()
            invariant
                0 <= t <= ads@.len(),
                added@ == a0 + ads@.take(t as int),
            decreases ads@.len() - t,
        {
            added.push(ads[t]);
            proof {
                assert(ads@.take(t + 1) == ads@.take(t as int).push(ads@[t as int]));
                assert(added@ =~= a0 + ads@.take(t + 1));
            }
            t = t + 1;
        }
        proof {
            assert(rs@.take(rs@.len() as int) == rs@);
            assert(ads@.take(ads@.len() as int) == ads@);
            let p1 = selected@.take(k + 1);
            assert(p1.drop_last() == selected@.take(k as int));
            assert(p1.last() == selected@[k as int]);
            assert(rs@ == removed_of(selected@[k as int]));
            assert(ads@ == added_of(selected@[k as int]));
        }
        k = k + 1;
    }
    assert(selected@.take(selected@.len() as int) == selected@);
    (removed, added)
}

/// Whether `e` is listed in `v`.
fn pair_listed(v: &Vec<(i32, i32)>, e: (i32, i32)) -> (r: bool)
    ensures
        r == v@.contains(e),
{
    let mut q: usize = 0;
    while q < v.len()
        invariant
            0 <= q <= v@.len(),
            forall|k: int| 0 <= k < q ==> v@[k] != e,
        decreases v@.len() - q,
    {
        let x = v[q];
        if x.0 == e.0 && x.1 == e.1 {
            assert(v@[q as int] == e);
            return true;
        }
        q = q + 1;
    }
    false
}

/// An adjacency map with its key list in insertion order.
pub open spec fn keyed_ok(adj: Map<i32, Vec<i32>>, keys: Seq<i32>) -> bool {
    &&& keys.no_duplicates()
    &&& forall|u: i32| #[trigger] keys.contains(u) <==> adj.contains_key(u)
    &&& forall|u: i32, v: i32| adj.contains_key(u) && #[trigger] adj[u]@.contains(v) ==> adj.contains_key(v)
}

/// The list of `u` (empty when it has none).
pub open spec fn list_of(adj: Map<i32, Vec<i32>>, u: i32) -> Seq<i32> {
    if adj.contains_key(u) {
        adj[u]@
    } else {
        Seq::empty()
    }
}

/// The key list after `u` gets a list, when the keys so far are `dom`.
pub open spec fn keys_with(dom: Set<i32>, keys: Seq<i32>, u: i32) -> Seq<i32> {
    if dom.contains(u) {
        keys
    } else {
        keys.push(u)
    }
}

/// Appends `v` to the list of `u` and `u` to the list of `v`.
fn push_both(adj: &mut HashMap<i32, Vec<i32>>, keys: &mut Vec<i32>, u: i32, v: i32, Ghost(rel): Ghost<spec_fn(i32, i32) -> bool>)
    requires
        keyed_ok(old(adj)@, old(keys)@),
        forall|a: i32, b: i32| old(adj)@.contains_key(a) && #[trigger] old(adj)@[a]@.contains(b) ==> rel(a, b),
        rel(u, v),
        rel(v, u),
    ensures
        keyed_ok(final(adj)@, final(keys)@),
        forall|a: i32, b: i32| final(adj)@.contains_key(a) && #[trigger] final(adj)@[a]@.contains(b) ==> rel(a, b),
        final(adj)@.dom() == old(adj)@.dom().insert(u).insert(v),
        u != v ==> final(adj)@[u]@ == list_of(old(adj)@, u).push(v) && final(adj)@[v]@ == list_of(old(adj)@, v).push(u),
        u == v ==> final(adj)@[u]@ == list_of(old(adj)@, u).push(u).push(u),
        forall|a: i32| a != u && a != v && #[trigger] old(adj)@.contains_key(a) ==> final(adj)@[a] == old(adj)@[a],
        final(keys)@ == keys_with(old(adj)@.dom().insert(u), keys_with(old(adj)@.dom(), old(keys)@, u), v),
{
    push_one(adj, keys, u, v, Ghost(rel));
    push_one(adj, keys, v, u, Ghost(rel));
}

/// Appends `v` to the list of `u` (creating it), keeping `keys` in step.
fn push_one(adj: &mut HashMap<i32, Vec<i32>>, keys: &mut Vec<i32>, u: i32, v: i32, Ghost(rel): Ghost<spec_fn(i32, i32) -> bool>)
    requires
        keys_match(old(adj)@, old(keys)@),
        forall|a: i32, b: i32| old(adj)@.contains_key(a) && #[trigger] old(adj)@[a]@.contains(b) ==> rel(a, b) && old(adj)@.contains_key(b) || (a == v && b == u),
        rel(u, v),
    ensures
        keys_match(final(adj)@, final(keys)@),
        final(adj)@.contains_key(u),
        final(adj)@[u]@.contains(v),
        forall|a: i32, b: i32| final(adj)@.contains_key(a) && #[trigger] final(adj)@[a]@.contains(b) ==> (old(adj)@.contains_key(a) && old(adj)@[a]@.contains(b)) || (a == u && b == v),
        forall|a: i32| old(adj)@.contains_key(a) ==> final(adj)@.contains_key(a),
        final(adj)@.dom() == old(adj)@.dom().insert(u),
        final(adj)@[u]@ == list_of(old(adj)@, u).push(v),
        forall|a: i32| a != u && #[trigger] old(adj)@.contains_key(a) ==> final(adj)@[a] == old(adj)@[a],
        final(keys)@ == keys_with(old(adj)@.dom(), old(keys)@, u),
{
    let ghost a0 = adj@;
    let ghost k0 = keys@;
    match adj.remove(&u) {
        Some(mut l) => {
            l.push(v);
            let ghost lv = l@;
            adj.insert(u, l);
            proof {
                assert forall|b: i32| lv.contains(b) <==> a0[u]@.contains(b) || b == v by {
                    if a0[u]@.contains(b) {
                        let j = choose|j: int| 0 <= j < a0[u]@.len() && a0[u]@[j] == b;
                        assert(lv[j] == b);
                    }
                    if lv.contains(b) && b != v {
                        let j = choose|j: int| 0 <= j < lv.len() && lv[j] == b;
                        assert(a0[u]@[j] == b);
                    }
                    if b == v {
                        assert(lv[lv.len() - 1] == v);
                    }
                }
            }
        },
        None => {
            let mut l: Vec<i32> = Vec::new();
            l.push(v);
            adj.insert(u, l);
            keys.push(u);
            proof {
                assert(!k0.contains(u));
                assert forall|x: i32| #[trigger] keys@.contains(x) <==> adj@.contains_key(x) by {
                    if keys@.contains(x) && x != u {
                        let j = choose|j: int| 0 <= j < keys@.len() && keys@[j] == x;
                        assert(k0[j] == x);
                    }
                    if k0.contains(x) {
                        let j = choose|j: int| 0 <= j < k0.len() && k0[j] == x;
                        assert(keys@[j] == x);
                    }
                    if x == u {
                        assert(keys@[k0.len() as int] == u);
                    }
                }
                assert(adj@[u]@ == seq![v]);
                assert(adj@[u]@[0] == v);
            }
        },
    }
}

/// The key list lists each key of the map once.
pub open spec fn keys_match(adj: Map<i32, Vec<i32>>, keys: Seq<i32>) -> bool {
    &&& keys.no_duplicates()
    &&& forall|u: i32| #[trigger] keys.contains(u) <==> adj.contains_key(u)
}

/// The concatenation of the cycles.
pub open spec fn flatten(cs: Seq<Seq<i32>>) -> Seq<i32>
    decreases cs.len(),
{
    if cs.len() == 0 {
        Seq::empty()
    } else {
        flatten(cs.drop_last()) + cs.last()
    }
}

/// `flatten` has the total length.
proof fn lemma_flatten_len(cs: Seq<Seq<i32>>)
    ensures
        flatten(cs).len() == total_len(cs),
    decreases cs.len(),
{
    if cs.len() > 0 {
        lemma_flatten_len(cs.drop_last());
    }
}

/// A duplicate-free list drawn from a duplicate-free key list is no longer.
proof fn lemma_distinct_within(p: Seq<i32>, keys: Seq<i32>)
    requires
        p.no_duplicates(),
        keys.no_duplicates(),
        forall|x: i32| #[trigger] p.contains(x) ==> keys.contains(x),
    ensures
        p.len() <= keys.len(),
{
    p.unique_seq_to_set();
    keys.unique_seq_to_set();
    assert(p.to_set().subset_of(keys.to_set()));
    vstd::set_lib::lemma_len_subset(p.to_set(), keys.to_set());
}

/// Every listed vertex has exactly two different neighbours, neither itself,
/// both joined to it in `g`.
pub open spec fn two_regular_in(adj: Map<i32, Vec<i32>>, g: Graph) -> bool {
    forall|u: i32| #[trigger] adj.contains_key(u) ==> {
        &&& adj[u]@.len() == 2
        &&& adj[u]@[0] != adj[u]@[1]
        &&& adj[u]@[0] != u
        &&& adj[u]@[1] != u
        &&& g.has_edge(u, adj[u]@[0])
        &&& g.has_edge(u, adj[u]@[1])
    }
}

/// Whether every listed vertex has two different neighbours, neither
/// itself, both joined to it in `g`.
fn check_two_regular(adj: &HashMap<i32, Vec<i32>>, keys: &Vec<i32>, g: &Graph) -> (b: bool)
    requires
        keys_match(adj@, keys@),
    ensures
        b == two_regular_in(adj@, *g),
{
    let mut i: usize = 0;
    while i < keys.len()
        invariant
            keys_match(adj@, keys@),
            0 <= i <= keys@.len(),
            forall|k: int| 0 <= k < i ==> {
                let u = #[trigger] keys@[k];
                &&& adj@[u]@.len() == 2
                &&& adj@[u]@[0] != adj@[u]@[1]
                &&& adj@[u]@[0] != u
                &&& adj@[u]@[1] != u
                &&& g.has_edge(u, adj@[u]@[0])
                &&& g.has_edge(u, adj@[u]@[1])
            },
        decreases keys@.len() - i,
    {
        let u = keys[i];
        proof {
            assert(keys@.contains(u)) by {
                assert(keys@[i as int] == u);
            }
        }
        let nbrs = adj.get(&u).unwrap();
        if nbrs.len() != 2 {
            return false;
        }
        if nbrs[0] == nbrs[1] || nbrs[0] == u || nbrs[1] == u {
            return false;
        }
        if !g.contains_edge(u, nbrs[0]) || !g.contains_edge(u, nbrs[1]) {
            return false;
        }
        i = i + 1;
    }
    proof {
        assert forall|u: i32| #[trigger] adj@.contains_key(u) implies {
            &&& adj@[u]@.len() == 2
            &&& adj@[u]@[0] != adj@[u]@[1]
            &&& adj@[u]@[0] != u
            &&& adj@[u]@[1] != u
            &&& g.has_edge(u, adj@[u]@[0])
            &&& g.has_edge(u, adj@[u]@[1])
        } by {
            assert(keys@.contains(u));
            let k = choose|k: int| 0 <= k < keys@.len() && keys@[k] == u;
        }
    }
    true
}

/// `b` is listed as a neighbour of `a`.
pub open spec fn adj_has(adj: Map<i32, Vec<i32>>, a: i32, b: i32) -> bool {
    adj.contains_key(a) && adj[a]@.contains(b)
}

/// `c` has at least three vertices and is a closed walk of the listed adjacency.
pub open spec fn adj_cycle(adj: Map<i32, Vec<i32>>, c: Seq<i32>) -> bool {
    &&& c.len() >= 3
    &&& forall|p: int| 0 <= p < c.len() ==> adj_has(adj, #[trigger] c[p], c[next_pos(p, c.len() as int)])
}

/// Walks the two-regular adjacency from each unvisited vertex in increasing
/// order, always away from the vertex it came from; fails when a walk
/// returns to a vertex other than its start, or closes with fewer than three vertices.
fn walk_cycles(adj: &HashMap<i32, Vec<i32>>, keys: &Vec<i32>, Ghost(g): Ghost<Graph>) -> (r: Option<Vec<Vec<i32>>>)
    requires
        keyed_ok(adj@, keys@),
        two_regular_in(adj@, g),
    ensures
        r matches Some(out) ==> {
            &&& forall|c: int| 0 <= c < out@.len() ==> adj_cycle(adj@, #[trigger] out@[c]@)
            &&& flatten(cycle_views(out@)).no_duplicates()
            &&& forall|x: i32| #[trigger] flatten(cycle_views(out@)).contains(x) ==> keys@.contains(x)
        },
{
    let sorted = sorted_copy(keys);
    proof {
        crate::cycle_family::lemma_same_ms(keys@, sorted@);
    }
    let mut visited: HashSet<i32> = HashSet::new();
    let mut out: Vec<Vec<i32>> = Vec::new();
    let ghost mut pushed: Seq<i32> = Seq::empty();
    proof {
        assert(cycle_views(out@) =~= Seq::<Seq<i32>>::empty());
    }
    let mut idx: usize = 0;
    while idx < sorted.len()
        invariant
            keyed_ok(adj@, keys@),
            two_regular_in(adj@, g),
            forall|x: i32| sorted@.contains(x) <==> keys@.contains(x),
            0 <= idx <= sorted@.len(),
            pushed == flatten(cycle_views(out@)),
            pushed.no_duplicates(),
            forall|x: i32| #[trigger] pushed.contains(x) ==> keys@.contains(x),
            forall|x: i32| visited@.contains(x) <==> pushed.contains(x),
            forall|c: int| 0 <= c < out@.len() ==> adj_cycle(adj@, #[trigger] out@[c]@),
        decreases sorted@.len() - idx,
    {
        let start = sorted[idx];
        proof {
            assert(sorted@.contains(start)) by {
                assert(sorted@[idx as int] == start);
            }
        }
        if !visited.contains(&start) {
            let mut cyc: Vec<i32> = Vec::new();
            let mut curr = start;
            let mut prev: Option<i32> = None;
            let mut done = false;
            while !done
                invariant
                    keyed_ok(adj@, keys@),
                    two_regular_in(adj@, g),
                    pushed.no_duplicates(),
                    forall|x: i32| #[trigger] pushed.contains(x) ==> keys@.contains(x),
                    (pushed + cyc@).no_duplicates(),
                    forall|x: i32| #[trigger] (pushed + cyc@).contains(x) ==> keys@.contains(x),
                    forall|x: i32| visited@.contains(x) <==> (pushed + cyc@).contains(x),
                    adj@.contains_key(start),
                    adj@.contains_key(curr),
                    !done ==> !(pushed + cyc@).contains(curr),
                    !done && cyc@.len() == 0 ==> curr == start,
                    cyc@.len() > 0 ==> cyc@[0] == start,
                    !done && cyc@.len() > 0 ==> adj_has(adj@, cyc@.last(), curr),
                    done ==> cyc@.len() >= 1 && adj_has(adj@, cyc@.last(), start),
                    forall|t: int| 0 <= t < cyc@.len() - 1 ==> adj_has(adj@, #[trigger] cyc@[t], cyc@[t + 1]),
                decreases keys@.len() - pushed.len() - cyc@.len() + (if done { 0int } else { 1int }),
            {
                proof {
                    let ext = (pushed + cyc@).push(curr);
                    assert(ext.no_duplicates());
                    assert forall|x: i32| #[trigger] ext.contains(x) implies keys@.contains(x) by {
                        if x != curr {
                            assert((pushed + cyc@).contains(x)) by {
                                let j = choose|j: int| 0 <= j < ext.len() && ext[j] == x;
                                assert((pushed + cyc@)[j] == x);
                            }
                        }
                    }
                    lemma_distinct_within(ext, keys@);
                }
                let ghost c0 = cyc@;
                visited.insert(curr);
                cyc.push(curr);
                proof {
                    assert(pushed + cyc@ == (pushed + c0).push(curr));
                    assert forall|x: i32| (pushed + cyc@).contains(x) <==> (pushed + c0).contains(x) || x == curr by {
                        let a = pushed + c0;
                        let b = pushed + cyc@;
                        if a.contains(x) {
                            let j = choose|j: int| 0 <= j < a.len() && a[j] == x;
                            assert(b[j] == x);
                        }
                        if b.contains(x) && x != curr {
                            let j = choose|j: int| 0 <= j < b.len() && b[j] == x;
                            assert(a[j] == x);
                        }
                        if x == curr {
                            assert(b[a.len() as int] == curr);
                        }
                    }
                    assert forall|t: int| 0 <= t < cyc@.len() - 1 implies adj_has(adj@, #[trigger] cyc@[t], cyc@[t + 1]) by {
                        if t < c0.len() - 1 {
                            assert(cyc@[t] == c0[t] && cyc@[t + 1] == c0[t + 1]);
                        } else {
                            assert(cyc@[t] == c0.last() && cyc@[t + 1] == curr);
                        }
                    }
                }
                let nb = adj.get(&curr).unwrap();
                proof {
                    assert(adj@[curr]@.len() == 2);
                }
                let next = match prev {
                    Some(p) => if p == nb[0] {
                        nb[1]
                    } else {
                        nb[0]
                    },
                    None => nb[0],
                };
                proof {
                    assert(adj@[curr]@.contains(next)) by {
                        if next == nb@[0] {
                            assert(adj@[curr]@[0] == next);
                        } else {
                            assert(adj@[curr]@[1] == next);
                        }
                    }
                    assert(adj@.contains_key(next));
                }
                if next == start {
                    done = true;
                } else {
                    if visited.contains(&next) {
                        return None;
                    }
                    prev = Some(curr);
                    curr = next;
                }
            }
            if cyc.len() < 3 {
                return None;
            }
            let ghost c1 = cyc@;
            proof {
                assert forall|p: int| 0 <= p < c1.len() implies adj_has(adj@, #[trigger] c1[p], c1[next_pos(p, c1.len() as int)]) by {
                    if p == c1.len() - 1 {
                        assert(c1[next_pos(p, c1.len() as int)] == start);
                    }
                }
            }
            let ghost o0 = out@;
            out.push(cyc);
            proof {
                assert(cycle_views(out@).drop_last() =~= cycle_views(o0));
                assert(cycle_views(out@).last() == c1);
                pushed = pushed + c1;
                assert(pushed == flatten(cycle_views(out@)));
                assert forall|c: int| 0 <= c < out@.len() implies adj_cycle(adj@, #[trigger] out@[c]@) by {
                    if c < o0.len() {
                        assert(out@[c] == o0[c]);
                    }
                }
            }
        }
        idx = idx + 1;
    }
    Some(out)
}

/// A cycle after the swaps: at least three vertices, each consecutive pair
/// (and the last and the first) joined in `g` and after the swaps.
pub open spec fn new_cycle_ok(c: Seq<i32>, g: Graph, cycles: Seq<Seq<i32>>, removed: Seq<(i32, i32)>, added: Seq<(i32, i32)>) -> bool {
    &&& c.len() >= 3
    &&& forall|p: int|
        0 <= p < c.len() ==> g.has_edge(#[trigger] c[p], c[next_pos(p, c.len() as int)]) && spliced_edge(
            cycles,
            removed,
            added,
            c[p],
            c[next_pos(p, c.len() as int)],
        )
}

/// The total length of a prefix is at most the total.
proof fn lemma_total_len_prefix(cs: Seq<Seq<i32>>, i: int)
    requires
        0 <= i <= cs.len(),
    ensures
        total_len(cs.take(i)) <= total_len(cs),
        total_len(cs.take(i)) >= 0,
    decreases cs.len() - i,
{
    if i < cs.len() {
        lemma_total_len_prefix(cs, i + 1);
        assert(cs.take(i + 1).drop_last() == cs.take(i));
    } else {
        assert(cs.take(i) == cs);
    }
    lemma_total_len_nonneg(cs.take(i));
}

/// Total lengths are not negative.
proof fn lemma_total_len_nonneg(cs: Seq<Seq<i32>>)
    ensures
        total_len(cs) >= 0,
    decreases cs.len(),
{
    if cs.len() > 0 {
        lemma_total_len_nonneg(cs.drop_last());
    }
}

impl MultiOptSatSplicer {
    /// The cycles after applying the chosen swaps: the cycle edges whose
    /// undirected form no swap removes, together with the added edges, must
    /// give every vertex two different neighbours other than itself, both
    /// joined to it in `g`; the cycles are then walked from their smallest
    /// unvisited vertex. Fails (`None`) when that does not hold, when a walk
    /// meets a visited vertex or closes with fewer than three vertices, or
    /// when the new cycles hold a different number of vertices than the old.
    pub fn reconstruct_spliced_cycles(cycles: &Vec<Vec<i32>>, selected: &Vec<CycleSwap>, g: &Graph) -> (r: Option<
        Vec<Vec<i32>>,
    >)
        requires
            total_len(cycle_views(cycles@)) <= usize::MAX,
        ensures
            r matches Some(ncs) ==> {
                &&& forall|c: int|
                    0 <= c < ncs@.len() ==> new_cycle_ok(
                        #[trigger] ncs@[c]@,
                        *g,
                        cycle_views(cycles@),
                        all_removed(selected@),
                        all_added(selected@),
                    )
                &&& flatten(cycle_views(ncs@)).no_duplicates()
                &&& total_len(cycle_views(ncs@)) == total_len(cycle_views(cycles@))
            },
    {
        let ghost cv = cycle_views(cycles@);
        let mut total_v: usize = 0;
        let mut i: usize = 0;
        while i < cycles.len()
            invariant
                cv == cycle_views(cycles@),
                total_len(cv) <= usize::MAX,
                0 <= i <= cycles@.len(),
                total_v == total_len(cv.take(i as int)),
            decreases cycles@.len() - i,
        {
            proof {
                assert(cv.take(i + 1).drop_last() == cv.take(i as int));
                assert(cv.take(i + 1).last() == cycles@[i as int]@);
                lemma_total_len_prefix(cv, i + 1);
            }
            total_v = total_v + cycles[i].len();
            i = i + 1;
        }
        proof {
            assert(cv.take(cv.len() as int) == cv);
        }
        let (removed, added) = swap_edges(selected);
        let ghost rel = |a: i32, b: i32| spliced_edge(cv, removed@, added@, a, b);
        let mut adj: HashMap<i32, Vec<i32>> = HashMap::new();
        let mut keys: Vec<i32> = Vec::new();
        let mut c: usize = 0;
        while c < cycles.len()
            invariant
                cv == cycle_views(cycles@),
                rel == (|a: i32, b: i32| spliced_edge(cv, removed@, added@, a, b)),
                0 <= c <= cycles@.len(),
                keyed_ok(adj@, keys@),
                forall|a: i32, b: i32| adj@.contains_key(a) && #[trigger] adj@[a]@.contains(b) ==> rel(a, b),
            decreases cycles@.len() - c,
        {
            let cycle = &cycles[c];
            let n = cycle.len();
            let mut pos: usize = 0;
            while pos < n
                invariant
                    cv == cycle_views(cycles@),
                    rel == (|a: i32, b: i32| spliced_edge(cv, removed@, added@, a, b)),
                    0 <= c < cycles@.len(),
                    cycle@ == cv[c as int],
                    n == cycle@.len(),
                    0 <= pos <= n,
                    keyed_ok(adj@, keys@),
                    forall|a: i32, b: i32| adj@.contains_key(a) && #[trigger] adj@[a]@.contains(b) ==> rel(a, b),
                decreases n - pos,
            {
                let u = cycle[pos];
                let ni = if pos + 1 == n {
                    0
                } else {
                    pos + 1
                };
                let v = cycle[ni];
                let e = min_max_of(u, v);
                if !pair_listed(&removed, e) {
                    proof {
                        assert(cycle_edge_at(cv, c as int, pos as int, min_max(u, v)));
                        assert(min_max(v, u) == min_max(u, v));
                        assert(cycle_edge_at(cv, c as int, pos as int, min_max(v, u)));
                        assert(rel(u, v));
                        assert(rel(v, u));
                    }
                    push_both(&mut adj, &mut keys, u, v, Ghost(rel));
                }
                pos = pos + 1;
            }
            c = c + 1;
        }
        let mut t: usize = 0;
        while t < added.len()
            invariant
                rel == (|a: i32, b: i32| spliced_edge(cv, removed@, added@, a, b)),
                0 <= t <= added@.len(),
                keyed_ok(adj@, keys@),
                forall|a: i32, b: i32| adj@.contains_key(a) && #[trigger] adj@[a]@.contains(b) ==> rel(a, b),
            decreases added@.len() - t,
        {
            let (u, v) = added[t];
            proof {
                assert(added@[t as int] == (u, v));
                assert(added@.contains((u, v)));
                assert(rel(u, v));
                assert(rel(v, u));
            }
            push_both(&mut adj, &mut keys, u, v, Ghost(rel));
            t = t + 1;
        }
        if !check_two_regular(&adj, &keys, g) {
            return None;
        }
        let out = match walk_cycles(&adj, &keys, Ghost(*g)) {
            Some(o) => o,
            None => {
                return None;
            },
        };
        let ghost nv = cycle_views(out@);
        let klen = keys.len();
        proof {
            lemma_flatten_len(nv);
            lemma_distinct_within(flatten(nv), keys@);
        }
        let mut new_total: usize = 0;
        let mut k: usize = 0;
        while k < out.len()
            invariant
                nv == cycle_views(out@),
                total_len(nv) <= usize::MAX,
                0 <= k <= out@.len(),
                new_total == total_len(nv.take(k as int)),
            decreases out@.len() - k,
        {
            proof {
                assert(nv.take(k + 1).drop_last() == nv.take(k as int));
                assert(nv.take(k + 1).last() == out@[k as int]@);
                lemma_total_len_prefix(nv, k + 1);
            }
            new_total = new_total + out[k].len();
            k = k + 1;
        }
        proof {
            assert(nv.take(nv.len() as int) == nv);
        }
        if new_total != total_v {
            return None;
        }
        proof {
            assert forall|ci: int| 0 <= ci < out@.len() implies new_cycle_ok(
                #[trigger] out@[ci]@,
                *g,
                cv,
                all_removed(selected@),
                all_added(selected@),
            ) by {
                let cc = out@[ci]@;
                assert(adj_cycle(adj@, cc));
                assert forall|p: int| 0 <= p < cc.len() implies g.has_edge(#[trigger] cc[p], cc[next_pos(p, cc.len() as int)]) && spliced_edge(
                    cv,
                    all_removed(selected@),
                    all_added(selected@),
                    cc[p],
                    cc[next_pos(p, cc.len() as int)],
                ) by {
                    let a = cc[p];
                    let b = cc[next_pos(p, cc.len() as int)];
                    assert(adj_has(adj@, a, b));
                    assert(rel(a, b));
                    assert(adj@.contains_key(a));
                    let j = choose|j: int| 0 <= j < adj@[a]@.len() && adj@[a]@[j] == b;
                    assert(j == 0 || j == 1);
                }
            }
        }
        Some(out)
    }
}

/// Deep copy of a list of cycles.
fn copy_cycles(cycles: &Vec<Vec<i32>>) -> (r: Vec<Vec<i32>>)
    ensures
        cycle_views(r@) == cycle_views(cycles@),
        r@.len() == cycles@.len(),
{
    let mut r: Vec<Vec<i32>> = Vec::new();
    let mut i: usize = 0;
    while i < cycles.len()
        invariant
            0 <= i <= cycles@.len(),
            r@.len() == i,
            forall|k: int| 0 <= k < i ==> (#[trigger] r@[k])@ == cycles@[k]@,
        decreases cycles@.len() - i,
    {
        let c = cycles[i].clone();
        assert(c@ =~= cycles@[i as int]@);
        r.push(c);
        i = i + 1;
    }
    assert(cycle_views(r@) =~= cycle_views(cycles@));
    r
}

impl MultiOptSatSplicer {
    /// Whether the multi-opt splicing applies: more than one cycle, each of
    /// at least three vertices.
    pub fn splice_applicable(cycles: &Vec<Vec<i32>>) -> (b: bool)
        ensures
            b == (cycles@.len() > 1 && forall|c: int| 0 <= c < cycles@.len() ==> (#[trigger] cycles@[c])@.len() >= 3),
    {
        if cycles.len() <= 1 {
            return false;
        }
        let mut i: usize = 0;
        while i < cycles.len()
            invariant
                0 <= i <= cycles@.len(),
                forall|c: int| 0 <= c < i ==> (#[trigger] cycles@[c])@.len() >= 3,
            decreases cycles@.len() - i,
        {
            if cycles[i].len() < 3 {
                return false;
            }
            i = i + 1;
        }
        true
    }

    /// The outcome of one splicing pass once the swaps to apply have been
    /// chosen: the rebuilt cycles when they are fewer than before, the
    /// cycles unchanged otherwise (no swap chosen, or no valid rebuild).
    pub fn finish_pass(cycles: &Vec<Vec<i32>>, selected: &Vec<CycleSwap>, g: &Graph) -> (r: Vec<Vec<i32>>)
        requires
            total_len(cycle_views(cycles@)) <= usize::MAX,
        ensures
            r@.len() <= cycles@.len(),
            cycle_views(r@) == cycle_views(cycles@) || {
                &&& selected@.len() > 0
                &&& r@.len() < cycles@.len()
                &&& forall|c: int|
                    0 <= c < r@.len() ==> new_cycle_ok(
                        #[trigger] r@[c]@,
                        *g,
                        cycle_views(cycles@),
                        all_removed(selected@),
                        all_added(selected@),
                    )
                &&& flatten(cycle_views(r@)).no_duplicates()
                &&& total_len(cycle_views(r@)) == total_len(cycle_views(cycles@))
            },
            selected@.len() == 0 ==> cycle_views(r@) == cycle_views(cycles@),
    {
        if selected.len() == 0 {
            return copy_cycles(cycles);
        }
        match Self::reconstruct_spliced_cycles(cycles, selected, g) {
            Some(new_cycles) => {
                if new_cycles.len() < cycles.len() {
                    new_cycles
                } else {
                    copy_cycles(cycles)
                }
            },
            None => copy_cycles(cycles),
        }
    }
}

} // verus!
