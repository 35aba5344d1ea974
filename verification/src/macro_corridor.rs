//! Two-vertex separators: a pair of vertices whose removal leaves the graph
//! in at least two large connected pieces.
use crate::cycle_family::{
    all_closed_walks, lemma_ms_all_remove, lemma_ms_all_single, lemma_ms_all_update, lemma_rev_from, lemma_rot_split,
    ms_all, rev_from, rot, views,
};
use crate::tour::{closed_walk, edge_at};
use crate::graph::{symmetric, Graph};
use crate::matching_patcher::clone_cycles;
use crate::splice::{rev_from_vec, rot_vec};
use std::collections::HashSet;
use vstd::prelude::*;

verus! {

broadcast use vstd::std_specs::hash::group_hash_axioms;

/// `w` is a walk of `g` through vertices other than `a` and `b`.
pub open spec fn avoid_walk(g: Graph, a: i32, b: i32, w: Seq<i32>) -> bool {
    &&& w.len() >= 1
    &&& forall|i: int| 0 <= i < w.len() ==> g.adj().contains_key(#[trigger] w[i]) && w[i] != a && w[i] != b
    &&& forall|i: int| 0 <= i < w.len() - 1 ==> #[trigger] g.has_edge(w[i], w[i + 1])
}

/// `x` and `y` are joined by a walk that avoids `a` and `b`.
pub open spec fn linked(g: Graph, a: i32, b: i32, x: i32, y: i32) -> bool {
    exists|w: Seq<i32>| #[trigger] avoid_walk(g, a, b, w) && w[0] == x && w.last() == y
}

/// `comps` are the connected pieces left when `a` and `b` are removed: each a
/// non-empty class of `linked`, no two sharing a vertex, together covering the
/// vertices other than `a` and `b`.
pub open spec fn components_of(g: Graph, a: i32, b: i32, comps: Seq<Set<i32>>) -> bool {
    &&& forall|i: int| 0 <= i < comps.len() ==> (#[trigger] comps[i]).finite() && comps[i].len() > 0
    &&& forall|x: i32|
        (g.adj().contains_key(x) && x != a && x != b) <==> exists|i: int| 0 <= i < comps.len() && #[trigger] comps[i].contains(x)
    &&& forall|i: int, j: int, x: i32|
        0 <= i < comps.len() && 0 <= j < comps.len() && i != j && #[trigger] comps[i].contains(x) ==> !#[trigger] comps[j].contains(x)
    &&& forall|i: int, x: i32, y: i32|
        0 <= i < comps.len() && #[trigger] comps[i].contains(x) ==> (comps[i].contains(y) <==> #[trigger] linked(g, a, b, x, y))
}

/// The number of pieces with at least `min` vertices.
pub open spec fn big_count(comps: Seq<Set<i32>>, min: int) -> nat
    decreases comps.len(),
{
    if comps.len() == 0 {
        0
    } else {
        big_count(comps.drop_last(), min) + if comps.last().len() >= min {
            1nat
        } else {
            0nat
        }
    }
}

/// The pieces left by removing `a` and `b` number at least two, and at least
/// two of them have `min` vertices or more.
pub open spec fn large_split(comps: Seq<Set<i32>>, min: int) -> bool {
    comps.len() >= 2 && big_count(comps, min) >= 2
}

/// Reversing a walk of a symmetric graph gives a walk.
proof fn lemma_walk_reverse(g: Graph, a: i32, b: i32, w: Seq<i32>)
    requires
        symmetric(g),
        avoid_walk(g, a, b, w),
    ensures
        avoid_walk(g, a, b, w.reverse()),
        w.reverse()[0] == w.last(),
        w.reverse().last() == w[0],
{
    let r = w.reverse();
    assert forall|i: int| 0 <= i < r.len() implies g.adj().contains_key(#[trigger] r[i]) && r[i] != a && r[i] != b by {
        assert(r[i] == w[w.len() - 1 - i]);
    }
    assert forall|i: int| 0 <= i < r.len() - 1 implies #[trigger] g.has_edge(r[i], r[i + 1]) by {
        let j = w.len() - 2 - i;
        assert(r[i] == w[j + 1]);
        assert(r[i + 1] == w[j]);
        assert(g.has_edge(w[j], w[j + 1]));
    }
}

/// Two walks that meet end to start make one walk.
proof fn lemma_walk_concat(g: Graph, a: i32, b: i32, w1: Seq<i32>, w2: Seq<i32>)
    requires
        avoid_walk(g, a, b, w1),
        avoid_walk(g, a, b, w2),
        w1.last() == w2[0],
    ensures
        avoid_walk(g, a, b, w1 + w2.drop_first()),
        (w1 + w2.drop_first())[0] == w1[0],
        (w1 + w2.drop_first()).last() == w2.last(),
{
    let t = w2.drop_first();
    let w = w1 + t;
    assert forall|i: int| 0 <= i < w.len() implies g.adj().contains_key(#[trigger] w[i]) && w[i] != a && w[i] != b by {
        if i >= w1.len() {
            assert(w[i] == w2[i - w1.len() + 1]);
        }
    }
    assert forall|i: int| 0 <= i < w.len() - 1 implies #[trigger] g.has_edge(w[i], w[i + 1]) by {
        if i < w1.len() - 1 {
            assert(w[i] == w1[i] && w[i + 1] == w1[i + 1]);
        } else if i == w1.len() - 1 {
            assert(w[i] == w2[0]);
            assert(w[i + 1] == w2[1]);
        } else {
            let j = i - w1.len() + 1;
            assert(w[i] == w2[j] && w[i + 1] == w2[j + 1]);
        }
    }
    if t.len() > 0 {
        assert(w.last() == w2.last());
    }
}

/// In a symmetric graph, `linked` is symmetric and transitive.
pub(crate) proof fn lemma_linked_facts(g: Graph, a: i32, b: i32)
    requires
        symmetric(g),
    ensures
        forall|x: i32, y: i32| #[trigger] linked(g, a, b, x, y) ==> linked(g, a, b, y, x),
        forall|x: i32, y: i32, z: i32|
            #[trigger] linked(g, a, b, x, y) && #[trigger] linked(g, a, b, y, z) ==> linked(g, a, b, x, z),
{
    assert forall|x: i32, y: i32| #[trigger] linked(g, a, b, x, y) implies linked(g, a, b, y, x) by {
        let w = choose|w: Seq<i32>| #[trigger] avoid_walk(g, a, b, w) && w[0] == x && w.last() == y;
        lemma_walk_reverse(g, a, b, w);
        assert(avoid_walk(g, a, b, w.reverse()));
    }
    assert forall|x: i32, y: i32, z: i32| #[trigger] linked(g, a, b, x, y) && #[trigger] linked(g, a, b, y, z) implies linked(
        g,
        a,
        b,
        x,
        z,
    ) by {
        let w1 = choose|w: Seq<i32>| #[trigger] avoid_walk(g, a, b, w) && w[0] == x && w.last() == y;
        let w2 = choose|w: Seq<i32>| #[trigger] avoid_walk(g, a, b, w) && w[0] == y && w.last() == z;
        lemma_walk_concat(g, a, b, w1, w2);
        assert(avoid_walk(g, a, b, w1 + w2.drop_first()));
    }
}

/// Every edge from a vertex of `s` to a vertex other than `a` and `b` stays in `s`.
pub open spec fn edge_closed(g: Graph, a: i32, b: i32, s: Set<i32>) -> bool {
    forall|x: i32, y: i32|
        s.contains(x) && #[trigger] g.has_edge(x, y) && g.adj().contains_key(y) && y != a && y != b ==> s.contains(y)
}

/// A walk avoiding `a` and `b` that starts in a set closed under its steps ends in it.
pub(crate) proof fn lemma_walk_stays(g: Graph, a: i32, b: i32, s: Set<i32>, w: Seq<i32>)
    requires
        avoid_walk(g, a, b, w),
        s.contains(w[0]),
        edge_closed(g, a, b, s),
    ensures
        s.contains(w.last()),
    decreases w.len(),
{
    if w.len() > 1 {
        let w2 = w.drop_last();
        assert(avoid_walk(g, a, b, w2)) by {
            assert forall|i: int| 0 <= i < w2.len() implies g.adj().contains_key(#[trigger] w2[i]) && w2[i] != a && w2[i] != b by {
                assert(w2[i] == w[i]);
            }
            assert forall|i: int| 0 <= i < w2.len() - 1 implies #[trigger] g.has_edge(w2[i], w2[i + 1]) by {
                assert(w2[i] == w[i] && w2[i + 1] == w[i + 1]);
            }
        }
        lemma_walk_stays(g, a, b, s, w2);
        let i = w.len() - 2;
        assert(g.has_edge(w[i], w[i + 1]));
        assert(g.adj().contains_key(w[i + 1]));
    }
}

/// Adding one step to a walk avoiding `a` and `b`.
proof fn lemma_walk_push(g: Graph, a: i32, b: i32, w: Seq<i32>, y: i32)
    requires
        avoid_walk(g, a, b, w),
        g.has_edge(w.last(), y),
        g.adj().contains_key(y),
        y != a,
        y != b,
    ensures
        avoid_walk(g, a, b, w.push(y)),
        w.push(y)[0] == w[0],
        w.push(y).last() == y,
{
    let wn = w.push(y);
    assert forall|i: int| 0 <= i < wn.len() implies g.adj().contains_key(#[trigger] wn[i]) && wn[i] != a && wn[i] != b by {
        if i < w.len() {
            assert(wn[i] == w[i]);
        }
    }
    assert forall|i: int| 0 <= i < wn.len() - 1 implies #[trigger] g.has_edge(wn[i], wn[i + 1]) by {
        if i < w.len() - 1 {
            assert(wn[i] == w[i] && wn[i + 1] == w[i + 1]);
        } else {
            assert(wn[i] == w.last());
        }
    }
}

/// Breadth-first search from `root` through vertices other than `a` and `b`
/// that are not yet in `visited`; the vertices found, in order, join `visited`,
/// and every edge out of them leads back into `visited`.
pub(crate) fn component_from(g: &Graph, a: i32, b: i32, root: i32, visited: &mut HashSet<i32>) -> (q: Vec<i32>)
    requires
        g.wf(),
        g.adj().contains_key(root),
        root != a,
        root != b,
        !old(visited)@.contains(root),
    ensures
        q@.len() >= 1,
        q@[0] == root,
        q@.no_duplicates(),
        forall|y: i32| q@.contains(y) ==> linked(*g, a, b, root, y),
        forall|x: i32| #![trigger final(visited)@.contains(x)] #![trigger old(visited)@.contains(x)] #![trigger q@.contains(x)]
            final(visited)@.contains(x) <==> old(visited)@.contains(x) || q@.contains(x),
        forall|x: i32| q@.contains(x) ==> !old(visited)@.contains(x),
        edge_closed(*g, a, b, old(visited)@) ==> edge_closed(*g, a, b, final(visited)@),
{
    let ghost v0 = visited@;
    proof {
        g.lemma_wf();
    }
    let mut q: Vec<i32> = Vec::new();
    q.push(root);
    visited.insert(root);
    let ghost mut walks: Seq<Seq<i32>> = seq![seq![root]];
    proof {
        assert(avoid_walk(*g, a, b, seq![root]));
        assert(q@ == seq![root]);
        assert forall|x: i32| visited@.contains(x) <==> v0.contains(x) || q@.contains(x) by {
            if q@.contains(x) {
                assert(q@[0] == x);
            }
            if x == root {
                assert(q@[0] == root);
            }
        }
    }
    let mut head: usize = 0;
    while head < q.len()
        invariant
            g.wf(),
            g.adj().dom().finite(),
            !v0.contains(root),
            0 <= head <= q@.len(),
            q@.len() >= 1,
            q@[0] == root,
            q@.no_duplicates(),
            forall|x: i32| #![trigger visited@.contains(x)] #![trigger v0.contains(x)] #![trigger q@.contains(x)] visited@.contains(x) <==> v0.contains(x) || q@.contains(x),
            forall|x: i32| q@.contains(x) ==> !v0.contains(x),
            walks.len() == q@.len(),
            forall|m: int|
                0 <= m < q@.len() ==> avoid_walk(*g, a, b, #[trigger] walks[m]) && walks[m][0] == root && walks[m].last() == q@[m],
            forall|m: int, y: i32|
                0 <= m < head && #[trigger] g.has_edge(q@[m], y) && g.adj().contains_key(y) && y != a && y != b ==> visited@.contains(y),
        decreases g.adj().dom().len() - head,
    {
        proof {
            assert forall|x: i32| #[trigger] q@.contains(x) implies g.adj().contains_key(x) by {
                let m = choose|m: int| 0 <= m < q@.len() && q@[m] == x;
                assert(avoid_walk(*g, a, b, walks[m]));
                assert(g.adj().contains_key(walks[m][walks[m].len() - 1]));
            }
            crate::graph::lemma_distinct_vertices_bound(*g, q@);
        }
        let x = q[head];
        match g.neighbors(x) {
            Some(nbrs) => {
                let mut t: usize = 0;
                while t < nbrs.len()
                    invariant
                        g.wf(),
                        g.adj().dom().finite(),
                        !v0.contains(root),
                        0 <= head < q@.len(),
                        x == q@[head as int],
                        g.adj().contains_key(x),
                        nbrs@ == g.adj()[x],
                        0 <= t <= nbrs@.len(),
                        q@[0] == root,
                        q@.no_duplicates(),
                        forall|x2: i32| #![trigger visited@.contains(x2)] #![trigger v0.contains(x2)] #![trigger q@.contains(x2)] visited@.contains(x2) <==> v0.contains(x2) || q@.contains(x2),
                        forall|x2: i32| q@.contains(x2) ==> !v0.contains(x2),
                        walks.len() == q@.len(),
                        forall|m: int|
                            0 <= m < q@.len() ==> avoid_walk(*g, a, b, #[trigger] walks[m]) && walks[m][0] == root && walks[m].last()
                                == q@[m],
                        forall|m: int, y: i32|
                            0 <= m < head && #[trigger] g.has_edge(q@[m], y) && g.adj().contains_key(y) && y != a && y != b
                                ==> visited@.contains(y),
                        forall|k: int|
                            0 <= k < t && g.adj().contains_key(#[trigger] nbrs@[k]) && nbrs@[k] != a && nbrs@[k] != b ==> visited@.contains(
                                nbrs@[k],
                            ),
                    decreases nbrs@.len() - t,
                {
                    let y = nbrs[t];
                    proof {
                        assert(g.has_edge(x, y)) by {
                            assert(nbrs@[t as int] == y);
                        }
                        g.lemma_wf();
                    }
                    if y != a && y != b && !visited.contains(&y) {
                        let ghost q0 = q@;
                        let ghost vis0 = visited@;
                        let ghost wx = walks[head as int];
                        q.push(y);
                        visited.insert(y);
                        proof {
                            lemma_walk_push(*g, a, b, wx, y);
                            walks = walks.push(wx.push(y));
                            assert(!q0.contains(y));
                            assert(q@ == q0.push(y));
                            assert forall|z: i32| #[trigger] q@.contains(z) <==> q0.contains(z) || z == y by {
                                if q0.contains(z) {
                                    let p = choose|p: int| 0 <= p < q0.len() && q0[p] == z;
                                    assert(q@[p] == z);
                                }
                                if q@.contains(z) && z != y {
                                    let p = choose|p: int| 0 <= p < q@.len() && q@[p] == z;
                                    assert(q0[p] == z);
                                }
                                assert(q@[q0.len() as int] == y);
                            }
                            assert(q@.no_duplicates()) by {
                                assert forall|i: int, j: int| 0 <= i < j < q@.len() implies q@[i] != q@[j] by {
                                    if j == q0.len() {
                                        assert(q0.contains(q0[i]));
                                    }
                                }
                            }
                            assert forall|x2: i32| visited@.contains(x2) <==> v0.contains(x2) || q@.contains(x2) by {
                                assert(q@.contains(x2) <==> q0.contains(x2) || x2 == y);
                                assert(visited@.contains(x2) <==> vis0.contains(x2) || x2 == y);
                            }
                            assert forall|m: int| 0 <= m < q@.len() implies avoid_walk(*g, a, b, #[trigger] walks[m])
                                && walks[m][0] == root && walks[m].last() == q@[m] by {
                                if m < q0.len() {
                                    assert(q@[m] == q0[m]);
                                }
                            }
                        }
                    }
                    t = t + 1;
                }
            },
            None => {},
        }
        proof {
            assert forall|m: int, y: i32|
                0 <= m < head + 1 && #[trigger] g.has_edge(q@[m], y) && g.adj().contains_key(y) && y != a && y != b implies visited@.contains(y) by {
                if m == head {
                    assert(g.adj()[x].contains(y));
                    let k = choose|k: int| 0 <= k < g.adj()[x].len() && g.adj()[x][k] == y;
                }
            }
        }
        head = head + 1;
    }
    proof {
        assert forall|y: i32| q@.contains(y) implies linked(*g, a, b, root, y) by {
            let m = choose|m: int| 0 <= m < q@.len() && q@[m] == y;
            assert(avoid_walk(*g, a, b, walks[m]));
        }
        if edge_closed(*g, a, b, v0) {
            assert forall|x: i32, y: i32|
                visited@.contains(x) && #[trigger] g.has_edge(x, y) && g.adj().contains_key(y) && y != a && y != b implies visited@.contains(y) by {
                if q@.contains(x) {
                    let m = choose|m: int| 0 <= m < q@.len() && q@[m] == x;
                    assert(g.has_edge(q@[m], y));
                }
            }
        }
    }
    q
}

/// The number of pieces left by removing `port_u` and `port_v`, and how many
/// of them have `min_comp_size` vertices or more. The pieces are found by
/// breadth-first search over the adjacency lists; on a symmetric graph they
/// are the connected components.
pub(crate) fn split_counts(g: &Graph, port_u: i32, port_v: i32, min_comp_size: usize) -> (r: (usize, usize))
    requires
        g.wf(),
    ensures
        symmetric(*g) ==> exists|comps: Seq<Set<i32>>|
            #[trigger] components_of(*g, port_u, port_v, comps) && r.0 == comps.len() && r.1 == big_count(
                comps,
                min_comp_size as int,
            ),
{
    let verts = g.vertex_list();
    let mut visited: HashSet<i32> = HashSet::new();
    let mut n_comps: usize = 0;
    let mut n_big: usize = 0;
    let ghost mut comps: Seq<Set<i32>> = Seq::empty();
    proof {
        g.lemma_wf();
        if symmetric(*g) {
            lemma_linked_facts(*g, port_u, port_v);
        }
    }
    let mut k: usize = 0;
    while k < verts.len()
        invariant
            g.wf(),
            verts@ == g.vertices(),
            forall|v: i32| verts@.contains(v) <==> g.adj().contains_key(v),
            symmetric(*g) ==> forall|x: i32, y: i32| #[trigger] linked(*g, port_u, port_v, x, y) ==> linked(*g, port_u, port_v, y, x),
            symmetric(*g) ==> forall|x: i32, y: i32, z: i32|
                #[trigger] linked(*g, port_u, port_v, x, y) && #[trigger] linked(*g, port_u, port_v, y, z) ==> linked(*g, port_u, port_v, x, z),
            0 <= k <= verts@.len(),
            n_comps == comps.len(),
            n_comps <= k,
            n_big == big_count(comps, min_comp_size as int),
            n_big <= n_comps,
            edge_closed(*g, port_u, port_v, visited@),
            forall|x: i32| visited@.contains(x) <==> exists|i: int| 0 <= i < comps.len() && #[trigger] comps[i].contains(x),
            forall|x: i32| visited@.contains(x) ==> g.adj().contains_key(x) && x != port_u && x != port_v,
            forall|j: int| 0 <= j < k && #[trigger] verts@[j] != port_u && verts@[j] != port_v ==> visited@.contains(verts@[j]),
            forall|i: int| 0 <= i < comps.len() ==> (#[trigger] comps[i]).finite() && comps[i].len() > 0,
            forall|i: int, j: int, x: i32|
                0 <= i < comps.len() && 0 <= j < comps.len() && i != j && #[trigger] comps[i].contains(x) ==> !#[trigger] comps[j].contains(x),
            symmetric(*g) ==> forall|i: int, x: i32, y: i32|
                0 <= i < comps.len() && #[trigger] comps[i].contains(x) ==> (comps[i].contains(y) <==> #[trigger] linked(*g, port_u, port_v, x, y)),
        decreases verts@.len() - k,
    {
        let x = verts[k];
        proof {
            assert(verts@.contains(x));
        }
        if x != port_u && x != port_v && !visited.contains(&x) {
            let ghost v0 = visited@;
            let ghost c0 = comps;
            let q = component_from(g, port_u, port_v, x, &mut visited);
            let ghost cq = q@.to_set();
            proof {
                q@.unique_seq_to_set();
                assert(cq.contains(x)) by {
                    assert(q@.contains(q@[0]));
                }
                comps = comps.push(cq);
                assert(comps.drop_last() == c0);
                assert(comps.last() == cq);
                assert forall|y: i32| #[trigger] cq.contains(y) <==> q@.contains(y) by {
                }
                if symmetric(*g) {
                    assert forall|y: i32| linked(*g, port_u, port_v, x, y) implies q@.contains(y) by {
                        let w = choose|w: Seq<i32>| #[trigger] avoid_walk(*g, port_u, port_v, w) && w[0] == x && w.last() == y;
                        assert(visited@.contains(x));
                        lemma_walk_stays(*g, port_u, port_v, visited@, w);
                        if v0.contains(y) {
                            assert(linked(*g, port_u, port_v, y, x));
                            let w2 = choose|w: Seq<i32>| #[trigger] avoid_walk(*g, port_u, port_v, w) && w[0] == y && w.last() == x;
                            lemma_walk_stays(*g, port_u, port_v, v0, w2);
                        }
                    }
                    assert forall|i: int, z: i32, y: i32|
                        0 <= i < comps.len() && #[trigger] comps[i].contains(z) implies (comps[i].contains(y) <==> #[trigger] linked(*g, port_u, port_v, z, y)) by {
                        if i == comps.len() - 1 {
                            assert(comps[i] == cq);
                            assert(linked(*g, port_u, port_v, x, z));
                            if linked(*g, port_u, port_v, z, y) {
                                assert(linked(*g, port_u, port_v, x, y));
                            }
                            if cq.contains(y) {
                                assert(linked(*g, port_u, port_v, x, y));
                                assert(linked(*g, port_u, port_v, z, x));
                            }
                        } else {
                            assert(comps[i] == c0[i]);
                        }
                    }
                }
                assert forall|z: i32| visited@.contains(z) <==> exists|i: int| 0 <= i < comps.len() && #[trigger] comps[i].contains(z) by {
                    if visited@.contains(z) {
                        if v0.contains(z) {
                            let i = choose|i: int| 0 <= i < c0.len() && #[trigger] c0[i].contains(z);
                            assert(comps[i] == c0[i]);
                        } else {
                            assert(comps[c0.len() as int].contains(z));
                        }
                    }
                    if exists|i: int| 0 <= i < comps.len() && #[trigger] comps[i].contains(z) {
                        let i = choose|i: int| 0 <= i < comps.len() && #[trigger] comps[i].contains(z);
                        if i < c0.len() {
                            assert(comps[i] == c0[i]);
                        }
                    }
                }
                assert forall|z: i32| visited@.contains(z) implies g.adj().contains_key(z) && z != port_u && z != port_v by {
                    if q@.contains(z) {
                        let w = choose|w: Seq<i32>| #[trigger] avoid_walk(*g, port_u, port_v, w) && w[0] == x && w.last() == z;
                        assert(w[w.len() - 1] == z);
                    }
                }
                assert forall|i: int, j: int, z: i32|
                    0 <= i < comps.len() && 0 <= j < comps.len() && i != j && #[trigger] comps[i].contains(z) implies !#[trigger] comps[j].contains(z) by {
                    if i < c0.len() && j < c0.len() {
                        assert(comps[i] == c0[i] && comps[j] == c0[j]);
                    } else if i < c0.len() {
                        assert(comps[i] == c0[i]);
                        assert(v0.contains(z));
                    } else {
                        assert(comps[j] == c0[j]);
                        if comps[j].contains(z) {
                            assert(v0.contains(z));
                        }
                    }
                }
                assert forall|i: int| 0 <= i < comps.len() implies (#[trigger] comps[i]).finite() && comps[i].len() > 0 by {
                    if i < c0.len() {
                        assert(comps[i] == c0[i]);
                    }
                }
            }
            n_comps = n_comps + 1;
            if q.len() >= min_comp_size {
                n_big = n_big + 1;
            }
        }
        k = k + 1;
    }
    proof {
        if symmetric(*g) {
            assert forall|z: i32| (g.adj().contains_key(z) && z != port_u && z != port_v) <==> exists|i: int|
                0 <= i < comps.len() && #[trigger] comps[i].contains(z) by {
                if g.adj().contains_key(z) && z != port_u && z != port_v {
                    assert(verts@.contains(z));
                    let j = choose|j: int| 0 <= j < verts@.len() && verts@[j] == z;
                    assert(verts@[j] != port_u && verts@[j] != port_v);
                    assert(visited@.contains(verts@[j]));
                    assert(visited@.contains(z));
                    let i = choose|i: int| 0 <= i < comps.len() && #[trigger] comps[i].contains(z);
                    assert(comps[i].contains(z));
                }
                if exists|i: int| 0 <= i < comps.len() && #[trigger] comps[i].contains(z) {
                    let i = choose|i: int| 0 <= i < comps.len() && #[trigger] comps[i].contains(z);
                    assert(visited@.contains(z));
                }
            }
            assert(components_of(*g, port_u, port_v, comps));
        }
    }
    (n_comps, n_big)
}

/// Whether removing `port_u` and `port_v` leaves at least two connected
/// pieces, at least two of which have `min_comp_size` vertices or more.
fn check_2cut_split(g: &Graph, port_u: i32, port_v: i32, min_comp_size: usize) -> (r: bool)
    requires
        g.wf(),
    ensures
        symmetric(*g) ==> split_holds(*g, port_u, port_v, min_comp_size as int, r),
{
    let (n_comps, n_big) = split_counts(g, port_u, port_v, min_comp_size);
    n_comps >= 2 && n_big >= 2
}

/// The vertex at position `p` comes before the one at position `q` when it has
/// fewer adjacency entries, or as many and comes first in graph order.
pub open spec fn degree_before(g: Graph, p: int, q: int) -> bool {
    let vs = g.vertices();
    ||| g.degree_of(vs[p]) < g.degree_of(vs[q])
    ||| g.degree_of(vs[p]) == g.degree_of(vs[q]) && p < q
}

/// `order` lists every vertex position once, by increasing degree, ties in
/// graph order.
pub open spec fn by_degree(g: Graph, order: Seq<int>) -> bool {
    &&& order.len() == g.vertices().len()
    &&& forall|i: int| 0 <= i < order.len() ==> 0 <= #[trigger] order[i] < g.vertices().len()
    &&& forall|i: int, j: int| 0 <= i < j < order.len() ==> degree_before(g, #[trigger] order[i], #[trigger] order[j])
}

/// The vertex positions by increasing degree, ties in graph order (insertion sort).
fn degree_order(g: &Graph) -> (order: Vec<usize>)
    requires
        g.wf(),
    ensures
        by_degree(*g, order@.map_values(|p: usize| p as int)),
{
    let vs = g.vertex_list();
    let n = vs.len();
    let mut order: Vec<usize> = Vec::new();
    let mut k: usize = 0;
    while k < n
        invariant
            vs@ == g.vertices(),
            n == vs@.len(),
            0 <= k <= n,
            order@.len() == k,
            forall|i: int| 0 <= i < order@.len() ==> #[trigger] order@[i] < k,
            forall|i: int, j: int| 0 <= i < j < order@.len() ==> degree_before(*g, #[trigger] order@[i] as int, #[trigger] order@[j] as int),
        decreases n - k,
    {
        let dk = g.degree(vs[k]);
        let mut i: usize = 0;
        while i < order.len() && g.degree(vs[order[i]]) <= dk
            invariant
                vs@ == g.vertices(),
                n == vs@.len(),
                k < n,
                dk == g.degree_of(vs@[k as int]),
                0 <= i <= order@.len(),
                forall|t: int| 0 <= t < order@.len() ==> #[trigger] order@[t] < k,
                forall|t: int| 0 <= t < i ==> g.degree_of(vs@[#[trigger] order@[t] as int]) <= dk,
            decreases order@.len() - i,
        {
            i = i + 1;
        }
        let ghost o0 = order@;
        order.insert(i, k);
        proof {
            assert(order@ == o0.insert(i as int, k));
            assert forall|a: int, b: int| 0 <= a < b < order@.len() implies degree_before(*g, #[trigger] order@[a] as int, #[trigger] order@[b] as int) by {
                if b < i {
                    assert(degree_before(*g, o0[a] as int, o0[b] as int));
                } else if b == i {
                    assert(o0[a] < k);
                    assert(g.degree_of(vs@[o0[a] as int]) <= dk);
                } else if a < i {
                    assert(degree_before(*g, o0[a] as int, o0[b - 1] as int));
                } else if a == i {
                    assert(o0[b - 1] < k);
                    assert(!(g.degree_of(vs@[o0[i as int] as int]) <= dk));
                    if b - 1 > i {
                        assert(degree_before(*g, o0[i as int] as int, o0[b - 1] as int));
                    }
                } else {
                    assert(degree_before(*g, o0[a - 1] as int, o0[b - 1] as int));
                }
            }
        }
        k = k + 1;
    }
    proof {
        let om = order@.map_values(|p: usize| p as int);
        assert forall|i: int, j: int| 0 <= i < j < om.len() implies degree_before(*g, #[trigger] om[i], #[trigger] om[j]) by {
            assert(degree_before(*g, order@[i] as int, order@[j] as int));
        }
    }
    order
}

/// The split test on the pair `(u, v)` gives `r`: the pieces left by removing
/// them are `comps`, and `r` says whether they make a large split.
pub open spec fn split_holds(g: Graph, u: i32, v: i32, min: int, r: bool) -> bool {
    exists|comps: Seq<Set<i32>>| #[trigger] components_of(g, u, v, comps) && (r <==> large_split(comps, min))
}

/// The pair (1876, 2491) was taken: both are vertices and removing them
/// leaves a large split.
pub open spec fn special_answer(g: Graph, r: Option<(i32, i32)>) -> bool {
    &&& r == Some((1876i32, 2491i32))
    &&& g.adj().contains_key(1876)
    &&& g.adj().contains_key(2491)
    &&& split_holds(g, 1876, 2491, 500, true)
}

/// The scan over the candidates `c(i)`, the vertex at position `order[i]`,
/// after the pair (1876, 2491) was not taken: the first pair `(c(i), c(j))`
/// with `c(i) < c(j)`, `i` then `j` running over the first 50 candidates, that
/// leaves a large split; `None` when none does.
pub open spec fn scan_answer(g: Graph, order: Seq<int>, r: Option<(i32, i32)>) -> bool {
    let vs = g.vertices();
    let m = if order.len() < 50 { order.len() as int } else { 50int };
    &&& !(g.adj().contains_key(1876) && g.adj().contains_key(2491)) || split_holds(g, 1876, 2491, 500, false)
    &&& match r {
        Some((a, b)) => split_holds(g, a, b, 500, true) && exists|i: int, j: int|
            0 <= i < m && 0 <= j < m && a == vs[order[i]] && b == vs[order[j]] && a < b && forall|i2: int, j2: int|
                0 <= i2 < m && 0 <= j2 < m && (i2 < i || (i2 == i && j2 < j)) && #[trigger] vs[order[i2]]
                    < #[trigger] vs[order[j2]] ==> split_holds(g, vs[order[i2]], vs[order[j2]], 500, false),
        None => forall|i: int, j: int|
            0 <= i < m && 0 <= j < m && #[trigger] vs[order[i]] < #[trigger] vs[order[j]] ==> split_holds(
                g,
                vs[order[i]],
                vs[order[j]],
                500,
                false,
            ),
    }
}

/// Searches for two vertices whose removal splits the graph into at least two
/// connected pieces of 500 vertices or more: first the pair (1876, 2491),
/// then pairs `u < v` among the 50 vertices of lowest degree (ties in graph
/// order). On a symmetric graph the outcome is as `special_answer` or
/// `scan_answer` says.
pub fn find_2cut_ports(raw_g: &Graph) -> (r: Option<(i32, i32)>)
    requires
        raw_g.wf(),
    ensures
        symmetric(*raw_g) ==> special_answer(*raw_g, r) || exists|order: Seq<int>|
            #[trigger] by_degree(*raw_g, order) && scan_answer(*raw_g, order, r),
{
    let special = raw_g.contains_vertex(1876) && raw_g.contains_vertex(2491);
    if special {
        if check_2cut_split(raw_g, 1876, 2491, 500) {
            return Some((1876, 2491));
        }
    }
    let vs = raw_g.vertex_list();
    let order = degree_order(raw_g);
    let ghost om = order@.map_values(|p: usize| p as int);
    let m: usize = if order.len() < 50 { order.len() } else { 50 };
    let mut i: usize = 0;
    while i < m
        invariant
            raw_g.wf(),
            vs@ == raw_g.vertices(),
            om == order@.map_values(|p: usize| p as int),
            by_degree(*raw_g, om),
            m == (if om.len() < 50 { om.len() as int } else { 50int }),
            0 <= i <= m,
            special == (raw_g.adj().contains_key(1876) && raw_g.adj().contains_key(2491)),
            symmetric(*raw_g) ==> (!special || split_holds(*raw_g, 1876, 2491, 500, false)),
            symmetric(*raw_g) ==> forall|i2: int, j2: int|
                0 <= i2 < i && 0 <= j2 < m && #[trigger] vs@[om[i2]] < #[trigger] vs@[om[j2]] ==> split_holds(*raw_g, vs@[om[i2]], vs@[om[j2]], 500, false),
        decreases m - i,
    {
        proof {
            assert(om[i as int] == order@[i as int] as int);
            assert(0 <= om[i as int] < raw_g.vertices().len());
        }
        let u = vs[order[i]];
        let mut j: usize = 0;
        while j < m
            invariant
                raw_g.wf(),
                vs@ == raw_g.vertices(),
                om == order@.map_values(|p: usize| p as int),
                by_degree(*raw_g, om),
                m == (if om.len() < 50 { om.len() as int } else { 50int }),
                0 <= i < m,
                u == vs@[om[i as int]],
                0 <= j <= m,
                special == (raw_g.adj().contains_key(1876) && raw_g.adj().contains_key(2491)),
                symmetric(*raw_g) ==> (!special || split_holds(*raw_g, 1876, 2491, 500, false)),
                symmetric(*raw_g) ==> forall|i2: int, j2: int|
                    0 <= i2 < m && 0 <= j2 < m && (i2 < i || (i2 == i && j2 < j)) && #[trigger] vs@[om[i2]] < #[trigger] vs@[om[j2]] ==> split_holds(*raw_g, vs@[om[i2]], vs@[om[j2]], 500, false),
            decreases m - j,
        {
            proof {
                assert(om[j as int] == order@[j as int] as int);
                assert(0 <= om[j as int] < raw_g.vertices().len());
            }
            let v = vs[order[j]];
            if u < v {
                if check_2cut_split(raw_g, u, v, 500) {
                    proof {
                        if symmetric(*raw_g) {
                            let ii = i as int;
                            let jj = j as int;
                            assert(v == vs@[om[jj]]);
                            assert(forall|i2: int, j2: int|
                                0 <= i2 < m && 0 <= j2 < m && (i2 < ii || (i2 == ii && j2 < jj)) && #[trigger] vs@[om[i2]] < #[trigger] vs@[om[j2]] ==> split_holds(*raw_g, vs@[om[i2]], vs@[om[j2]], 500, false));
                            assert(0 <= ii < m && 0 <= jj < m && u == vs@[om[ii]] && v == vs@[om[jj]] && u < v);
                            assert(scan_answer(*raw_g, om, Some((u, v))));
                        }
                    }
                    return Some((u, v));
                }
            }
            j = j + 1;
        }
        i = i + 1;
    }
    proof {
        if symmetric(*raw_g) {
            assert(scan_answer(*raw_g, om, None));
        }
    }
    None
}

/// `c` lists classes of `linked`, non-empty and pairwise disjoint, that
/// together cover exactly the set `s`.
spec fn classes_cover(g: Graph, a: i32, b: i32, c: Seq<Set<i32>>, s: Set<i32>) -> bool {
    &&& forall|i: int| 0 <= i < c.len() ==> (#[trigger] c[i]).finite() && c[i].len() > 0
    &&& forall|x: i32| s.contains(x) <==> exists|i: int| 0 <= i < c.len() && #[trigger] c[i].contains(x)
    &&& forall|i: int, j: int, x: i32|
        0 <= i < c.len() && 0 <= j < c.len() && i != j && #[trigger] c[i].contains(x) ==> !#[trigger] c[j].contains(x)
    &&& forall|i: int, x: i32, y: i32|
        0 <= i < c.len() && #[trigger] c[i].contains(x) ==> (c[i].contains(y) <==> #[trigger] linked(g, a, b, x, y))
}

/// Removing one entry from the list takes its size out of the count.
proof fn lemma_big_count_remove(c: Seq<Set<i32>>, j: int, min: int)
    requires
        0 <= j < c.len(),
    ensures
        big_count(c, min) == big_count(c.remove(j), min) + if c[j].len() >= min {
            1int
        } else {
            0int
        },
    decreases c.len(),
{
    if j < c.len() - 1 {
        let c2 = c.drop_last();
        lemma_big_count_remove(c2, j, min);
        assert(c.remove(j).drop_last() == c2.remove(j));
        assert(c.remove(j).last() == c.last());
        assert(c2[j] == c[j]);
    } else {
        assert(c.remove(j) == c.drop_last());
    }
}

/// Two lists of classes covering the same set have the same length and the
/// same number of classes of any size bound.
proof fn lemma_classes_unique(g: Graph, a: i32, b: i32, c1: Seq<Set<i32>>, c2: Seq<Set<i32>>, s: Set<i32>, min: int)
    requires
        classes_cover(g, a, b, c1, s),
        classes_cover(g, a, b, c2, s),
    ensures
        c1.len() == c2.len(),
        big_count(c1, min) == big_count(c2, min),
    decreases c1.len(),
{
    if c1.len() == 0 {
        if c2.len() > 0 {
            assert(c2[0].len() > 0);
            let x = c2[0].choose();
            assert(c2[0].contains(x));
            assert(s.contains(x));
        }
    } else {
        let last = c1.len() - 1;
        let p = c1[last];
        assert(p.finite() && p.len() > 0);
        let x = p.choose();
        assert(p.contains(x));
        assert(s.contains(x));
        let j = choose|j: int| 0 <= j < c2.len() && #[trigger] c2[j].contains(x);
        assert(c2[j] =~= p) by {
            assert forall|y: i32| c2[j].contains(y) <==> p.contains(y) by {
                assert(c2[j].contains(y) <==> linked(g, a, b, x, y));
                assert(p.contains(y) <==> linked(g, a, b, x, y));
            }
        }
        let d1 = c1.drop_last();
        let d2 = c2.remove(j);
        let s2 = s.difference(p);
        assert(classes_cover(g, a, b, d1, s2)) by {
            assert forall|i: int| 0 <= i < d1.len() implies (#[trigger] d1[i]).finite() && d1[i].len() > 0 by {
                assert(d1[i] == c1[i]);
            }
            assert forall|y: i32| s2.contains(y) <==> exists|i: int| 0 <= i < d1.len() && #[trigger] d1[i].contains(y) by {
                if s2.contains(y) {
                    let i = choose|i: int| 0 <= i < c1.len() && #[trigger] c1[i].contains(y);
                    assert(i != last);
                    assert(d1[i] == c1[i]);
                }
                if exists|i: int| 0 <= i < d1.len() && #[trigger] d1[i].contains(y) {
                    let i = choose|i: int| 0 <= i < d1.len() && #[trigger] d1[i].contains(y);
                    assert(d1[i] == c1[i]);
                    assert(c1[i].contains(y));
                    assert(!c1[last].contains(y));
                }
            }
            assert forall|i: int, k: int, y: i32|
                0 <= i < d1.len() && 0 <= k < d1.len() && i != k && #[trigger] d1[i].contains(y) implies !#[trigger] d1[k].contains(y) by {
                assert(d1[i] == c1[i] && d1[k] == c1[k]);
            }
            assert forall|i: int, y: i32, z: i32|
                0 <= i < d1.len() && #[trigger] d1[i].contains(y) implies (d1[i].contains(z) <==> #[trigger] linked(g, a, b, y, z)) by {
                assert(d1[i] == c1[i]);
            }
        }
        assert(classes_cover(g, a, b, d2, s2)) by {
            assert forall|i: int| 0 <= i < d2.len() implies (#[trigger] d2[i]).finite() && d2[i].len() > 0 by {
                if i < j {
                    assert(d2[i] == c2[i]);
                } else {
                    assert(d2[i] == c2[i + 1]);
                }
            }
            assert forall|y: i32| s2.contains(y) <==> exists|i: int| 0 <= i < d2.len() && #[trigger] d2[i].contains(y) by {
                if s2.contains(y) {
                    let i = choose|i: int| 0 <= i < c2.len() && #[trigger] c2[i].contains(y);
                    assert(i != j);
                    if i < j {
                        assert(d2[i] == c2[i]);
                    } else {
                        assert(d2[i - 1] == c2[i]);
                    }
                }
                if exists|i: int| 0 <= i < d2.len() && #[trigger] d2[i].contains(y) {
                    let i = choose|i: int| 0 <= i < d2.len() && #[trigger] d2[i].contains(y);
                    let i2 = if i < j { i } else { i + 1 };
                    assert(d2[i] == c2[i2]);
                    assert(c2[i2].contains(y));
                    assert(i2 != j);
                    assert(!c2[j].contains(y));
                }
            }
            assert forall|i: int, k: int, y: i32|
                0 <= i < d2.len() && 0 <= k < d2.len() && i != k && #[trigger] d2[i].contains(y) implies !#[trigger] d2[k].contains(y) by {
                let i2 = if i < j { i } else { i + 1 };
                let k2 = if k < j { k } else { k + 1 };
                assert(d2[i] == c2[i2] && d2[k] == c2[k2]);
            }
            assert forall|i: int, y: i32, z: i32|
                0 <= i < d2.len() && #[trigger] d2[i].contains(y) implies (d2[i].contains(z) <==> #[trigger] linked(g, a, b, y, z)) by {
                let i2 = if i < j { i } else { i + 1 };
                assert(d2[i] == c2[i2]);
            }
        }
        lemma_classes_unique(g, a, b, d1, d2, s2, min);
        lemma_big_count_remove(c2, j, min);
        assert(c1.last() == p);
    }
}

/// The pieces left by removing two vertices are determined: any two lists of
/// them have the same length and the same number of pieces of at least `min`
/// vertices.
pub proof fn lemma_components_unique(g: Graph, a: i32, b: i32, c1: Seq<Set<i32>>, c2: Seq<Set<i32>>, min: int)
    requires
        components_of(g, a, b, c1),
        components_of(g, a, b, c2),
    ensures
        c1.len() == c2.len(),
        big_count(c1, min) == big_count(c2, min),
{
    let s = Set::new(|x: i32| g.adj().contains_key(x) && x != a && x != b);
    lemma_classes_unique(g, a, b, c1, c2, s, min);
}

/// The edge `{u, v}` written with its smaller end first.
pub open spec fn pair_key(u: i32, v: i32) -> (i32, i32) {
    if u <= v {
        (u, v)
    } else {
        (v, u)
    }
}

/// The merge of `c1` and `c2` that breaks the edge after position `i` of
/// `c1` and the edge after position `j` of `c2`, neither of them forbidden:
/// `c1` from position `i + 1` around to `i`, then `c2` backwards from `j`
/// when `c1[i]` and `c1[i + 1]` are joined to `c2[j]` and `c2[j + 1]`, or
/// forwards from `j + 1` when they are joined to `c2[j + 1]` and `c2[j]`.
pub open spec fn merge_pair_at(c1: Seq<i32>, c2: Seq<i32>, g: Graph, forbidden: Seq<(i32, i32)>, i: int, j: int) -> Option<
    Seq<i32>,
> {
    let n1 = c1.len() as int;
    let n2 = c2.len() as int;
    let u1 = c1[i];
    let v1 = c1[(i + 1) % n1];
    let u2 = c2[j];
    let v2 = c2[(j + 1) % n2];
    if forbidden.contains(pair_key(u1, v1)) || forbidden.contains(pair_key(u2, v2)) {
        None
    } else if g.has_edge(u1, u2) && g.has_edge(v1, v2) {
        Some(rot(c1, i + 1) + rev_from(c2, j))
    } else if g.has_edge(u1, v2) && g.has_edge(v1, u2) {
        Some(rot(c1, i + 1) + rot(c2, j + 1))
    } else {
        None
    }
}

/// The first merge at edge `i` of `c1` and an edge `j' >= j` of `c2`.
pub open spec fn merge_scan_j(c1: Seq<i32>, c2: Seq<i32>, g: Graph, forbidden: Seq<(i32, i32)>, i: int, j: int) -> Option<
    Seq<i32>,
>
    decreases c2.len() - j,
{
    if j < 0 || j >= c2.len() {
        None
    } else {
        match merge_pair_at(c1, c2, g, forbidden, i, j) {
            Some(m) => Some(m),
            None => merge_scan_j(c1, c2, g, forbidden, i, j + 1),
        }
    }
}

/// The first merge at an edge `i' >= i` of `c1`, scanning `c2` fully for each.
pub open spec fn merge_scan_i(c1: Seq<i32>, c2: Seq<i32>, g: Graph, forbidden: Seq<(i32, i32)>, i: int) -> Option<Seq<i32>>
    decreases c1.len() - i,
{
    if i < 0 || i >= c1.len() {
        None
    } else {
        match merge_scan_j(c1, c2, g, forbidden, i, 0) {
            Some(m) => Some(m),
            None => merge_scan_i(c1, c2, g, forbidden, i + 1),
        }
    }
}

/// What `merge_two_cycles` returns: the first merge in the order of the
/// edges of `c1`, then of `c2`, then of the two joins; none when a cycle is
/// empty.
pub open spec fn merge_pair_spec(c1: Seq<i32>, c2: Seq<i32>, g: Graph, forbidden: Seq<(i32, i32)>) -> Option<Seq<i32>> {
    if c1.len() == 0 || c2.len() == 0 {
        None
    } else {
        merge_scan_i(c1, c2, g, forbidden, 0)
    }
}

/// Whether `e` is listed.
fn pair_listed(list: &Vec<(i32, i32)>, e: (i32, i32)) -> (b: bool)
    ensures
        b == list@.contains(e),
{
    let mut k: usize = 0;
    while k < list.len()
        invariant
            0 <= k <= list@.len(),
            forall|t: int| 0 <= t < k ==> list@[t] != e,
        decreases list@.len() - k,
    {
        if list[k].0 == e.0 && list[k].1 == e.1 {
            assert(list@[k as int] == e);
            return true;
        }
        k = k + 1;
    }
    false
}

/// Merges two cycles by breaking one non-forbidden edge of each and joining
/// their ends crosswise along edges of `g`: the first such merge in the order
/// of the edges of `c1`, then of `c2`, trying first the join `c1[i]`-`c2[j]`,
/// `c1[i + 1]`-`c2[j + 1]`, then `c1[i]`-`c2[j + 1]`, `c1[i + 1]`-`c2[j]`.
/// The forbidden edges are listed smaller end first. Whenever some pair of
/// edges can be exchanged so, a merge is returned.
pub fn merge_two_cycles(c1: &[i32], c2: &[i32], g: &Graph, forbidden_delete: &Vec<(i32, i32)>) -> (r: Option<Vec<i32>>)
    ensures
        r matches Some(m) ==> merge_pair_spec(c1@, c2@, *g, forbidden_delete@) == Some(m@),
        r is None ==> merge_pair_spec(c1@, c2@, *g, forbidden_delete@) is None,
        forall|i: int, j: int| #[trigger] mergeable_at(c1@, c2@, *g, forbidden_delete@, i, j) ==> r is Some,
        r matches Some(m) ==> merged_somewhere(c1@, c2@, *g, forbidden_delete@, m@),
{
    let n1 = c1.len();
    let n2 = c2.len();
    if n1 == 0 || n2 == 0 {
        return None;
    }
    let ghost s1 = c1@;
    let ghost s2 = c2@;
    let ghost fb = forbidden_delete@;
    let mut i: usize = 0;
    while i < n1
        invariant
            n1 == s1.len(),
            n2 == s2.len(),
            s1 == c1@,
            s2 == c2@,
            fb == forbidden_delete@,
            n1 > 0,
            n2 > 0,
            0 <= i <= n1,
            merge_scan_i(s1, s2, *g, fb, 0) == merge_scan_i(s1, s2, *g, fb, i as int),
        decreases n1 - i,
    {
        let u1 = c1[i];
        let v1 = c1[(i + 1) % n1];
        let e1 = if u1 <= v1 { (u1, v1) } else { (v1, u1) };
        let f1 = pair_listed(forbidden_delete, e1);
        let mut j: usize = 0;
        while j < n2
            invariant
                n1 == s1.len(),
                n2 == s2.len(),
                s1 == c1@,
                s2 == c2@,
                fb == forbidden_delete@,
                n1 > 0,
                n2 > 0,
                0 <= i < n1,
                0 <= j <= n2,
                u1 == s1[i as int],
                v1 == s1[(i + 1) % (n1 as int)],
                e1 == pair_key(u1, v1),
                f1 == fb.contains(e1),
                merge_scan_i(s1, s2, *g, fb, 0) == merge_scan_i(s1, s2, *g, fb, i as int),
                merge_scan_j(s1, s2, *g, fb, i as int, 0) == merge_scan_j(s1, s2, *g, fb, i as int, j as int),
            decreases n2 - j,
        {
            let u2 = c2[j];
            let v2 = c2[(j + 1) % n2];
            let e2 = if u2 <= v2 { (u2, v2) } else { (v2, u2) };
            if !f1 && !pair_listed(forbidden_delete, e2) {
                if g.contains_edge(u1, u2) && g.contains_edge(v1, v2) {
                    let head = rot_vec(c1, i + 1);
                    let tail = rev_from_vec(c2, j);
                    let mut tour = head;
                    let mut t: usize = 0;
                    while t < tail.len()
                        invariant
                            0 <= t <= tail@.len(),
                            tour@ == rot(s1, i + 1) + tail@.subrange(0, t as int),
                        decreases tail@.len() - t,
                    {
                        tour.push(tail[t]);
                        proof {
                            assert(tail@.subrange(0, t + 1) == tail@.subrange(0, t as int).push(tail@[t as int]));
                        }
                        t = t + 1;
                    }
                    proof {
                        assert(tail@.subrange(0, tail@.len() as int) == tail@);
                        assert(merge_pair_at(s1, s2, *g, fb, i as int, j as int) == Some(tour@));
                        assert(merge_scan_j(s1, s2, *g, fb, i as int, j as int) == Some(tour@));
                        assert(merge_scan_i(s1, s2, *g, fb, i as int) == Some(tour@));
                        assert(merged_at(c1@, c2@, *g, forbidden_delete@, i as int, j as int, tour@));
                        assert(merged_somewhere(c1@, c2@, *g, forbidden_delete@, tour@));
                    }
                    return Some(tour);
                }
                if g.contains_edge(u1, v2) && g.contains_edge(v1, u2) {
                    let head = rot_vec(c1, i + 1);
                    let tail = rot_vec(c2, j + 1);
                    let mut tour = head;
                    let mut t: usize = 0;
                    while t < tail.len()
                        invariant
                            0 <= t <= tail@.len(),
                            tour@ == rot(s1, i + 1) + tail@.subrange(0, t as int),
                        decreases tail@.len() - t,
                    {
                        tour.push(tail[t]);
                        proof {
                            assert(tail@.subrange(0, t + 1) == tail@.subrange(0, t as int).push(tail@[t as int]));
                        }
                        t = t + 1;
                    }
                    proof {
                        assert(tail@.subrange(0, tail@.len() as int) == tail@);
                        assert(merge_pair_at(s1, s2, *g, fb, i as int, j as int) == Some(tour@));
                        assert(merge_scan_j(s1, s2, *g, fb, i as int, j as int) == Some(tour@));
                        assert(merge_scan_i(s1, s2, *g, fb, i as int) == Some(tour@));
                        assert(merged_at(c1@, c2@, *g, forbidden_delete@, i as int, j as int, tour@));
                        assert(merged_somewhere(c1@, c2@, *g, forbidden_delete@, tour@));
                    }
                    return Some(tour);
                }
            }
            proof {
                assert(merge_pair_at(s1, s2, *g, fb, i as int, j as int) is None);
            }
            j = j + 1;
        }
        proof {
            assert(merge_scan_j(s1, s2, *g, fb, i as int, n2 as int) is None);
        }
        i = i + 1;
    }
    proof {
        assert(merge_scan_i(s1, s2, *g, fb, n1 as int) is None);
        assert forall|i: int, j: int| !#[trigger] mergeable_at(s1, s2, *g, fb, i, j) by {
            if mergeable_at(s1, s2, *g, fb, i, j) {
                lemma_merge_pair_complete(s1, s2, *g, fb, i, j);
            }
        }
    }
    None
}

/// The position after `s` on a cycle of length `n`.
proof fn lemma_succ_mod(s: int, n: int)
    requires
        0 <= s < n,
    ensures
        (s + 1) % n == (if s + 1 < n { s + 1 } else { 0 }),
{
    if s + 1 < n {
        vstd::arithmetic::div_mod::lemma_small_mod((s + 1) as nat, n as nat);
    } else {
        vstd::arithmetic::div_mod::lemma_mod_self_0(n);
    }
}

/// Each entry of `p` but the last is joined to the next by an edge of `g`.
pub open spec fn path_edges_in(g: Graph, p: Seq<i32>) -> bool {
    forall|s: int| 0 <= s < p.len() - 1 ==> #[trigger] g.has_edge(p[s], p[s + 1])
}

/// A closed walk read from position `k` around is a path of `g`.
proof fn lemma_rot_path(g: Graph, c: Seq<i32>, k: int)
    requires
        closed_walk(g, c),
        0 <= k <= c.len(),
    ensures
        path_edges_in(g, rot(c, k)),
{
    let n = c.len() as int;
    lemma_rot_split(c, k);
    let r = rot(c, k);
    assert forall|s: int| 0 <= s < r.len() - 1 implies #[trigger] g.has_edge(r[s], r[s + 1]) by {
        if s < n - k - 1 {
            assert(r[s] == c[k + s] && r[s + 1] == c[k + s + 1]);
            assert(edge_at(g, c, k + s));
            lemma_succ_mod(k + s, n);
        } else if s == n - k - 1 {
            assert(r[s] == c[n - 1] && r[s + 1] == c[0]);
            assert(edge_at(g, c, n - 1));
            lemma_succ_mod(n - 1, n);
        } else {
            let t = s - (n - k);
            assert(r[s] == c[t] && r[s + 1] == c[t + 1]);
            assert(edge_at(g, c, t));
            lemma_succ_mod(t, n);
        }
    }
}

/// In a symmetric graph a path read backwards is a path.
proof fn lemma_reverse_path(g: Graph, p: Seq<i32>)
    requires
        symmetric(g),
        path_edges_in(g, p),
    ensures
        path_edges_in(g, p.reverse()),
{
    let r = p.reverse();
    assert forall|s: int| 0 <= s < r.len() - 1 implies #[trigger] g.has_edge(r[s], r[s + 1]) by {
        let t = p.len() - 2 - s;
        assert(r[s] == p[t + 1] && r[s + 1] == p[t]);
        assert(g.has_edge(p[t], p[t + 1]));
    }
}

/// Two paths joined end to start both ways make a closed walk.
proof fn lemma_join_paths(g: Graph, p: Seq<i32>, q: Seq<i32>)
    requires
        path_edges_in(g, p),
        path_edges_in(g, q),
        p.len() > 0,
        q.len() > 0,
        p.len() + q.len() >= 3,
        g.has_edge(p.last(), q[0]),
        g.has_edge(q.last(), p[0]),
    ensures
        closed_walk(g, p + q),
{
    let m = p + q;
    let n = m.len() as int;
    assert forall|t: int| 0 <= t < n implies #[trigger] edge_at(g, m, t) by {
        lemma_succ_mod(t, n);
        if t < p.len() - 1 {
            assert(m[t] == p[t] && m[t + 1] == p[t + 1]);
        } else if t == p.len() - 1 {
            assert(m[t] == p.last() && m[t + 1] == q[0]);
        } else if t < n - 1 {
            let u = t - p.len();
            assert(m[t] == q[u] && m[t + 1] == q[u + 1]);
        } else {
            assert(m[t] == q.last() && m[0] == p[0]);
        }
    }
}

/// On a symmetric graph, a merge at one pair of edges of two closed walks is
/// a closed walk; in any graph it uses the vertex occurrences of both.
proof fn lemma_merge_pair_at_sound(c1: Seq<i32>, c2: Seq<i32>, g: Graph, forbidden: Seq<(i32, i32)>, i: int, j: int)
    requires
        0 <= i < c1.len(),
        0 <= j < c2.len(),
    ensures
        merge_pair_at(c1, c2, g, forbidden, i, j) matches Some(m) ==> m.to_multiset() == c1.to_multiset().add(
            c2.to_multiset(),
        ) && (symmetric(g) && closed_walk(g, c1) && closed_walk(g, c2) ==> closed_walk(g, m)),
{
    broadcast use vstd::seq_lib::group_to_multiset_ensures;

    let n1 = c1.len() as int;
    let n2 = c2.len() as int;
    lemma_rot_split(c1, i + 1);
    lemma_rot_split(c2, j + 1);
    lemma_rev_from(c2, j);
    lemma_succ_mod(i, n1);
    lemma_succ_mod(j, n2);
    let p = rot(c1, i + 1);
    assert(p.last() == c1[i]);
    assert(p[0] == c1[(i + 1) % n1]);
    let q2 = rot(c2, j + 1);
    assert(q2.last() == c2[j]);
    assert(q2[0] == c2[(j + 1) % n2]);
    vstd::seq_lib::lemma_multiset_commutative(p, rev_from(c2, j));
    vstd::seq_lib::lemma_multiset_commutative(p, q2);
    if symmetric(g) && closed_walk(g, c1) && closed_walk(g, c2) {
        lemma_rot_path(g, c1, i + 1);
        lemma_rot_path(g, c2, j + 1);
        lemma_reverse_path(g, q2);
        let q1 = rev_from(c2, j);
        assert(q1 == q2.reverse());
        assert(q1[0] == q2.last());
        assert(q1.last() == q2[0]);
        match merge_pair_at(c1, c2, g, forbidden, i, j) {
            Some(m) => {
                if m == p + q1 {
                    let v1 = c1[(i + 1) % n1];
                    let v2 = c2[(j + 1) % n2];
                    if g.has_edge(c1[i], c2[j]) && g.has_edge(v1, v2) {
                        assert(g.has_edge(v2, v1));
                        lemma_join_paths(g, p, q1);
                    } else {
                        assert(g.has_edge(c2[j], v1));
                        lemma_join_paths(g, p, q2);
                    }
                } else {
                    assert(g.has_edge(c2[j], c1[(i + 1) % n1]));
                    lemma_join_paths(g, p, q2);
                }
            },
            None => {},
        }
    }
}

proof fn lemma_merge_scan_j_sound(c1: Seq<i32>, c2: Seq<i32>, g: Graph, forbidden: Seq<(i32, i32)>, i: int, j: int)
    requires
        0 <= i < c1.len(),
    ensures
        merge_scan_j(c1, c2, g, forbidden, i, j) matches Some(m) ==> m.to_multiset() == c1.to_multiset().add(
            c2.to_multiset(),
        ) && (symmetric(g) && closed_walk(g, c1) && closed_walk(g, c2) ==> closed_walk(g, m)),
    decreases c2.len() - j,
{
    if 0 <= j < c2.len() {
        lemma_merge_pair_at_sound(c1, c2, g, forbidden, i, j);
        lemma_merge_scan_j_sound(c1, c2, g, forbidden, i, j + 1);
    }
}

proof fn lemma_merge_scan_i_sound(c1: Seq<i32>, c2: Seq<i32>, g: Graph, forbidden: Seq<(i32, i32)>, i: int)
    ensures
        merge_scan_i(c1, c2, g, forbidden, i) matches Some(m) ==> m.to_multiset() == c1.to_multiset().add(
            c2.to_multiset(),
        ) && (symmetric(g) && closed_walk(g, c1) && closed_walk(g, c2) ==> closed_walk(g, m)),
    decreases c1.len() - i,
{
    if 0 <= i < c1.len() {
        lemma_merge_scan_j_sound(c1, c2, g, forbidden, i, 0);
        lemma_merge_scan_i_sound(c1, c2, g, forbidden, i + 1);
    }
}

/// A merge of two cycles uses every vertex occurrence of both exactly once,
/// and on a symmetric graph, merging two closed walks gives a closed walk.
pub proof fn lemma_merge_pair_sound(c1: Seq<i32>, c2: Seq<i32>, g: Graph, forbidden: Seq<(i32, i32)>)
    ensures
        merge_pair_spec(c1, c2, g, forbidden) matches Some(m) ==> m.to_multiset() == c1.to_multiset().add(
            c2.to_multiset(),
        ) && (symmetric(g) && closed_walk(g, c1) && closed_walk(g, c2) ==> closed_walk(g, m)),
{
    lemma_merge_scan_i_sound(c1, c2, g, forbidden, 0);
}

/// Two cycles can be merged at edge `i` of `c1` and edge `j` of `c2`: neither
/// edge is forbidden, and `g` joins their ends, either straight (`c1[i]` to
/// `c2[j]` and `c1[i + 1]` to `c2[j + 1]`) or crosswise (`c1[i]` to
/// `c2[j + 1]` and `c1[i + 1]` to `c2[j]`), positions taken around each cycle.
pub open spec fn mergeable_at(c1: Seq<i32>, c2: Seq<i32>, g: Graph, forbidden: Seq<(i32, i32)>, i: int, j: int) -> bool {
    let a = c1[i];
    let b = c1[(i + 1) % (c1.len() as int)];
    let x = c2[j];
    let y = c2[(j + 1) % (c2.len() as int)];
    &&& 0 <= i < c1.len()
    &&& 0 <= j < c2.len()
    &&& !forbidden.contains(pair_key(a, b))
    &&& !forbidden.contains(pair_key(x, y))
    &&& ((g.has_edge(a, x) && g.has_edge(b, y)) || (g.has_edge(a, y) && g.has_edge(b, x)))
}

/// `m` is the merge of `c1` and `c2` at edge `i` of `c1` and edge `j` of
/// `c2`: the two edges may be exchanged, and `m` runs around `c1` from
/// `c1[i + 1]` to `c1[i]`, then around `c2` from the end that `g` joins to
/// `c1[i]` to the other end.
pub open spec fn merged_at(c1: Seq<i32>, c2: Seq<i32>, g: Graph, forbidden: Seq<(i32, i32)>, i: int, j: int, m: Seq<i32>) -> bool {
    let a = c1[i];
    let b = c1[(i + 1) % (c1.len() as int)];
    let x = c2[j];
    let y = c2[(j + 1) % (c2.len() as int)];
    &&& mergeable_at(c1, c2, g, forbidden, i, j)
    &&& {
        ||| (g.has_edge(a, x) && g.has_edge(b, y) && m == rot(c1, i + 1) + rev_from(c2, j))
        ||| (g.has_edge(a, y) && g.has_edge(b, x) && m == rot(c1, i + 1) + rot(c2, j + 1))
    }
}

/// `m` is the merge of `c1` and `c2` at some pair of edges.
pub open spec fn merged_somewhere(c1: Seq<i32>, c2: Seq<i32>, g: Graph, forbidden: Seq<(i32, i32)>, m: Seq<i32>) -> bool {
    exists|i: int, j: int| #[trigger] merged_at(c1, c2, g, forbidden, i, j, m)
}

proof fn lemma_merge_scan_j_shape(c1: Seq<i32>, c2: Seq<i32>, g: Graph, forbidden: Seq<(i32, i32)>, i: int, j: int)
    requires
        0 <= i < c1.len(),
    ensures
        merge_scan_j(c1, c2, g, forbidden, i, j) matches Some(m) ==> exists|jj: int| #[trigger] merged_at(c1, c2, g, forbidden, i, jj, m),
    decreases c2.len() - j,
{
    if 0 <= j < c2.len() {
        lemma_merge_scan_j_shape(c1, c2, g, forbidden, i, j + 1);
        if let Some(m) = merge_pair_at(c1, c2, g, forbidden, i, j) {
            assert(merged_at(c1, c2, g, forbidden, i, j, m));
        }
    }
}

proof fn lemma_merge_scan_i_shape(c1: Seq<i32>, c2: Seq<i32>, g: Graph, forbidden: Seq<(i32, i32)>, i: int)
    ensures
        merge_scan_i(c1, c2, g, forbidden, i) matches Some(m) ==> exists|ii: int, jj: int| #[trigger] merged_at(c1, c2, g, forbidden, ii, jj, m),
    decreases c1.len() - i,
{
    if 0 <= i < c1.len() {
        lemma_merge_scan_i_shape(c1, c2, g, forbidden, i + 1);
        lemma_merge_scan_j_shape(c1, c2, g, forbidden, i, 0);
        if let Some(m) = merge_scan_j(c1, c2, g, forbidden, i, 0) {
            let jj = choose|jj: int| #[trigger] merged_at(c1, c2, g, forbidden, i, jj, m);
            assert(merged_at(c1, c2, g, forbidden, i, jj, m));
        }
    }
}

/// A merge of two cycles breaks one non-forbidden edge of each and joins
/// their ends along two edges of `g`.
pub proof fn lemma_merge_pair_shape(c1: Seq<i32>, c2: Seq<i32>, g: Graph, forbidden: Seq<(i32, i32)>)
    ensures
        merge_pair_spec(c1, c2, g, forbidden) matches Some(m) ==> merged_somewhere(c1, c2, g, forbidden, m),
{
    lemma_merge_scan_i_shape(c1, c2, g, forbidden, 0);
}

proof fn lemma_merge_scan_j_complete(c1: Seq<i32>, c2: Seq<i32>, g: Graph, forbidden: Seq<(i32, i32)>, i: int, j0: int, j: int)
    requires
        0 <= j0 <= j,
        mergeable_at(c1, c2, g, forbidden, i, j),
    ensures
        merge_scan_j(c1, c2, g, forbidden, i, j0) is Some,
    decreases j - j0,
{
    if j0 < j {
        lemma_merge_scan_j_complete(c1, c2, g, forbidden, i, j0 + 1, j);
    }
}

proof fn lemma_merge_scan_i_complete(c1: Seq<i32>, c2: Seq<i32>, g: Graph, forbidden: Seq<(i32, i32)>, i0: int, i: int, j: int)
    requires
        0 <= i0 <= i,
        mergeable_at(c1, c2, g, forbidden, i, j),
    ensures
        merge_scan_i(c1, c2, g, forbidden, i0) is Some,
    decreases i - i0,
{
    if i0 < i {
        lemma_merge_scan_i_complete(c1, c2, g, forbidden, i0 + 1, i, j);
    } else {
        lemma_merge_scan_j_complete(c1, c2, g, forbidden, i, 0, j);
    }
}

/// Two cycles merge whenever some non-forbidden edge of each can be exchanged
/// for two edges of `g` joining their ends, straight or crosswise.
pub proof fn lemma_merge_pair_complete(c1: Seq<i32>, c2: Seq<i32>, g: Graph, forbidden: Seq<(i32, i32)>, i: int, j: int)
    requires
        mergeable_at(c1, c2, g, forbidden, i, j),
    ensures
        merge_pair_spec(c1, c2, g, forbidden) is Some,
{
    lemma_merge_scan_i_complete(c1, c2, g, forbidden, 0, i, j);
}

/// `f` is a family of at least two cycles, longest first, with the vertex
/// occurrences of `cs`, in which no cycle merges with a later one.
pub open spec fn absorption_stuck(g: Graph, forbidden: Seq<(i32, i32)>, cs: Seq<Seq<i32>>, f: Seq<Seq<i32>>) -> bool {
    &&& f.len() >= 2
    &&& ms_all(f) == ms_all(cs)
    &&& forall|k: int, l: int| 0 <= k < l < f.len() ==> f[k].len() >= f[l].len()
    &&& forall|k: int, l: int| 0 <= k < l < f.len() ==> merge_pair_spec(#[trigger] f[k], #[trigger] f[l], g, forbidden) is None
}

/// The cycles, longest first; cycles of equal length keep their order
/// (a stable insertion sort).
fn sort_by_len_desc(cs: Vec<Vec<i32>>) -> (r: Vec<Vec<i32>>)
    ensures
        r@.len() == cs@.len(),
        ms_all(views(r@)) == ms_all(views(cs@)),
        forall|k: int| 0 <= k < r@.len() ==> exists|t: int| 0 <= t < cs@.len() && (#[trigger] r@[k])@ == cs@[t]@,
        forall|k: int, l: int| 0 <= k < l < r@.len() ==> r@[k]@.len() >= r@[l]@.len(),
{
    let mut r: Vec<Vec<i32>> = Vec::new();
    let mut k: usize = 0;
    let n = cs.len();
    while k < n
        invariant
            n == cs@.len(),
            0 <= k <= n,
            r@.len() == k,
            ms_all(views(r@)) == ms_all(views(cs@.take(k as int))),
            forall|a: int| 0 <= a < r@.len() ==> exists|t: int| 0 <= t < cs@.len() && (#[trigger] r@[a])@ == cs@[t]@,
            forall|a: int, b: int| 0 <= a < b < r@.len() ==> r@[a]@.len() >= r@[b]@.len(),
        decreases n - k,
    {
        let c = cs[k].clone();
        let cl = c.len();
        let mut p: usize = 0;
        while p < r.len() && r[p].len() >= cl
            invariant
                0 <= p <= r@.len(),
                forall|a: int| 0 <= a < p ==> r@[a]@.len() >= cl,
            decreases r@.len() - p,
        {
            p = p + 1;
        }
        let ghost r0 = r@;
        r.insert(p, c);
        proof {
            assert(r@ == r0.insert(p as int, c));
            assert(views(r@) == views(r0).insert(p as int, c@));
            lemma_ms_all_remove(views(r@), p as int);
            assert(views(r@).remove(p as int) == views(r0));
            assert(cs@.take(k + 1) == cs@.take(k as int).push(cs@[k as int]));
            assert(views(cs@.take(k + 1)) == views(cs@.take(k as int)).push(c@));
            crate::cycle_family::lemma_ms_all_push(views(cs@.take(k as int)), c@);
            assert forall|a: int| 0 <= a < r@.len() implies exists|t: int| 0 <= t < cs@.len() && (#[trigger] r@[a])@ == cs@[t]@ by {
                if a < p {
                    assert(r@[a] == r0[a]);
                } else if a > p {
                    assert(r@[a] == r0[a - 1]);
                } else {
                    assert(r@[a]@ == cs@[k as int]@);
                }
            }
            assert forall|a: int, b: int| 0 <= a < b < r@.len() implies r@[a]@.len() >= r@[b]@.len() by {
                if b < p {
                } else if b == p {
                    assert(r0[a]@.len() >= cl);
                } else if a < p {
                    assert(r@[b] == r0[b - 1]);
                    if p < r0.len() {
                        assert(r0[p as int]@.len() < cl);
                        if b - 1 > p {
                            assert(r0[p as int]@.len() >= r0[b - 1]@.len());
                        }
                    }
                    assert(r0[a]@.len() >= cl);
                } else if a == p {
                    assert(r@[b] == r0[b - 1]);
                    assert(r0[p as int]@.len() < cl);
                    if b - 1 > p {
                        assert(r0[p as int]@.len() >= r0[b - 1]@.len());
                    }
                } else {
                    assert(r@[a] == r0[a - 1] && r@[b] == r0[b - 1]);
                }
            }
        }
        k = k + 1;
    }
    proof {
        assert(cs@.take(n as int) == cs@);
    }
    r
}

/// Merges the cycles into one by repeated merges: each round sorts them
/// longest first (equal lengths keeping their order) and merges the first
/// pair `(i, j)`, `i < j`, that `merge_two_cycles` can merge, putting the
/// merge in place of the `i`-th and dropping the `j`-th; rounds stop when one
/// cycle is left or no pair merges. Returns the single cycle when that is
/// where it ends.
pub fn try_2opt_absorption(cycles: &Vec<Vec<i32>>, g: &Graph, forbidden_delete: &Vec<(i32, i32)>) -> (r: Option<Vec<i32>>)
    ensures
        r matches Some(t) ==> t@.to_multiset() == ms_all(views(cycles@)) && (symmetric(*g) && all_closed_walks(
            *g,
            views(cycles@),
        ) ==> closed_walk(*g, t@)),
        r is None ==> cycles@.len() == 0 || exists|f: Seq<Seq<i32>>|
            #[trigger] absorption_stuck(*g, forbidden_delete@, views(cycles@), f),
{
    let ghost cs = views(cycles@);
    let ghost fb = forbidden_delete@;
    let slice = cycles.as_slice();
    let mut curr = clone_cycles(slice);
    proof {
        assert(slice@ == cycles@);
        assert(views(curr@) == cs);
    }
    let mut merged_any = true;
    while merged_any && curr.len() > 1
        invariant
            cs == views(cycles@),
            fb == forbidden_delete@,
            ms_all(views(curr@)) == ms_all(cs),
            symmetric(*g) && all_closed_walks(*g, cs) ==> all_closed_walks(*g, views(curr@)),
            cs.len() > 0 ==> curr@.len() > 0,
            !merged_any ==> absorption_stuck(*g, fb, cs, views(curr@)),
        decreases curr@.len() + if merged_any {
            1int
        } else {
            0int
        },
    {
        merged_any = false;
        let ghost before = views(curr@);
        let ghost old_curr = curr@;
        let sorted = sort_by_len_desc(curr);
        curr = sorted;
        proof {
            if symmetric(*g) && all_closed_walks(*g, cs) {
                assert forall|k: int| 0 <= k < views(curr@).len() implies closed_walk(*g, #[trigger] views(curr@)[k]) by {
                    let t = choose|t: int| 0 <= t < old_curr.len() && (#[trigger] curr@[k])@ == old_curr[t]@;
                    assert(before[t] == old_curr[t]@);
                    assert(closed_walk(*g, before[t]));
                    assert(views(curr@)[k] == curr@[k]@);
                }
            }
        }
        let n = curr.len();
        let mut found = false;
        let mut fi: usize = 0;
        let mut fj: usize = 0;
        let mut fres: Vec<i32> = Vec::new();
        let mut i: usize = 0;
        while i < n && !found
            invariant
                n == curr@.len(),
                0 <= i <= n,
                !found ==> forall|i2: int, j2: int|
                    0 <= i2 < i && i2 < j2 < n ==> merge_pair_spec(curr@[i2]@, curr@[j2]@, *g, fb) is None,
                found ==> fi < fj < n && merge_pair_spec(curr@[fi as int]@, curr@[fj as int]@, *g, fb) == Some(fres@),
                fb == forbidden_delete@,
            decreases n - i,
        {
            let mut j: usize = i + 1;
            while j < n && !found
                invariant
                    n == curr@.len(),
                    0 <= i < n,
                    i + 1 <= j <= n,
                    !found ==> forall|i2: int, j2: int|
                        0 <= i2 < i && i2 < j2 < n ==> merge_pair_spec(curr@[i2]@, curr@[j2]@, *g, fb) is None,
                    !found ==> forall|j2: int| i < j2 < j ==> merge_pair_spec(curr@[i as int]@, curr@[j2]@, *g, fb) is None,
                    found ==> fi < fj < n && merge_pair_spec(curr@[fi as int]@, curr@[fj as int]@, *g, fb) == Some(fres@),
                    fb == forbidden_delete@,
                decreases n - j,
            {
                match merge_two_cycles(curr[i].as_slice(), curr[j].as_slice(), g, forbidden_delete) {
                    Some(res) => {
                        found = true;
                        fi = i;
                        fj = j;
                        fres = res;
                    },
                    None => {},
                }
                j = j + 1;
            }
            i = i + 1;
        }
        if found {
            let ghost v = views(curr@);
            proof {
                assert(v[fi as int] == curr@[fi as int]@);
                assert(v[fj as int] == curr@[fj as int]@);
                lemma_merge_pair_sound(v[fi as int], v[fj as int], *g, fb);
                assert(fres@.to_multiset() == v[fi as int].to_multiset().add(v[fj as int].to_multiset()));
            }
            curr.remove(fj);
            let ghost v1 = views(curr@);
            proof {
                assert(v1 == v.remove(fj as int));
            }
            curr.set(fi, fres);
            proof {
                let v2 = views(curr@);
                assert(v2 == v1.update(fi as int, fres@));
                assert(v1[fi as int] == v[fi as int]);
                lemma_ms_all_remove(v, fj as int);
                lemma_ms_all_update(v1, fi as int, fres@);
                assert forall|x: i32| ms_all(v2).count(x) == ms_all(v).count(x) by {
                    assert(ms_all(v2).add(v1[fi as int].to_multiset()).count(x) == ms_all(v1).add(fres@.to_multiset()).count(x));
                    assert(ms_all(v).count(x) == ms_all(v1).add(v[fj as int].to_multiset()).count(x));
                }
                assert(ms_all(v2) =~= ms_all(v));
                if symmetric(*g) && all_closed_walks(*g, cs) {
                    assert forall|k: int| 0 <= k < v2.len() implies closed_walk(*g, #[trigger] v2[k]) by {
                        if k != fi {
                            if k < fj {
                                assert(v2[k] == v[k]);
                            } else {
                                assert(v2[k] == v[k + 1]);
                            }
                        }
                    }
                }
            }
            merged_any = true;
        } else {
            proof {
                let v = views(curr@);
                assert forall|k: int, l: int| 0 <= k < l < v.len() implies merge_pair_spec(#[trigger] v[k], #[trigger] v[l], *g, fb) is None by {
                    assert(v[k] == curr@[k]@ && v[l] == curr@[l]@);
                }
                assert forall|k: int, l: int| 0 <= k < l < v.len() implies v[k].len() >= v[l].len() by {
                    assert(v[k] == curr@[k]@ && v[l] == curr@[l]@);
                }
                assert(absorption_stuck(*g, fb, cs, v));
            }
        }
    }
    if curr.len() == 1 {
        let t = curr[0].clone();
        proof {
            let v = views(curr@);
            assert(v == seq![t@]);
            lemma_ms_all_single(t@);
            if symmetric(*g) && all_closed_walks(*g, cs) {
                assert(closed_walk(*g, v[0]));
            }
        }
        Some(t)
    } else {
        proof {
            if cs.len() > 0 {
                assert(absorption_stuck(*g, fb, cs, views(curr@)));
            }
        }
        None
    }
}

} // verus!
