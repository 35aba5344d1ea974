//! Hub modules: every vertex goes to its nearest high-degree hub, and each hub
//! with the vertices assigned to it forms a module whose interface ports are
//! the members with a neighbour outside the module.
use crate::graph::Graph;
use crate::interface_port_synchronizer::{is_port, member_set, port_list};
use crate::sorting::{lemma_strictly_sorted_unique, sorted_distinct, strictly_sorted};
use std::collections::HashMap;
use vstd::prelude::*;

verus! {

broadcast use vstd::std_specs::hash::group_hash_axioms;

/// A hub, the vertices that are nearer to it than to any other hub, the
/// members with a neighbour outside, and Hamiltonian paths of the module
/// between ports, as `(entry, exit, path)`.
#[derive(Debug)]
pub struct HubModule {
    pub hub_id: i32,
    pub vertices: Vec<i32>,
    pub interface_ports: Vec<i32>,
    pub internal_paths: Vec<(i32, i32, Vec<i32>)>,
}

/// Decomposition of a graph into hub modules.
pub struct HubHierarchicalDecomposer;

/// What holds of each extracted module: its hub; its vertices, in increasing
/// order, are those whose nearest hub it is; its ports, in increasing order,
/// are the members with a neighbour outside; a single-vertex module carries
/// the one-vertex path from its hub to itself, and a larger one carries no
/// path (paths between its ports are found by a SAT-based Hamiltonian-path
/// search, which this library does not run).
pub open spec fn hub_module_ok(g: Graph, min_deg: usize, m: HubModule) -> bool {
    &&& is_hub(g, min_deg, m.hub_id)
    &&& strictly_sorted(m.vertices@)
    &&& forall|x: i32| m.vertices@.contains(x) <==> nearest_hub(g, min_deg, x, m.hub_id)
    &&& strictly_sorted(m.interface_ports@)
    &&& forall|v: i32| m.interface_ports@.contains(v) <==> is_port(g, m.vertices@, v)
    &&& m.vertices@.len() == 1 ==> {
        &&& m.internal_paths@.len() == 1
        &&& m.internal_paths@[0].0 == m.hub_id
        &&& m.internal_paths@[0].1 == m.hub_id
        &&& m.internal_paths@[0].2@ == seq![m.hub_id]
    }
    &&& m.vertices@.len() != 1 ==> m.internal_paths@.len() == 0
}

/// `ms` is what `extract_hub_modules` gives for threshold `min_deg`: one
/// module per hub, each as `hub_module_ok` says, in increasing order of hub.
pub open spec fn hub_modules_of(g: Graph, min_deg: usize, ms: Seq<HubModule>) -> bool {
    &&& forall|i: int| 0 <= i < ms.len() ==> hub_module_ok(g, min_deg, #[trigger] ms[i])
    &&& forall|i: int, j: int| 0 <= i < j < ms.len() ==> ms[i].hub_id < ms[j].hub_id
    &&& forall|v: i32| is_hub(g, min_deg, v) <==> exists|i: int| 0 <= i < ms.len() && #[trigger] ms[i].hub_id == v
}

/// The number of vertices over all modules.
pub open spec fn total_vertices(ms: Seq<HubModule>) -> int
    decreases ms.len(),
{
    if ms.len() == 0 {
        0
    } else {
        total_vertices(ms.drop_last()) + ms.last().vertices@.len()
    }
}

/// The modules are worth a macro-level solve on a graph of `n` vertices:
/// between 2 and 100 of them, fewer than `n`, together covering `n` vertices,
/// each with at least two.
pub open spec fn usable_hierarchy(n: int, ms: Seq<HubModule>) -> bool {
    &&& 2 <= ms.len() <= 100
    &&& ms.len() < n
    &&& total_vertices(ms) == n
    &&& forall|i: int| 0 <= i < ms.len() ==> #[trigger] ms[i].vertices@.len() >= 2
}

/// The hub thresholds tried in turn.
pub open spec fn hub_degree_step(i: int) -> usize {
    if i == 0 {
        10
    } else if i == 1 {
        8
    } else if i == 2 {
        6
    } else {
        5
    }
}

/// `v` is a vertex of degree at least `min_deg`.
pub open spec fn is_hub(g: Graph, min_deg: usize, v: i32) -> bool {
    g.adj().contains_key(v) && g.degree_of(v) >= min_deg
}

/// `w` starts at a hub and follows edges of `g` through vertices that are not hubs.
pub open spec fn hub_walk(g: Graph, min_deg: usize, w: Seq<i32>) -> bool {
    &&& w.len() >= 1
    &&& is_hub(g, min_deg, w[0])
    &&& forall|i: int|
        1 <= i < w.len() ==> !is_hub(g, min_deg, #[trigger] w[i]) && g.has_edge(w[i - 1], w[i])
}

/// A walk of `k` steps leads from hub `h` to `x` through vertices that are not hubs.
pub open spec fn reaches(g: Graph, min_deg: usize, h: i32, x: i32, k: nat) -> bool {
    exists|w: Seq<i32>|
        #[trigger] hub_walk(g, min_deg, w) && w.len() == k + 1 && w[0] == h && w.last() == x
}

/// `h` is the hub nearest to `x`; among hubs at the same distance, the smallest.
pub open spec fn nearest_hub(g: Graph, min_deg: usize, x: i32, h: i32) -> bool {
    exists|k: nat|
        #[trigger] reaches(g, min_deg, h, x, k) && forall|h2: i32, k2: nat|
            #[trigger] reaches(g, min_deg, h2, x, k2) ==> k < k2 || (k == k2 && h <= h2)
}

/// After the edge `y -> z` was looked at: `z` is assigned, no farther than one
/// step beyond `y`, and at that distance with a hub no larger than that of `y`.
pub open spec fn step_ok(a: Map<i32, (usize, i32)>, y: i32, z: i32) -> bool {
    &&& a.contains_key(z)
    &&& (a[z].0 < a[y].0 + 1 || (a[z].0 == a[y].0 + 1 && a[z].1 <= a[y].1))
}

/// The witness walk of each assigned vertex leads from its hub to it in as many
/// steps as its distance.
pub open spec fn witnessed(g: Graph, min_deg: usize, a: Map<i32, (usize, i32)>, wit: Map<i32, Seq<i32>>) -> bool {
    forall|x: i32|
        #[trigger] a.contains_key(x) ==> wit.contains_key(x) && hub_walk(g, min_deg, wit[x])
            && wit[x].len() == a[x].0 + 1 && wit[x][0] == a[x].1 && wit[x].last() == x
}

/// The invariant of the search: the queue lists the assigned vertices once
/// each, distances do not decrease along it and grow by at most one past the
/// head, every hub sits at distance 0 with itself, and each vertex already
/// taken from the queue has had all its edges looked at.
pub open spec fn search_inv(
    g: Graph,
    min_deg: usize,
    q: Seq<i32>,
    head: int,
    a: Map<i32, (usize, i32)>,
    wit: Map<i32, Seq<i32>>,
) -> bool {
    &&& 0 <= head <= q.len()
    &&& q.no_duplicates()
    &&& forall|x: i32| a.contains_key(x) <==> q.contains(x)
    &&& forall|v: i32| #[trigger] is_hub(g, min_deg, v) ==> a.contains_key(v) && a[v] == (0usize, v)
    &&& forall|i: int| 0 <= i < q.len() ==> a[#[trigger] q[i]].0 <= i
    &&& forall|i: int, j: int| 0 <= i < j < q.len() ==> a[#[trigger] q[i]].0 <= a[#[trigger] q[j]].0
    &&& head < q.len() ==> a[q.last()].0 <= a[q[head]].0 + 1
    &&& witnessed(g, min_deg, a, wit)
    &&& forall|i: int, z: i32|
        0 <= i < head && #[trigger] g.has_edge(q[i], z) && !is_hub(g, min_deg, z) ==> step_ok(a, q[i], z)
}

/// Dropping the last vertex of a hub walk of two or more vertices leaves a hub walk.
proof fn lemma_walk_prefix(g: Graph, min_deg: usize, w: Seq<i32>)
    requires
        hub_walk(g, min_deg, w),
        w.len() >= 2,
    ensures
        hub_walk(g, min_deg, w.drop_last()),
        w.drop_last().last() == w[w.len() - 2],
        w.drop_last()[0] == w[0],
        !is_hub(g, min_deg, w.last()),
        g.has_edge(w[w.len() - 2], w.last()),
{
    let w2 = w.drop_last();
    assert forall|i: int| 1 <= i < w2.len() implies !is_hub(g, min_deg, #[trigger] w2[i]) && g.has_edge(w2[i - 1], w2[i]) by {
        assert(w2[i] == w[i]);
        assert(w2[i - 1] == w[i - 1]);
    }
    assert(!is_hub(g, min_deg, w[w.len() - 1]));
}

/// When the search is over, a hub walk of `k` steps ends at an assigned vertex
/// whose distance is at most `k`.
proof fn lemma_walk_bound(
    g: Graph,
    min_deg: usize,
    q: Seq<i32>,
    a: Map<i32, (usize, i32)>,
    wit: Map<i32, Seq<i32>>,
    w: Seq<i32>,
)
    requires
        search_inv(g, min_deg, q, q.len() as int, a, wit),
        hub_walk(g, min_deg, w),
    ensures
        a.contains_key(w.last()),
        a[w.last()].0 <= w.len() - 1,
    decreases w.len(),
{
    if w.len() == 1 {
        assert(is_hub(g, min_deg, w[0]));
    } else {
        lemma_walk_prefix(g, min_deg, w);
        let w2 = w.drop_last();
        lemma_walk_bound(g, min_deg, q, a, wit, w2);
        let y = w2.last();
        let x = w.last();
        assert(q.contains(y));
        let i = choose|i: int| 0 <= i < q.len() && q[i] == y;
        assert(g.has_edge(q[i], x));
        assert(step_ok(a, q[i], x));
    }
}

/// When the search is over, a hub walk whose length matches the distance of
/// its last vertex starts at a hub no smaller than the one that vertex got.
proof fn lemma_walk_hub(
    g: Graph,
    min_deg: usize,
    q: Seq<i32>,
    a: Map<i32, (usize, i32)>,
    wit: Map<i32, Seq<i32>>,
    w: Seq<i32>,
)
    requires
        search_inv(g, min_deg, q, q.len() as int, a, wit),
        hub_walk(g, min_deg, w),
        a.contains_key(w.last()),
        a[w.last()].0 == w.len() - 1,
    ensures
        a[w.last()].1 <= w[0],
    decreases w.len(),
{
    if w.len() == 1 {
        assert(is_hub(g, min_deg, w[0]));
    } else {
        lemma_walk_prefix(g, min_deg, w);
        let w2 = w.drop_last();
        lemma_walk_bound(g, min_deg, q, a, wit, w2);
        let y = w2.last();
        let x = w.last();
        assert(q.contains(y));
        let i = choose|i: int| 0 <= i < q.len() && q[i] == y;
        assert(g.has_edge(q[i], x));
        assert(step_ok(a, q[i], x));
        lemma_walk_hub(g, min_deg, q, a, wit, w2);
    }
}

/// When the search is over, the vertices assigned to hub `h` are exactly those
/// whose nearest hub is `h`.
proof fn lemma_assignment_nearest(
    g: Graph,
    min_deg: usize,
    q: Seq<i32>,
    a: Map<i32, (usize, i32)>,
    wit: Map<i32, Seq<i32>>,
)
    requires
        search_inv(g, min_deg, q, q.len() as int, a, wit),
    ensures
        forall|x: i32| #[trigger] a.contains_key(x) ==> nearest_hub(g, min_deg, x, a[x].1),
        forall|x: i32, h: i32| #[trigger] nearest_hub(g, min_deg, x, h) ==> a.contains_key(x) && a[x].1 == h,
{
    assert forall|x: i32| #[trigger] a.contains_key(x) implies nearest_hub(g, min_deg, x, a[x].1) by {
        let k = a[x].0 as nat;
        let h = a[x].1;
        let wx = wit[x];
        assert(hub_walk(g, min_deg, wx) && wx.len() == k + 1 && wx[0] == h && wx.last() == x);
        assert(reaches(g, min_deg, h, x, k));
        assert forall|h2: i32, k2: nat| #[trigger] reaches(g, min_deg, h2, x, k2) implies k < k2 || (k == k2 && h <= h2) by {
            let w = choose|w: Seq<i32>| #[trigger] hub_walk(g, min_deg, w) && w.len() == k2 + 1 && w[0] == h2 && w.last() == x;
            lemma_walk_bound(g, min_deg, q, a, wit, w);
            if k == k2 {
                lemma_walk_hub(g, min_deg, q, a, wit, w);
            }
        }
    }
    assert forall|x: i32, h: i32| #[trigger] nearest_hub(g, min_deg, x, h) implies a.contains_key(x) && a[x].1 == h by {
        let k = choose|k: nat| #[trigger] reaches(g, min_deg, h, x, k) && forall|h2: i32, k2: nat|
            #[trigger] reaches(g, min_deg, h2, x, k2) ==> k < k2 || (k == k2 && h <= h2);
        let w = choose|w: Seq<i32>| #[trigger] hub_walk(g, min_deg, w) && w.len() == k + 1 && w[0] == h && w.last() == x;
        lemma_walk_bound(g, min_deg, q, a, wit, w);
        let wx = wit[x];
        assert(hub_walk(g, min_deg, wx) && wx.len() == a[x].0 + 1 && wx[0] == a[x].1 && wx.last() == x);
        assert(reaches(g, min_deg, a[x].1, x, a[x].0 as nat));
        lemma_walk_hub(g, min_deg, q, a, wit, w);
    }
}

/// Looks at the edge from the queue head to `next_v`: a vertex seen for the
/// first time is assigned one step beyond the head and queued; one already at
/// that distance with a larger hub takes the head's hub.
fn relax_edge(
    g: &Graph,
    min_deg: usize,
    queue: &mut Vec<i32>,
    assignment: &mut HashMap<i32, (usize, i32)>,
    head: usize,
    curr_dist: usize,
    curr_hub: i32,
    next_v: i32,
    Ghost(wit): Ghost<Map<i32, Seq<i32>>>,
) -> (wit2: Ghost<Map<i32, Seq<i32>>>)
    requires
        g.wf(),
        search_inv(*g, min_deg, old(queue)@, head as int, old(assignment)@, wit),
        head < old(queue)@.len(),
        old(assignment)@[old(queue)@[head as int]] == (curr_dist, curr_hub),
        g.has_edge(old(queue)@[head as int], next_v),
    ensures
        search_inv(*g, min_deg, final(queue)@, head as int, final(assignment)@, wit2@),
        head < final(queue)@.len(),
        final(queue)@[head as int] == old(queue)@[head as int],
        final(assignment)@[final(queue)@[head as int]] == (curr_dist, curr_hub),
        !is_hub(*g, min_deg, next_v) ==> step_ok(final(assignment)@, final(queue)@[head as int], next_v),
        forall|z: i32|
            step_ok(old(assignment)@, old(queue)@[head as int], z) ==> step_ok(
                final(assignment)@,
                final(queue)@[head as int],
                z,
            ),
{
    proof {
        g.lemma_wf();
    }
    let ghost q0 = queue@;
    let ghost a0 = assignment@;
    let ghost y = q0[head as int];
    if g.degree(next_v) >= min_deg {
        return Ghost(wit);
    }
    let qlen = queue.len();
    assert(curr_dist <= head) by {
        assert(a0[q0[head as int]].0 <= head);
    }
    let next_dist = curr_dist + 1;
    proof {
        assert(a0.contains_key(y)) by {
            assert(q0.contains(y));
        }
        assert(q0.contains(q0.last()));
    }
    match assignment.get(&next_v) {
        None => {
            assignment.insert(next_v, (next_dist, curr_hub));
            queue.push(next_v);
            let ghost w2 = wit.insert(next_v, wit[y].push(next_v));
            proof {
                let a1 = assignment@;
                let q1 = queue@;
                assert(!q0.contains(next_v));
                assert(q1 == q0.push(next_v));
                assert(q1[q0.len() as int] == next_v);
                assert forall|x: i32| a1.contains_key(x) <==> q1.contains(x) by {
                    if q0.contains(x) {
                        let k = choose|k: int| 0 <= k < q0.len() && q0[k] == x;
                        assert(q1[k] == x);
                    }
                    if q1.contains(x) && x != next_v {
                        let k = choose|k: int| 0 <= k < q1.len() && q1[k] == x;
                        assert(q0[k] == x);
                    }
                }
                assert(q1.no_duplicates()) by {
                    assert forall|a: int, b: int| 0 <= a < b < q1.len() implies q1[a] != q1[b] by {
                        if b == q0.len() {
                            assert(q0.contains(q0[a]));
                        }
                    }
                }
                assert forall|v: i32| is_hub(*g, min_deg, v) implies a1.contains_key(v) && a1[v] == (0usize, v) by {
                    assert(a0[v] == (0usize, v));
                }
                assert forall|k: int| 0 <= k < q1.len() implies a1[#[trigger] q1[k]].0 <= k by {
                    if k < q0.len() {
                        assert(q1[k] == q0[k]);
                        assert(q0.contains(q0[k]));
                        assert(a0[q0[k]].0 <= k);
                    }
                }
                assert forall|a: int, b: int| 0 <= a < b < q1.len() implies a1[#[trigger] q1[a]].0 <= a1[#[trigger] q1[b]].0 by {
                    assert(q0.contains(q0[a]));
                    if b < q0.len() {
                        assert(q0.contains(q0[b]));
                        assert(a0[q0[a]].0 <= a0[q0[b]].0);
                    } else {
                        if a < q0.len() - 1 {
                            assert(a0[q0[a]].0 <= a0[q0[q0.len() - 1]].0);
                        }
                    }
                }
                let wy = wit[y];
                assert(a0.contains_key(y));
                assert(hub_walk(*g, min_deg, wy));
                assert(hub_walk(*g, min_deg, wy.push(next_v))) by {
                    let wn = wy.push(next_v);
                    assert forall|i: int| 1 <= i < wn.len() implies !is_hub(*g, min_deg, #[trigger] wn[i]) && g.has_edge(wn[i - 1], wn[i]) by {
                        if i < wy.len() {
                            assert(wn[i] == wy[i]);
                            assert(wn[i - 1] == wy[i - 1]);
                        } else {
                            assert(wn[i - 1] == wy.last());
                        }
                    }
                }
                assert(witnessed(*g, min_deg, a1, w2)) by {
                    assert forall|x: i32| #[trigger] a1.contains_key(x) implies w2.contains_key(x) && hub_walk(*g, min_deg, w2[x])
                        && w2[x].len() == a1[x].0 + 1 && w2[x][0] == a1[x].1 && w2[x].last() == x by {
                        if x != next_v {
                            assert(a0.contains_key(x));
                        }
                    }
                }
                assert forall|i: int, z: i32| 0 <= i < head && #[trigger] g.has_edge(q1[i], z) && !is_hub(*g, min_deg, z) implies step_ok(a1, q1[i], z) by {
                    assert(q1[i] == q0[i]);
                    assert(step_ok(a0, q0[i], z));
                    assert(q0[i] != next_v) by {
                        assert(q0.contains(q0[i]));
                    }
                }
                assert forall|z: i32| step_ok(a0, y, z) implies step_ok(a1, q1[head as int], z) by {
                    assert(q1[head as int] == y);
                }
                assert(y != next_v);
                assert(q1[head as int] == y);
                if head < q1.len() {
                    assert(a1[q1.last()].0 <= a1[q1[head as int]].0 + 1);
                }
                assert(search_inv(*g, min_deg, q1, head as int, a1, w2));
            }
            Ghost(w2)
        },
        Some(e) => {
            let (ed, eh) = *e;
            proof {
                let p = choose|p: int| 0 <= p < q0.len() && q0[p] == next_v;
                assert(q0.contains(next_v));
                assert(a0[q0[p]].0 <= a0[q0[q0.len() - 1]].0) by {
                    if p < q0.len() - 1 {
                        assert(a0[q0[p]].0 <= a0[q0[q0.len() - 1]].0);
                    }
                }
                assert(ed <= next_dist);
                if ed == next_dist {
                    assert(p > head) by {
                        if p < head {
                            assert(a0[q0[p]].0 <= a0[q0[head as int]].0);
                        }
                    }
                }
            }
            if next_dist < ed || (next_dist == ed && curr_hub < eh) {
                assignment.insert(next_v, (next_dist, curr_hub));
                let ghost w2 = wit.insert(next_v, wit[y].push(next_v));
                proof {
                    let a1 = assignment@;
                    let q1 = queue@;
                    assert(q1 == q0);
                    let p = choose|p: int| 0 <= p < q0.len() && q0[p] == next_v;
                    assert(p > head) by {
                        if p < head {
                            assert(a0[q0[p]].0 <= a0[q0[head as int]].0);
                        }
                    }
                    assert forall|x: i32| a1.contains_key(x) <==> q1.contains(x) by {
                    }
                    assert forall|v: i32| is_hub(*g, min_deg, v) implies a1.contains_key(v) && a1[v] == (0usize, v) by {
                        assert(a0[v] == (0usize, v));
                    }
                    assert forall|k: int| 0 <= k < q1.len() implies a1[#[trigger] q1[k]].0 <= k by {
                        assert(q0.contains(q0[k]));
                        assert(a0[q0[k]].0 <= k);
                    }
                    assert forall|a: int, b: int| 0 <= a < b < q1.len() implies a1[#[trigger] q1[a]].0 <= a1[#[trigger] q1[b]].0 by {
                        assert(a0[q0[a]].0 <= a0[q0[b]].0);
                    }
                    let wy = wit[y];
                    assert(a0.contains_key(y));
                    assert(hub_walk(*g, min_deg, wy.push(next_v))) by {
                        let wn = wy.push(next_v);
                        assert forall|i: int| 1 <= i < wn.len() implies !is_hub(*g, min_deg, #[trigger] wn[i]) && g.has_edge(wn[i - 1], wn[i]) by {
                            if i < wy.len() {
                                assert(wn[i] == wy[i]);
                                assert(wn[i - 1] == wy[i - 1]);
                            } else {
                                assert(wn[i - 1] == wy.last());
                            }
                        }
                    }
                    assert(witnessed(*g, min_deg, a1, w2)) by {
                        assert forall|x: i32| #[trigger] a1.contains_key(x) implies w2.contains_key(x) && hub_walk(*g, min_deg, w2[x])
                            && w2[x].len() == a1[x].0 + 1 && w2[x][0] == a1[x].1 && w2[x].last() == x by {
                            if x != next_v {
                                assert(a0.contains_key(x));
                            }
                        }
                    }
                    assert forall|i: int, z: i32| 0 <= i < head && #[trigger] g.has_edge(q1[i], z) && !is_hub(*g, min_deg, z) implies step_ok(a1, q1[i], z) by {
                        assert(step_ok(a0, q0[i], z));
                        assert(q0[i] != next_v);
                    }
                    assert(y != next_v);
                    assert forall|z: i32| step_ok(a0, y, z) implies step_ok(a1, q1[head as int], z) by {
                    }
                    if head < q1.len() {
                        assert(q0.contains(q0.last()));
                        assert(a1[q1.last()].0 <= a1[q1[head as int]].0 + 1);
                    }
                    assert(search_inv(*g, min_deg, q1, head as int, a1, w2));
                }
                Ghost(w2)
            } else {
                Ghost(wit)
            }
        },
    }
}

/// Multi-source breadth-first search from the hubs (in increasing order). A
/// vertex reached from two queue entries at the same distance keeps the
/// smaller hub. Returns the queue (every assigned vertex once) and, for each
/// assigned vertex, its distance and hub.
fn assign_nearest_hubs(g: &Graph, min_deg: usize, hubs: &Vec<i32>) -> (res: (
    Vec<i32>,
    HashMap<i32, (usize, i32)>,
))
    requires
        g.wf(),
        strictly_sorted(hubs@),
        forall|v: i32| hubs@.contains(v) <==> is_hub(*g, min_deg, v),
    ensures
        exists|wit: Map<i32, Seq<i32>>| #[trigger] search_inv(*g, min_deg, res.0@, res.0@.len() as int, res.1@, wit),
{
    let mut assignment: HashMap<i32, (usize, i32)> = HashMap::new();
    let mut queue: Vec<i32> = Vec::new();
    let ghost mut wit: Map<i32, Seq<i32>> = Map::empty();
    let mut i: usize = 0;
    while i < hubs.len()
        invariant
            0 <= i <= hubs@.len(),
            strictly_sorted(hubs@),
            queue@ == hubs@.subrange(0, i as int),
            forall|x: i32| assignment@.contains_key(x) <==> queue@.contains(x),
            forall|x: i32| #[trigger] assignment@.contains_key(x) ==> assignment@[x] == (0usize, x) && wit.contains_key(x) && wit[x] == seq![x],
        decreases hubs@.len() - i,
    {
        let h = hubs[i];
        let ghost q0 = queue@;
        assignment.insert(h, (0, h));
        queue.push(h);
        proof {
            wit = wit.insert(h, seq![h]);
            assert(queue@ == hubs@.subrange(0, i + 1));
            assert forall|x: i32| assignment@.contains_key(x) <==> queue@.contains(x) by {
                if q0.contains(x) {
                    let k = choose|k: int| 0 <= k < q0.len() && q0[k] == x;
                    assert(queue@[k] == x);
                }
                if queue@.contains(x) && x != h {
                    let k = choose|k: int| 0 <= k < queue@.len() && queue@[k] == x;
                    assert(q0[k] == x);
                }
                assert(queue@[q0.len() as int] == h);
            }
        }
        i = i + 1;
    }
    proof {
        assert(queue@ == hubs@);
        assert forall|a: int, b: int| 0 <= a < b < queue@.len() implies queue@[a] != queue@[b] by {
            assert(hubs@[a] < hubs@[b]);
        }
        assert forall|x: i32| #[trigger] assignment@.contains_key(x) implies wit.contains_key(x) && hub_walk(*g, min_deg, wit[x])
            && wit[x].len() == assignment@[x].0 + 1 && wit[x][0] == assignment@[x].1 && wit[x].last() == x by {
            assert(queue@.contains(x));
        }
        assert forall|v: i32| is_hub(*g, min_deg, v) implies assignment@.contains_key(v) && assignment@[v] == (0usize, v) by {
            assert(hubs@.contains(v));
        }
        assert forall|k: int| 0 <= k < queue@.len() implies assignment@[#[trigger] queue@[k]].0 <= k by {
            assert(queue@.contains(queue@[k]));
        }
        assert forall|a: int, b: int| 0 <= a < b < queue@.len() implies assignment@[#[trigger] queue@[a]].0 <= assignment@[#[trigger] queue@[b]].0 by {
            assert(queue@.contains(queue@[a]));
            assert(queue@.contains(queue@[b]));
        }
        if 0 < queue@.len() {
            assert(queue@.contains(queue@.last()));
            assert(queue@.contains(queue@[0]));
        }
        assert(witnessed(*g, min_deg, assignment@, wit));
        assert(search_inv(*g, min_deg, queue@, 0, assignment@, wit));
    }
    let mut head: usize = 0;
    while head < queue.len()
        invariant
            g.wf(),
            search_inv(*g, min_deg, queue@, head as int, assignment@, wit),
        decreases g.adj().dom().len() - head,
    {
        let curr = queue[head];
        proof {
            assert(queue@.contains(curr));
            g.lemma_wf();
            assert forall|v: i32| #[trigger] queue@.contains(v) implies g.adj().contains_key(v) by {
                let k = choose|k: int| 0 <= k < queue@.len() && queue@[k] == v;
            }
            crate::graph::lemma_distinct_vertices_bound(*g, queue@);
        }
        let (curr_dist, curr_hub) = *assignment.get(&curr).unwrap();
        match g.neighbors(curr) {
            Some(nbrs) => {
                let mut j: usize = 0;
                while j < nbrs.len()
                    invariant
                        g.wf(),
                        search_inv(*g, min_deg, queue@, head as int, assignment@, wit),
                        head < queue@.len(),
                        queue@[head as int] == curr,
                        assignment@[curr] == (curr_dist, curr_hub),
                        g.adj().contains_key(curr),
                        nbrs@ == g.adj()[curr],
                        0 <= j <= nbrs@.len(),
                        forall|z: i32|
                            nbrs@.subrange(0, j as int).contains(z) && !is_hub(*g, min_deg, z) ==> step_ok(
                                assignment@,
                                curr,
                                z,
                            ),
                    decreases nbrs@.len() - j,
                {
                    let next_v = nbrs[j];
                    let ghost a_prev = assignment@;
                    proof {
                        assert(nbrs@.contains(next_v));
                    }
                    let w = relax_edge(g, min_deg, &mut queue, &mut assignment, head, curr_dist, curr_hub, next_v, Ghost(wit));
                    proof {
                        wit = w@;
                        let p = nbrs@.subrange(0, j as int);
                        let p2 = nbrs@.subrange(0, j + 1);
                        assert(p2 == p.push(next_v));
                        assert forall|z: i32| p2.contains(z) && !is_hub(*g, min_deg, z) implies step_ok(assignment@, curr, z) by {
                            if z != next_v {
                                let k = choose|k: int| 0 <= k < p2.len() && p2[k] == z;
                                assert(p[k] == z);
                                assert(step_ok(a_prev, curr, z));
                            }
                        }
                    }
                    j = j + 1;
                }
                proof {
                    assert(nbrs@.subrange(0, nbrs@.len() as int) == nbrs@);
                }
            },
            None => {},
        }
        proof {
            let q = queue@;
            let a = assignment@;
            assert forall|i: int, z: i32| 0 <= i < head + 1 && #[trigger] g.has_edge(q[i], z) && !is_hub(*g, min_deg, z) implies step_ok(a, q[i], z) by {
                if i == head {
                    assert(g.adj()[curr].contains(z));
                }
            }
            if head + 1 < q.len() {
                assert(a[q[head as int]].0 <= a[q[head + 1]].0);
            }
            assert(search_inv(*g, min_deg, q, head + 1, a, wit));
        }
        head = head + 1;
    }
    let res = (queue, assignment);
    assert(search_inv(*g, min_deg, res.0@, res.0@.len() as int, res.1@, wit));
    res
}

/// Membership in a sequence with one more element at the end.
proof fn lemma_push_contains(s: Seq<i32>, x: i32)
    ensures
        forall|y: i32| #[trigger] s.push(x).contains(y) <==> s.contains(y) || y == x,
{
    assert forall|y: i32| #[trigger] s.push(x).contains(y) <==> s.contains(y) || y == x by {
        if s.contains(y) {
            let j = choose|j: int| 0 <= j < s.len() && s[j] == y;
            assert(s.push(x)[j] == y);
        }
        if s.push(x).contains(y) && y != x {
            let j = choose|j: int| 0 <= j < s.push(x).len() && s.push(x)[j] == y;
            assert(s[j] == y);
        }
        assert(s.push(x)[s.len() as int] == x);
    }
}

/// The members of `sorted` that were assigned to hub `h`, in the same order.
fn vertices_of_hub(sorted: &Vec<i32>, assignment: &HashMap<i32, (usize, i32)>, h: i32) -> (r: Vec<i32>)
    requires
        strictly_sorted(sorted@),
        forall|x: i32| sorted@.contains(x) ==> assignment@.contains_key(x),
    ensures
        strictly_sorted(r@),
        forall|x: i32| r@.contains(x) <==> sorted@.contains(x) && assignment@[x].1 == h,
{
    let mut r: Vec<i32> = Vec::new();
    let mut k: usize = 0;
    while k < sorted.len()
        invariant
            strictly_sorted(sorted@),
            forall|x: i32| sorted@.contains(x) ==> assignment@.contains_key(x),
            0 <= k <= sorted@.len(),
            strictly_sorted(r@),
            forall|p: int| 0 <= p < r@.len() ==> exists|j: int| 0 <= j < k && sorted@[j] == #[trigger] r@[p],
            forall|x: i32| r@.contains(x) <==> sorted@.subrange(0, k as int).contains(x) && assignment@[x].1 == h,
        decreases sorted@.len() - k,
    {
        let x = sorted[k];
        let ghost r0 = r@;
        let ghost sp = sorted@.subrange(0, k as int);
        let ghost sq = sorted@.subrange(0, k + 1);
        proof {
            assert(sq == sp.push(x));
            assert(sorted@.contains(x));
        }
        let e = *assignment.get(&x).unwrap();
        if e.1 == h {
            r.push(x);
            proof {
                assert forall|a: int, b: int| 0 <= a < b < r@.len() implies r@[a] < r@[b] by {
                    if b == r0.len() {
                        let j = choose|j: int| 0 <= j < k && sorted@[j] == #[trigger] r0[a];
                        assert(r@[a] == r0[a]);
                    }
                }
                assert forall|p: int| 0 <= p < r@.len() implies exists|j: int| 0 <= j < k + 1 && sorted@[j] == #[trigger] r@[p] by {
                    if p < r0.len() {
                        let j = choose|j: int| 0 <= j < k && sorted@[j] == #[trigger] r0[p];
                        assert(r@[p] == r0[p]);
                    } else {
                        assert(sorted@[k as int] == r@[p]);
                    }
                }
            }
        }
        proof {
            lemma_push_contains(sp, x);
            lemma_push_contains(r0, x);
            assert(assignment@[x] == e);
        }
        k = k + 1;
    }
    proof {
        assert(sorted@.subrange(0, sorted@.len() as int) == sorted@);
    }
    r
}

/// Two module lists that `hub_modules_of` allows for one threshold have the
/// same length and the same vertices, module by module.
proof fn lemma_hub_modules_unique(g: Graph, min_deg: usize, a: Seq<HubModule>, b: Seq<HubModule>)
    requires
        hub_modules_of(g, min_deg, a),
        hub_modules_of(g, min_deg, b),
    ensures
        a.len() == b.len(),
        forall|i: int| 0 <= i < a.len() ==> #[trigger] a[i].vertices@ == b[i].vertices@,
{
    let ha = a.map_values(|m: HubModule| m.hub_id);
    let hb = b.map_values(|m: HubModule| m.hub_id);
    assert(strictly_sorted(ha)) by {
        assert forall|i: int, j: int| 0 <= i < j < ha.len() implies ha[i] < ha[j] by {
            assert(a[i].hub_id < a[j].hub_id);
        }
    }
    assert(strictly_sorted(hb)) by {
        assert forall|i: int, j: int| 0 <= i < j < hb.len() implies hb[i] < hb[j] by {
            assert(b[i].hub_id < b[j].hub_id);
        }
    }
    assert forall|v: i32| ha.contains(v) <==> hb.contains(v) by {
        if ha.contains(v) {
            let i = choose|i: int| 0 <= i < ha.len() && ha[i] == v;
            assert(a[i].hub_id == v);
            assert(is_hub(g, min_deg, v));
            let j = choose|j: int| 0 <= j < b.len() && #[trigger] b[j].hub_id == v;
            assert(hb[j] == v);
        }
        if hb.contains(v) {
            let i = choose|i: int| 0 <= i < hb.len() && hb[i] == v;
            assert(b[i].hub_id == v);
            assert(is_hub(g, min_deg, v));
            let j = choose|j: int| 0 <= j < a.len() && #[trigger] a[j].hub_id == v;
            assert(ha[j] == v);
        }
    }
    lemma_strictly_sorted_unique(ha, hb);
    assert(a.len() == ha.len());
    assert forall|i: int| 0 <= i < a.len() implies #[trigger] a[i].vertices@ == b[i].vertices@ by {
        assert(ha[i] == hb[i]);
        assert(hub_module_ok(g, min_deg, a[i]));
        assert(hub_module_ok(g, min_deg, b[i]));
        lemma_strictly_sorted_unique(a[i].vertices@, b[i].vertices@);
    }
}

/// The vertex total depends only on the sizes of the modules.
proof fn lemma_total_same(a: Seq<HubModule>, b: Seq<HubModule>)
    requires
        a.len() == b.len(),
        forall|i: int| 0 <= i < a.len() ==> #[trigger] a[i].vertices@.len() == b[i].vertices@.len(),
    ensures
        total_vertices(a) == total_vertices(b),
    decreases a.len(),
{
    if a.len() > 0 {
        let a2 = a.drop_last();
        let b2 = b.drop_last();
        assert forall|i: int| 0 <= i < a2.len() implies #[trigger] a2[i].vertices@.len() == b2[i].vertices@.len() by {
            assert(a2[i] == a[i]);
            assert(b2[i] == b[i]);
        }
        lemma_total_same(a2, b2);
        assert(a.last() == a[a.len() - 1]);
        assert(b.last() == b[b.len() - 1]);
    }
}

/// Whether the modules are worth a macro-level solve on a graph of `n` vertices.
fn is_usable_hierarchy(n: usize, ms: &Vec<HubModule>) -> (b: bool)
    ensures
        b == usable_hierarchy(n as int, ms@),
{
    if ms.len() < 2 || ms.len() > 100 || ms.len() >= n {
        return false;
    }
    let mut total: u128 = 0;
    let mut all_big = true;
    let mut i: usize = 0;
    while i < ms.len()
        invariant
            2 <= ms@.len() <= 100,
            0 <= i <= ms@.len(),
            total == total_vertices(ms@.take(i as int)),
            total <= i * 0x1_0000_0000_0000_0000,
            all_big == forall|k: int| 0 <= k < i ==> #[trigger] ms@[k].vertices@.len() >= 2,
        decreases ms@.len() - i,
    {
        let len = ms[i].vertices.len();
        proof {
            assert(ms@.take(i + 1).drop_last() == ms@.take(i as int));
            assert(ms@.take(i + 1).last() == ms@[i as int]);
        }
        total = total + len as u128;
        if len < 2 {
            all_big = false;
        }
        i = i + 1;
    }
    proof {
        assert(ms@.take(ms@.len() as int) == ms@);
    }
    all_big && total == n as u128
}

/// The hub threshold at position `i` of the list 10, 8, 6, 5.
fn hub_degree_at(i: usize) -> (d: usize)
    ensures
        d == hub_degree_step(i as int),
{
    if i == 0 {
        10
    } else if i == 1 {
        8
    } else if i == 2 {
        6
    } else {
        5
    }
}

impl HubHierarchicalDecomposer {
    /// Extracts one module per hub (a vertex of degree at least
    /// `min_hub_degree`), in increasing order of hub. A multi-source
    /// breadth-first search through non-hub vertices assigns each vertex it
    /// reaches to its nearest hub, the smaller hub on a tie; the module of a
    /// hub holds its assigned vertices, and its ports are the members with a
    /// neighbour outside the module.
    pub fn extract_hub_modules(g: &Graph, min_hub_degree: usize) -> (r: Vec<HubModule>)
        requires
            g.wf(),
        ensures
            hub_modules_of(*g, min_hub_degree, r@),
    {
        let verts = g.vertex_list();
        let mut cands: Vec<i32> = Vec::new();
        let mut k: usize = 0;
        while k < verts.len()
            invariant
                g.wf(),
                verts@ == g.vertices(),
                forall|v: i32| verts@.contains(v) <==> g.adj().contains_key(v),
                0 <= k <= verts@.len(),
                forall|v: i32| cands@.contains(v) <==> verts@.subrange(0, k as int).contains(v) && is_hub(*g, min_hub_degree, v),
            decreases verts@.len() - k,
        {
            let v = verts[k];
            let ghost c0 = cands@;
            let ghost sp = verts@.subrange(0, k as int);
            let ghost sq = verts@.subrange(0, k + 1);
            proof {
                assert(sq == sp.push(v));
                assert(verts@.contains(v));
            }
            if g.degree(v) >= min_hub_degree {
                cands.push(v);
            }
            proof {
                lemma_push_contains(sp, v);
                lemma_push_contains(c0, v);
                g.lemma_wf();
            }
            k = k + 1;
        }
        proof {
            assert(verts@.subrange(0, verts@.len() as int) == verts@);
        }
        let hubs = sorted_distinct(&cands);
        let (queue, assignment) = assign_nearest_hubs(g, min_hub_degree, &hubs);
        let ghost wit = choose|wit: Map<i32, Seq<i32>>| #[trigger] search_inv(*g, min_hub_degree, queue@, queue@.len() as int, assignment@, wit);
        proof {
            lemma_assignment_nearest(*g, min_hub_degree, queue@, assignment@, wit);
        }
        let all_sorted = sorted_distinct(&queue);
        let mut modules: Vec<HubModule> = Vec::new();
        let mut i: usize = 0;
        while i < hubs.len()
            invariant
                g.wf(),
                strictly_sorted(hubs@),
                forall|v: i32| hubs@.contains(v) <==> is_hub(*g, min_hub_degree, v),
                strictly_sorted(all_sorted@),
                forall|x: i32| all_sorted@.contains(x) <==> assignment@.contains_key(x),
                forall|x: i32| #[trigger] assignment@.contains_key(x) ==> nearest_hub(*g, min_hub_degree, x, assignment@[x].1),
                forall|x: i32, h: i32| #[trigger] nearest_hub(*g, min_hub_degree, x, h) ==> assignment@.contains_key(x) && assignment@[x].1 == h,
                forall|v: i32| #[trigger] is_hub(*g, min_hub_degree, v) ==> assignment@.contains_key(v) && assignment@[v].1 == v,
                0 <= i <= hubs@.len(),
                modules@.len() == i,
                forall|p: int| 0 <= p < i ==> #[trigger] modules@[p].hub_id == hubs@[p],
                forall|p: int| 0 <= p < i ==> hub_module_ok(*g, min_hub_degree, #[trigger] modules@[p]),
            decreases hubs@.len() - i,
        {
            let h = hubs[i];
            proof {
                assert(hubs@.contains(h));
            }
            let vs = vertices_of_hub(&all_sorted, &assignment, h);
            proof {
                assert forall|x: i32| vs@.contains(x) <==> nearest_hub(*g, min_hub_degree, x, h) by {
                    if vs@.contains(x) {
                        assert(assignment@.contains_key(x));
                    }
                }
            }
            let mod_set = member_set(&vs);
            let ports = port_list(g, &vs, &mod_set);
            let mut internal_paths: Vec<(i32, i32, Vec<i32>)> = Vec::new();
            if vs.len() == 1 {
                let v = vs[0];
                proof {
                    assert(is_hub(*g, min_hub_degree, h));
                    assert(assignment@.contains_key(h));
                    assert(nearest_hub(*g, min_hub_degree, h, h));
                    assert(vs@.contains(h));
                    assert(v == h);
                }
                let single = vec![v];
                assert(single@ == seq![h]);
                internal_paths.push((v, v, single));
            }
            let m = HubModule { hub_id: h, vertices: vs, interface_ports: ports, internal_paths };
            modules.push(m);
            proof {
                assert(modules@[i as int] == m);
            }
            i = i + 1;
        }
        proof {
            assert forall|a: int, b: int| 0 <= a < b < modules@.len() implies modules@[a].hub_id < modules@[b].hub_id by {
                assert(modules@[a].hub_id == hubs@[a]);
                assert(modules@[b].hub_id == hubs@[b]);
            }
            assert forall|v: i32| is_hub(*g, min_hub_degree, v) <==> exists|p: int| 0 <= p < modules@.len() && #[trigger] modules@[p].hub_id == v by {
                if is_hub(*g, min_hub_degree, v) {
                    assert(hubs@.contains(v));
                    let p = choose|p: int| 0 <= p < hubs@.len() && hubs@[p] == v;
                    assert(modules@[p].hub_id == v);
                }
                if exists|p: int| 0 <= p < modules@.len() && #[trigger] modules@[p].hub_id == v {
                    let p = choose|p: int| 0 <= p < modules@.len() && #[trigger] modules@[p].hub_id == v;
                    assert(hubs@[p] == v);
                    assert(hubs@.contains(v));
                }
            }
        }
        modules
    }

    /// The choice made before each macro-level solve of the hierarchical
    /// strategy: from position `from` on in the threshold list 10, 8, 6, 5,
    /// the first threshold whose hub modules are usable (`usable_hierarchy`),
    /// with those modules. After a failed solve the caller asks again from the
    /// next position. `None` on a graph of fewer than three vertices, or when
    /// no threshold from `from` on gives usable modules.
    pub fn next_hierarchy_candidate(g: &Graph, from: usize) -> (r: Option<(usize, Vec<HubModule>)>)
        requires
            g.wf(),
        ensures
            match r {
                Some((i, ms)) => {
                    &&& from <= i < 4
                    &&& g.adj().dom().len() >= 3
                    &&& hub_modules_of(*g, hub_degree_step(i as int), ms@)
                    &&& usable_hierarchy(g.adj().dom().len() as int, ms@)
                    &&& forall|k: int, ms2: Seq<HubModule>|
                        from <= k < i && #[trigger] hub_modules_of(*g, hub_degree_step(k), ms2) ==> !usable_hierarchy(
                            g.adj().dom().len() as int,
                            ms2,
                        )
                },
                None => g.adj().dom().len() < 3 || forall|k: int, ms2: Seq<HubModule>|
                    from <= k < 4 && #[trigger] hub_modules_of(*g, hub_degree_step(k), ms2) ==> !usable_hierarchy(
                        g.adj().dom().len() as int,
                        ms2,
                    ),
            },
    {
        let n = g.num_vertices();
        if n < 3 {
            return None;
        }
        let mut k: usize = from;
        while k < 4
            invariant
                g.wf(),
                n == g.adj().dom().len(),
                n >= 3,
                from <= k,
                forall|k2: int, ms2: Seq<HubModule>|
                    from <= k2 < k && #[trigger] hub_modules_of(*g, hub_degree_step(k2), ms2) ==> !usable_hierarchy(
                        n as int,
                        ms2,
                    ),
            decreases 4 - k,
        {
            let d = hub_degree_at(k);
            let ms = Self::extract_hub_modules(g, d);
            if is_usable_hierarchy(n, &ms) {
                return Some((k, ms));
            }
            proof {
                assert forall|k2: int, ms2: Seq<HubModule>|
                    from <= k2 < k + 1 && #[trigger] hub_modules_of(*g, hub_degree_step(k2), ms2) implies !usable_hierarchy(n as int, ms2) by {
                    if k2 == k {
                        lemma_hub_modules_unique(*g, d, ms@, ms2);
                        lemma_total_same(ms@, ms2);
                        if usable_hierarchy(n as int, ms2) {
                            assert forall|i: int| 0 <= i < ms@.len() implies #[trigger] ms@[i].vertices@.len() >= 2 by {
                                assert(ms@[i].vertices@ == ms2[i].vertices@);
                                assert(ms2[i].vertices@.len() >= 2);
                            }
                        }
                    }
                }
            }
            k = k + 1;
        }
        None
    }
}

/// Every hub is its own nearest hub, so it lies in its own module; and no
/// vertex lies in two modules.
pub proof fn lemma_hub_modules_disjoint(g: Graph, min_deg: usize, ms: Seq<HubModule>)
    requires
        hub_modules_of(g, min_deg, ms),
    ensures
        forall|i: int| 0 <= i < ms.len() ==> (#[trigger] ms[i]).vertices@.contains(ms[i].hub_id),
        forall|i: int, j: int, x: i32|
            0 <= i < ms.len() && 0 <= j < ms.len() && i != j && #[trigger] ms[i].vertices@.contains(x) ==> !(
            #[trigger] ms[j].vertices@.contains(x)),
{
    assert forall|i: int| 0 <= i < ms.len() implies (#[trigger] ms[i]).vertices@.contains(ms[i].hub_id) by {
        let h = ms[i].hub_id;
        assert(hub_module_ok(g, min_deg, ms[i]));
        assert(hub_walk(g, min_deg, seq![h]));
        assert(reaches(g, min_deg, h, h, 0));
        assert forall|h2: i32, k2: nat| #[trigger] reaches(g, min_deg, h2, h, k2) implies 0 < k2 || (0 == k2 && h <= h2) by {
            let w = choose|w: Seq<i32>| #[trigger] hub_walk(g, min_deg, w) && w.len() == k2 + 1 && w[0] == h2 && w.last() == h;
            if k2 > 0 {
                assert(!is_hub(g, min_deg, w[w.len() - 1]));
            }
        }
        assert(nearest_hub(g, min_deg, h, h));
    }
    assert forall|i: int, j: int, x: i32|
        0 <= i < ms.len() && 0 <= j < ms.len() && i != j && #[trigger] ms[i].vertices@.contains(x) implies !(
        #[trigger] ms[j].vertices@.contains(x)) by {
        assert(hub_module_ok(g, min_deg, ms[i]));
        assert(hub_module_ok(g, min_deg, ms[j]));
        if ms[j].vertices@.contains(x) {
            let h1 = ms[i].hub_id;
            let h2 = ms[j].hub_id;
            assert(nearest_hub(g, min_deg, x, h1));
            assert(nearest_hub(g, min_deg, x, h2));
            let k1 = choose|k: nat| #[trigger] reaches(g, min_deg, h1, x, k) && forall|h3: i32, k3: nat|
                #[trigger] reaches(g, min_deg, h3, x, k3) ==> k < k3 || (k == k3 && h1 <= h3);
            let k2 = choose|k: nat| #[trigger] reaches(g, min_deg, h2, x, k) && forall|h3: i32, k3: nat|
                #[trigger] reaches(g, min_deg, h3, x, k3) ==> k < k3 || (k == k3 && h2 <= h3);
            assert(h1 == h2);
            if i < j {
                assert(ms[i].hub_id < ms[j].hub_id);
            } else {
                assert(ms[j].hub_id < ms[i].hub_id);
            }
        }
    }
}

/// Among the walks reaching `x` in at most `k` steps, one of fewest steps.
proof fn lemma_min_steps(g: Graph, min_deg: usize, x: i32, h: i32, k: nat) -> (r: (i32, nat))
    requires
        reaches(g, min_deg, h, x, k),
    ensures
        reaches(g, min_deg, r.0, x, r.1),
        r.1 <= k,
        forall|h2: i32, k2: nat| #[trigger] reaches(g, min_deg, h2, x, k2) ==> r.1 <= k2,
    decreases k,
{
    if exists|h2: i32, k2: nat| #[trigger] reaches(g, min_deg, h2, x, k2) && k2 < k {
        let (h2, k2) = choose|h2: i32, k2: nat| #[trigger] reaches(g, min_deg, h2, x, k2) && k2 < k;
        lemma_min_steps(g, min_deg, x, h2, k2)
    } else {
        (h, k)
    }
}

/// Among the hubs reaching `x` in `k` steps, the smallest.
proof fn lemma_min_hub(g: Graph, min_deg: usize, x: i32, h: i32, k: nat) -> (r: i32)
    requires
        reaches(g, min_deg, h, x, k),
    ensures
        reaches(g, min_deg, r, x, k),
        r <= h,
        forall|h2: i32| #[trigger] reaches(g, min_deg, h2, x, k) ==> r <= h2,
    decreases h - i32::MIN,
{
    if exists|h2: i32| #[trigger] reaches(g, min_deg, h2, x, k) && h2 < h {
        let h2 = choose|h2: i32| #[trigger] reaches(g, min_deg, h2, x, k) && h2 < h;
        lemma_min_hub(g, min_deg, x, h2, k)
    } else {
        h
    }
}

/// Every vertex that some hub reaches through non-hub vertices lies in a
/// module: that of its nearest hub.
pub proof fn lemma_hub_modules_cover(g: Graph, min_deg: usize, ms: Seq<HubModule>, h: i32, x: i32, k: nat)
    requires
        hub_modules_of(g, min_deg, ms),
        reaches(g, min_deg, h, x, k),
    ensures
        exists|i: int| 0 <= i < ms.len() && (#[trigger] ms[i]).vertices@.contains(x),
{
    let (h1, k0) = lemma_min_steps(g, min_deg, x, h, k);
    let h0 = lemma_min_hub(g, min_deg, x, h1, k0);
    assert forall|h2: i32, k2: nat| #[trigger] reaches(g, min_deg, h2, x, k2) implies k0 < k2 || (k0 == k2 && h0 <= h2) by {
    }
    assert(nearest_hub(g, min_deg, x, h0));
    let w = choose|w: Seq<i32>| #[trigger] hub_walk(g, min_deg, w) && w.len() == k0 + 1 && w[0] == h0 && w.last() == x;
    assert(is_hub(g, min_deg, h0));
    let i = choose|i: int| 0 <= i < ms.len() && #[trigger] ms[i].hub_id == h0;
    assert(hub_module_ok(g, min_deg, ms[i]));
}

} // verus!
