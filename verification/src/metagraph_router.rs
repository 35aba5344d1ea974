//! Gadget modules: a partition of the vertex set into connected clusters of
//! bounded size (grown along edges whose ends share a neighbour when those
//! edges cover most of the graph, by plain breadth-first chunks otherwise),
//! with leaf clusters folded into their only neighbour and small clusters
//! merged until at most 120 remain; and the split of each large module into
//! two channels.
use crate::graph::{lemma_distinct_vertices_bound, vec_contains, Graph};
use crate::macro_solver::{insert_pair_sorted, pairs_sorted};
use crate::sorting::{sort_i32, sorted_copy, strictly_sorted, swapped};
use std::collections::{HashMap, HashSet};
use vstd::prelude::*;

verus! {

broadcast use vstd::std_specs::hash::group_hash_axioms;

/// A cluster of the partition and the edges that leave it.
pub struct GadgetModule {
    pub id: usize,
    pub vertices: Vec<i32>,
    /// Directed edges `(u, v)` with `u` in this module and `v` in another.
    pub boundary_edges: Vec<(i32, i32)>,
}

/// One of the (one or two) channels a gadget module is split into.
pub struct ChannelModule {
    pub id: usize,
    pub parent_gadget_id: usize,
    pub channel_idx: usize,
    pub vertices: Vec<i32>,
    pub boundary_edges: Vec<(i32, i32)>,
}

/// Partitioning of a graph into gadget modules and channels.
pub struct MetagraphRouter;

/// Some cluster of `cl` holds `v`.
pub open spec fn covers(cl: Seq<Seq<i32>>, v: i32) -> bool {
    exists|i: int| 0 <= i < cl.len() && #[trigger] cl[i].contains(v)
}

/// The clusters of `cl` are non-empty, duplicate-free and pairwise disjoint.
pub open spec fn disjoint_clusters(cl: Seq<Seq<i32>>) -> bool {
    &&& forall|i: int| 0 <= i < cl.len() ==> (#[trigger] cl[i]).len() > 0 && cl[i].no_duplicates()
    &&& forall|i: int, j: int, v: i32|
        0 <= i < cl.len() && 0 <= j < cl.len() && i != j && #[trigger] cl[i].contains(v) ==> !#[trigger] cl[j].contains(v)
}

/// `cl` splits `s` into non-empty, duplicate-free, pairwise disjoint clusters.
pub open spec fn is_partition(cl: Seq<Seq<i32>>, s: Set<i32>) -> bool {
    &&& disjoint_clusters(cl)
    &&& forall|v: i32| s.contains(v) <==> covers(cl, v)
}

/// No edge of `g` joins a vertex of one cluster to a vertex of another.
pub open spec fn separated(g: Graph, cl: Seq<Seq<i32>>) -> bool {
    forall|a: int, i: int, x: i32|
        0 <= a < cl.len() && 0 <= i < cl[a].len() && #[trigger] g.has_edge(cl[a][i], x) && covers(cl, x) ==> cl[a].contains(x)
}

/// Clusters that touch no other cluster are separated.
proof fn lemma_untouched_separated(g: Graph, cl: Seq<Seq<i32>>)
    requires
        forall|c: int, o: int| 0 <= c < cl.len() ==> !#[trigger] clusters_touch(g, cl, c, o),
    ensures
        separated(g, cl),
{
    assert forall|a: int, i: int, x: i32|
        0 <= a < cl.len() && 0 <= i < cl[a].len() && #[trigger] g.has_edge(cl[a][i], x) && covers(cl, x) implies cl[a].contains(x) by {
        let o = choose|o: int| 0 <= o < cl.len() && #[trigger] cl[o].contains(x);
        if o != a {
            assert(clusters_touch(g, cl, a, o));
        }
    }
}

/// Separated disjoint clusters touch no other cluster.
proof fn lemma_separated_untouched(g: Graph, cl: Seq<Seq<i32>>)
    requires
        separated(g, cl),
        disjoint_clusters(cl),
    ensures
        forall|c: int, o: int| 0 <= c < cl.len() ==> !#[trigger] clusters_touch(g, cl, c, o),
{
    assert forall|c: int, o: int| 0 <= c < cl.len() implies !#[trigger] clusters_touch(g, cl, c, o) by {
        if clusters_touch(g, cl, c, o) {
            let (i, x) = choose|i: int, x: i32| 0 <= i < cl[c].len() && #[trigger] g.has_edge(cl[c][i], x) && cl[o].contains(x);
            assert(covers(cl, x));
            assert(cl[c].contains(x));
        }
    }
}

/// A partition of `s` into clusters has at most `|s|` clusters.
proof fn lemma_cluster_count(cl: Seq<Seq<i32>>, s: Set<i32>)
    requires
        is_partition(cl, s),
        s.finite(),
    ensures
        cl.len() <= s.len(),
{
    let firsts = Seq::new(cl.len(), |i: int| cl[i][0]);
    assert(firsts.no_duplicates()) by {
        assert forall|a: int, b: int| 0 <= a < firsts.len() && 0 <= b < firsts.len() && a != b implies firsts[a] != firsts[b] by {
            assert(cl[a].len() > 0);
            assert(cl[a].contains(cl[a][0]));
            if cl[a][0] == cl[b][0] {
                assert(cl[b].contains(cl[b][0]));
            }
        }
    }
    firsts.unique_seq_to_set();
    assert(firsts.to_set().subset_of(s)) by {
        assert forall|x: i32| firsts.to_set().contains(x) implies s.contains(x) by {
            let i = choose|i: int| 0 <= i < firsts.len() && firsts[i] == x;
            assert(cl[i].len() > 0);
            assert(cl[i].contains(cl[i][0]));
            assert(covers(cl, x));
        }
    }
    vstd::set_lib::lemma_len_subset(firsts.to_set(), s);
}

/// Breadth-first walk of `g` from `start` over the vertices still in
/// `remaining`, neighbours visited in increasing order; every vertex reached
/// is taken out of `remaining`, and the walk stops once `cap` were taken.
fn bfs_take(g: &Graph, start: i32, remaining: &mut HashSet<i32>, cap: usize) -> (taken: Vec<i32>)
    requires
        g.wf(),
        cap >= 1,
    ensures
        taken@.no_duplicates(),
        forall|v: i32| #[trigger] taken@.contains(v) <==> old(remaining)@.contains(v) && !final(remaining)@.contains(v),
        forall|v: i32| final(remaining)@.contains(v) ==> old(remaining)@.contains(v),
        taken@.len() <= cap,
        old(remaining)@.contains(start) ==> taken@.len() >= 1 && taken@[0] == start,
{
    proof {
        g.lemma_wf();
    }
    let ghost rem0 = remaining@;
    let mut queue: Vec<i32> = Vec::new();
    queue.push(start);
    let mut in_queue: HashSet<i32> = HashSet::new();
    in_queue.insert(start);
    let mut taken: Vec<i32> = Vec::new();
    let mut head: usize = 0;
    let mut full = false;
    proof {
        assert(queue@ == seq![start]);
        assert forall|x: i32| in_queue@.contains(x) <==> queue@.contains(x) by {
            if x == start {
                assert(queue@[0] == start);
            }
        }
    }
    while !full && head < queue.len()
        invariant
            g.wf(),
            forall|a: i32, x: i32| #[trigger] g.has_edge(a, x) ==> g.adj().contains_key(x),
            g.adj().dom().finite(),
            rem0 == old(remaining)@,
            cap >= 1,
            queue@.len() >= 1,
            queue@[0] == start,
            queue@.no_duplicates(),
            forall|x: i32| in_queue@.contains(x) <==> queue@.contains(x),
            forall|t: int| 1 <= t < queue@.len() ==> g.adj().contains_key(#[trigger] queue@[t]),
            queue@.len() <= g.adj().dom().len() + 1,
            0 <= head <= queue@.len(),
            taken@.no_duplicates(),
            forall|v: i32| #[trigger] taken@.contains(v) <==> rem0.contains(v) && !remaining@.contains(v),
            forall|v: i32| remaining@.contains(v) ==> rem0.contains(v),
            taken@.len() <= cap,
            !full ==> taken@.len() < cap,
            full ==> head > 0,
            head > 0 && rem0.contains(start) ==> taken@.len() >= 1 && taken@[0] == start,
            head == 0 ==> taken@.len() == 0 && remaining@ == rem0,
        decreases g.adj().dom().len() + 1 - head,
    {
        let curr = queue[head];
        head = head + 1;
        if remaining.contains(&curr) {
            let ghost r0 = remaining@;
            let ghost t0 = taken@;
            remaining.remove(&curr);
            taken.push(curr);
            proof {
                assert(!t0.contains(curr));
                assert forall|v: i32| #[trigger] taken@.contains(v) <==> rem0.contains(v) && !remaining@.contains(v) by {
                    if taken@.contains(v) && v != curr {
                        let j = choose|j: int| 0 <= j < taken@.len() && taken@[j] == v;
                        assert(t0[j] == v);
                    }
                    if t0.contains(v) {
                        let j = choose|j: int| 0 <= j < t0.len() && t0[j] == v;
                        assert(taken@[j] == v);
                    }
                    if v == curr {
                        assert(taken@[t0.len() as int] == curr);
                    }
                }
                if head == 1 && rem0.contains(start) {
                    assert(taken@[0] == start);
                }
            }
            if taken.len() >= cap {
                full = true;
            } else {
                match g.neighbors(curr) {
                    Some(nbrs) => {
                        let sorted = sorted_copy(nbrs);
                        proof {
                            crate::cycle_family::lemma_same_ms(sorted@, nbrs@);
                        }
                        let mut t: usize = 0;
                        while t < sorted.len()
                            invariant
                                g.wf(),
                                forall|a: i32, x: i32| #[trigger] g.has_edge(a, x) ==> g.adj().contains_key(x),
                                g.adj().dom().finite(),
                                g.adj().contains_key(curr),
                                forall|x: i32| sorted@.contains(x) ==> g.adj()[curr].contains(x),
                                0 <= t <= sorted@.len(),
                                queue@.len() >= 1,
                                queue@[0] == start,
                                queue@.no_duplicates(),
                                forall|x: i32| in_queue@.contains(x) <==> queue@.contains(x),
                                forall|q: int| 1 <= q < queue@.len() ==> g.adj().contains_key(#[trigger] queue@[q]),
                                queue@.len() <= g.adj().dom().len() + 1,
                                0 <= head <= queue@.len(),
                            decreases sorted@.len() - t,
                        {
                            let nx = sorted[t];
                            if remaining.contains(&nx) && !in_queue.contains(&nx) {
                                let ghost q0 = queue@;
                                in_queue.insert(nx);
                                queue.push(nx);
                                proof {
                                    assert(sorted@.contains(nx));
                                    assert(g.has_edge(curr, nx));
                                    assert(!q0.contains(nx));
                                    assert forall|x: i32| in_queue@.contains(x) <==> queue@.contains(x) by {
                                        if queue@.contains(x) && x != nx {
                                            let j = choose|j: int| 0 <= j < queue@.len() && queue@[j] == x;
                                            assert(q0[j] == x);
                                        }
                                        if q0.contains(x) {
                                            let j = choose|j: int| 0 <= j < q0.len() && q0[j] == x;
                                            assert(queue@[j] == x);
                                        }
                                        if x == nx {
                                            assert(queue@[q0.len() as int] == nx);
                                        }
                                    }
                                    let tail = queue@.subrange(1, queue@.len() as int);
                                    assert forall|v: i32| #[trigger] tail.contains(v) implies g.adj().contains_key(v) by {
                                        let j = choose|j: int| 0 <= j < tail.len() && tail[j] == v;
                                        assert(queue@[j + 1] == v);
                                    }
                                    lemma_distinct_vertices_bound(*g, tail);
                                }
                            }
                            t = t + 1;
                        }
                    },
                    None => {},
                }
            }
        }
    }
    taken
}

/// Adding a fresh non-empty cluster keeps a partition.
proof fn lemma_partition_push(cl: Seq<Seq<i32>>, s_old: Set<i32>, c: Seq<i32>, s_new: Set<i32>)
    requires
        is_partition(cl, s_old),
        c.len() > 0,
        c.no_duplicates(),
        forall|v: i32| c.contains(v) ==> !s_old.contains(v),
        forall|v: i32| s_new.contains(v) <==> s_old.contains(v) || c.contains(v),
    ensures
        is_partition(cl.push(c), s_new),
{
    let cl2 = cl.push(c);
    assert forall|i: int, j: int, v: i32|
        0 <= i < cl2.len() && 0 <= j < cl2.len() && i != j && #[trigger] cl2[i].contains(v) implies !#[trigger] cl2[j].contains(v) by {
        if i < cl.len() && j < cl.len() {
            assert(cl2[i] == cl[i] && cl2[j] == cl[j]);
        } else if i < cl.len() {
            assert(cl2[i] == cl[i]);
            assert(covers(cl, v));
        } else {
            assert(cl2[j] == cl[j]);
            if cl[j].contains(v) {
                assert(covers(cl, v));
            }
        }
    }
    assert forall|v: i32| s_new.contains(v) <==> covers(cl2, v) by {
        if covers(cl2, v) {
            let i = choose|i: int| 0 <= i < cl2.len() && #[trigger] cl2[i].contains(v);
            if i < cl.len() {
                assert(cl2[i] == cl[i]);
                assert(covers(cl, v));
            }
        }
        if s_old.contains(v) {
            let i = choose|i: int| 0 <= i < cl.len() && #[trigger] cl[i].contains(v);
            assert(cl2[i] == cl[i]);
        }
        if c.contains(v) {
            assert(cl2[cl.len() as int] == c);
        }
    }
    assert forall|i: int| 0 <= i < cl2.len() implies (#[trigger] cl2[i]).len() > 0 && cl2[i].no_duplicates() by {
        if i < cl.len() {
            assert(cl2[i] == cl[i]);
        }
    }
}

/// A sorted duplicate-free sequence is strictly increasing.
proof fn lemma_strict(s: Seq<i32>)
    requires
        crate::sorting::sorted_asc(s),
        s.no_duplicates(),
    ensures
        strictly_sorted(s),
{
}

/// Clusters of the entries of `order`: each unassigned entry, in turn, starts
/// a breadth-first walk of `g` over the unassigned entries that stops after
/// `cap` vertices; each walk's vertices, sorted, form the next cluster.
fn chunk_partition(g: &Graph, order: &Vec<i32>, cap: usize) -> (cl: Vec<Vec<i32>>)
    requires
        g.wf(),
        cap >= 1,
    ensures
        is_partition(crate::cycle_family::views(cl@), order@.to_set()),
        forall|i: int| 0 <= i < cl@.len() ==> strictly_sorted(#[trigger] cl@[i]@) && cl@[i]@.len() <= cap,
{
    let mut remaining: HashSet<i32> = HashSet::new();
    let mut k: usize = 0;
    while k < order.len()
        invariant
            0 <= k <= order@.len(),
            forall|v: i32| remaining@.contains(v) <==> order@.subrange(0, k as int).contains(v),
        decreases order@.len() - k,
    {
        remaining.insert(order[k]);
        proof {
            let p = order@.subrange(0, k as int);
            let q = order@.subrange(0, k + 1);
            assert(q == p.push(order@[k as int]));
            assert forall|v: i32| remaining@.contains(v) <==> q.contains(v) by {
                if p.contains(v) {
                    let j = choose|j: int| 0 <= j < p.len() && p[j] == v;
                    assert(q[j] == v);
                }
                if q.contains(v) && v != order@[k as int] {
                    let j = choose|j: int| 0 <= j < q.len() && q[j] == v;
                    assert(p[j] == v);
                }
                if v == order@[k as int] {
                    assert(q[k as int] == v);
                }
            }
        }
        k = k + 1;
    }
    proof {
        assert(order@.subrange(0, order@.len() as int) == order@);
    }
    let mut cl: Vec<Vec<i32>> = Vec::new();
    let mut k: usize = 0;
    while k < order.len()
        invariant
            g.wf(),
            cap >= 1,
            0 <= k <= order@.len(),
            forall|v: i32| remaining@.contains(v) ==> order@.contains(v),
            forall|t: int| 0 <= t < k ==> !remaining@.contains(#[trigger] order@[t]),
            is_partition(crate::cycle_family::views(cl@), Set::new(|v: i32| order@.contains(v) && !remaining@.contains(v))),
            forall|i: int| 0 <= i < cl@.len() ==> strictly_sorted(#[trigger] cl@[i]@) && cl@[i]@.len() <= cap,
        decreases order@.len() - k,
    {
        let start = order[k];
        if remaining.contains(&start) {
            let ghost rem0 = remaining@;
            let ghost cl0 = cl@;
            let taken = bfs_take(g, start, &mut remaining, cap);
            let comp = sorted_copy(&taken);
            proof {
                crate::cycle_family::lemma_same_ms(taken@, comp@);
                lemma_strict(comp@);
                lemma_partition_push(
                    crate::cycle_family::views(cl0),
                    Set::new(|v: i32| order@.contains(v) && !rem0.contains(v)),
                    comp@,
                    Set::new(|v: i32| order@.contains(v) && !remaining@.contains(v)),
                );
            }
            cl.push(comp);
            proof {
                assert(crate::cycle_family::views(cl@) == crate::cycle_family::views(cl0).push(comp@));
                assert forall|i: int| 0 <= i < cl@.len() implies strictly_sorted(#[trigger] cl@[i]@) && cl@[i]@.len() <= cap by {
                    if i < cl0.len() {
                        assert(cl@[i] == cl0[i]);
                    }
                }
                assert forall|t: int| 0 <= t < k + 1 implies !remaining@.contains(#[trigger] order@[t]) by {
                    if t < k {
                        assert(!rem0.contains(order@[t]));
                    } else {
                        assert(taken@[0] == start);
                        assert(taken@.contains(start));
                    }
                }
            }
        }
        k = k + 1;
    }
    proof {
        assert(Set::new(|v: i32| order@.contains(v) && !remaining@.contains(v)) =~= order@.to_set()) by {
            assert forall|v: i32| order@.contains(v) implies !remaining@.contains(v) by {
                let t = choose|t: int| 0 <= t < order@.len() && order@[t] == v;
            }
        }
    }
    cl
}

/// Position of the target cluster once the source cluster is removed.
pub open spec fn shifted(tgt: int, src: int) -> int {
    if tgt > src {
        tgt - 1
    } else {
        tgt
    }
}

/// Folding cluster `src` into cluster `tgt` keeps the clusters disjoint and
/// the covered set unchanged.
proof fn lemma_merge(cl: Seq<Seq<i32>>, src: int, tgt: int, m: Seq<i32>)
    requires
        disjoint_clusters(cl),
        0 <= src < cl.len(),
        0 <= tgt < cl.len(),
        src != tgt,
        m.no_duplicates(),
        forall|v: i32| m.contains(v) <==> cl[src].contains(v) || cl[tgt].contains(v),
    ensures
        disjoint_clusters(cl.remove(src).update(shifted(tgt, src), m)),
        forall|v: i32| covers(cl.remove(src).update(shifted(tgt, src), m), v) <==> covers(cl, v),
{
    let cl3 = cl.remove(src).update(shifted(tgt, src), m);
    let a = shifted(tgt, src);
    assert(m.len() > 0) by {
        assert(cl[tgt].len() > 0);
        assert(cl[tgt].contains(cl[tgt][0]));
        assert(m.contains(cl[tgt][0]));
    }
    assert forall|i: int| 0 <= i < cl3.len() implies (#[trigger] cl3[i]).len() > 0 && cl3[i].no_duplicates() by {
        if i != a {
            if i < src {
                assert(cl3[i] == cl[i]);
            } else {
                assert(cl3[i] == cl[i + 1]);
            }
        }
    }
    assert forall|i: int, j: int, v: i32|
        0 <= i < cl3.len() && 0 <= j < cl3.len() && i != j && #[trigger] cl3[i].contains(v) implies !#[trigger] cl3[j].contains(v) by {
        let oi = if i < src { i } else { i + 1 };
        let oj = if j < src { j } else { j + 1 };
        if i != a {
            assert(cl3[i] == cl[oi]);
        }
        if j != a {
            assert(cl3[j] == cl[oj]);
        }
        if i == a {
            assert(oj != src && oj != tgt);
            if cl[src].contains(v) {
                assert(!cl[oj].contains(v));
            } else {
                assert(!cl[oj].contains(v));
            }
        } else if j == a {
            assert(oi != src && oi != tgt);
            if cl3[j].contains(v) {
                if cl[src].contains(v) {
                    assert(!cl[oi].contains(v));
                } else {
                    assert(!cl[oi].contains(v));
                }
            }
        } else {
            assert(oi != oj);
        }
    }
    assert forall|v: i32| covers(cl3, v) <==> covers(cl, v) by {
        if covers(cl3, v) {
            let i = choose|i: int| 0 <= i < cl3.len() && #[trigger] cl3[i].contains(v);
            let oi = if i < src { i } else { i + 1 };
            if i == a {
                if cl[src].contains(v) {
                    assert(cl[src].contains(v));
                } else {
                    assert(cl[tgt].contains(v));
                }
            } else {
                assert(cl3[i] == cl[oi]);
                assert(cl[oi].contains(v));
            }
        }
        if covers(cl, v) {
            let i = choose|i: int| 0 <= i < cl.len() && #[trigger] cl[i].contains(v);
            if i == src || i == tgt {
                assert(cl3[a].contains(v));
            } else {
                let ni = if i < src { i } else { i - 1 };
                assert(cl3[ni] == cl[i]);
            }
        }
    }
}

/// Folds cluster `src` into cluster `tgt` (which is re-sorted) and removes `src`.
fn merge_clusters(cl: &mut Vec<Vec<i32>>, src: usize, tgt: usize)
    requires
        disjoint_clusters(crate::cycle_family::views(old(cl)@)),
        forall|i: int| 0 <= i < old(cl)@.len() ==> strictly_sorted(#[trigger] old(cl)@[i]@),
        src < old(cl)@.len(),
        tgt < old(cl)@.len(),
        src != tgt,
    ensures
        final(cl)@.len() == old(cl)@.len() - 1,
        disjoint_clusters(crate::cycle_family::views(final(cl)@)),
        forall|v: i32| covers(crate::cycle_family::views(final(cl)@), v) <==> covers(crate::cycle_family::views(old(cl)@), v),
        forall|i: int| 0 <= i < final(cl)@.len() ==> strictly_sorted(#[trigger] final(cl)@[i]@),
{
    let ghost cs = crate::cycle_family::views(cl@);
    let src_nodes = cl.remove(src);
    let actual = if tgt > src {
        tgt - 1
    } else {
        tgt
    };
    let mut t = cl[actual].clone();
    proof {
        assert(t@ =~= cs[tgt as int]);
    }
    let mut k: usize = 0;
    while k < src_nodes.len()
        invariant
            0 <= k <= src_nodes@.len(),
            t@ == cs[tgt as int] + src_nodes@.subrange(0, k as int),
        decreases src_nodes@.len() - k,
    {
        t.push(src_nodes[k]);
        proof {
            assert(src_nodes@.subrange(0, k + 1) == src_nodes@.subrange(0, k as int).push(src_nodes@[k as int]));
        }
        k = k + 1;
    }
    let ghost joined = t@;
    proof {
        assert(src_nodes@.subrange(0, src_nodes@.len() as int) == src_nodes@);
        assert(src_nodes@ == cs[src as int]);
        assert forall|v: i32| joined.contains(v) <==> cs[src as int].contains(v) || cs[tgt as int].contains(v) by {
            let a = cs[tgt as int];
            let b = cs[src as int];
            if joined.contains(v) {
                let j = choose|j: int| 0 <= j < joined.len() && joined[j] == v;
                if j < a.len() {
                    assert(a[j] == v);
                } else {
                    assert(b[j - a.len()] == v);
                }
            }
            if a.contains(v) {
                let j = choose|j: int| 0 <= j < a.len() && a[j] == v;
                assert(joined[j] == v);
            }
            if b.contains(v) {
                let j = choose|j: int| 0 <= j < b.len() && b[j] == v;
                assert(joined[j + a.len()] == v);
            }
        }
        assert(joined.no_duplicates()) by {
            let a = cs[tgt as int];
            let b = cs[src as int];
            assert forall|i: int, j: int| 0 <= i < j < joined.len() implies joined[i] != joined[j] by {
                if j < a.len() {
                } else if i >= a.len() {
                    assert(joined[i] == b[i - a.len()] && joined[j] == b[j - a.len()]);
                } else {
                    assert(joined[i] == a[i]);
                    assert(joined[j] == b[j - a.len()]);
                    assert(a.contains(a[i]));
                    if a[i] == b[j - a.len()] {
                        assert(b.contains(a[i]));
                    }
                }
            }
        }
    }
    sort_i32(&mut t);
    proof {
        crate::cycle_family::lemma_same_ms(joined, t@);
        lemma_strict(t@);
        lemma_merge(cs, src as int, tgt as int, t@);
    }
    let ghost c1 = cl@;
    cl.set(actual, t);
    proof {
        assert(crate::cycle_family::views(cl@) == cs.remove(src as int).update(shifted(tgt as int, src as int), t@));
        assert forall|i: int| 0 <= i < cl@.len() implies strictly_sorted(#[trigger] cl@[i]@) by {
            if i != actual {
                assert(cl@[i] == c1[i]);
                if i < src {
                    assert(c1[i] == old(cl)@[i]);
                } else {
                    assert(c1[i] == old(cl)@[i + 1]);
                }
            }
        }
    }
}

/// For each vertex of a cluster, the index of a cluster that holds it.
fn cluster_index_map(cl: &Vec<Vec<i32>>) -> (m: HashMap<i32, usize>)
    ensures
        forall|v: i32| #[trigger] m@.contains_key(v) ==> m@[v] < cl@.len() && cl@[m@[v] as int]@.contains(v),
        forall|i: int, v: i32| 0 <= i < cl@.len() && #[trigger] cl@[i]@.contains(v) ==> m@.contains_key(v),
{
    let mut m: HashMap<i32, usize> = HashMap::new();
    let mut i: usize = 0;
    while i < cl.len()
        invariant
            0 <= i <= cl@.len(),
            forall|v: i32| #[trigger] m@.contains_key(v) ==> m@[v] < cl@.len() && cl@[m@[v] as int]@.contains(v),
            forall|a: int, v: i32| 0 <= a < i && #[trigger] cl@[a]@.contains(v) ==> m@.contains_key(v),
        decreases cl@.len() - i,
    {
        let c = &cl[i];
        let mut j: usize = 0;
        while j < c.len()
            invariant
                0 <= i < cl@.len(),
                c@ == cl@[i as int]@,
                0 <= j <= c@.len(),
                forall|v: i32| #[trigger] m@.contains_key(v) ==> m@[v] < cl@.len() && cl@[m@[v] as int]@.contains(v),
                forall|a: int, v: i32| 0 <= a < i && #[trigger] cl@[a]@.contains(v) ==> m@.contains_key(v),
                forall|t: int| 0 <= t < j ==> m@.contains_key(#[trigger] c@[t]),
            decreases c@.len() - j,
        {
            m.insert(c[j], i);
            proof {
                assert(c@.contains(c@[j as int]));
            }
            j = j + 1;
        }
        proof {
            assert forall|a: int, v: i32| 0 <= a < i + 1 && #[trigger] cl@[a]@.contains(v) implies m@.contains_key(v) by {
                if a == i {
                    let t = choose|t: int| 0 <= t < c@.len() && c@[t] == v;
                    assert(m@.contains_key(c@[t]));
                }
            }
        }
        i = i + 1;
    }
    m
}

/// Linear membership test on indices.
fn contains_index(l: &Vec<usize>, x: usize) -> (b: bool)
    ensures
        b == l@.contains(x),
{
    let mut i: usize = 0;
    while i < l.len()
        invariant
            0 <= i <= l@.len(),
            forall|k: int| 0 <= k < i ==> l@[k] != x,
        decreases l@.len() - i,
    {
        if l[i] == x {
            return true;
        }
        i = i + 1;
    }
    false
}

/// Cluster `oc` is not `src` and holds a neighbour of a vertex of cluster `src`.
pub open spec fn clusters_adjacent(g: Graph, cl: Seq<Vec<i32>>, m: Map<i32, usize>, src: int, oc: usize) -> bool {
    oc != src && exists|i: int, x: i32|
        0 <= i < cl[src]@.len() && #[trigger] g.has_edge(cl[src]@[i], x) && m.contains_key(x) && m[x] == oc
}

/// Cluster `src` has exactly one adjacent cluster, `oc`.
pub open spec fn leaf_of(g: Graph, cl: Seq<Vec<i32>>, m: Map<i32, usize>, src: int, oc: usize) -> bool {
    clusters_adjacent(g, cl, m, src, oc) && forall|o: usize| #[trigger] clusters_adjacent(g, cl, m, src, o) ==> o == oc
}

/// The distinct clusters other than `src` holding a neighbour of a vertex of
/// cluster `src`, in order of discovery.
fn neighbour_clusters(g: &Graph, cl: &Vec<Vec<i32>>, m: &HashMap<i32, usize>, src: usize) -> (r: Vec<usize>)
    requires
        src < cl@.len(),
        forall|v: i32| #[trigger] m@.contains_key(v) ==> m@[v] < cl@.len(),
    ensures
        r@.no_duplicates(),
        forall|t: int| 0 <= t < r@.len() ==> #[trigger] r@[t] < cl@.len() && r@[t] != src,
        forall|o: usize| r@.contains(o) <==> clusters_adjacent(*g, cl@, m@, src as int, o),
{
    let mut r: Vec<usize> = Vec::new();
    let c = &cl[src];
    let mut k: usize = 0;
    while k < c.len()
        invariant
            src < cl@.len(),
            c@ == cl@[src as int]@,
            forall|v: i32| #[trigger] m@.contains_key(v) ==> m@[v] < cl@.len(),
            0 <= k <= c@.len(),
            r@.no_duplicates(),
            forall|t: int| 0 <= t < r@.len() ==> #[trigger] r@[t] < cl@.len() && r@[t] != src,
            forall|o: usize| r@.contains(o) ==> clusters_adjacent(*g, cl@, m@, src as int, o),
            forall|i: int, x: i32|
                0 <= i < k && #[trigger] g.has_edge(c@[i], x) && m@.contains_key(x) && m@[x] != src ==> r@.contains(m@[x]),
        decreases c@.len() - k,
    {
        match g.neighbors(c[k]) {
            Some(nbrs) => {
                let mut t: usize = 0;
                while t < nbrs.len()
                    invariant
                        src < cl@.len(),
                        c@ == cl@[src as int]@,
                        0 <= k < c@.len(),
                        g.adj().contains_key(c@[k as int]),
                        nbrs@ == g.adj()[c@[k as int]],
                        forall|v: i32| #[trigger] m@.contains_key(v) ==> m@[v] < cl@.len(),
                        0 <= t <= nbrs@.len(),
                        r@.no_duplicates(),
                        forall|q: int| 0 <= q < r@.len() ==> #[trigger] r@[q] < cl@.len() && r@[q] != src,
                        forall|o: usize| r@.contains(o) ==> clusters_adjacent(*g, cl@, m@, src as int, o),
                        forall|i: int, x: i32|
                            0 <= i < k && #[trigger] g.has_edge(c@[i], x) && m@.contains_key(x) && m@[x] != src ==> r@.contains(m@[x]),
                        forall|q: int| 0 <= q < t && m@.contains_key(#[trigger] nbrs@[q]) && m@[nbrs@[q]] != src ==> r@.contains(m@[nbrs@[q]]),
                    decreases nbrs@.len() - t,
                {
                    let x = nbrs[t];
                    match m.get(&x) {
                        Some(oc) => {
                            let oc = *oc;
                            proof {
                                assert(g.has_edge(c@[k as int], x)) by {
                                    assert(nbrs@[t as int] == x);
                                }
                                assert(clusters_adjacent(*g, cl@, m@, src as int, m@[x]) || m@[x] == src);
                            }
                            if oc != src && !contains_index(&r, oc) {
                                let ghost r0 = r@;
                                r.push(oc);
                                proof {
                                    assert(r@[r0.len() as int] == oc);
                                    assert forall|o: usize| r@.contains(o) implies clusters_adjacent(*g, cl@, m@, src as int, o) by {
                                        if o != oc {
                                            let w = choose|w: int| 0 <= w < r@.len() && r@[w] == o;
                                            assert(r0[w] == o);
                                            assert(r0.contains(o));
                                        } else {
                                            assert(g.has_edge(cl@[src as int]@[k as int], x));
                                            assert(m@[x] == oc);
                                        }
                                    }
                                    assert forall|v: usize| r0.contains(v) implies r@.contains(v) by {
                                        let w = choose|w: int| 0 <= w < r0.len() && r0[w] == v;
                                        assert(r@[w] == v);
                                    }
                                }
                            }
                        },
                        None => {},
                    }
                    t = t + 1;
                }
                proof {
                    assert forall|i: int, x: i32|
                        0 <= i < k + 1 && #[trigger] g.has_edge(c@[i], x) && m@.contains_key(x) && m@[x] != src implies r@.contains(m@[x]) by {
                        if i == k {
                            let q = choose|q: int| 0 <= q < nbrs@.len() && nbrs@[q] == x;
                            assert(m@.contains_key(nbrs@[q]));
                        }
                    }
                }
            },
            None => {},
        }
        k = k + 1;
    }
    proof {
        assert forall|o: usize| clusters_adjacent(*g, cl@, m@, src as int, o) implies r@.contains(o) by {
            let (i, x) = choose|i: int, x: i32|
                0 <= i < cl@[src as int]@.len() && #[trigger] g.has_edge(cl@[src as int]@[i], x) && m@.contains_key(x) && m@[x] == o;
            assert(g.has_edge(c@[i], x));
        }
    }
    r
}

/// Cluster `o` is another cluster of `cl` that holds a neighbour of a vertex of cluster `s`.
pub open spec fn clusters_touch(g: Graph, cl: Seq<Seq<i32>>, s: int, o: int) -> bool {
    0 <= o < cl.len() && o != s && exists|i: int, x: i32|
        0 <= i < cl[s].len() && #[trigger] g.has_edge(cl[s][i], x) && cl[o].contains(x)
}

/// Cluster `s` touches exactly one other cluster.
pub open spec fn is_leaf_cluster(g: Graph, cl: Seq<Seq<i32>>, s: int) -> bool {
    exists|o: int| #[trigger] clusters_touch(g, cl, s, o) && forall|o2: int| #[trigger] clusters_touch(g, cl, s, o2) ==> o2 == o
}

/// Over an index map of disjoint clusters, adjacency by the map is touching.
proof fn lemma_adjacent_touch(g: Graph, cl: Seq<Vec<i32>>, m: Map<i32, usize>, s: int, o: usize)
    requires
        disjoint_clusters(crate::cycle_family::views(cl)),
        0 <= s < cl.len(),
        forall|v: i32| #[trigger] m.contains_key(v) ==> m[v] < cl.len() && cl[m[v] as int]@.contains(v),
        forall|i: int, v: i32| 0 <= i < cl.len() && #[trigger] cl[i]@.contains(v) ==> m.contains_key(v),
    ensures
        clusters_adjacent(g, cl, m, s, o) <==> clusters_touch(g, crate::cycle_family::views(cl), s, o as int),
{
    let cv = crate::cycle_family::views(cl);
    assert(cv[s] == cl[s]@);
    if clusters_adjacent(g, cl, m, s, o) {
        let (i, x) = choose|i: int, x: i32| 0 <= i < cl[s]@.len() && #[trigger] g.has_edge(cl[s]@[i], x) && m.contains_key(x) && m[x] == o;
        assert(cv[o as int] == cl[o as int]@);
        assert(g.has_edge(cv[s][i], x));
    }
    if clusters_touch(g, cv, s, o as int) {
        let (i, x) = choose|i: int, x: i32| 0 <= i < cv[s].len() && #[trigger] g.has_edge(cv[s][i], x) && cv[o as int].contains(x);
        assert(cv[o as int] == cl[o as int]@);
        assert(m.contains_key(x));
        let mo = m[x] as int;
        assert(cv[mo] == cl[mo]@);
        assert(cv[mo].contains(x));
        assert(mo == o);
        assert(g.has_edge(cl[s]@[i], x));
    }
}

/// The first cluster with exactly one neighbouring cluster, paired with that neighbour.
fn find_leaf(g: &Graph, cl: &Vec<Vec<i32>>, m: &HashMap<i32, usize>) -> (r: Option<(usize, usize)>)
    requires
        forall|v: i32| #[trigger] m@.contains_key(v) ==> m@[v] < cl@.len(),
    ensures
        r matches Some(p) ==> p.0 < cl@.len() && p.1 < cl@.len() && p.0 != p.1,
        r matches Some(p) ==> leaf_of(*g, cl@, m@, p.0 as int, p.1) && forall|s: int, o: usize|
            0 <= s < p.0 ==> !#[trigger] leaf_of(*g, cl@, m@, s, o),
        r is None ==> forall|s: int, o: usize| 0 <= s < cl@.len() ==> !#[trigger] leaf_of(*g, cl@, m@, s, o),
{
    let mut src: usize = 0;
    while src < cl.len()
        invariant
            forall|v: i32| #[trigger] m@.contains_key(v) ==> m@[v] < cl@.len(),
            0 <= src <= cl@.len(),
            forall|s: int, o: usize| 0 <= s < src ==> !#[trigger] leaf_of(*g, cl@, m@, s, o),
        decreases cl@.len() - src,
    {
        let nb = neighbour_clusters(g, cl, m, src);
        if nb.len() == 1 {
            proof {
                assert(nb@.contains(nb@[0]));
                assert forall|o: usize| #[trigger] clusters_adjacent(*g, cl@, m@, src as int, o) implies o == nb@[0] by {
                    assert(nb@.contains(o));
                }
            }
            return Some((src, nb[0]));
        }
        proof {
            assert forall|o: usize| !#[trigger] leaf_of(*g, cl@, m@, src as int, o) by {
                if leaf_of(*g, cl@, m@, src as int, o) {
                    assert(nb@.contains(o));
                    if nb@.len() >= 2 {
                        assert(nb@.contains(nb@[0]) && nb@.contains(nb@[1]));
                        assert(clusters_adjacent(*g, cl@, m@, src as int, nb@[0]));
                        assert(clusters_adjacent(*g, cl@, m@, src as int, nb@[1]));
                    }
                }
            }
        }
        src = src + 1;
    }
    None
}

/// The cluster indices ordered by cluster size, equal sizes in index order.
fn indices_by_size(cl: &Vec<Vec<i32>>) -> (r: Vec<usize>)
    ensures
        r@.len() == cl@.len(),
        forall|t: int| 0 <= t < r@.len() ==> #[trigger] r@[t] < cl@.len(),
        forall|i: usize| i < cl@.len() ==> r@.contains(i),
{
    let n = cl.len();
    let mut r: Vec<usize> = Vec::new();
    let mut i: usize = 0;
    while i < n
        invariant
            n == cl@.len(),
            0 <= i <= n,
            r@.len() == i,
            forall|t: int| 0 <= t < r@.len() ==> #[trigger] r@[t] < n,
            forall|t: int| 0 <= t < r@.len() ==> #[trigger] r@[t] == t,
        decreases n - i,
    {
        r.push(i);
        i = i + 1;
    }
    proof {
        assert forall|v: usize| v < n implies r@.contains(v) by {
            assert(r@[v as int] == v);
        }
    }
    let mut i: usize = 1;
    while i < n
        invariant
            n == cl@.len(),
            r@.len() == n,
            1 <= i || n == 0,
            forall|t: int| 0 <= t < r@.len() ==> #[trigger] r@[t] < n,
            forall|v: usize| v < n ==> r@.contains(v),
        decreases n - i,
    {
        let mut j: usize = i;
        while j > 0 && cl[r[j - 1]].len() > cl[r[j]].len()
            invariant
                n == cl@.len(),
                r@.len() == n,
                0 <= j <= i < n,
                forall|t: int| 0 <= t < r@.len() ==> #[trigger] r@[t] < n,
                forall|v: usize| v < n ==> r@.contains(v),
            decreases j,
        {
            let ghost rb = r@;
            let x = r[j - 1];
            let y = r[j];
            r.set(j - 1, y);
            r.set(j, x);
            proof {
                let kk = j as int;
                assert forall|v: usize| v < n implies r@.contains(v) by {
                    assert(rb.contains(v));
                    let q = choose|q: int| 0 <= q < n && rb[q] == v;
                    assert(r@[swapped(kk, q)] == v);
                }
            }
            j = j - 1;
        }
        i = i + 1;
    }
    r
}

/// For the smallest cluster (in size order) that has a neighbouring cluster,
/// that cluster and the neighbour it shares most edges with (on ties the
/// smaller neighbour, then the lower index).
fn find_size_merge(g: &Graph, cl: &Vec<Vec<i32>>, m: &HashMap<i32, usize>) -> (r: Option<(usize, usize)>)
    requires
        forall|v: i32| #[trigger] m@.contains_key(v) ==> m@[v] < cl@.len(),
    ensures
        r matches Some(p) ==> p.0 < cl@.len() && p.1 < cl@.len() && p.0 != p.1,
        r matches Some(p) ==> clusters_adjacent(*g, cl@, m@, p.0 as int, p.1),
        r is None ==> forall|s: int, o: usize| 0 <= s < cl@.len() ==> !#[trigger] clusters_adjacent(*g, cl@, m@, s, o),
{
    let n = cl.len();
    let order = indices_by_size(cl);
    let mut oi: usize = 0;
    while oi < n
        invariant
            n == cl@.len(),
            order@.len() == n,
            forall|t: int| 0 <= t < order@.len() ==> #[trigger] order@[t] < n,
            forall|v: i32| #[trigger] m@.contains_key(v) ==> m@[v] < cl@.len(),
            0 <= oi <= n,
            forall|i: usize| i < n ==> order@.contains(i),
            forall|t: int, o: usize| 0 <= t < oi ==> !#[trigger] clusters_adjacent(*g, cl@, m@, order@[t] as int, o),
        decreases n - oi,
    {
        let src = order[oi];
        let mut counts: Vec<usize> = Vec::new();
        let mut z: usize = 0;
        while z < n
            invariant
                0 <= z <= n,
                counts@.len() == z,
                forall|q: int| 0 <= q < z ==> #[trigger] counts@[q] == 0,
            decreases n - z,
        {
            counts.push(0);
            z = z + 1;
        }
        let c = &cl[src];
        let mut k: usize = 0;
        while k < c.len()
            invariant
                n == cl@.len(),
                src < n,
                counts@.len() == n,
                forall|v: i32| #[trigger] m@.contains_key(v) ==> m@[v] < cl@.len(),
                0 <= k <= c@.len(),
                c@ == cl@[src as int]@,
                forall|o: int| 0 <= o < n && #[trigger] counts@[o] > 0 ==> clusters_adjacent(*g, cl@, m@, src as int, o as usize),
                forall|i: int, x: i32|
                    0 <= i < k && #[trigger] g.has_edge(c@[i], x) && m@.contains_key(x) && m@[x] != src ==> counts@[m@[x] as int] > 0,
            decreases c@.len() - k,
        {
            match g.neighbors(c[k]) {
                Some(nbrs) => {
                    let mut t: usize = 0;
                    while t < nbrs.len()
                        invariant
                            n == cl@.len(),
                            src < n,
                            counts@.len() == n,
                            forall|v: i32| #[trigger] m@.contains_key(v) ==> m@[v] < cl@.len(),
                            0 <= t <= nbrs@.len(),
                            0 <= k < c@.len(),
                            c@ == cl@[src as int]@,
                            g.adj().contains_key(c@[k as int]),
                            nbrs@ == g.adj()[c@[k as int]],
                            forall|o: int| 0 <= o < n && #[trigger] counts@[o] > 0 ==> clusters_adjacent(*g, cl@, m@, src as int, o as usize),
                            forall|i: int, x: i32|
                                0 <= i < k && #[trigger] g.has_edge(c@[i], x) && m@.contains_key(x) && m@[x] != src ==> counts@[m@[x] as int] > 0,
                            forall|q: int| 0 <= q < t && m@.contains_key(#[trigger] nbrs@[q]) && m@[nbrs@[q]] != src ==> counts@[m@[nbrs@[q]] as int] > 0,
                        decreases nbrs@.len() - t,
                    {
                        let x = nbrs[t];
                        match m.get(&x) {
                            Some(oc) => {
                                let oc = *oc;
                                proof {
                                    assert(g.has_edge(cl@[src as int]@[k as int], x)) by {
                                        assert(nbrs@[t as int] == x);
                                    }
                                }
                                if oc != src && counts[oc] < usize::MAX {
                                    let bumped = counts[oc] + 1;
                                    counts.set(oc, bumped);
                                }
                            },
                            None => {},
                        }
                        t = t + 1;
                    }
                    proof {
                        assert forall|i: int, x: i32|
                            0 <= i < k + 1 && #[trigger] g.has_edge(c@[i], x) && m@.contains_key(x) && m@[x] != src implies counts@[m@[x] as int] > 0 by {
                            if i == k {
                                let q = choose|q: int| 0 <= q < nbrs@.len() && nbrs@[q] == x;
                                assert(m@.contains_key(nbrs@[q]));
                            }
                        }
                    }
                },
                None => {},
            }
            k = k + 1;
        }
        let mut best: Option<usize> = None;
        let mut best_score: usize = 0;
        let mut best_size: usize = usize::MAX;
        let mut oc: usize = 0;
        while oc < n
            invariant
                n == cl@.len(),
                src < n,
                counts@.len() == n,
                0 <= oc <= n,
                best matches Some(b) ==> b < n && b != src && counts@[b as int] > 0,
                best is None ==> forall|o: int| 0 <= o < oc && o != src ==> #[trigger] counts@[o] == 0,
                best is None ==> best_score == 0,
                c@ == cl@[src as int]@,
                forall|o: int| 0 <= o < n && #[trigger] counts@[o] > 0 ==> clusters_adjacent(*g, cl@, m@, src as int, o as usize),
                forall|i: int, x: i32|
                    0 <= i < c@.len() && #[trigger] g.has_edge(c@[i], x) && m@.contains_key(x) && m@[x] != src ==> counts@[m@[x] as int] > 0,
                forall|v: i32| #[trigger] m@.contains_key(v) ==> m@[v] < cl@.len(),
            decreases n - oc,
        {
            let cnt = counts[oc];
            if oc != src && cnt > 0 {
                let size = cl[oc].len();
                if cnt > best_score || (cnt == best_score && size < best_size) {
                    best_score = cnt;
                    best_size = size;
                    best = Some(oc);
                }
            }
            oc = oc + 1;
        }
        match best {
            Some(b) => {
                return Some((src, b));
            },
            None => {},
        }
        proof {
            assert forall|o: usize| !#[trigger] clusters_adjacent(*g, cl@, m@, src as int, o) by {
                if clusters_adjacent(*g, cl@, m@, src as int, o) {
                    let (i, x) = choose|i: int, x: i32|
                        0 <= i < cl@[src as int]@.len() && #[trigger] g.has_edge(cl@[src as int]@[i], x) && m@.contains_key(x) && m@[x] == o;
                    assert(g.has_edge(c@[i], x));
                    assert(counts@[o as int] > 0);
                }
            }
            assert forall|t: int, o: usize| 0 <= t < oi + 1 implies !#[trigger] clusters_adjacent(*g, cl@, m@, order@[t] as int, o) by {
                if t == oi {
                    assert(order@[t] == src);
                }
            }
        }
        oi = oi + 1;
    }
    proof {
        assert forall|s: int, o: usize| 0 <= s < cl@.len() implies !#[trigger] clusters_adjacent(*g, cl@, m@, s, o) by {
            assert(order@.contains(s as usize));
            let t = choose|t: int| 0 <= t < order@.len() && order@[t] == s as usize;
            assert(!clusters_adjacent(*g, cl@, m@, order@[t] as int, o));
        }
    }
    None
}

/// Exchanging two adjacent clusters keeps the clusters disjoint and the
/// covered set unchanged.
proof fn lemma_swap_clusters(cl: Seq<Seq<i32>>, j: int)
    requires
        disjoint_clusters(cl),
        1 <= j < cl.len(),
    ensures
        disjoint_clusters(cl.update(j - 1, cl[j]).update(j, cl[j - 1])),
        forall|v: i32| covers(cl.update(j - 1, cl[j]).update(j, cl[j - 1]), v) <==> covers(cl, v),
{
    let c2 = cl.update(j - 1, cl[j]).update(j, cl[j - 1]);
    let perm = |i: int| if i == j { j - 1 } else if i == j - 1 { j } else { i };
    assert forall|i: int| 0 <= i < c2.len() implies c2[i] == cl[perm(i)] by {
    }
    assert forall|i: int, k: int, v: i32|
        0 <= i < c2.len() && 0 <= k < c2.len() && i != k && #[trigger] c2[i].contains(v) implies !#[trigger] c2[k].contains(v) by {
        assert(c2[i] == cl[perm(i)]);
        assert(c2[k] == cl[perm(k)]);
    }
    assert forall|i: int| 0 <= i < c2.len() implies (#[trigger] c2[i]).len() > 0 && c2[i].no_duplicates() by {
        assert(c2[i] == cl[perm(i)]);
    }
    assert forall|v: i32| covers(c2, v) <==> covers(cl, v) by {
        if covers(c2, v) {
            let i = choose|i: int| 0 <= i < c2.len() && #[trigger] c2[i].contains(v);
            assert(c2[i] == cl[perm(i)]);
            assert(cl[perm(i)].contains(v));
        }
        if covers(cl, v) {
            let i = choose|i: int| 0 <= i < cl.len() && #[trigger] cl[i].contains(v);
            assert(c2[perm(i)] == cl[i]);
        }
    }
}

/// Swapping two neighbouring clusters keeps them separated.
proof fn lemma_swap_separated(g: Graph, cl: Seq<Seq<i32>>, j: int)
    requires
        separated(g, cl),
        disjoint_clusters(cl),
        1 <= j < cl.len(),
    ensures
        separated(g, cl.update(j - 1, cl[j]).update(j, cl[j - 1])),
{
    let c2 = cl.update(j - 1, cl[j]).update(j, cl[j - 1]);
    lemma_swap_clusters(cl, j);
    let perm = |i: int| if i == j { j - 1 } else if i == j - 1 { j } else { i };
    assert forall|a: int, i: int, x: i32|
        0 <= a < c2.len() && 0 <= i < c2[a].len() && #[trigger] g.has_edge(c2[a][i], x) && covers(c2, x) implies c2[a].contains(x) by {
        assert(c2[a] == cl[perm(a)]);
        assert(covers(cl, x));
        assert(g.has_edge(cl[perm(a)][i], x));
    }
}

/// Distinct clusters start with distinct vertices.
proof fn lemma_first_distinct(cl: Seq<Seq<i32>>, a: int, b: int)
    requires
        disjoint_clusters(cl),
        0 <= a < cl.len(),
        0 <= b < cl.len(),
        a != b,
    ensures
        cl[a][0] != cl[b][0],
{
    assert(cl[a].len() > 0 && cl[b].len() > 0);
    assert(cl[a].contains(cl[a][0]));
    assert(cl[b].contains(cl[b][0]));
}

/// Orders the clusters by their first (smallest) vertex.
fn sort_by_first(cl: &mut Vec<Vec<i32>>, Ghost(g): Ghost<Graph>)
    requires
        disjoint_clusters(crate::cycle_family::views(old(cl)@)),
        forall|i: int| 0 <= i < old(cl)@.len() ==> strictly_sorted(#[trigger] old(cl)@[i]@),
    ensures
        separated(g, crate::cycle_family::views(old(cl)@)) ==> separated(g, crate::cycle_family::views(final(cl)@)),
        final(cl)@.len() == old(cl)@.len(),
        disjoint_clusters(crate::cycle_family::views(final(cl)@)),
        forall|v: i32| covers(crate::cycle_family::views(final(cl)@), v) <==> covers(crate::cycle_family::views(old(cl)@), v),
        forall|i: int| 0 <= i < final(cl)@.len() ==> strictly_sorted(#[trigger] final(cl)@[i]@),
        forall|a: int, b: int| 0 <= a < b < final(cl)@.len() ==> final(cl)@[a]@[0] < final(cl)@[b]@[0],
{
    let n = cl.len();
    if n == 0 {
        return;
    }
    proof {
        assert forall|k: int| 0 <= k < cl@.len() implies (#[trigger] cl@[k])@.len() > 0 by {
            assert(crate::cycle_family::views(cl@)[k] == cl@[k]@);
        }
    }
    let mut i: usize = 1;
    while i < n
        invariant
            n == cl@.len(),
            1 <= i <= n,
            forall|k: int| 0 <= k < cl@.len() ==> (#[trigger] cl@[k])@.len() > 0,
            disjoint_clusters(crate::cycle_family::views(cl@)),
            forall|v: i32| covers(crate::cycle_family::views(cl@), v) <==> covers(crate::cycle_family::views(old(cl)@), v),
            forall|k: int| 0 <= k < cl@.len() ==> strictly_sorted(#[trigger] cl@[k]@),
            forall|a: int, b: int| 0 <= a < b < i ==> cl@[a]@[0] < cl@[b]@[0],
            separated(g, crate::cycle_family::views(old(cl)@)) ==> separated(g, crate::cycle_family::views(cl@)),
        decreases n - i,
    {
        let mut j: usize = i;
        while j > 0 && cl[j - 1][0] > cl[j][0]
            invariant
                n == cl@.len(),
                1 <= i < n,
                0 <= j <= i,
                forall|k: int| 0 <= k < cl@.len() ==> (#[trigger] cl@[k])@.len() > 0,
                disjoint_clusters(crate::cycle_family::views(cl@)),
                forall|v: i32| covers(crate::cycle_family::views(cl@), v) <==> covers(crate::cycle_family::views(old(cl)@), v),
                forall|k: int| 0 <= k < cl@.len() ==> strictly_sorted(#[trigger] cl@[k]@),
                forall|a: int, b: int| 0 <= a < b <= i && a != j && b != j ==> cl@[a]@[0] < cl@[b]@[0],
                forall|a: int| j < a <= i ==> cl@[j as int]@[0] < cl@[a]@[0],
                separated(g, crate::cycle_family::views(old(cl)@)) ==> separated(g, crate::cycle_family::views(cl@)),
            decreases j,
        {
            proof {
                assert(crate::cycle_family::views(cl@)[j as int] == cl@[j as int]@);
                assert(cl@[j as int]@.len() > 0);
                assert(cl@[j - 1]@.len() > 0);
            }
            let ghost before = cl@;
            let x = cl.remove(j);
            cl.insert(j - 1, x);
            proof {
                assert(cl@ == before.update(j - 1, before[j as int]).update(j as int, before[j - 1]));
                let vb = crate::cycle_family::views(before);
                lemma_swap_clusters(vb, j as int);
                assert(crate::cycle_family::views(cl@) == vb.update(j - 1, vb[j as int]).update(j as int, vb[j - 1]));
                if separated(g, vb) {
                    lemma_swap_separated(g, vb, j as int);
                }
                assert forall|k: int| 0 <= k < cl@.len() implies strictly_sorted(#[trigger] cl@[k]@) && cl@[k]@.len() > 0 by {
                    if k == j - 1 {
                        assert(cl@[k] == before[j as int]);
                    } else if k == j {
                        assert(cl@[k] == before[j - 1]);
                    } else {
                        assert(cl@[k] == before[k]);
                    }
                }
            }
            j = j - 1;
        }
        proof {
            assert forall|a: int, b: int| 0 <= a < b < i + 1 implies cl@[a]@[0] < cl@[b]@[0] by {
                let vc = crate::cycle_family::views(cl@);
                assert(vc[a] == cl@[a]@ && vc[b] == cl@[b]@);
                lemma_first_distinct(vc, a, b);
                if a == j && j > 0 {
                    assert(vc[j - 1] == cl@[j - 1]@);
                    lemma_first_distinct(vc, j - 1, a);
                }
            }
        }
        i = i + 1;
    }
}

/// The vertex sets of a list of modules.
pub open spec fn module_sets(r: Seq<GadgetModule>) -> Seq<Seq<i32>> {
    r.map_values(|m: GadgetModule| m.vertices@)
}

/// The directed edges of `g` leaving the vertex set `vs`.
pub open spec fn leaves(g: Graph, vs: Seq<i32>, e: (i32, i32)) -> bool {
    vs.contains(e.0) && g.has_edge(e.0, e.1) && !vs.contains(e.1)
}

/// The edges leaving cluster `idx` (sorted, each once), given the map from
/// vertex to cluster.
fn boundary_of(g: &Graph, cl: &Vec<Vec<i32>>, m: &HashMap<i32, usize>, idx: usize) -> (be: Vec<(i32, i32)>)
    requires
        g.wf(),
        idx < cl@.len(),
        disjoint_clusters(crate::cycle_family::views(cl@)),
        forall|v: i32| #[trigger] m@.contains_key(v) ==> m@[v] < cl@.len() && cl@[m@[v] as int]@.contains(v),
        forall|i: int, v: i32| 0 <= i < cl@.len() && #[trigger] cl@[i]@.contains(v) ==> m@.contains_key(v),
        forall|v: i32| g.adj().contains_key(v) ==> covers(crate::cycle_family::views(cl@), v),
    ensures
        pairs_sorted(be@),
        forall|e: (i32, i32)| be@.contains(e) <==> leaves(*g, cl@[idx as int]@, e),
{
    proof {
        g.lemma_wf();
    }
    let ghost cs = crate::cycle_family::views(cl@);
    let c = &cl[idx];
    let mut be: Vec<(i32, i32)> = Vec::new();
    let mut k: usize = 0;
    while k < c.len()
        invariant
            g.wf(),
            forall|a: i32, x: i32| #[trigger] g.has_edge(a, x) ==> g.adj().contains_key(x),
            cs == crate::cycle_family::views(cl@),
            idx < cl@.len(),
            c@ == cl@[idx as int]@,
            disjoint_clusters(cs),
            forall|v: i32| #[trigger] m@.contains_key(v) ==> m@[v] < cl@.len() && cl@[m@[v] as int]@.contains(v),
            forall|i: int, v: i32| 0 <= i < cl@.len() && #[trigger] cl@[i]@.contains(v) ==> m@.contains_key(v),
            forall|v: i32| g.adj().contains_key(v) ==> covers(cs, v),
            0 <= k <= c@.len(),
            pairs_sorted(be@),
            forall|e: (i32, i32)| be@.contains(e) <==> leaves(*g, c@, e) && c@.subrange(0, k as int).contains(e.0),
        decreases c@.len() - k,
    {
        let u = c[k];
        let ghost pk = c@.subrange(0, k as int);
        let ghost pk1 = c@.subrange(0, k + 1);
        proof {
            assert(pk1 == pk.push(u));
            assert forall|x: i32| pk1.contains(x) <==> pk.contains(x) || x == u by {
                if pk.contains(x) {
                    let j = choose|j: int| 0 <= j < pk.len() && pk[j] == x;
                    assert(pk1[j] == x);
                }
                if pk1.contains(x) && x != u {
                    let j = choose|j: int| 0 <= j < pk1.len() && pk1[j] == x;
                    assert(pk[j] == x);
                }
                if x == u {
                    assert(pk1[pk.len() as int] == u);
                }
            }
            assert(c@.contains(u));
        }
        match g.neighbors(u) {
            Some(nbrs) => {
                let mut t: usize = 0;
                while t < nbrs.len()
                    invariant
                        g.wf(),
                        forall|a: i32, x: i32| #[trigger] g.has_edge(a, x) ==> g.adj().contains_key(x),
                        cs == crate::cycle_family::views(cl@),
                        idx < cl@.len(),
                        c@ == cl@[idx as int]@,
                        c@.contains(u),
                        disjoint_clusters(cs),
                        forall|v: i32| #[trigger] m@.contains_key(v) ==> m@[v] < cl@.len() && cl@[m@[v] as int]@.contains(v),
                        forall|i: int, v: i32| 0 <= i < cl@.len() && #[trigger] cl@[i]@.contains(v) ==> m@.contains_key(v),
                        forall|v: i32| g.adj().contains_key(v) ==> covers(cs, v),
                        g.adj().contains_key(u),
                        nbrs@ == g.adj()[u],
                        forall|x: i32| pk1.contains(x) <==> pk.contains(x) || x == u,
                        0 <= t <= nbrs@.len(),
                        pairs_sorted(be@),
                        forall|e: (i32, i32)| be@.contains(e) <==> leaves(*g, c@, e) && (pk.contains(e.0) || (e.0 == u
                            && nbrs@.subrange(0, t as int).contains(e.1))),
                    decreases nbrs@.len() - t,
                {
                    let v = nbrs[t];
                    let ghost q0 = nbrs@.subrange(0, t as int);
                    let ghost q1 = nbrs@.subrange(0, t + 1);
                    proof {
                        assert(q1 == q0.push(v));
                        assert forall|x: i32| q1.contains(x) <==> q0.contains(x) || x == v by {
                            if q0.contains(x) {
                                let j = choose|j: int| 0 <= j < q0.len() && q0[j] == x;
                                assert(q1[j] == x);
                            }
                            if q1.contains(x) && x != v {
                                let j = choose|j: int| 0 <= j < q1.len() && q1[j] == x;
                                assert(q0[j] == x);
                            }
                            if x == v {
                                assert(q1[q0.len() as int] == v);
                            }
                        }
                        assert(g.adj()[u][t as int] == v);
                        assert(g.has_edge(u, v));
                        assert(g.adj().contains_key(v));
                        assert(covers(cs, v));
                        let i = choose|i: int| 0 <= i < cs.len() && #[trigger] cs[i].contains(v);
                        assert(cs[i] == cl@[i]@);
                        assert(m@.contains_key(v));
                        let mi = m@[v] as int;
                        assert(cs[mi] == cl@[mi]@);
                        assert(cs[idx as int] == c@);
                        if mi != idx {
                            assert(!cs[idx as int].contains(v));
                        }
                    }
                    let ghost b0 = be@;
                    match m.get(&v) {
                        Some(om) => {
                            if *om != idx {
                                insert_pair_sorted(&mut be, (u, v));
                            }
                        },
                        None => {},
                    }
                    proof {
                        assert forall|e: (i32, i32)| be@.contains(e) <==> leaves(*g, c@, e) && (pk.contains(e.0) || (e.0 == u
                            && q1.contains(e.1))) by {
                            if e == (u, v) {
                                if leaves(*g, c@, e) {
                                    assert(m@[v] != idx);
                                }
                            }
                        }
                    }
                    t = t + 1;
                }
                proof {
                    assert(nbrs@.subrange(0, nbrs@.len() as int) == nbrs@);
                    assert forall|e: (i32, i32)| be@.contains(e) <==> leaves(*g, c@, e) && pk1.contains(e.0) by {
                        if e.0 == u && leaves(*g, c@, e) {
                            assert(g.adj()[u].contains(e.1));
                        }
                    }
                }
            },
            None => {
                proof {
                    assert forall|e: (i32, i32)| be@.contains(e) <==> leaves(*g, c@, e) && pk1.contains(e.0) by {
                    }
                }
            },
        }
        k = k + 1;
    }
    proof {
        assert(c@.subrange(0, c@.len() as int) == c@);
    }
    be
}

/// Whether `a` and `b` share an entry.
fn share_entry(a: &Vec<i32>, b: &Vec<i32>) -> (r: bool)
    ensures
        r == exists|x: i32| a@.contains(x) && b@.contains(x),
{
    let mut i: usize = 0;
    while i < a.len()
        invariant
            0 <= i <= a@.len(),
            forall|k: int| 0 <= k < i ==> !b@.contains(#[trigger] a@[k]),
        decreases a@.len() - i,
    {
        if vec_contains(b, a[i]) {
            assert(a@.contains(a@[i as int]));
            return true;
        }
        i = i + 1;
    }
    proof {
        assert forall|x: i32| a@.contains(x) implies !b@.contains(x) by {
            let k = choose|k: int| 0 <= k < a@.len() && a@[k] == x;
        }
    }
    false
}

/// The graph of the edges `{u, v}` of `g` whose ends have a common neighbour,
/// and whether there is any.
fn strong_graph(g: &Graph, vertices: &Vec<i32>) -> (r: (Graph, bool))
    requires
        g.wf(),
    ensures
        r.0.wf(),
        forall|a: i32, b: i32| #[trigger] r.0.has_edge(a, b) <==> strong_pair(*g, vertices@, a, b) || strong_pair(*g, vertices@, b, a),
        r.1 <==> exists|a: i32, b: i32| #[trigger] strong_pair(*g, vertices@, a, b),
{
    let mut sg = Graph::new();
    let mut any = false;
    let mut k: usize = 0;
    while k < vertices.len()
        invariant
            sg.wf(),
            0 <= k <= vertices@.len(),
            forall|a: i32, b: i32| #[trigger] sg.has_edge(a, b) ==> strong_pair(*g, vertices@, a, b) || strong_pair(*g, vertices@, b, a),
            forall|q: int, b: i32| 0 <= q < k && #[trigger] strong_pair(*g, vertices@, vertices@[q], b) ==> sg.has_edge(vertices@[q], b) && sg.has_edge(b, vertices@[q]),
            any <==> exists|a: i32, b: i32| #[trigger] sg.has_edge(a, b),
        decreases vertices@.len() - k,
    {
        let u = vertices[k];
        proof {
            assert(vertices@.contains(u)) by {
                assert(vertices@[k as int] == u);
            }
        }
        match g.neighbors(u) {
            Some(nbrs) => {
                let mut t: usize = 0;
                while t < nbrs.len()
                    invariant
                        sg.wf(),
                        0 <= k < vertices@.len(),
                        u == vertices@[k as int],
                        vertices@.contains(u),
                        g.adj().contains_key(u),
                        nbrs@ == g.adj()[u],
                        0 <= t <= nbrs@.len(),
                        forall|a: i32, b: i32| #[trigger] sg.has_edge(a, b) ==> strong_pair(*g, vertices@, a, b) || strong_pair(*g, vertices@, b, a),
                        forall|q: int, b: i32| 0 <= q < k && #[trigger] strong_pair(*g, vertices@, vertices@[q], b) ==> sg.has_edge(vertices@[q], b) && sg.has_edge(b, vertices@[q]),
                        forall|q: int| 0 <= q < t && #[trigger] strong_pair(*g, vertices@, u, nbrs@[q]) ==> sg.has_edge(u, nbrs@[q]) && sg.has_edge(nbrs@[q], u),
                        any <==> exists|a: i32, b: i32| #[trigger] sg.has_edge(a, b),
                    decreases nbrs@.len() - t,
                {
                    let v = nbrs[t];
                    proof {
                        assert(g.has_edge(u, v)) by {
                            assert(nbrs@[t as int] == v);
                        }
                    }
                    if u < v {
                        match g.neighbors(v) {
                            Some(vn) => {
                                if share_entry(nbrs, vn) {
                                    let ghost m0 = sg.adj();
                                    let ghost sg0 = sg;
                                    proof {
                                        assert(strong_pair(*g, vertices@, u, v));
                                    }
                                    sg.add_edge(u, v);
                                    proof {
                                        assert forall|a: i32, b: i32| #[trigger] sg.has_edge(a, b) implies strong_pair(*g, vertices@, a, b)
                                            || strong_pair(*g, vertices@, b, a) by {
                                            crate::modular_ring_dp_solver::lemma_add_edge_relation(m0, u, v, a, b);
                                            if m0.contains_key(a) && m0[a].contains(b) {
                                                assert(sg0.has_edge(a, b));
                                            }
                                        }
                                        assert forall|q: int, b: i32| 0 <= q < k && #[trigger] strong_pair(*g, vertices@, vertices@[q], b) implies sg.has_edge(vertices@[q], b) && sg.has_edge(b, vertices@[q]) by {
                                            crate::modular_ring_dp_solver::lemma_add_edge_relation(m0, u, v, vertices@[q], b);
                                            crate::modular_ring_dp_solver::lemma_add_edge_relation(m0, u, v, b, vertices@[q]);
                                        }
                                        assert forall|q: int| 0 <= q < t + 1 && #[trigger] strong_pair(*g, vertices@, u, nbrs@[q]) implies sg.has_edge(u, nbrs@[q]) && sg.has_edge(nbrs@[q], u) by {
                                            crate::modular_ring_dp_solver::lemma_add_edge_relation(m0, u, v, u, nbrs@[q]);
                                            crate::modular_ring_dp_solver::lemma_add_edge_relation(m0, u, v, nbrs@[q], u);
                                        }
                                        assert(sg.has_edge(u, v));
                                    }
                                    any = true;
                                } else {
                                    proof {
                                        assert(!strong_pair(*g, vertices@, u, nbrs@[t as int]));
                                    }
                                }
                            },
                            None => {},
                        }
                    }
                    t = t + 1;
                }
                proof {
                    assert forall|q: int, b: i32| 0 <= q < k + 1 && #[trigger] strong_pair(*g, vertices@, vertices@[q], b) implies sg.has_edge(vertices@[q], b) && sg.has_edge(b, vertices@[q]) by {
                        if q == k {
                            let w = choose|w: int| 0 <= w < nbrs@.len() && nbrs@[w] == b;
                            assert(strong_pair(*g, vertices@, u, nbrs@[w]));
                        }
                    }
                }
            },
            None => {},
        }
        k = k + 1;
    }
    proof {
        assert forall|a: i32, b: i32| #[trigger] sg.has_edge(a, b) <==> strong_pair(*g, vertices@, a, b) || strong_pair(*g, vertices@, b, a) by {
            if strong_pair(*g, vertices@, a, b) {
                let q = choose|q: int| 0 <= q < vertices@.len() && vertices@[q] == a;
                assert(strong_pair(*g, vertices@, vertices@[q], b));
                assert(sg.has_edge(a, b));
                assert(sg.adj()[a].contains(b));
            }
            if strong_pair(*g, vertices@, b, a) {
                let q = choose|q: int| 0 <= q < vertices@.len() && vertices@[q] == b;
                assert(strong_pair(*g, vertices@, vertices@[q], a));
                assert(sg.has_edge(a, b));
            }
        }
        if exists|a: i32, b: i32| #[trigger] strong_pair(*g, vertices@, a, b) {
            let (a, b) = choose|a: i32, b: i32| #[trigger] strong_pair(*g, vertices@, a, b);
            assert(sg.has_edge(a, b));
        }
        if any {
            let (a, b) = choose|a: i32, b: i32| #[trigger] sg.has_edge(a, b);
            if strong_pair(*g, vertices@, b, a) {
            }
        }
    }
    (sg, any)
}

/// `u` is listed, `u < v`, the two are joined in `g` and share a neighbour.
pub open spec fn strong_pair(g: Graph, vs: Seq<i32>, u: i32, v: i32) -> bool {
    &&& vs.contains(u)
    &&& g.has_edge(u, v)
    &&& u < v
    &&& g.adj().contains_key(v)
    &&& exists|x: i32| g.adj()[u].contains(x) && g.adj()[v].contains(x)
}

/// Some cluster among the first `n` of `cl` holds `v`.
pub open spec fn covers_upto(cl: Seq<Seq<i32>>, n: int, v: i32) -> bool {
    exists|i: int| 0 <= i < n && #[trigger] cl[i].contains(v)
}

/// Splits every cluster larger than `max_size` into breadth-first chunks of at
/// most `max_size` vertices; other clusters are kept.
fn subdivide(g: &Graph, initial: &Vec<Vec<i32>>, max_size: usize, s: Ghost<Set<i32>>) -> (raw: Vec<Vec<i32>>)
    requires
        g.wf(),
        max_size >= 1,
        is_partition(crate::cycle_family::views(initial@), s@),
        forall|i: int| 0 <= i < initial@.len() ==> strictly_sorted(#[trigger] initial@[i]@),
    ensures
        is_partition(crate::cycle_family::views(raw@), s@),
        forall|i: int| 0 <= i < raw@.len() ==> strictly_sorted(#[trigger] raw@[i]@),
{
    let ghost iv = crate::cycle_family::views(initial@);
    let mut raw: Vec<Vec<i32>> = Vec::new();
    let mut i: usize = 0;
    while i < initial.len()
        invariant
            g.wf(),
            max_size >= 1,
            iv == crate::cycle_family::views(initial@),
            is_partition(iv, s@),
            forall|q: int| 0 <= q < initial@.len() ==> strictly_sorted(#[trigger] initial@[q]@),
            0 <= i <= initial@.len(),
            is_partition(crate::cycle_family::views(raw@), Set::new(|v: i32| covers_upto(iv, i as int, v))),
            forall|q: int| 0 <= q < raw@.len() ==> strictly_sorted(#[trigger] raw@[q]@),
        decreases initial@.len() - i,
    {
        let comp = &initial[i];
        let ghost cv = comp@;
        proof {
            assert(iv[i as int] == cv);
            assert forall|v: i32| cv.contains(v) implies !covers_upto(iv, i as int, v) by {
                if covers_upto(iv, i as int, v) {
                    let q = choose|q: int| 0 <= q < i && #[trigger] iv[q].contains(v);
                    assert(iv[i as int].contains(v));
                }
            }
            assert forall|v: i32| covers_upto(iv, i + 1, v) <==> covers_upto(iv, i as int, v) || cv.contains(v) by {
                if covers_upto(iv, i + 1, v) {
                    let q = choose|q: int| 0 <= q < i + 1 && #[trigger] iv[q].contains(v);
                    if q < i {
                        assert(covers_upto(iv, i as int, v));
                    }
                }
                if covers_upto(iv, i as int, v) {
                    let q = choose|q: int| 0 <= q < i && #[trigger] iv[q].contains(v);
                    assert(covers_upto(iv, i + 1, v));
                }
            }
        }
        if comp.len() <= max_size {
            let ghost r0 = raw@;
            let copy = comp.clone();
            assert(copy@ =~= cv);
            proof {
                lemma_partition_push(
                    crate::cycle_family::views(r0),
                    Set::new(|v: i32| covers_upto(iv, i as int, v)),
                    cv,
                    Set::new(|v: i32| covers_upto(iv, i + 1, v)),
                );
            }
            raw.push(copy);
            proof {
                assert(crate::cycle_family::views(raw@) == crate::cycle_family::views(r0).push(cv));
                assert forall|q: int| 0 <= q < raw@.len() implies strictly_sorted(#[trigger] raw@[q]@) by {
                    if q < r0.len() {
                        assert(raw@[q] == r0[q]);
                    }
                }
            }
        } else {
            let sub = chunk_partition(g, comp, max_size);
            let ghost sv = crate::cycle_family::views(sub@);
            let mut j: usize = 0;
            while j < sub.len()
                invariant
                    g.wf(),
                    iv == crate::cycle_family::views(initial@),
                    sv == crate::cycle_family::views(sub@),
                    is_partition(sv, cv.to_set()),
                    forall|q: int| 0 <= q < sub@.len() ==> strictly_sorted(#[trigger] sub@[q]@),
                    forall|v: i32| cv.contains(v) ==> !covers_upto(iv, i as int, v),
                    0 <= j <= sub@.len(),
                    is_partition(
                        crate::cycle_family::views(raw@),
                        Set::new(|v: i32| covers_upto(iv, i as int, v) || covers_upto(sv, j as int, v)),
                    ),
                    forall|q: int| 0 <= q < raw@.len() ==> strictly_sorted(#[trigger] raw@[q]@),
                decreases sub@.len() - j,
            {
                let ghost r0 = raw@;
                let copy = sub[j].clone();
                assert(copy@ =~= sv[j as int]);
                proof {
                    assert forall|v: i32| sv[j as int].contains(v) implies !(covers_upto(iv, i as int, v) || covers_upto(sv, j as int, v)) by {
                        assert(covers(sv, v));
                        assert(cv.to_set().contains(v));
                        if covers_upto(sv, j as int, v) {
                            let q = choose|q: int| 0 <= q < j && #[trigger] sv[q].contains(v);
                            assert(sv[j as int].contains(v));
                        }
                    }
                    assert forall|v: i32| (covers_upto(iv, i as int, v) || covers_upto(sv, j + 1, v)) <==> (covers_upto(iv, i as int, v)
                        || covers_upto(sv, j as int, v)) || sv[j as int].contains(v) by {
                        if covers_upto(sv, j + 1, v) {
                            let q = choose|q: int| 0 <= q < j + 1 && #[trigger] sv[q].contains(v);
                            if q < j {
                                assert(covers_upto(sv, j as int, v));
                            }
                        }
                        if covers_upto(sv, j as int, v) {
                            let q = choose|q: int| 0 <= q < j && #[trigger] sv[q].contains(v);
                            assert(covers_upto(sv, j + 1, v));
                        }
                    }
                    lemma_partition_push(
                        crate::cycle_family::views(r0),
                        Set::new(|v: i32| covers_upto(iv, i as int, v) || covers_upto(sv, j as int, v)),
                        sv[j as int],
                        Set::new(|v: i32| covers_upto(iv, i as int, v) || covers_upto(sv, j + 1, v)),
                    );
                }
                raw.push(copy);
                proof {
                    assert(crate::cycle_family::views(raw@) == crate::cycle_family::views(r0).push(sv[j as int]));
                    assert forall|q: int| 0 <= q < raw@.len() implies strictly_sorted(#[trigger] raw@[q]@) by {
                        if q < r0.len() {
                            assert(raw@[q] == r0[q]);
                        }
                    }
                }
                j = j + 1;
            }
            proof {
                assert(Set::new(|v: i32| covers_upto(iv, i as int, v) || covers_upto(sv, sub@.len() as int, v)) =~= Set::new(
                    |v: i32| covers_upto(iv, i + 1, v),
                )) by {
                    assert forall|v: i32| covers_upto(sv, sub@.len() as int, v) <==> cv.contains(v) by {
                        assert(covers_upto(sv, sub@.len() as int, v) <==> covers(sv, v));
                        assert(cv.to_set().contains(v) <==> cv.contains(v));
                        assert(covers(sv, v) <==> cv.to_set().contains(v));
                    }
                    assert forall|v: i32| (covers_upto(iv, i as int, v) || covers_upto(sv, sub@.len() as int, v)) <==> covers_upto(
                        iv,
                        i + 1,
                        v,
                    ) by {
                        assert(covers_upto(iv, i + 1, v) <==> covers_upto(iv, i as int, v) || cv.contains(v));
                    }
                }
            }
        }
        i = i + 1;
    }
    proof {
        assert(Set::new(|v: i32| covers_upto(iv, initial@.len() as int, v)) =~= s@) by {
            assert forall|v: i32| covers_upto(iv, initial@.len() as int, v) <==> covers(iv, v) by {
            }
        }
    }
    raw
}

/// What holds of the gadget modules of `g`: they partition the vertex set,
/// each is identified by its position and lists its vertices in increasing
/// order, they are ordered by their smallest vertex, and each lists (sorted,
/// each once) exactly the edges of `g` that leave it.
pub open spec fn modules_ok(g: Graph, r: Seq<GadgetModule>) -> bool {
    &&& is_partition(module_sets(r), g.adj().dom())
    &&& forall|m: int| 0 <= m < r.len() ==> (#[trigger] r[m]).id == m && strictly_sorted(r[m].vertices@)
    &&& forall|a: int, b: int| 0 <= a < b < r.len() ==> r[a].vertices@[0] < r[b].vertices@[0]
    &&& forall|m: int|
        0 <= m < r.len() ==> pairs_sorted((#[trigger] r[m]).boundary_edges@) && (forall|e: (i32, i32)|
            r[m].boundary_edges@.contains(e) <==> leaves(g, r[m].vertices@, e))
}

/// Repeatedly folds the first cluster that touches exactly one other cluster
/// into that cluster, while more than two clusters remain (at most 10000 times).
fn merge_leaves(g: &Graph, raw: &mut Vec<Vec<i32>>, s: Ghost<Set<i32>>)
    requires
        is_partition(crate::cycle_family::views(old(raw)@), s@),
        forall|i: int| 0 <= i < old(raw)@.len() ==> strictly_sorted(#[trigger] old(raw)@[i]@),
    ensures
        is_partition(crate::cycle_family::views(final(raw)@), s@),
        forall|i: int| 0 <= i < final(raw)@.len() ==> strictly_sorted(#[trigger] final(raw)@[i]@),
        final(raw)@.len() <= old(raw)@.len(),
        final(raw)@.len() <= 2 || final(raw)@.len() + 10000 == old(raw)@.len() || forall|c: int|
            0 <= c < final(raw)@.len() ==> !#[trigger] is_leaf_cluster(*g, crate::cycle_family::views(final(raw)@), c),
        separated(*g, crate::cycle_family::views(old(raw)@)) ==> final(raw)@ == old(raw)@,
{
    let ghost sep0 = separated(*g, crate::cycle_family::views(raw@));
    let mut loops: usize = 0;
    let mut go = true;
    while go && raw.len() > 2 && loops < 10000
        invariant
            sep0 == separated(*g, crate::cycle_family::views(old(raw)@)),
            sep0 ==> raw@ == old(raw)@,
            is_partition(crate::cycle_family::views(raw@), s@),
            forall|i: int| 0 <= i < raw@.len() ==> strictly_sorted(#[trigger] raw@[i]@),
            loops <= 10000,
            raw@.len() + loops == old(raw)@.len() + (if go { 0int } else { 1int }),
            !go ==> loops >= 1,
            !go ==> forall|c: int| 0 <= c < raw@.len() ==> !#[trigger] is_leaf_cluster(*g, crate::cycle_family::views(raw@), c),
        decreases 10000 - loops,
    {
        loops = loops + 1;
        let m = cluster_index_map(raw);
        match find_leaf(g, raw, &m) {
            Some(p) => {
                proof {
                    if sep0 {
                        let cv = crate::cycle_family::views(raw@);
                        lemma_separated_untouched(*g, cv);
                        lemma_adjacent_touch(*g, raw@, m@, p.0 as int, p.1);
                        assert(clusters_touch(*g, cv, p.0 as int, p.1 as int));
                    }
                }
                merge_clusters(raw, p.0, p.1);
            },
            None => {
                proof {
                    let cv = crate::cycle_family::views(raw@);
                    assert forall|c: int| 0 <= c < raw@.len() implies !#[trigger] is_leaf_cluster(*g, cv, c) by {
                        if is_leaf_cluster(*g, cv, c) {
                            let o = choose|o: int| #[trigger] clusters_touch(*g, cv, c, o) && forall|o2: int| #[trigger] clusters_touch(*g, cv, c, o2) ==> o2 == o;
                            lemma_adjacent_touch(*g, raw@, m@, c, o as usize);
                            assert(clusters_adjacent(*g, raw@, m@, c, o as usize));
                            assert forall|o2: usize| #[trigger] clusters_adjacent(*g, raw@, m@, c, o2) implies o2 == o as usize by {
                                lemma_adjacent_touch(*g, raw@, m@, c, o2);
                                assert(clusters_touch(*g, cv, c, o2 as int));
                            }
                            assert(leaf_of(*g, raw@, m@, c, o as usize));
                        }
                    }
                }
                go = false;
            },
        }
    }
}

/// While more than 120 clusters remain (at most 10000 times), folds the
/// smallest cluster that touches another into the neighbour it shares most
/// edges with.
fn merge_small(g: &Graph, raw: &mut Vec<Vec<i32>>, s: Ghost<Set<i32>>)
    requires
        is_partition(crate::cycle_family::views(old(raw)@), s@),
        forall|i: int| 0 <= i < old(raw)@.len() ==> strictly_sorted(#[trigger] old(raw)@[i]@),
    ensures
        is_partition(crate::cycle_family::views(final(raw)@), s@),
        forall|i: int| 0 <= i < final(raw)@.len() ==> strictly_sorted(#[trigger] final(raw)@[i]@),
        final(raw)@.len() <= old(raw)@.len(),
        final(raw)@.len() <= 120 || final(raw)@.len() + 10000 == old(raw)@.len() || forall|c: int, o: int|
            0 <= c < final(raw)@.len() ==> !#[trigger] clusters_touch(*g, crate::cycle_family::views(final(raw)@), c, o),
{
    let mut loops: usize = 0;
    let mut go = true;
    while go && raw.len() > 120 && loops < 10000
        invariant
            is_partition(crate::cycle_family::views(raw@), s@),
            forall|i: int| 0 <= i < raw@.len() ==> strictly_sorted(#[trigger] raw@[i]@),
            loops <= 10000,
            raw@.len() + loops == old(raw)@.len() + (if go { 0int } else { 1int }),
            !go ==> loops >= 1,
            !go ==> forall|c: int, o: int| 0 <= c < raw@.len() ==> !#[trigger] clusters_touch(*g, crate::cycle_family::views(raw@), c, o),
        decreases 10000 - loops,
    {
        loops = loops + 1;
        let m = cluster_index_map(raw);
        match find_size_merge(g, raw, &m) {
            Some(p) => {
                merge_clusters(raw, p.0, p.1);
            },
            None => {
                proof {
                    let cv = crate::cycle_family::views(raw@);
                    assert forall|c: int, o: int| 0 <= c < raw@.len() implies !#[trigger] clusters_touch(*g, cv, c, o) by {
                        if clusters_touch(*g, cv, c, o) {
                            lemma_adjacent_touch(*g, raw@, m@, c, o as usize);
                            assert(!clusters_adjacent(*g, raw@, m@, c, o as usize));
                        }
                    }
                }
                go = false;
            },
        }
    }
}

/// The vertex sets of a list of channels.
pub open spec fn channel_sets(r: Seq<ChannelModule>) -> Seq<Seq<i32>> {
    r.map_values(|c: ChannelModule| c.vertices@)
}

/// How many channels a module of `n` vertices is split into: one up to 12
/// vertices, two above.
pub open spec fn channel_width(n: nat) -> int {
    if n <= 12 {
        1
    } else {
        2
    }
}

/// How many channels the modules `ms` give together.
pub open spec fn channel_count(ms: Seq<GadgetModule>) -> int
    decreases ms.len(),
{
    if ms.len() == 0 {
        0
    } else {
        channel_count(ms.drop_last()) + channel_width(ms.last().vertices@.len())
    }
}

/// The channels of module `m`, starting at position `s` of the channel lists
/// `vs` (vertices), `ps` (parent module ids) and `xs` (channel indices): a
/// module of at most 12 vertices is one channel with its vertex list; a
/// larger one of `n` vertices is a first channel of `(n + 1) / 2` of them
/// followed by a second of the other `n / 2`.
pub open spec fn module_channels(m: GadgetModule, vs: Seq<Seq<i32>>, ps: Seq<usize>, xs: Seq<usize>, s: int) -> bool {
    &&& 0 <= s
    &&& s + channel_width(m.vertices@.len()) <= vs.len()
    &&& s + channel_width(m.vertices@.len()) <= ps.len()
    &&& s + channel_width(m.vertices@.len()) <= xs.len()
    &&& ps[s] == m.id
    &&& xs[s] == 0
    &&& if m.vertices@.len() <= 12 {
        vs[s] == m.vertices@
    } else {
        &&& vs[s].len() == (m.vertices@.len() + 1) / 2
        &&& vs[s + 1].len() == m.vertices@.len() / 2
        &&& ps[s + 1] == m.id
        &&& xs[s + 1] == 1
        &&& forall|v: i32| vs[s].contains(v) || vs[s + 1].contains(v) ==> m.vertices@.contains(v)
    }
}

/// The parent module ids of a list of channels.
pub open spec fn channel_parents(r: Seq<ChannelModule>) -> Seq<usize> {
    r.map_values(|c: ChannelModule| c.parent_gadget_id)
}

/// The channel indices of a list of channels.
pub open spec fn channel_indices(r: Seq<ChannelModule>) -> Seq<usize> {
    r.map_values(|c: ChannelModule| c.channel_idx)
}

/// The channels `r` are those of the modules `ms`, module by module in order.
pub open spec fn channels_follow(ms: Seq<GadgetModule>, r: Seq<ChannelModule>) -> bool {
    &&& r.len() == channel_count(ms)
    &&& forall|i: int|
        0 <= i < ms.len() ==> #[trigger] module_channels(
            ms[i],
            channel_sets(r),
            channel_parents(r),
            channel_indices(r),
            channel_count(ms.take(i)),
        )
}

/// What holds of the channels of `g`: they partition the vertex set, each is
/// identified by its position and lists its vertices in increasing order; a
/// second channel directly follows the first channel of the same module; and
/// each lists (sorted, each once) exactly the edges of `g` that leave it.
pub open spec fn channels_ok(g: Graph, r: Seq<ChannelModule>) -> bool {
    &&& is_partition(channel_sets(r), g.adj().dom())
    &&& forall|i: int| 0 <= i < r.len() ==> (#[trigger] r[i]).id == i && strictly_sorted(r[i].vertices@)
    &&& forall|i: int|
        0 <= i < r.len() ==> (#[trigger] r[i]).channel_idx == 0 || (r[i].channel_idx == 1 && i > 0 && r[i - 1].channel_idx == 0
            && r[i - 1].parent_gadget_id == r[i].parent_gadget_id)
    &&& forall|i: int|
        0 <= i < r.len() ==> pairs_sorted((#[trigger] r[i]).boundary_edges@) && (forall|e: (i32, i32)|
            r[i].boundary_edges@.contains(e) <==> leaves(g, r[i].vertices@, e))
}

/// The first entry of `order` still in `remaining`.
fn first_remaining(order: &Vec<i32>, remaining: &HashSet<i32>) -> (r: Option<i32>)
    ensures
        match r {
            Some(x) => remaining@.contains(x) && order@.contains(x),
            None => forall|x: i32| order@.contains(x) ==> !remaining@.contains(x),
        },
{
    let mut i: usize = 0;
    while i < order.len()
        invariant
            0 <= i <= order@.len(),
            forall|k: int| 0 <= k < i ==> !remaining@.contains(#[trigger] order@[k]),
        decreases order@.len() - i,
    {
        if remaining.contains(&order[i]) {
            assert(order@.contains(order@[i as int]));
            return Some(order[i]);
        }
        i = i + 1;
    }
    proof {
        assert forall|x: i32| order@.contains(x) implies !remaining@.contains(x) by {
            let k = choose|k: int| 0 <= k < order@.len() && order@[k] == x;
        }
    }
    None
}

/// Splits the vertex list `vs` of a module into a first channel of
/// `(|vs| + 1) / 2` vertices, grown breadth-first from `start` (then from the
/// smallest vertex left, as often as needed), and a second channel with the rest.
fn split_module(g: &Graph, vs: &Vec<i32>, start: i32) -> (r: (Vec<i32>, Vec<i32>))
    requires
        g.wf(),
        vs@.no_duplicates(),
        vs@.len() >= 2,
    ensures
        strictly_sorted(r.0@),
        strictly_sorted(r.1@),
        r.0@.len() == (vs@.len() + 1) / 2,
        r.1@.len() == vs@.len() / 2,
        r.0@.len() > 0,
        r.1@.len() > 0,
        forall|v: i32| vs@.contains(v) <==> r.0@.contains(v) || r.1@.contains(v),
        forall|v: i32| r.0@.contains(v) ==> !r.1@.contains(v),
{
    let n = vs.len();
    let target = n / 2 + n % 2;
    let mut remaining: HashSet<i32> = HashSet::new();
    let mut k: usize = 0;
    while k < n
        invariant
            n == vs@.len(),
            0 <= k <= n,
            forall|v: i32| remaining@.contains(v) <==> vs@.subrange(0, k as int).contains(v),
        decreases n - k,
    {
        remaining.insert(vs[k]);
        proof {
            let p = vs@.subrange(0, k as int);
            let q = vs@.subrange(0, k + 1);
            assert(q == p.push(vs@[k as int]));
            assert forall|v: i32| remaining@.contains(v) <==> q.contains(v) by {
                if p.contains(v) {
                    let j = choose|j: int| 0 <= j < p.len() && p[j] == v;
                    assert(q[j] == v);
                }
                if q.contains(v) && v != vs@[k as int] {
                    let j = choose|j: int| 0 <= j < q.len() && q[j] == v;
                    assert(p[j] == v);
                }
                if v == vs@[k as int] {
                    assert(q[k as int] == v);
                }
            }
        }
        k = k + 1;
    }
    proof {
        assert(vs@.subrange(0, n as int) == vs@);
        vs@.unique_seq_to_set();
        assert(remaining@ =~= vs@.to_set());
    }
    let ghost rem0 = remaining@;
    let mut chan0: Vec<i32> = bfs_take(g, start, &mut remaining, target);
    let mut go = true;
    while go && chan0.len() < target
        invariant
            g.wf(),
            n == vs@.len(),
            target == (n + 1) / 2,
            forall|v: i32| rem0.contains(v) <==> vs@.contains(v),
            chan0@.no_duplicates(),
            chan0@.len() <= target,
            forall|v: i32| #[trigger] chan0@.contains(v) <==> rem0.contains(v) && !remaining@.contains(v),
            forall|v: i32| remaining@.contains(v) ==> rem0.contains(v),
            !go ==> forall|v: i32| vs@.contains(v) ==> !remaining@.contains(v),
        decreases target - chan0@.len() + (if go { 1int } else { 0int }),
    {
        match first_remaining(vs, &remaining) {
            Some(next_start) => {
                let ghost r1 = remaining@;
                let ghost c0 = chan0@;
                let more = bfs_take(g, next_start, &mut remaining, target - chan0.len());
                let mut t: usize = 0;
                while t < more.len()
                    invariant
                        0 <= t <= more@.len(),
                        chan0@ == c0 + more@.subrange(0, t as int),
                    decreases more@.len() - t,
                {
                    chan0.push(more[t]);
                    proof {
                        assert(more@.subrange(0, t + 1) == more@.subrange(0, t as int).push(more@[t as int]));
                    }
                    t = t + 1;
                }
                proof {
                    assert(more@.subrange(0, more@.len() as int) == more@);
                    assert(more@.len() >= 1);
                    assert forall|v: i32| #[trigger] chan0@.contains(v) <==> rem0.contains(v) && !remaining@.contains(v) by {
                        if chan0@.contains(v) {
                            let j = choose|j: int| 0 <= j < chan0@.len() && chan0@[j] == v;
                            if j < c0.len() {
                                assert(c0[j] == v);
                                assert(c0.contains(v));
                            } else {
                                assert(more@[j - c0.len()] == v);
                                assert(more@.contains(v));
                            }
                        }
                        if rem0.contains(v) && !remaining@.contains(v) {
                            if r1.contains(v) {
                                assert(more@.contains(v));
                                let j = choose|j: int| 0 <= j < more@.len() && more@[j] == v;
                                assert(chan0@[j + c0.len()] == v);
                            } else {
                                assert(c0.contains(v));
                                let j = choose|j: int| 0 <= j < c0.len() && c0[j] == v;
                                assert(chan0@[j] == v);
                            }
                        }
                    }
                    assert forall|i: int, j: int| 0 <= i < j < chan0@.len() implies chan0@[i] != chan0@[j] by {
                        if j < c0.len() {
                        } else if i >= c0.len() {
                            assert(chan0@[i] == more@[i - c0.len()] && chan0@[j] == more@[j - c0.len()]);
                        } else {
                            assert(chan0@[i] == c0[i]);
                            assert(c0.contains(c0[i]));
                            assert(chan0@[j] == more@[j - c0.len()]);
                            assert(more@.contains(more@[j - c0.len()]));
                        }
                    }
                }
            },
            None => {
                go = false;
            },
        }
    }
    let mut chan1: Vec<i32> = Vec::new();
    let mut k: usize = 0;
    while k < n
        invariant
            n == vs@.len(),
            vs@.no_duplicates(),
            0 <= k <= n,
            forall|v: i32| chan1@.contains(v) <==> vs@.subrange(0, k as int).contains(v) && remaining@.contains(v),
            forall|a: int, b: int| 0 <= a < b < chan1@.len() ==> chan1@[a] != chan1@[b],
        decreases n - k,
    {
        let v = vs[k];
        let ghost p = vs@.subrange(0, k as int);
        let ghost q = vs@.subrange(0, k + 1);
        proof {
            assert(q == p.push(v));
            assert forall|x: i32| q.contains(x) <==> p.contains(x) || x == v by {
                if p.contains(x) {
                    let j = choose|j: int| 0 <= j < p.len() && p[j] == x;
                    assert(q[j] == x);
                }
                if q.contains(x) && x != v {
                    let j = choose|j: int| 0 <= j < q.len() && q[j] == x;
                    assert(p[j] == x);
                }
                if x == v {
                    assert(q[k as int] == v);
                }
            }
            assert(!p.contains(v)) by {
                if p.contains(v) {
                    let j = choose|j: int| 0 <= j < p.len() && p[j] == v;
                    assert(vs@[j] == vs@[k as int]);
                }
            }
        }
        if remaining.contains(&v) {
            let ghost c1 = chan1@;
            chan1.push(v);
            proof {
                assert forall|x: i32| chan1@.contains(x) <==> q.contains(x) && remaining@.contains(x) by {
                    if chan1@.contains(x) && x != v {
                        let j = choose|j: int| 0 <= j < chan1@.len() && chan1@[j] == x;
                        assert(c1[j] == x);
                    }
                    if c1.contains(x) {
                        let j = choose|j: int| 0 <= j < c1.len() && c1[j] == x;
                        assert(chan1@[j] == x);
                    }
                    if x == v {
                        assert(chan1@[c1.len() as int] == v);
                    }
                }
                assert forall|a: int, b: int| 0 <= a < b < chan1@.len() implies chan1@[a] != chan1@[b] by {
                    if b == c1.len() {
                        assert(c1.contains(chan1@[a]));
                    }
                }
            }
        }
        k = k + 1;
    }
    proof {
        assert(vs@.subrange(0, n as int) == vs@);
        assert(rem0 == vs@.to_set());
        assert(rem0.len() == n);
        chan0@.unique_seq_to_set();
        assert(chan0@.len() == target) by {
            if chan0@.len() < target {
                assert(!go);
                assert forall|v: i32| chan0@.to_set().contains(v) <==> rem0.contains(v) by {
                    if rem0.contains(v) {
                        assert(vs@.contains(v));
                        assert(!remaining@.contains(v));
                        assert(chan0@.contains(v));
                    }
                }
                assert(chan0@.to_set() =~= rem0);
            }
        }
        assert(chan1@.no_duplicates());
        assert(chan1@.len() > 0) by {
            chan0@.unique_seq_to_set();
            assert(chan0@.to_set().subset_of(rem0));
            if chan1@.len() == 0 {
                assert forall|v: i32| rem0.contains(v) implies chan0@.to_set().contains(v) by {
                    if !chan0@.contains(v) {
                        assert(remaining@.contains(v));
                        assert(vs@.subrange(0, n as int).contains(v));
                        assert(chan1@.contains(v));
                    }
                }
                assert(chan0@.to_set() =~= rem0);
            }
        }
    }
    let c0s = sorted_copy(&chan0);
    let c1s = sorted_copy(&chan1);
    proof {
        crate::cycle_family::lemma_same_ms(chan0@, c0s@);
        crate::cycle_family::lemma_same_ms(chan1@, c1s@);
        lemma_strict(c0s@);
        lemma_strict(c1s@);
        let a = c0s@;
        let b = c1s@;
        assert(a.no_duplicates()) by {
            assert forall|x: int, y: int| 0 <= x < a.len() && 0 <= y < a.len() && x != y implies a[x] != a[y] by {
                if x < y {
                    assert(a[x] < a[y]);
                } else {
                    assert(a[y] < a[x]);
                }
            }
        }
        assert(b.no_duplicates()) by {
            assert forall|x: int, y: int| 0 <= x < b.len() && 0 <= y < b.len() && x != y implies b[x] != b[y] by {
                if x < y {
                    assert(b[x] < b[y]);
                } else {
                    assert(b[y] < b[x]);
                }
            }
        }
        a.unique_seq_to_set();
        b.unique_seq_to_set();
        vs@.unique_seq_to_set();
        assert(a.to_set().disjoint(b.to_set()));
        assert(a.to_set() + b.to_set() =~= vs@.to_set());
        vstd::set_lib::lemma_set_disjoint_lens(a.to_set(), b.to_set());
    }
    (c0s, c1s)
}

impl MetagraphRouter {
    /// Partitions the graph into gadget modules (connected clusters of
    /// vertices), aiming at `|V| / 40` vertices per module, between 25 and 80,
    /// for graphs of more than 100 vertices, and at 25 otherwise.
    pub fn detect_gadget_modules(g: &Graph) -> (r: Vec<GadgetModule>)
        requires
            g.wf(),
        ensures
            modules_ok(*g, r@),
            r@.len() <= 120 || r@.len() + 10000 <= g.adj().dom().len() || separated(*g, module_sets(r@)),
    {
        let n = g.num_vertices();
        let target_size = if n > 100 {
            let q = n / 40;
            if q < 25 {
                25
            } else if q > 80 {
                80
            } else {
                q
            }
        } else {
            25
        };
        Self::detect_gadget_modules_with_size(g, target_size)
    }

    /// Splits each gadget module of more than 12 vertices into two channels:
    /// the first, of half the vertices (rounded up), grown breadth-first from
    /// the tail of the module's first boundary edge; the second with the rest.
    /// Smaller modules become one channel.
    pub fn detect_dual_channels(g: &Graph) -> (r: Vec<ChannelModule>)
        requires
            g.wf(),
        ensures
            channels_ok(*g, r@),
            exists|ms: Seq<GadgetModule>|
                modules_ok(*g, ms) && #[trigger] channels_follow(ms, r@) && (ms.len() <= 120 || ms.len() + 10000
                    <= g.adj().dom().len() || separated(*g, module_sets(ms))),
    {
        let modules = Self::detect_gadget_modules(g);
        Self::channels_of_modules(g, &modules)
    }

    /// The channels of the gadget modules `modules` of `g`, module by module:
    /// a module of at most 12 vertices is one channel; a larger one is split
    /// into a first channel of half its vertices (rounded up), grown
    /// breadth-first from the tail of its first boundary edge, and a second
    /// with the rest.
    pub fn channels_of_modules(g: &Graph, modules: &Vec<GadgetModule>) -> (r: Vec<ChannelModule>)
        requires
            g.wf(),
            modules_ok(*g, modules@),
        ensures
            channels_ok(*g, r@),
            channels_follow(modules@, r@),
    {
        let ghost ms = module_sets(modules@);
        let ghost dom = g.adj().dom();
        let mut sets: Vec<Vec<i32>> = Vec::new();
        let mut parents: Vec<usize> = Vec::new();
        let mut idxs: Vec<usize> = Vec::new();
        let mut i: usize = 0;
        while i < modules.len()
            invariant
                g.wf(),
                dom == g.adj().dom(),
                modules_ok(*g, modules@),
                ms == module_sets(modules@),
                0 <= i <= modules@.len(),
                is_partition(crate::cycle_family::views(sets@), Set::new(|v: i32| covers_upto(ms, i as int, v))),
                forall|q: int| 0 <= q < sets@.len() ==> strictly_sorted(#[trigger] sets@[q]@),
                parents@.len() == sets@.len(),
                idxs@.len() == sets@.len(),
                forall|q: int|
                    0 <= q < idxs@.len() ==> #[trigger] idxs@[q] == 0 || (idxs@[q] == 1 && q > 0 && idxs@[q - 1] == 0
                        && parents@[q - 1] == parents@[q]),
                sets@.len() == channel_count(modules@.take(i as int)),
                forall|j: int|
                    0 <= j < i ==> #[trigger] module_channels(
                        modules@[j],
                        crate::cycle_family::views(sets@),
                        parents@,
                        idxs@,
                        channel_count(modules@.take(j)),
                    ),
            decreases modules@.len() - i,
        {
            let module = &modules[i];
            proof {
                assert(modules@.take(i + 1).drop_last() =~= modules@.take(i as int));
                assert(modules@.take(i + 1).last() == modules@[i as int]);
            }
            let ghost cv = module.vertices@;
            proof {
                assert(ms[i as int] == cv);
                assert(ms[i as int].len() > 0 && ms[i as int].no_duplicates());
                assert forall|v: i32| cv.contains(v) implies !covers_upto(ms, i as int, v) by {
                    if covers_upto(ms, i as int, v) {
                        let q = choose|q: int| 0 <= q < i && #[trigger] ms[q].contains(v);
                        assert(ms[i as int].contains(v));
                    }
                }
                assert forall|v: i32| covers_upto(ms, i + 1, v) <==> covers_upto(ms, i as int, v) || cv.contains(v) by {
                    if covers_upto(ms, i + 1, v) {
                        let q = choose|q: int| 0 <= q < i + 1 && #[trigger] ms[q].contains(v);
                        if q < i {
                            assert(covers_upto(ms, i as int, v));
                        }
                    }
                    if covers_upto(ms, i as int, v) {
                        let q = choose|q: int| 0 <= q < i && #[trigger] ms[q].contains(v);
                        assert(covers_upto(ms, i + 1, v));
                    }
                }
            }
            let ghost s0 = sets@;
            let ghost i0 = idxs@;
            let ghost p0 = parents@;
            if module.vertices.len() <= 12 {
                let copy = module.vertices.clone();
                assert(copy@ =~= cv);
                proof {
                    lemma_partition_push(
                        crate::cycle_family::views(s0),
                        Set::new(|v: i32| covers_upto(ms, i as int, v)),
                        cv,
                        Set::new(|v: i32| covers_upto(ms, i + 1, v)),
                    );
                }
                sets.push(copy);
                parents.push(module.id);
                idxs.push(0);
                proof {
                    assert(crate::cycle_family::views(sets@) == crate::cycle_family::views(s0).push(cv));
                    assert forall|q: int| 0 <= q < sets@.len() implies strictly_sorted(#[trigger] sets@[q]@) by {
                        if q < s0.len() {
                            assert(sets@[q] == s0[q]);
                        }
                    }
                    assert forall|q: int|
                        0 <= q < idxs@.len() implies #[trigger] idxs@[q] == 0 || (idxs@[q] == 1 && q > 0 && idxs@[q - 1] == 0
                            && parents@[q - 1] == parents@[q]) by {
                        if q < i0.len() {
                            assert(idxs@[q] == i0[q]);
                            if q > 0 {
                                assert(idxs@[q - 1] == i0[q - 1] && parents@[q - 1] == p0[q - 1] && parents@[q] == p0[q]);
                            }
                        }
                    }
                }
            } else {
                let mut start = module.vertices[0];
                if module.boundary_edges.len() > 0 {
                    let tail = module.boundary_edges[0].0;
                    if vec_contains(&module.vertices, tail) {
                        start = tail;
                    }
                }
                let pair = split_module(g, &module.vertices, start);
                let c0 = pair.0;
                let c1 = pair.1;
                let ghost a = c0@;
                let ghost b = c1@;
                proof {
                    assert forall|v: i32| a.contains(v) implies !covers_upto(ms, i as int, v) by {
                        assert(cv.contains(v));
                    }
                    lemma_partition_push(
                        crate::cycle_family::views(s0),
                        Set::new(|v: i32| covers_upto(ms, i as int, v)),
                        a,
                        Set::new(|v: i32| covers_upto(ms, i as int, v) || a.contains(v)),
                    );
                    assert forall|v: i32| b.contains(v) implies !(covers_upto(ms, i as int, v) || a.contains(v)) by {
                        assert(cv.contains(v));
                    }
                    assert forall|v: i32| covers_upto(ms, i + 1, v) <==> (covers_upto(ms, i as int, v) || a.contains(v)) || b.contains(v) by {
                        assert(covers_upto(ms, i + 1, v) <==> covers_upto(ms, i as int, v) || cv.contains(v));
                        assert(cv.contains(v) <==> a.contains(v) || b.contains(v));
                    }
                    lemma_partition_push(
                        crate::cycle_family::views(s0).push(a),
                        Set::new(|v: i32| covers_upto(ms, i as int, v) || a.contains(v)),
                        b,
                        Set::new(|v: i32| covers_upto(ms, i + 1, v)),
                    );
                }
                sets.push(c0);
                sets.push(c1);
                parents.push(module.id);
                parents.push(module.id);
                idxs.push(0);
                idxs.push(1);
                proof {
                    assert(crate::cycle_family::views(sets@) == crate::cycle_family::views(s0).push(a).push(b));
                    assert forall|q: int| 0 <= q < sets@.len() implies strictly_sorted(#[trigger] sets@[q]@) by {
                        if q < s0.len() {
                            assert(sets@[q] == s0[q]);
                        }
                    }
                    assert forall|q: int|
                        0 <= q < idxs@.len() implies #[trigger] idxs@[q] == 0 || (idxs@[q] == 1 && q > 0 && idxs@[q - 1] == 0
                            && parents@[q - 1] == parents@[q]) by {
                        if q < i0.len() {
                            assert(idxs@[q] == i0[q]);
                            if q > 0 {
                                assert(idxs@[q - 1] == i0[q - 1] && parents@[q - 1] == p0[q - 1] && parents@[q] == p0[q]);
                            }
                        }
                    }
                }
            }
            proof {
                let vn = crate::cycle_family::views(sets@);
                let vo = crate::cycle_family::views(s0);
                assert forall|k: int| 0 <= k < s0.len() implies vn[k] == vo[k] && parents@[k] == p0[k] && idxs@[k] == i0[k] by {
                }
                assert forall|j: int| 0 <= j < i + 1 implies #[trigger] module_channels(
                    modules@[j],
                    vn,
                    parents@,
                    idxs@,
                    channel_count(modules@.take(j)),
                ) by {
                    if j < i {
                        assert(module_channels(modules@[j], vo, p0, i0, channel_count(modules@.take(j))));
                        let st = channel_count(modules@.take(j));
                        assert(vn[st] == vo[st]);
                        if modules@[j].vertices@.len() > 12 {
                            assert(vn[st + 1] == vo[st + 1]);
                        }
                    } else {
                        let st = s0.len() as int;
                        assert(channel_count(modules@.take(j)) == st);
                        assert(vn[st] == sets@[st]@);
                        assert(parents@[st] == modules@[j].id);
                        assert(idxs@[st] == 0);
                        if modules@[j].vertices@.len() > 12 {
                            assert(vn[st + 1] == sets@[st + 1]@);
                            assert(sets@.len() == st + 2);
                            assert(vn[st].len() == (modules@[j].vertices@.len() + 1) / 2);
                            assert(vn[st + 1].len() == modules@[j].vertices@.len() / 2);
                            assert(forall|v: i32| vn[st].contains(v) || vn[st + 1].contains(v) ==> modules@[j].vertices@.contains(v));
                        } else {
                            assert(sets@.len() == st + 1);
                            assert(vn[st] == modules@[j].vertices@);
                        }
                    }
                }
            }
            i = i + 1;
        }
        proof {
            assert(Set::new(|v: i32| covers_upto(ms, modules@.len() as int, v)) =~= dom) by {
                assert forall|v: i32| covers_upto(ms, modules@.len() as int, v) <==> covers(ms, v) by {
                }
            }
        }
        let m = cluster_index_map(&sets);
        let ghost sv = crate::cycle_family::views(sets@);
        let mut out: Vec<ChannelModule> = Vec::new();
        let mut idx: usize = 0;
        while idx < sets.len()
            invariant
                g.wf(),
                sv == crate::cycle_family::views(sets@),
                is_partition(sv, dom),
                dom == g.adj().dom(),
                forall|q: int| 0 <= q < sets@.len() ==> strictly_sorted(#[trigger] sets@[q]@),
                parents@.len() == sets@.len(),
                idxs@.len() == sets@.len(),
                forall|q: int|
                    0 <= q < idxs@.len() ==> #[trigger] idxs@[q] == 0 || (idxs@[q] == 1 && q > 0 && idxs@[q - 1] == 0
                        && parents@[q - 1] == parents@[q]),
                forall|v: i32| #[trigger] m@.contains_key(v) ==> m@[v] < sets@.len() && sets@[m@[v] as int]@.contains(v),
                forall|q: int, v: i32| 0 <= q < sets@.len() && #[trigger] sets@[q]@.contains(v) ==> m@.contains_key(v),
                0 <= idx <= sets@.len(),
                out@.len() == idx,
                forall|q: int|
                    0 <= q < idx ==> (#[trigger] out@[q]).vertices@ == sets@[q]@ && out@[q].id == q && out@[q].channel_idx
                        == idxs@[q] && out@[q].parent_gadget_id == parents@[q] && pairs_sorted(out@[q].boundary_edges@)
                        && (forall|e: (i32, i32)| out@[q].boundary_edges@.contains(e) <==> leaves(*g, sets@[q]@, e)),
            decreases sets@.len() - idx,
        {
            proof {
                assert forall|v: i32| g.adj().contains_key(v) implies covers(sv, v) by {
                    assert(dom.contains(v));
                }
            }
            let be = boundary_of(g, &sets, &m, idx);
            let vs = sets[idx].clone();
            assert(vs@ =~= sets@[idx as int]@);
            out.push(ChannelModule {
                id: idx,
                parent_gadget_id: parents[idx],
                channel_idx: idxs[idx],
                vertices: vs,
                boundary_edges: be,
            });
            idx = idx + 1;
        }
        proof {
            assert(channel_sets(out@) =~= sv);
            assert(channel_parents(out@) =~= parents@);
            assert(channel_indices(out@) =~= idxs@);
            assert(modules@.take(modules@.len() as int) =~= modules@);
            assert forall|q: int|
                0 <= q < out@.len() implies (#[trigger] out@[q]).channel_idx == 0 || (out@[q].channel_idx == 1 && q > 0
                    && out@[q - 1].channel_idx == 0 && out@[q - 1].parent_gadget_id == out@[q].parent_gadget_id) by {
                assert(idxs@[q] == 0 || (idxs@[q] == 1 && q > 0 && idxs@[q - 1] == 0 && parents@[q - 1] == parents@[q]));
            }
        }
        out
    }

    /// Partitions the graph into gadget modules with a specified maximum module
    /// size: breadth-first clusters of at most `max_module_size` vertices
    /// (grown along the edges whose ends share a neighbour when those edges
    /// touch at least three quarters of the vertices), after which leaf
    /// clusters are folded into their only neighbour and small clusters into
    /// their best-connected neighbour until at most 120 remain.
    pub fn detect_gadget_modules_with_size(g: &Graph, max_module_size: usize) -> (r: Vec<GadgetModule>)
        requires
            g.wf(),
        ensures
            modules_ok(*g, r@),
            r@.len() <= 120 || r@.len() + 10000 <= g.adj().dom().len() || separated(*g, module_sets(r@)),
    {
        let verts = g.vertex_list();
        if verts.len() == 0 {
            let r: Vec<GadgetModule> = Vec::new();
            proof {
                assert(module_sets(r@) =~= Seq::<Seq<i32>>::empty());
                assert forall|v: i32| g.adj().dom().contains(v) <==> covers(module_sets(r@), v) by {
                    assert(!verts@.contains(v));
                }
            }
            return r;
        }
        let vertices = sorted_copy(verts);
        proof {
            crate::cycle_family::lemma_same_ms(verts@, vertices@);
            assert(vertices@.to_set() =~= g.adj().dom());
        }
        let max_size = if max_module_size > 1 {
            max_module_size
        } else {
            1
        };
        let pair = strong_graph(g, &vertices);
        let sg = pair.0;
        let any = pair.1;
        let n = vertices.len();
        let covered = sg.num_vertices();
        let use_strong = any && (covered as u128) >= ((n as u128) * 3) / 4;
        let initial = if use_strong {
            chunk_partition(&sg, &vertices, usize::MAX)
        } else {
            chunk_partition(g, &vertices, max_size)
        };
        let ghost dom = g.adj().dom();
        let mut raw = subdivide(g, &initial, max_size, Ghost(dom));
        merge_leaves(g, &mut raw, Ghost(dom));
        let ghost raw_before = raw@;
        merge_small(g, &mut raw, Ghost(dom));
        let ghost raw_small = raw@;
        merge_leaves(g, &mut raw, Ghost(dom));
        proof {
            let vs = crate::cycle_family::views(raw_small);
            if forall|c: int, o: int| 0 <= c < vs.len() ==> !#[trigger] clusters_touch(*g, vs, c, o) {
                lemma_untouched_separated(*g, vs);
            }
            g.lemma_wf();
            lemma_cluster_count(crate::cycle_family::views(raw_before), dom);
            assert(crate::cycle_family::views(raw_before).len() == raw_before.len());
        }
        sort_by_first(&mut raw, Ghost(*g));
        let m = cluster_index_map(&raw);
        let ghost rv = crate::cycle_family::views(raw@);
        let mut modules: Vec<GadgetModule> = Vec::new();
        let mut idx: usize = 0;
        while idx < raw.len()
            invariant
                g.wf(),
                rv == crate::cycle_family::views(raw@),
                is_partition(rv, dom),
                dom == g.adj().dom(),
                forall|i: int| 0 <= i < raw@.len() ==> strictly_sorted(#[trigger] raw@[i]@),
                forall|a: int, b: int| 0 <= a < b < raw@.len() ==> raw@[a]@[0] < raw@[b]@[0],
                forall|v: i32| #[trigger] m@.contains_key(v) ==> m@[v] < raw@.len() && raw@[m@[v] as int]@.contains(v),
                forall|i: int, v: i32| 0 <= i < raw@.len() && #[trigger] raw@[i]@.contains(v) ==> m@.contains_key(v),
                0 <= idx <= raw@.len(),
                modules@.len() == idx,
                forall|q: int| 0 <= q < idx ==> (#[trigger] modules@[q]).vertices@ == raw@[q]@,
                forall|q: int|
                    0 <= q < idx ==> (#[trigger] modules@[q]).id == q && pairs_sorted(modules@[q].boundary_edges@) && (forall|
                        e: (i32, i32),
                    | modules@[q].boundary_edges@.contains(e) <==> leaves(*g, raw@[q]@, e)),
            decreases raw@.len() - idx,
        {
            proof {
                assert forall|v: i32| g.adj().contains_key(v) implies covers(rv, v) by {
                    assert(dom.contains(v));
                }
            }
            let be = boundary_of(g, &raw, &m, idx);
            let vs = raw[idx].clone();
            assert(vs@ =~= raw@[idx as int]@);
            modules.push(GadgetModule { id: idx, vertices: vs, boundary_edges: be });
            idx = idx + 1;
        }
        proof {
            assert(module_sets(modules@) =~= rv);
            assert(rv.len() == raw@.len());
        }
        modules
    }
}

} // verus!
