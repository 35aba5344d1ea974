//! Hub-partitioned decomposition: up to ten "super-hubs" are chosen among the
//! hubs, every other vertex joins the cluster of the super-hub it is closest
//! and best connected to, the super-hubs are put in a cyclic order in which
//! each super-hub reaches the next cluster, and each cluster lists the
//! vertices through which a tour can enter it (neighbours of the previous
//! super-hub) and leave it (neighbours of its own super-hub).
use crate::graph::{lemma_distinct_vertices_bound, vec_contains, Graph};
use crate::hub_registry::HubRegistry;
use crate::tour::{is_simple_cycle, simple_cycle};
use std::collections::{HashMap, HashSet};
use vstd::prelude::*;

verus! {

broadcast use vstd::std_specs::hash::group_hash_axioms;

/// The cluster of one super-hub, at position `cluster_idx` of the cyclic order.
pub struct HubCluster {
    pub hub_id: i32,
    pub cluster_idx: usize,
    pub vertices: HashSet<i32>,
    pub entry_candidates: Vec<i32>,
    pub exit_candidates: Vec<i32>,
}

/// Divide-and-conquer around super-hubs.
pub struct HubPartitionedSolver;

/// The hubs among the first `n` of `hv` with at least 50 neighbours, in order.
pub open spec fn high_degree_prefix(g: Graph, hv: Seq<i32>, n: int) -> Seq<i32>
    decreases n,
{
    if n <= 0 {
        Seq::empty()
    } else if g.degree_of(hv[n - 1]) >= 50 {
        high_degree_prefix(g, hv, n - 1).push(hv[n - 1])
    } else {
        high_degree_prefix(g, hv, n - 1)
    }
}

/// The super-hubs: all hubs when there are at most ten; otherwise the hubs of
/// degree at least 50 when there are three to ten of them, the first ten of
/// them when there are more, and the first ten hubs when there are fewer.
pub open spec fn super_hubs_spec(g: Graph, hv: Seq<i32>) -> Seq<i32> {
    if hv.len() <= 10 {
        hv
    } else {
        let high = high_degree_prefix(g, hv, hv.len() as int);
        if 3 <= high.len() <= 10 {
            high
        } else if high.len() > 10 {
            high.take(10)
        } else {
            hv.take(10)
        }
    }
}

/// Selects the super-hubs.
fn select_super_hubs(g: &Graph, hv: &Vec<i32>) -> (r: Vec<i32>)
    ensures
        r@ == super_hubs_spec(*g, hv@),
{
    if hv.len() <= 10 {
        let r = hv.clone();
        assert(r@ =~= hv@);
        return r;
    }
    let mut high: Vec<i32> = Vec::new();
    let mut i: usize = 0;
    while i < hv.len()
        invariant
            0 <= i <= hv@.len(),
            high@ == high_degree_prefix(*g, hv@, i as int),
        decreases hv@.len() - i,
    {
        if g.degree(hv[i]) >= 50 {
            high.push(hv[i]);
        }
        i = i + 1;
    }
    if high.len() >= 3 && high.len() <= 10 {
        high
    } else {
        let src = if high.len() > 10 {
            high
        } else {
            hv.clone()
        };
        let mut r: Vec<i32> = Vec::new();
        let mut k: usize = 0;
        while k < 10
            invariant
                0 <= k <= 10,
                src@.len() > 10,
                r@ == src@.take(k as int),
            decreases 10 - k,
        {
            r.push(src[k]);
            proof {
                assert(src@.take(k + 1) == src@.take(k as int).push(src@[k as int]));
            }
            k = k + 1;
        }
        proof {
            if !(high@.len() > 10) {
                assert(src@ =~= hv@);
            }
        }
        r
    }
}

/// Hop distances from a super-hub: its neighbours that are not super-hubs are
/// at distance 1, and the search continues through vertices that are not
/// super-hubs. Every distance is between 1 and the number of vertices.
fn hub_distances(g: &Graph, hub: i32, super_set: &HashSet<i32>) -> (dist: HashMap<i32, usize>)
    requires
        g.wf(),
    ensures
        forall|v: i32| #[trigger] dist@.contains_key(v) ==> g.adj().contains_key(v) && 1 <= dist@[v] <= g.adj().dom().len(),
{
    proof {
        g.lemma_wf();
    }
    let mut dist: HashMap<i32, usize> = HashMap::new();
    let mut queue: Vec<(i32, usize)> = Vec::new();
    match g.neighbors(hub) {
        Some(nbrs) => {
            let mut t: usize = 0;
            while t < nbrs.len()
                invariant
                    g.wf(),
                    forall|a: i32, x: i32| #[trigger] g.has_edge(a, x) ==> g.adj().contains_key(x),
                    g.adj().dom().finite(),
                    g.adj().contains_key(hub),
                    nbrs@ == g.adj()[hub],
                    0 <= t <= nbrs@.len(),
                    queue@.len() <= t,
                    forall|v: i32| #[trigger] dist@.contains_key(v) ==> g.adj().contains_key(v) && 1 <= dist@[v] <= dist@.len(),
                    forall|q: int| 0 <= q < queue@.len() ==> (#[trigger] queue@[q]).1 == 1,
                    forall|q: int| 0 <= q < queue@.len() ==> dist@.contains_key((#[trigger] queue@[q]).0),
                decreases nbrs@.len() - t,
            {
                let nbr = nbrs[t];
                if !super_set.contains(&nbr) {
                    proof {
                        assert(g.has_edge(hub, nbr));
                    }
                    dist.insert(nbr, 1);
                    queue.push((nbr, 1));
                }
                t = t + 1;
            }
        },
        None => {},
    }
    let ghost initial = queue@.len();
    proof {
        assert(dist@.dom().subset_of(g.adj().dom()));
        vstd::set_lib::lemma_len_subset(dist@.dom(), g.adj().dom());
    }
    let mut head: usize = 0;
    while head < queue.len()
        invariant
            g.wf(),
            forall|a: i32, x: i32| #[trigger] g.has_edge(a, x) ==> g.adj().contains_key(x),
            g.adj().dom().finite(),
            forall|v: i32| #[trigger] dist@.contains_key(v) ==> g.adj().contains_key(v) && 1 <= dist@[v] <= dist@.len(),
            forall|q: int| 0 <= q < queue@.len() ==> 1 <= (#[trigger] queue@[q]).1 <= dist@.len(),
            forall|q: int| 0 <= q < queue@.len() ==> dist@.contains_key((#[trigger] queue@[q]).0),
            queue@.len() <= initial + dist@.len(),
            dist@.len() <= g.adj().dom().len(),
            g.adj().dom().len() <= usize::MAX,
            0 <= head <= queue@.len(),
        decreases initial + g.adj().dom().len() - head,
    {
        let curr = queue[head].0;
        let d = queue[head].1;
        head = head + 1;
        match g.neighbors(curr) {
            Some(nbrs) => {
                let mut t: usize = 0;
                while t < nbrs.len()
                    invariant
                        g.wf(),
                        forall|a: i32, x: i32| #[trigger] g.has_edge(a, x) ==> g.adj().contains_key(x),
                        g.adj().dom().finite(),
                        g.adj().contains_key(curr),
                        nbrs@ == g.adj()[curr],
                        1 <= d <= dist@.len(),
                        forall|v: i32| #[trigger] dist@.contains_key(v) ==> g.adj().contains_key(v) && 1 <= dist@[v] <= dist@.len(),
                        forall|q: int| 0 <= q < queue@.len() ==> 1 <= (#[trigger] queue@[q]).1 <= dist@.len(),
                        forall|q: int| 0 <= q < queue@.len() ==> dist@.contains_key((#[trigger] queue@[q]).0),
                        queue@.len() <= initial + dist@.len(),
                        dist@.len() <= g.adj().dom().len(),
                        g.adj().dom().len() <= usize::MAX,
                        0 <= head <= queue@.len(),
                        0 <= t <= nbrs@.len(),
                    decreases nbrs@.len() - t,
                {
                    let nbr = nbrs[t];
                    if !super_set.contains(&nbr) && !dist.contains_key(&nbr) {
                        proof {
                            assert(g.has_edge(curr, nbr));
                            assert(dist@.len() < g.adj().dom().len()) by {
                                assert(dist@.dom().subset_of(g.adj().dom()));
                                assert(g.adj().dom().contains(nbr) && !dist@.dom().contains(nbr));
                                vstd::set_lib::lemma_len_subset(dist@.dom().insert(nbr), g.adj().dom());
                            }
                        }
                        dist.insert(nbr, d + 1);
                        queue.push((nbr, d + 1));
                    }
                    t = t + 1;
                }
            },
            None => {},
        }
    }
    proof {
        assert(dist@.len() <= g.adj().dom().len());
    }
    dist
}


/// `1000 * (score - 100 / d)` for a super-hub reached at degree `d` by `c`
/// chains, with a cluster of `size` vertices.
pub open spec fn score_offset(d: int, c: int, size: int) -> int {
    (if d == 1 { 50000int } else { 0int }) + 5000 * c - size
}

/// The score `100 / d + i / 1000` beats `best` (cross-multiplied exactly); with
/// no best yet, it beats -1.
pub open spec fn score_beats_spec(d: int, i: int, best: Option<(i128, usize)>) -> bool {
    match best {
        None => 100000 + (i + 1000) * d > 0,
        Some(b) => (i - b.0) * (d * b.1) + 100000 * b.1 - 100000 * d > 0,
    }
}

/// Whether a super-hub at distance `d` with `c` neighbours of the vertex at
/// distance 1 from it, whose cluster has `size` vertices, scores more than the
/// best score so far (`None` standing for -1). The score is
/// `100 / d + (50 if d == 1) + 5 c - size / 1000`, compared exactly: with
/// `i = 1000 * (score - 100 / d)`, an integer, scores are compared as
/// `100000 / d + i`.
fn score_beats(d: usize, c: usize, size: usize, best: Option<(i128, usize)>) -> (r: (bool, i128))
    requires
        1 <= d <= 0x1_0000_0000,
        size <= 0x1_0000_0000,
        best matches Some(b) ==> 1 <= b.1 <= 0x1_0000_0000 && -0x1_0000_0000 <= b.0 <= 0x1_0000_0000_0000_0000_0000,
    ensures
        -0x1_0000_0000 <= r.1 <= 0x1_0000_0000_0000_0000_0000,
        r.1 == score_offset(d as int, c as int, size as int),
        r.0 == score_beats_spec(d as int, r.1 as int, best),
{
    let bonus: i128 = if d == 1 { 50000 } else { 0 };
    let ci = c as i128;
    assert(0 <= 5000 * ci <= 5000 * 0xFFFF_FFFF_FFFF_FFFF) by (nonlinear_arith)
        requires 0 <= ci <= 0xFFFF_FFFF_FFFF_FFFF;
    let i: i128 = bonus + 5000 * ci - (size as i128);
    proof {
        let dd = d as i128;
        assert(-0x1_0000_0000 * 0x1_0000_0000 <= (i + 1000) * dd <= 0x1_0000_0000_0000_0000_0000 * 0x1_0000_0000)
            by (nonlinear_arith)
            requires -0x1_0000_0000 <= i + 1000 <= 0x1_0000_0000_0000_0000_0000, 1 <= dd <= 0x1_0000_0000;
    }
    let beats = match best {
        None => 100000 + (i + 1000) * (d as i128) > 0,
        Some(b) => {
            let di = i - b.0;
            if di >= 100000 {
                proof {
                    let da = d as int;
                    let db = b.1 as int;
                    assert(di * (da * db) + 100000 * db - 100000 * da > 0) by (nonlinear_arith)
                        requires di >= 100000, 1 <= da, 1 <= db;
                }
                true
            } else if di <= -100000 {
                proof {
                    let da = d as int;
                    let db = b.1 as int;
                    assert(di * (da * db) + 100000 * db - 100000 * da <= 0) by (nonlinear_arith)
                        requires di <= -100000, 1 <= da, 1 <= db;
                }
                false
            } else {
                let da = d as i128;
                let db = b.1 as i128;
                assert(-100000 < di < 100000);
                assert(0 < da * db <= 0x1_0000_0000 * 0x1_0000_0000) by (nonlinear_arith)
                    requires 1 <= da <= 0x1_0000_0000, 1 <= db <= 0x1_0000_0000;
                assert(-100000 * 0x1_0000_0000 * 0x1_0000_0000 <= di * (da * db) <= 100000 * 0x1_0000_0000 * 0x1_0000_0000)
                    by (nonlinear_arith)
                    requires -100000 < di < 100000, 0 < da * db <= 0x1_0000_0000 * 0x1_0000_0000;
                di * (da * db) + 100000 * db - 100000 * da > 0
            }
        },
    };
    (beats, i)
}

/// How many entries of `nbrs` lie at distance 1 in `dm`.
pub open spec fn near_count(nbrs: Seq<i32>, dm: Map<i32, usize>) -> int
    decreases nbrs.len(),
{
    if nbrs.len() == 0 {
        0
    } else {
        near_count(nbrs.drop_last(), dm) + if dm.contains_key(nbrs.last()) && dm[nbrs.last()] == 1 {
            1int
        } else {
            0int
        }
    }
}

/// How many entries of `a` are `h`.
pub open spec fn assigned_count(a: Seq<usize>, h: usize) -> int
    decreases a.len(),
{
    if a.len() == 0 {
        0
    } else {
        assigned_count(a.drop_last(), h) + if a.last() == h {
            1int
        } else {
            0int
        }
    }
}

/// The neighbours of `v` in `g` (none when `v` is not a vertex).
pub open spec fn nbrs_of(g: Graph, v: i32) -> Seq<i32> {
    if g.adj().contains_key(v) {
        g.adj()[v]
    } else {
        Seq::empty()
    }
}

/// Super-hub `h`'s score for `v`, times 1000 times the distance `d`: with
/// `i` its `score_offset`, `100000 + i * d`, once the super-hubs `prior` have
/// been chosen for the vertices before `v`.
pub open spec fn scaled_score(g: Graph, ds: Seq<Map<i32, usize>>, h: int, v: i32, prior: Seq<usize>) -> int {
    let d = ds[h][v] as int;
    100000 + score_offset(d, near_count(nbrs_of(g, v), ds[h]), assigned_count(prior, h as usize)) * d
}

/// Super-hub `x` scores more than super-hub `y` for `v` (scores compared
/// exactly, by cross-multiplying with the distances).
pub open spec fn hub_scores_more(g: Graph, ds: Seq<Map<i32, usize>>, x: int, y: int, v: i32, prior: Seq<usize>) -> bool {
    scaled_score(g, ds, x, v, prior) * (ds[y][v] as int) > scaled_score(g, ds, y, v, prior) * (ds[x][v] as int)
}

/// Super-hub `h` scores more than -1 for `v`.
pub open spec fn hub_scores_above(g: Graph, ds: Seq<Map<i32, usize>>, h: int, v: i32, prior: Seq<usize>) -> bool {
    scaled_score(g, ds, h, v, prior) + 1000 * (ds[h][v] as int) > 0
}

/// `h` is the super-hub chosen for `v` among the first `k` of `ds`: when
/// some super-hub that reaches `v` scores more than -1, `h` reaches it and
/// has the highest score, the first such on ties; else `h` is 0.
pub open spec fn chosen_hub(g: Graph, ds: Seq<Map<i32, usize>>, k: int, v: i32, prior: Seq<usize>, h: int) -> bool {
    if exists|x: int| 0 <= x < k && #[trigger] ds[x].contains_key(v) && hub_scores_above(g, ds, x, v, prior) {
        &&& 0 <= h < k
        &&& ds[h].contains_key(v)
        &&& hub_scores_above(g, ds, h, v, prior)
        &&& forall|x: int| 0 <= x < k && #[trigger] ds[x].contains_key(v) ==> !hub_scores_more(g, ds, x, h, v, prior)
        &&& forall|x: int| 0 <= x < h && #[trigger] ds[x].contains_key(v) ==> hub_scores_more(g, ds, h, x, v, prior)
    } else {
        h == 0
    }
}

/// The views of a list of distance maps.
pub open spec fn dist_views(dists: Seq<HashMap<i32, usize>>) -> Seq<Map<i32, usize>> {
    dists.map_values(|m: HashMap<i32, usize>| m@)
}

/// Scores compared by cross-multiplying with positive distances: a score
/// not above one that is beaten by a third is beaten by that third.
proof fn lemma_scores_chain(na: int, da: int, nb: int, db: int, nc: int, dc: int)
    requires
        da > 0,
        db > 0,
        dc > 0,
        na * db <= nb * da,
        nc * db > nb * dc,
    ensures
        nc * da > na * dc,
{
    assert(na * db * dc <= nb * da * dc) by (nonlinear_arith)
        requires na * db <= nb * da, dc > 0;
    assert(nc * db * da > nb * dc * da) by (nonlinear_arith)
        requires nc * db > nb * dc, da > 0;
    assert(nb * da * dc == nb * dc * da) by (nonlinear_arith);
    assert(na * dc * db < nc * da * db) by (nonlinear_arith)
        requires na * db * dc <= nb * da * dc, nc * db * da > nb * dc * da, nb * da * dc == nb * dc * da;
    assert(na * dc < nc * da) by (nonlinear_arith)
        requires na * dc * db < nc * da * db, db > 0;
}

/// A score that beats one above -1 is above -1.
proof fn lemma_beats_above(na: int, da: int, nc: int, dc: int)
    requires
        da > 0,
        dc > 0,
        na + 1000 * da > 0,
        nc * da > na * dc,
    ensures
        nc + 1000 * dc > 0,
{
    assert(na * dc > -1000 * da * dc) by (nonlinear_arith)
        requires na + 1000 * da > 0, dc > 0;
    assert((nc + 1000 * dc) * da > 0) by (nonlinear_arith)
        requires nc * da > na * dc, na * dc > -1000 * da * dc;
    assert(nc + 1000 * dc > 0) by (nonlinear_arith)
        requires (nc + 1000 * dc) * da > 0, da > 0;
}

/// A score not above -1 is beaten by one above -1.
proof fn lemma_scores_above(na: int, da: int, nc: int, dc: int)
    requires
        da > 0,
        dc > 0,
        na + 1000 * da <= 0,
        nc + 1000 * dc > 0,
    ensures
        nc * da > na * dc,
{
    assert(nc * da > -1000 * dc * da) by (nonlinear_arith)
        requires nc + 1000 * dc > 0, da > 0;
    assert(na * dc <= -1000 * da * dc) by (nonlinear_arith)
        requires na + 1000 * da <= 0, dc > 0;
    assert(-1000 * dc * da == -1000 * da * dc) by (nonlinear_arith);
}

/// For each entry of `non_hub`, the index of the super-hub it joins: among
/// the super-hubs that reach it, the one of highest score (see
/// `score_beats`), the first one on ties; 0 when none scores above -1.
fn assign_vertices(g: &Graph, non_hub: &Vec<i32>, dists: &Vec<HashMap<i32, usize>>, k: usize) -> (a: Vec<usize>)
    requires
        g.wf(),
        k == dists@.len(),
        k >= 1,
        non_hub@.len() <= 0x1_0000_0000,
        forall|h: int, v: i32|
            0 <= h < k && #[trigger] dists@[h]@.contains_key(v) ==> 1 <= dists@[h]@[v] <= 0x1_0000_0000,
    ensures
        a@.len() == non_hub@.len(),
        forall|t: int| 0 <= t < a@.len() ==> #[trigger] a@[t] < k,
        forall|t: int|
            0 <= t < a@.len() ==> #[trigger] chosen_hub(*g, dist_views(dists@), k as int, non_hub@[t], a@.take(t), a@[t] as int),
{
    let ghost ds = dist_views(dists@);
    let mut sizes: Vec<usize> = Vec::new();
    let mut z: usize = 0;
    while z < k
        invariant
            0 <= z <= k,
            sizes@.len() == z,
            forall|h: int| 0 <= h < z ==> #[trigger] sizes@[h] == 0,
        decreases k - z,
    {
        sizes.push(0);
        z = z + 1;
    }
    let mut a: Vec<usize> = Vec::new();
    let mut idx: usize = 0;
    while idx < non_hub.len()
        invariant
            g.wf(),
            ds == dist_views(dists@),
            k == dists@.len(),
            k >= 1,
            non_hub@.len() <= 0x1_0000_0000,
            forall|h: int, v: i32|
                0 <= h < k && #[trigger] dists@[h]@.contains_key(v) ==> 1 <= dists@[h]@[v] <= 0x1_0000_0000,
            sizes@.len() == k,
            forall|h: int| 0 <= h < k ==> #[trigger] sizes@[h] <= idx,
            forall|h: int| 0 <= h < k ==> #[trigger] sizes@[h] == assigned_count(a@, h as usize),
            0 <= idx <= non_hub@.len(),
            a@.len() == idx,
            forall|t: int| 0 <= t < a@.len() ==> #[trigger] a@[t] < k,
            forall|t: int|
                0 <= t < a@.len() ==> #[trigger] chosen_hub(*g, ds, k as int, non_hub@[t], a@.take(t), a@[t] as int),
        decreases non_hub@.len() - idx,
    {
        let v = non_hub[idx];
        let mut best_hub: usize = 0;
        let mut best: Option<(i128, usize)> = None;
        let mut h: usize = 0;
        while h < k
            invariant
                g.wf(),
                ds == dist_views(dists@),
                k == dists@.len(),
                forall|h2: int, v2: i32|
                    0 <= h2 < k && #[trigger] dists@[h2]@.contains_key(v2) ==> 1 <= dists@[h2]@[v2] <= 0x1_0000_0000,
                sizes@.len() == k,
                non_hub@.len() <= 0x1_0000_0000,
                forall|h2: int| 0 <= h2 < k ==> #[trigger] sizes@[h2] <= idx,
                forall|h2: int| 0 <= h2 < k ==> #[trigger] sizes@[h2] == assigned_count(a@, h2 as usize),
                idx < non_hub@.len(),
                v == non_hub@[idx as int],
                best_hub < k,
                best matches Some(b) ==> 1 <= b.1 <= 0x1_0000_0000 && -0x1_0000_0000 <= b.0 <= 0x1_0000_0000_0000_0000_0000,
                0 <= h <= k,
                best is None ==> best_hub == 0 && forall|x: int|
                    0 <= x < h && #[trigger] ds[x].contains_key(v) ==> !hub_scores_above(*g, ds, x, v, a@),
                best matches Some(b) ==> {
                    &&& best_hub < h
                    &&& ds[best_hub as int].contains_key(v)
                    &&& b.1 == ds[best_hub as int][v]
                    &&& b.0 == score_offset(
                        b.1 as int,
                        near_count(nbrs_of(*g, v), ds[best_hub as int]),
                        assigned_count(a@, best_hub),
                    )
                    &&& hub_scores_above(*g, ds, best_hub as int, v, a@)
                    &&& forall|x: int|
                        0 <= x < h && #[trigger] ds[x].contains_key(v) ==> !hub_scores_more(*g, ds, x, best_hub as int, v, a@)
                    &&& forall|x: int|
                        0 <= x < best_hub && #[trigger] ds[x].contains_key(v) ==> hub_scores_more(*g, ds, best_hub as int, x, v, a@)
                },
            decreases k - h,
        {
            proof {
                assert(ds[h as int] == dists@[h as int]@);
            }
            match dists[h].get(&v) {
                Some(dref) => {
                    let d = *dref;
                    let mut c: usize = 0;
                    match g.neighbors(v) {
                        Some(nbrs) => {
                            let mut t: usize = 0;
                            while t < nbrs.len()
                                invariant
                                    h < k,
                                    k == dists@.len(),
                                    ds == dist_views(dists@),
                                    0 <= t <= nbrs@.len(),
                                    c <= t,
                                    c == near_count(nbrs@.take(t as int), ds[h as int]),
                                decreases nbrs@.len() - t,
                            {
                                proof {
                                    assert(nbrs@.take(t + 1).drop_last() =~= nbrs@.take(t as int));
                                    assert(nbrs@.take(t + 1).last() == nbrs@[t as int]);
                                    assert(ds[h as int] == dists@[h as int]@);
                                }
                                match dists[h].get(&nbrs[t]) {
                                    Some(dn) => {
                                        if *dn == 1 {
                                            c = c + 1;
                                        }
                                    },
                                    None => {},
                                }
                                t = t + 1;
                            }
                            proof {
                                assert(nbrs@.take(nbrs@.len() as int) =~= nbrs@);
                            }
                        },
                        None => {
                            proof {
                                assert(nbrs_of(*g, v) =~= Seq::<i32>::empty());
                            }
                        },
                    }
                    let ghost prior = a@;
                    let ghost bh0 = best_hub;
                    let ghost best0 = best;
                    let res = score_beats(d, c, sizes[h], best);
                    proof {
                        let di = d as int;
                        let ii = res.1 as int;
                        assert(scaled_score(*g, ds, h as int, v, prior) == 100000 + ii * di);
                        assert((ii + 1000) * di == ii * di + 1000 * di) by (nonlinear_arith);
                        match best0 {
                            Some(b) => {
                                let b0 = b.0 as int;
                                let b1 = b.1 as int;
                                assert(scaled_score(*g, ds, bh0 as int, v, prior) == 100000 + b0 * b1);
                                assert((ii - b0) * (di * b1) + 100000 * b1 - 100000 * di == (100000 + ii * di) * b1 - (100000
                                    + b0 * b1) * di) by (nonlinear_arith);
                            },
                            None => {},
                        }
                    }
                    if res.0 {
                        best = Some((res.1, d));
                        best_hub = h;
                        proof {
                            match best0 {
                                Some(b) => {
                                    lemma_beats_above(
                                        scaled_score(*g, ds, bh0 as int, v, prior),
                                        ds[bh0 as int][v] as int,
                                        scaled_score(*g, ds, h as int, v, prior),
                                        d as int,
                                    );
                                },
                                None => {},
                            }
                            assert forall|x: int| 0 <= x < h + 1 && #[trigger] ds[x].contains_key(v) implies !hub_scores_more(
                                *g,
                                ds,
                                x,
                                h as int,
                                v,
                                prior,
                            ) && (x < h ==> hub_scores_more(*g, ds, h as int, x, v, prior)) by {
                                if x < h {
                                    let dx = ds[x][v] as int;
                                    assert(1 <= dx);
                                    assert(ds[x] == dists@[x]@);
                                    match best0 {
                                        Some(b) => {
                                            lemma_scores_chain(
                                                scaled_score(*g, ds, x, v, prior),
                                                dx,
                                                scaled_score(*g, ds, bh0 as int, v, prior),
                                                ds[bh0 as int][v] as int,
                                                scaled_score(*g, ds, h as int, v, prior),
                                                d as int,
                                            );
                                        },
                                        None => {
                                            lemma_scores_above(
                                                scaled_score(*g, ds, x, v, prior),
                                                dx,
                                                scaled_score(*g, ds, h as int, v, prior),
                                                d as int,
                                            );
                                        },
                                    }
                                }
                            }
                        }
                    }
                },
                None => {},
            }
            h = h + 1;
        }
        proof {
            if exists|x: int| 0 <= x < k && #[trigger] ds[x].contains_key(v) && hub_scores_above(*g, ds, x, v, a@) {
                assert(best is Some);
            } else {
                assert(best is None);
            }
            assert(chosen_hub(*g, ds, k as int, v, a@, best_hub as int));
        }
        let ghost a0 = a@;
        a.push(best_hub);
        let bumped = sizes[best_hub] + 1;
        sizes.set(best_hub, bumped);
        proof {
            assert(a@.drop_last() =~= a0);
            assert(a@.take(idx as int) =~= a0);
            assert forall|t: int| 0 <= t < a@.len() implies #[trigger] chosen_hub(*g, ds, k as int, non_hub@[t], a@.take(t), a@[t] as int) by {
                if t < idx {
                    assert(a@.take(t) =~= a0.take(t));
                    assert(a@[t] == a0[t]);
                }
            }
        }
        idx = idx + 1;
    }
    a
}

/// The entries of `non_hub` assigned to super-hub `h`, in order.
fn members_of(non_hub: &Vec<i32>, a: &Vec<usize>, h: usize) -> (r: Vec<i32>)
    requires
        a@.len() == non_hub@.len(),
    ensures
        forall|v: i32| r@.contains(v) <==> exists|t: int| 0 <= t < non_hub@.len() && non_hub@[t] == v && #[trigger] a@[t] == h,
        non_hub@.no_duplicates() ==> r@.no_duplicates(),
{
    let mut r: Vec<i32> = Vec::new();
    let mut t: usize = 0;
    while t < non_hub.len()
        invariant
            a@.len() == non_hub@.len(),
            0 <= t <= non_hub@.len(),
            forall|v: i32| r@.contains(v) <==> exists|t2: int| 0 <= t2 < t && non_hub@[t2] == v && #[trigger] a@[t2] == h,
            non_hub@.no_duplicates() ==> r@.no_duplicates(),
        decreases non_hub@.len() - t,
    {
        if a[t] == h {
            let ghost r0 = r@;
            r.push(non_hub[t]);
            proof {
                if non_hub@.no_duplicates() {
                    let v = non_hub@[t as int];
                    if r0.contains(v) {
                        let t2 = choose|t2: int| 0 <= t2 < t && non_hub@[t2] == v && #[trigger] a@[t2] == h;
                        assert(non_hub@[t2] == non_hub@[t as int]);
                    }
                    assert forall|x: int, y: int| 0 <= x < y < r@.len() implies r@[x] != r@[y] by {
                        if y == r0.len() {
                            assert(r0.contains(r0[x]));
                        } else {
                            assert(r@[x] == r0[x] && r@[y] == r0[y]);
                        }
                    }
                }
                assert forall|v: i32| r@.contains(v) <==> exists|t2: int| 0 <= t2 < t + 1 && non_hub@[t2] == v && #[trigger] a@[t2] == h by {
                    if r@.contains(v) {
                        let x = choose|x: int| 0 <= x < r@.len() && r@[x] == v;
                        if x < r0.len() {
                            assert(r0[x] == v);
                            assert(r0.contains(v));
                        } else {
                            assert(a@[t as int] == h);
                        }
                    }
                    if exists|t2: int| 0 <= t2 < t + 1 && non_hub@[t2] == v && #[trigger] a@[t2] == h {
                        let t2 = choose|t2: int| 0 <= t2 < t + 1 && non_hub@[t2] == v && #[trigger] a@[t2] == h;
                        if t2 < t {
                            assert(r0.contains(v));
                            let x = choose|x: int| 0 <= x < r0.len() && r0[x] == v;
                            assert(r@[x] == v);
                        } else {
                            assert(r@[r0.len() as int] == v);
                        }
                    }
                }
            }
        } else {
            proof {
                assert forall|v: i32| r@.contains(v) <==> exists|t2: int| 0 <= t2 < t + 1 && non_hub@[t2] == v && #[trigger] a@[t2] == h by {
                    if exists|t2: int| 0 <= t2 < t + 1 && non_hub@[t2] == v && #[trigger] a@[t2] == h {
                        let t2 = choose|t2: int| 0 <= t2 < t + 1 && non_hub@[t2] == v && #[trigger] a@[t2] == h;
                        assert(t2 < t);
                    }
                }
            }
        }
        t = t + 1;
    }
    r
}

/// Whether some entry of `list` has `hub` in its adjacency list.
fn lists_hub(g: &Graph, list: &Vec<i32>, hub: i32) -> (b: bool)
    ensures
        b == exists|v: i32| list@.contains(v) && #[trigger] g.has_edge(v, hub),
{
    let mut t: usize = 0;
    while t < list.len()
        invariant
            0 <= t <= list@.len(),
            forall|q: int| 0 <= q < t ==> !g.has_edge(#[trigger] list@[q], hub),
        decreases list@.len() - t,
    {
        if g.contains_edge(list[t], hub) {
            assert(list@.contains(list@[t as int]));
            return true;
        }
        t = t + 1;
    }
    proof {
        assert forall|v: i32| list@.contains(v) implies !#[trigger] g.has_edge(v, hub) by {
            let q = choose|q: int| 0 <= q < list@.len() && list@[q] == v;
        }
    }
    false
}

/// The super-hub transition graph: `i -> j` when some vertex of cluster `j`
/// lists super-hub `i` as a neighbour.
pub open spec fn hub_arc(g: Graph, supers: Seq<i32>, raw: Seq<Seq<i32>>, i: int, j: int) -> bool {
    &&& 0 <= j < supers.len()
    &&& i != j
    &&& exists|v: i32| raw[j].contains(v) && #[trigger] g.has_edge(v, supers[i])
}

/// The arcs of the super-hub transition graph, for each super-hub in increasing order.
fn hub_adjacency(g: &Graph, supers: &Vec<i32>, raw: &Vec<Vec<i32>>) -> (adj: Vec<Vec<usize>>)
    requires
        raw@.len() == supers@.len(),
    ensures
        adj@.len() == supers@.len(),
        forall|i: int, t: int| 0 <= i < adj@.len() && 0 <= t < adj@[i]@.len() ==> #[trigger] adj@[i]@[t] < supers@.len(),
        forall|i: int, j: usize|
            0 <= i < adj@.len() ==> (#[trigger] adj@[i]@.contains(j) && j < supers@.len() <==> hub_arc(
                *g,
                supers@,
                crate::cycle_family::views(raw@),
                i,
                j as int,
            )),
{
    let k = supers.len();
    let ghost rv = crate::cycle_family::views(raw@);
    let mut adj: Vec<Vec<usize>> = Vec::new();
    let mut i: usize = 0;
    while i < k
        invariant
            k == supers@.len(),
            raw@.len() == k,
            rv == crate::cycle_family::views(raw@),
            0 <= i <= k,
            adj@.len() == i,
            forall|a: int, t: int| 0 <= a < adj@.len() && 0 <= t < adj@[a]@.len() ==> #[trigger] adj@[a]@[t] < k,
            forall|a: int, j: usize|
                0 <= a < adj@.len() ==> (#[trigger] adj@[a]@.contains(j) && j < k <==> hub_arc(*g, supers@, rv, a, j as int)),
        decreases k - i,
    {
        let mut row: Vec<usize> = Vec::new();
        let mut j: usize = 0;
        while j < k
            invariant
                k == supers@.len(),
                raw@.len() == k,
                rv == crate::cycle_family::views(raw@),
                0 <= i < k,
                0 <= j <= k,
                forall|t: int| 0 <= t < row@.len() ==> #[trigger] row@[t] < j,
                forall|j2: int| 0 <= j2 < j ==> (row@.contains(j2 as usize) <==> hub_arc(*g, supers@, rv, i as int, j2)),
            decreases k - j,
        {
            let ghost r0 = row@;
            proof {
                assert(rv[j as int] == raw@[j as int]@);
            }
            if j != i && lists_hub(g, &raw[j], supers[i]) {
                row.push(j);
                proof {
                    assert forall|j2: int| 0 <= j2 < j + 1 implies (row@.contains(j2 as usize) <==> hub_arc(*g, supers@, rv, i as int, j2)) by {
                        if j2 < j {
                            if row@.contains(j2 as usize) {
                                let t = choose|t: int| 0 <= t < row@.len() && row@[t] == j2 as usize;
                                assert(t < r0.len());
                                assert(r0[t] == j2 as usize);
                            }
                            if r0.contains(j2 as usize) {
                                let t = choose|t: int| 0 <= t < r0.len() && r0[t] == j2 as usize;
                                assert(row@[t] == j2 as usize);
                            }
                        } else {
                            assert(row@[r0.len() as int] == j);
                        }
                    }
                }
            } else {
                proof {
                    assert forall|j2: int| 0 <= j2 < j + 1 implies (row@.contains(j2 as usize) <==> hub_arc(*g, supers@, rv, i as int, j2)) by {
                        if j2 == j && row@.contains(j2 as usize) {
                            let t = choose|t: int| 0 <= t < row@.len() && row@[t] == j2 as usize;
                        }
                    }
                }
            }
            j = j + 1;
        }
        let ghost a0 = adj@;
        adj.push(row);
        proof {
            assert forall|a: int, t: int| 0 <= a < adj@.len() && 0 <= t < adj@[a]@.len() implies #[trigger] adj@[a]@[t] < k by {
                if a < a0.len() {
                    assert(adj@[a] == a0[a]);
                }
            }
            assert forall|a: int, j2: usize| 0 <= a < adj@.len() implies (#[trigger] adj@[a]@.contains(j2) && j2 < k
                <==> hub_arc(*g, supers@, rv, a, j2 as int)) by {
                if a < a0.len() {
                    assert(adj@[a] == a0[a]);
                } else {
                    if adj@[a]@.contains(j2) && j2 < k {
                        assert(row@.contains(j2));
                    }
                    if hub_arc(*g, supers@, rv, a, j2 as int) {
                        assert(row@.contains(j2 as int as usize));
                    }
                }
            }
        }
        i = i + 1;
    }
    adj
}

/// `p` visits each of `0..k` once and each entry has an arc to the next one
/// (the last to the first).
pub open spec fn hub_cycle(adj: Seq<Vec<usize>>, p: Seq<usize>, k: int) -> bool {
    &&& p.len() == k
    &&& p.no_duplicates()
    &&& forall|m: int| 0 <= m < k ==> (#[trigger] p[m]) < k
    &&& forall|m: int| #![trigger p[m]] 0 <= m < k ==> adj[p[m] as int]@.contains(p[next_pos(m, k)])
}

/// The position after `m` in a cyclic order of length `k`.
pub open spec fn next_pos(m: int, k: int) -> int {
    if m + 1 == k {
        0
    } else {
        m + 1
    }
}

/// `p` is a path of distinct indices below `k` along arcs of `adj`, from `start`.
pub open spec fn hub_path(adj: Seq<Vec<usize>>, p: Seq<usize>, k: int, start: usize) -> bool {
    &&& p.no_duplicates()
    &&& forall|m: int| 0 <= m < p.len() ==> (#[trigger] p[m]) < k
    &&& p.len() > 0 ==> p[0] == start
    &&& forall|m: int| 0 <= m < p.len() - 1 ==> adj[p[m] as int]@.contains(#[trigger] p[m + 1])
}

/// Some cyclic order of all `k` super-hubs begins with `p`.
#[verifier::opaque]
pub open spec fn hub_extends(adj: Seq<Vec<usize>>, p: Seq<usize>, k: int) -> bool {
    exists|q: Seq<usize>| #[trigger] hub_cycle(adj, q, k) && p.len() <= q.len() && q.subrange(0, p.len() as int) == p
}

/// The super-hubs have a cyclic order in which each has an arc to the next.
#[verifier::opaque]
pub open spec fn has_hub_cycle(adj: Seq<Vec<usize>>, k: int) -> bool {
    exists|q: Seq<usize>| hub_cycle(adj, q, k)
}

/// A full-length prefix is extended only by itself, and only when it closes.
proof fn lemma_hub_full(adj: Seq<Vec<usize>>, p: Seq<usize>, k: int)
    requires
        p.len() == k,
        k > 0,
    ensures
        hub_extends(adj, p, k) ==> adj[p[k - 1] as int]@.contains(p[0]),
{
    reveal(hub_extends);
    if hub_extends(adj, p, k) {
        let q = choose|q: Seq<usize>| #[trigger] hub_cycle(adj, q, k) && p.len() <= q.len() && q.subrange(0, p.len() as int) == p;
        assert(q == q.subrange(0, q.len() as int));
        assert(q[k - 1] == p[k - 1]);
        assert(next_pos(k - 1, k) == 0);
    }
}

/// Repeating an entry of the prefix extends to no cyclic order.
proof fn lemma_hub_repeat(adj: Seq<Vec<usize>>, p: Seq<usize>, x: usize, k: int)
    requires
        p.contains(x),
    ensures
        !hub_extends(adj, p.push(x), k),
{
    reveal(hub_extends);
    if hub_extends(adj, p.push(x), k) {
        let q = choose|q: Seq<usize>| #[trigger] hub_cycle(adj, q, k) && p.push(x).len() <= q.len() && q.subrange(0, p.push(x).len() as int) == p.push(x);
        let c = choose|c: int| 0 <= c < p.len() && p[c] == x;
        assert(q.subrange(0, p.len() as int + 1)[c] == q[c]);
        assert(q.subrange(0, p.len() as int + 1)[p.len() as int] == q[p.len() as int]);
        assert(q[c] == q[p.len() as int]);
    }
}

/// When no successor of the last entry extends, the prefix does not.
#[verifier::rlimit(30)]
proof fn lemma_hub_no_extension(adj: Seq<Vec<usize>>, p: Seq<usize>, nbrs: Seq<usize>, k: int)
    requires
        1 <= p.len() < k,
        nbrs == adj[p[p.len() - 1] as int]@,
        forall|u: int| 0 <= u < nbrs.len() ==> !hub_extends(adj, p.push(#[trigger] nbrs[u]), k),
    ensures
        !hub_extends(adj, p, k),
{
    if hub_extends(adj, p, k) {
        assert(exists|q: Seq<usize>| #[trigger] hub_cycle(adj, q, k) && p.len() <= q.len() && q.subrange(0, p.len() as int) == p) by {
            reveal(hub_extends);
        }
        let q = choose|q: Seq<usize>| #[trigger] hub_cycle(adj, q, k) && p.len() <= q.len() && q.subrange(0, p.len() as int) == p;
        let l = p.len() as int;
        assert(q[l - 1] == p[l - 1]) by {
            assert(q.subrange(0, l)[l - 1] == q[l - 1]);
        }
        assert(next_pos(l - 1, k) == l);
        assert(adj[q[l - 1] as int]@.contains(q[l]));
        let x = q[l];
        let u = choose|u: int| 0 <= u < nbrs.len() && nbrs[u] == x;
        assert(!hub_extends(adj, p.push(nbrs[u]), k));
        assert(q.subrange(0, l + 1) == p.push(x));
        assert(hub_extends(adj, p.push(x), k)) by {
            reveal(hub_extends);
        }
    }
}

/// Extends the path by `curr` and searches depth-first, neighbours in list
/// order, for a cycle through all super-hubs back to `start`.
fn hub_dfs(curr: usize, start: usize, k: usize, adj: &Vec<Vec<usize>>, visited: &mut Vec<bool>, path: &mut Vec<usize>) -> (found: bool)
    requires
        k == adj@.len(),
        forall|i: int, t: int| 0 <= i < adj@.len() && 0 <= t < adj@[i]@.len() ==> #[trigger] adj@[i]@[t] < k,
        old(visited)@.len() == k,
        curr < k,
        !old(visited)@[curr as int],
        forall|x: int| 0 <= x < k ==> (old(visited)@[x] <==> old(path)@.contains(x as usize)),
        hub_path(adj@, old(path)@, k as int, start),
        old(path)@.len() < k,
        old(path)@.len() == 0 ==> curr == start,
        old(path)@.len() > 0 ==> adj@[old(path)@[old(path)@.len() - 1] as int]@.contains(curr),
    ensures
        found ==> hub_cycle(adj@, final(path)@, k as int) && final(path)@[0] == start,
        !found ==> final(path)@ == old(path)@ && final(visited)@ == old(visited)@,
        !found ==> !hub_extends(adj@, old(path)@.push(curr), k as int),
    decreases k - old(path)@.len(),
{
    let ghost p0 = path@;
    let ghost v0 = visited@;
    path.push(curr);
    visited.set(curr, true);
    proof {
        assert(!p0.contains(curr)) by {
            if p0.contains(curr) {
                assert(v0[curr as int]);
            }
        }
        assert(hub_path(adj@, path@, k as int, start)) by {
            assert forall|m: int| 0 <= m < path@.len() - 1 implies adj@[path@[m] as int]@.contains(#[trigger] path@[m + 1]) by {
                if m < p0.len() - 1 {
                    assert(path@[m] == p0[m] && path@[m + 1] == p0[m + 1]);
                }
            }
            if p0.len() == 0 {
                assert(path@[0] == curr);
            }
        }
        assert forall|x: int| 0 <= x < k implies (visited@[x] <==> path@.contains(x as usize)) by {
            if x == curr {
                assert(path@[p0.len() as int] == curr);
            } else {
                if path@.contains(x as usize) {
                    let m = choose|m: int| 0 <= m < path@.len() && path@[m] == x as usize;
                    assert(p0[m] == x as usize);
                }
                if p0.contains(x as usize) {
                    let m = choose|m: int| 0 <= m < p0.len() && p0[m] == x as usize;
                    assert(path@[m] == x as usize);
                }
            }
        }
    }
    if path.len() == k {
        if contains_idx(&adj[curr], start) {
            proof {
                assert forall|m: int| #![trigger path@[m]] 0 <= m < k implies adj@[path@[m] as int]@.contains(path@[next_pos(m, k as int)]) by {
                    if m + 1 == k {
                        assert(path@[m] == curr);
                        assert(path@[0] == start);
                    }
                }
            }
            return true;
        }
        proof {
            lemma_hub_full(adj@, path@, k as int);
            assert(path@[k - 1] == curr);
            assert(path@[0] == start);
        }
        visited.set(curr, false);
        path.pop();
        proof {
            assert(path@ =~= p0);
            assert(visited@ =~= v0);
        }
        return false;
    }
    let nbrs = &adj[curr];
    let mut t: usize = 0;
    while t < nbrs.len()
        invariant
            k == adj@.len(),
            forall|i: int, t2: int| 0 <= i < adj@.len() && 0 <= t2 < adj@[i]@.len() ==> #[trigger] adj@[i]@[t2] < k,
            nbrs@ == adj@[curr as int]@,
            curr < k,
            visited@.len() == k,
            forall|x: int| 0 <= x < k ==> (visited@[x] <==> path@.contains(x as usize)),
            hub_path(adj@, path@, k as int, start),
            path@.len() < k,
            p0 == old(path)@,
            path@ == p0.push(curr),
            v0.len() == k,
            visited@ == v0.update(curr as int, true),
            0 <= t <= nbrs@.len(),
            forall|u: int| 0 <= u < t ==> !hub_extends(adj@, p0.push(curr).push(#[trigger] nbrs@[u]), k as int),
        decreases nbrs@.len() - t,
    {
        let next = nbrs[t];
        if !visited[next] {
            proof {
                assert(path@[path@.len() - 1] == curr);
                assert(nbrs@.contains(next));
            }
            if hub_dfs(next, start, k, adj, visited, path) {
                return true;
            }
        } else {
            proof {
                assert(path@.contains(next as usize));
                lemma_hub_repeat(adj@, path@, next, k as int);
            }
        }
        t = t + 1;
    }
    proof {
        assert(path@[path@.len() - 1] == curr);
        lemma_hub_no_extension(adj@, path@, nbrs@, k as int);
    }
    visited.set(curr, false);
    path.pop();
    proof {
        assert(path@ =~= p0);
        assert(visited@ =~= v0);
    }
    false
}

/// Linear membership test on indices.
fn contains_idx(l: &Vec<usize>, x: usize) -> (b: bool)
    ensures
        b == l@.contains(x),
{
    let mut i: usize = 0;
    while i < l.len()
        invariant
            0 <= i <= l@.len(),
            forall|q: int| 0 <= q < i ==> l@[q] != x,
        decreases l@.len() - i,
    {
        if l[i] == x {
            return true;
        }
        i = i + 1;
    }
    false
}

/// A cyclic order of the super-hubs in which each has an arc to the next,
/// trying each start in turn.
fn find_hub_cycle(k: usize, adj: &Vec<Vec<usize>>) -> (r: Option<Vec<usize>>)
    requires
        k == adj@.len(),
        forall|i: int, t: int| 0 <= i < adj@.len() && 0 <= t < adj@[i]@.len() ==> #[trigger] adj@[i]@[t] < k,
    ensures
        r matches Some(p) ==> hub_cycle(adj@, p@, k as int),
        r is None && k > 0 ==> !has_hub_cycle(adj@, k as int),
{
    let mut start: usize = 0;
    while start < k
        invariant
            k == adj@.len(),
            forall|i: int, t: int| 0 <= i < adj@.len() && 0 <= t < adj@[i]@.len() ==> #[trigger] adj@[i]@[t] < k,
            0 <= start <= k,
            forall|s0: usize| s0 < start ==> !hub_extends(adj@, seq![s0], k as int),
        decreases k - start,
    {
        let mut visited: Vec<bool> = Vec::new();
        let mut z: usize = 0;
        while z < k
            invariant
                0 <= z <= k,
                visited@.len() == z,
                forall|x: int| 0 <= x < z ==> !(#[trigger] visited@[x]),
            decreases k - z,
        {
            visited.push(false);
            z = z + 1;
        }
        let mut path: Vec<usize> = Vec::new();
        let ghost e0 = path@;
        if hub_dfs(start, start, k, adj, &mut visited, &mut path) {
            return Some(path);
        }
        proof {
            assert(e0.push(start) == seq![start]);
        }
        start = start + 1;
    }
    proof {
        if k > 0 && has_hub_cycle(adj@, k as int) {
            assert(exists|q: Seq<usize>| hub_cycle(adj@, q, k as int)) by {
                reveal(has_hub_cycle);
            }
            let q = choose|q: Seq<usize>| hub_cycle(adj@, q, k as int);
            assert(q[0] < k);
            assert(q.subrange(0, 1) == seq![q[0]]);
            assert(hub_extends(adj@, seq![q[0]], k as int)) by {
                reveal(hub_extends);
            }
        }
    }
    None
}

/// How many entries of `s` belong to `set`.
pub open spec fn count_in(s: Seq<i32>, set: Set<i32>) -> nat
    decreases s.len(),
{
    if s.len() == 0 {
        0
    } else {
        count_in(s.drop_last(), set) + (if set.contains(s.last()) {
            1nat
        } else {
            0nat
        })
    }
}

/// The number of entries of the adjacency list of `v` inside `set`.
pub open spec fn internal_degree(g: Graph, set: Set<i32>, v: i32) -> nat {
    if g.adj().contains_key(v) {
        count_in(g.adj()[v], set)
    } else {
        0
    }
}

/// Computes `internal_degree`.
fn internal_degree_of(g: &Graph, set: &HashSet<i32>, v: i32) -> (d: usize)
    ensures
        d == internal_degree(*g, set@, v),
{
    match g.neighbors(v) {
        Some(nbrs) => {
            let mut c: usize = 0;
            let mut t: usize = 0;
            while t < nbrs.len()
                invariant
                    0 <= t <= nbrs@.len(),
                    c == count_in(nbrs@.subrange(0, t as int), set@),
                    c <= t,
                decreases nbrs@.len() - t,
            {
                proof {
                    assert(nbrs@.subrange(0, t + 1).drop_last() == nbrs@.subrange(0, t as int));
                }
                if set.contains(&nbrs[t]) {
                    c = c + 1;
                }
                t = t + 1;
            }
            assert(nbrs@.subrange(0, nbrs@.len() as int) == nbrs@);
            c
        },
        None => 0,
    }
}

/// The entries of `list` that list `hub` as a neighbour, ordered by their
/// number of neighbours inside the cluster (equal numbers in list order).
fn candidates(g: &Graph, list: &Vec<i32>, set: &HashSet<i32>, hub: i32) -> (r: Vec<i32>)
    requires
        forall|v: i32| set@.contains(v) <==> list@.contains(v),
    ensures
        forall|v: i32| r@.contains(v) <==> list@.contains(v) && g.has_edge(v, hub),
        forall|a: int, b: int| 0 <= a < b < r@.len() ==> internal_degree(*g, set@, r@[a]) <= internal_degree(*g, set@, r@[b]),
        list@.no_duplicates() ==> r@.no_duplicates(),
{
    let mut r: Vec<i32> = Vec::new();
    let mut keys: Vec<usize> = Vec::new();
    let mut t: usize = 0;
    while t < list.len()
        invariant
            0 <= t <= list@.len(),
            keys@.len() == r@.len(),
            forall|x: int| 0 <= x < r@.len() ==> keys@[x] == internal_degree(*g, set@, #[trigger] r@[x]),
            forall|v: i32| r@.contains(v) <==> list@.subrange(0, t as int).contains(v) && g.has_edge(v, hub),
            list@.no_duplicates() ==> r@.no_duplicates(),
        decreases list@.len() - t,
    {
        let v = list[t];
        let ghost p = list@.subrange(0, t as int);
        let ghost q = list@.subrange(0, t + 1);
        proof {
            assert(q == p.push(v));
            assert forall|x: i32| q.contains(x) <==> p.contains(x) || x == v by {
                if p.contains(x) {
                    let j = choose|j: int| 0 <= j < p.len() && p[j] == x;
                    assert(q[j] == x);
                }
                if q.contains(x) && x != v {
                    let j = choose|j: int| 0 <= j < q.len() && q[j] == x;
                    assert(p[j] == x);
                }
                if x == v {
                    assert(q[t as int] == v);
                }
            }
        }
        if g.contains_edge(v, hub) {
            let d = internal_degree_of(g, set, v);
            let ghost r0 = r@;
            let ghost k0 = keys@;
            r.push(v);
            keys.push(d);
            proof {
                assert forall|x: int| 0 <= x < r@.len() implies keys@[x] == internal_degree(*g, set@, #[trigger] r@[x]) by {
                    if x < r0.len() {
                        assert(r@[x] == r0[x] && keys@[x] == k0[x]);
                    }
                }
                assert forall|x: i32| r@.contains(x) <==> q.contains(x) && g.has_edge(x, hub) by {
                    if r@.contains(x) && x != v {
                        let j = choose|j: int| 0 <= j < r@.len() && r@[j] == x;
                        assert(r0[j] == x);
                    }
                    if r0.contains(x) {
                        let j = choose|j: int| 0 <= j < r0.len() && r0[j] == x;
                        assert(r@[j] == x);
                    }
                    if x == v {
                        assert(r@[r0.len() as int] == v);
                    }
                }
                if list@.no_duplicates() {
                    assert(!p.contains(v)) by {
                        if p.contains(v) {
                            let j = choose|j: int| 0 <= j < p.len() && p[j] == v;
                            assert(list@[j] == list@[t as int]);
                        }
                    }
                    assert(!r0.contains(v));
                }
            }
        }
        t = t + 1;
    }
    assert(list@.subrange(0, list@.len() as int) == list@);
    let n = r.len();
    if n == 0 {
        return r;
    }
    let ghost r_init = r@;
    let mut i: usize = 1;
    while i < n
        invariant
            n == r@.len(),
            keys@.len() == n,
            1 <= i <= n,
            forall|x: int| 0 <= x < n ==> keys@[x] == internal_degree(*g, set@, #[trigger] r@[x]),
            r@.to_multiset() == r_init.to_multiset(),
            forall|a: int, b: int| 0 <= a < b < i ==> keys@[a] <= keys@[b],
        decreases n - i,
    {
        let mut j: usize = i;
        while j > 0 && keys[j - 1] > keys[j]
            invariant
                n == r@.len(),
                keys@.len() == n,
                1 <= i < n,
                0 <= j <= i,
                forall|x: int| 0 <= x < n ==> keys@[x] == internal_degree(*g, set@, #[trigger] r@[x]),
                r@.to_multiset() == r_init.to_multiset(),
                forall|a: int, b: int| 0 <= a < b <= i && a != j && b != j ==> keys@[a] <= keys@[b],
                forall|a: int| j < a <= i ==> keys@[j as int] < keys@[a],
            decreases j,
        {
            let ghost rb = r@;
            let ghost kb = keys@;
            let x = r[j - 1];
            let y = r[j];
            r.set(j - 1, y);
            r.set(j, x);
            let kx = keys[j - 1];
            let ky = keys[j];
            keys.set(j - 1, ky);
            keys.set(j, kx);
            proof {
                crate::hub_registry::lemma_swap_ms(rb, j - 1, j as int);
                assert(r@ == rb.update(j - 1, rb[j as int]).update(j as int, rb[j - 1]));
                assert forall|z: int| 0 <= z < n implies keys@[z] == internal_degree(*g, set@, #[trigger] r@[z]) by {
                    if z == j - 1 {
                        assert(r@[z] == rb[j as int] && keys@[z] == kb[j as int]);
                    } else if z == j {
                        assert(r@[z] == rb[j - 1] && keys@[z] == kb[j - 1]);
                    } else {
                        assert(r@[z] == rb[z] && keys@[z] == kb[z]);
                    }
                }
            }
            j = j - 1;
        }
        i = i + 1;
    }
    proof {
        crate::cycle_family::lemma_same_ms(r_init, r@);
    }
    r
}

/// A duplicate-free sequence of `k` indices below `k` lists all of them.
pub(crate) proof fn lemma_perm_covers(p: Seq<usize>, k: int)
    requires
        p.len() == k,
        p.no_duplicates(),
        forall|m: int| 0 <= m < k ==> (#[trigger] p[m]) < k,
    ensures
        forall|i: usize| i < k ==> #[trigger] p.contains(i),
{
    assert forall|i: usize| i < k implies #[trigger] p.contains(i) by {
        if !p.contains(i) {
            let q = p.map_values(|x: usize| x as int);
            assert(q.no_duplicates()) by {
                assert forall|a: int, b: int| 0 <= a < b < q.len() implies q[a] != q[b] by {
                    assert(p[a] != p[b]);
                }
            }
            q.unique_seq_to_set();
            vstd::set_lib::lemma_int_range(0, k);
            let range = vstd::set_lib::set_int_range(0, k).remove(i as int);
            assert(q.to_set().subset_of(range)) by {
                assert forall|x: int| q.to_set().contains(x) implies range.contains(x) by {
                    assert(q.contains(x));
                    let m = choose|m: int| 0 <= m < q.len() && q[m] == x;
                    assert(p[m] < k);
                    if x == i {
                        assert(p[m] == i);
                    }
                }
            }
            vstd::set_lib::lemma_len_subset(q.to_set(), range);
        }
    }
}

/// `c` lists, each once and by increasing number of neighbours inside `vs`,
/// the members of `vs` that have `hub` in their adjacency list.
pub open spec fn candidates_ok(g: Graph, vs: Set<i32>, c: Seq<i32>, hub: i32) -> bool {
    &&& forall|v: i32| c.contains(v) <==> vs.contains(v) && g.has_edge(v, hub)
    &&& forall|a: int, b: int| 0 <= a < b < c.len() ==> internal_degree(g, vs, c[a]) <= internal_degree(g, vs, c[b])
    &&& c.no_duplicates()
}

/// The hub ids of a list of clusters.
pub open spec fn hub_ids(r: Seq<HubCluster>) -> Seq<i32> {
    r.map_values(|c: HubCluster| c.hub_id)
}

/// A vertex of `g` that is not a super-hub.
pub open spec fn outside_hubs(g: Graph, sh: Seq<i32>, v: i32) -> bool {
    g.adj().contains_key(v) && !sh.contains(v)
}

/// The position before `m` in a cyclic order of length `k`.
pub open spec fn prev_pos(m: int, k: int) -> int {
    if m == 0 {
        k - 1
    } else {
        m - 1
    }
}

/// What holds of the clusters built from the hub list `hv`: none when there
/// are fewer than three hubs or no vertex besides the super-hubs; otherwise
/// one cluster per super-hub, in a cyclic order, their vertex sets
/// partitioning the vertices that are not super-hubs, with the entry
/// candidates of each cluster listing its members adjacent to the previous
/// super-hub and the exit candidates those adjacent to its own; either the
/// super-hubs keep their order, or every cluster has an entry candidate.
pub open spec fn clusters_ok(g: Graph, hv: Seq<i32>, r: Seq<HubCluster>) -> bool {
    let sh = super_hubs_spec(g, hv);
    let k = r.len() as int;
    &&& (k == 0 <==> (hv.len() < 3 || forall|v: i32| !outside_hubs(g, sh, v)))
    &&& k > 0 ==> k == sh.len()
    &&& forall|m: int| 0 <= m < k ==> (#[trigger] r[m]).cluster_idx == m && sh.contains(r[m].hub_id)
    &&& forall|i: int| 0 <= i < k ==> hub_ids(r).contains(#[trigger] sh[i])
    &&& forall|m: int, v: i32| 0 <= m < k && #[trigger] r[m].vertices@.contains(v) ==> outside_hubs(g, sh, v)
    &&& forall|v: i32| k > 0 && outside_hubs(g, sh, v) ==> exists|m: int| 0 <= m < k && #[trigger] r[m].vertices@.contains(v)
    &&& forall|a: int, b: int, v: i32|
        0 <= a < k && 0 <= b < k && a != b && #[trigger] r[a].vertices@.contains(v) ==> !#[trigger] r[b].vertices@.contains(v)
    &&& forall|m: int|
        0 <= m < k ==> candidates_ok(g, (#[trigger] r[m]).vertices@, r[m].entry_candidates@, r[prev_pos(m, k)].hub_id)
            && candidates_ok(g, r[m].vertices@, r[m].exit_candidates@, r[m].hub_id)
    &&& (forall|m: int| 0 <= m < k ==> (#[trigger] r[m]).hub_id == sh[m]) || (forall|m: int|
        0 <= m < k ==> (#[trigger] r[m]).entry_candidates@.len() > 0)
}

/// The entries of `list`, as a set.
fn set_of(list: &Vec<i32>) -> (s: HashSet<i32>)
    ensures
        forall|v: i32| s@.contains(v) <==> list@.contains(v),
{
    let mut s: HashSet<i32> = HashSet::new();
    let mut k: usize = 0;
    while k < list.len()
        invariant
            0 <= k <= list@.len(),
            forall|v: i32| s@.contains(v) <==> list@.subrange(0, k as int).contains(v),
        decreases list@.len() - k,
    {
        s.insert(list[k]);
        proof {
            let p = list@.subrange(0, k as int);
            let q = list@.subrange(0, k + 1);
            assert(q == p.push(list@[k as int]));
            assert forall|v: i32| s@.contains(v) <==> q.contains(v) by {
                if p.contains(v) {
                    let j = choose|j: int| 0 <= j < p.len() && p[j] == v;
                    assert(q[j] == v);
                }
                if q.contains(v) && v != list@[k as int] {
                    let j = choose|j: int| 0 <= j < q.len() && q[j] == v;
                    assert(p[j] == v);
                }
                if v == list@[k as int] {
                    assert(q[k as int] == v);
                }
            }
        }
        k = k + 1;
    }
    assert(list@.subrange(0, list@.len() as int) == list@);
    s
}

/// The sorted vertices of `g` that are not super-hubs.
fn outside_vertices(g: &Graph, super_set: &HashSet<i32>, sh: Ghost<Seq<i32>>) -> (nh: Vec<i32>)
    requires
        g.wf(),
        forall|v: i32| super_set@.contains(v) <==> sh@.contains(v),
    ensures
        nh@.no_duplicates(),
        forall|v: i32| nh@.contains(v) <==> outside_hubs(*g, sh@, v),
{
    let verts = g.vertex_list();
    let mut nh: Vec<i32> = Vec::new();
    let mut i: usize = 0;
    while i < verts.len()
        invariant
            verts@.no_duplicates(),
            forall|v: i32| verts@.contains(v) <==> g.adj().contains_key(v),
            forall|v: i32| super_set@.contains(v) <==> sh@.contains(v),
            0 <= i <= verts@.len(),
            nh@.no_duplicates(),
            forall|v: i32| #[trigger] nh@.contains(v) <==> verts@.subrange(0, i as int).contains(v) && !sh@.contains(v),
        decreases verts@.len() - i,
    {
        let v = verts[i];
        let ghost p = verts@.subrange(0, i as int);
        let ghost q = verts@.subrange(0, i + 1);
        proof {
            assert(q == p.push(v));
            assert forall|x: i32| q.contains(x) <==> p.contains(x) || x == v by {
                if p.contains(x) {
                    let j = choose|j: int| 0 <= j < p.len() && p[j] == x;
                    assert(q[j] == x);
                }
                if q.contains(x) && x != v {
                    let j = choose|j: int| 0 <= j < q.len() && q[j] == x;
                    assert(p[j] == x);
                }
                if x == v {
                    assert(q[i as int] == v);
                }
            }
            assert(!p.contains(v)) by {
                if p.contains(v) {
                    let j = choose|j: int| 0 <= j < p.len() && p[j] == v;
                    assert(verts@[j] == verts@[i as int]);
                }
            }
        }
        let ghost n0 = nh@;
        if !super_set.contains(&v) {
            nh.push(v);
            proof {
                assert(!sh@.contains(v));
                assert forall|x: i32| nh@.contains(x) <==> q.contains(x) && !sh@.contains(x) by {
                    assert(n0.contains(x) <==> p.contains(x) && !sh@.contains(x));
                    if nh@.contains(x) && x != v {
                        let j = choose|j: int| 0 <= j < nh@.len() && nh@[j] == x;
                        assert(n0[j] == x);
                    }
                    if n0.contains(x) {
                        let j = choose|j: int| 0 <= j < n0.len() && n0[j] == x;
                        assert(nh@[j] == x);
                    }
                    if x == v {
                        assert(nh@[n0.len() as int] == v);
                    }
                }
                assert(!n0.contains(v));
            }
        } else {
            proof {
                assert(sh@.contains(v));
                assert forall|x: i32| nh@.contains(x) <==> q.contains(x) && !sh@.contains(x) by {
                    assert(n0.contains(x) <==> p.contains(x) && !sh@.contains(x));
                }
            }
        }
        i = i + 1;
    }
    assert(verts@.subrange(0, verts@.len() as int) == verts@);
    let ghost before = nh@;
    crate::sorting::sort_i32(&mut nh);
    proof {
        crate::cycle_family::lemma_same_ms(before, nh@);
        assert forall|v: i32| nh@.contains(v) <==> outside_hubs(*g, sh@, v) by {
            assert(verts@.contains(v) <==> g.adj().contains_key(v));
        }
    }
    nh
}

/// Super-hubs exist whenever there are at least three hubs.
proof fn lemma_super_hubs_len(g: Graph, hv: Seq<i32>)
    requires
        hv.len() >= 3,
    ensures
        super_hubs_spec(g, hv).len() >= 3,
{
}

/// The cluster at position `m` of the cyclic order `order`.
fn cluster_at(g: &Graph, supers: &Vec<i32>, raw: &Vec<Vec<i32>>, order: &Vec<usize>, m: usize) -> (c: HubCluster)
    requires
        supers@.len() == raw@.len(),
        supers@.len() >= 1,
        order@.len() == supers@.len(),
        forall|t: int| 0 <= t < order@.len() ==> #[trigger] order@[t] < supers@.len(),
        forall|h: int| 0 <= h < raw@.len() ==> (#[trigger] raw@[h])@.no_duplicates(),
        m < supers@.len(),
    ensures
        c.hub_id == supers@[order@[m as int] as int],
        c.cluster_idx == m,
        forall|v: i32| c.vertices@.contains(v) <==> raw@[order@[m as int] as int]@.contains(v),
        candidates_ok(
            *g,
            c.vertices@,
            c.entry_candidates@,
            supers@[order@[prev_pos(m as int, supers@.len() as int)] as int],
        ),
        candidates_ok(*g, c.vertices@, c.exit_candidates@, c.hub_id),
{
    let k = supers.len();
    let raw_idx = order[m];
    let prev_idx = if m == 0 {
        order[k - 1]
    } else {
        order[m - 1]
    };
    let hub_id = supers[raw_idx];
    let prev_hub = supers[prev_idx];
    let list = &raw[raw_idx];
    let vertices = set_of(list);
    let entry_candidates = candidates(g, list, &vertices, prev_hub);
    let exit_candidates = candidates(g, list, &vertices, hub_id);
    proof {
        assert(raw@[raw_idx as int]@.no_duplicates());
        assert forall|v: i32| entry_candidates@.contains(v) <==> vertices@.contains(v) && g.has_edge(v, prev_hub) by {
        }
        assert forall|v: i32| exit_candidates@.contains(v) <==> vertices@.contains(v) && g.has_edge(v, hub_id) by {
        }
    }
    HubCluster { hub_id, cluster_idx: m, vertices, entry_candidates, exit_candidates }
}

/// Partitions non-hub vertices into K disjoint subsets assigned to the closest super-hub,
/// orders the super-hubs into a valid cyclic sequence, and identifies candidate entry/exit boundary vertices.
pub fn partition_clusters(g: &Graph, hub_registry: &HubRegistry) -> (r: Vec<HubCluster>)
    requires
        g.wf(),
    ensures
        clusters_ok(*g, hub_registry.hub_vertices@, r@),
{
    let ghost hv = hub_registry.hub_vertices@;
    let ghost sh = super_hubs_spec(*g, hv);
    if hub_registry.hub_vertices.len() < 3 {
        return Vec::new();
    }
    let supers = select_super_hubs(g, &hub_registry.hub_vertices);
    let k = supers.len();
    proof {
        lemma_super_hubs_len(*g, hv);
    }
    let super_set = set_of(&supers);
    let nh = outside_vertices(g, &super_set, Ghost(sh));
    if nh.len() == 0 {
        proof {
            assert forall|v: i32| !outside_hubs(*g, sh, v) by {
                assert(!nh@.contains(v));
            }
        }
        return Vec::new();
    }
    proof {
        g.lemma_wf();
        crate::graph::lemma_vertex_count_bound(*g);
        assert forall|v: i32| #[trigger] nh@.contains(v) implies g.adj().contains_key(v) by {
        }
        lemma_distinct_vertices_bound(*g, nh@);
    }
    let mut dists: Vec<HashMap<i32, usize>> = Vec::new();
    let mut h: usize = 0;
    while h < k
        invariant
            g.wf(),
            g.adj().dom().len() <= 0x1_0000_0000,
            k == supers@.len(),
            0 <= h <= k,
            dists@.len() == h,
            forall|h2: int, v: i32|
                0 <= h2 < h && #[trigger] dists@[h2]@.contains_key(v) ==> 1 <= dists@[h2]@[v] <= 0x1_0000_0000,
        decreases k - h,
    {
        let d = hub_distances(g, supers[h], &super_set);
        let ghost d0 = dists@;
        dists.push(d);
        proof {
            assert forall|h2: int, v: i32|
                0 <= h2 < h + 1 && #[trigger] dists@[h2]@.contains_key(v) implies 1 <= dists@[h2]@[v] <= 0x1_0000_0000 by {
                if h2 < h {
                    assert(dists@[h2] == d0[h2]);
                }
            }
        }
        h = h + 1;
    }
    let a = assign_vertices(g, &nh, &dists, k);
    let mut raw: Vec<Vec<i32>> = Vec::new();
    let mut h: usize = 0;
    while h < k
        invariant
            a@.len() == nh@.len(),
            nh@.no_duplicates(),
            0 <= h <= k,
            raw@.len() == h,
            forall|h2: int, v: i32|
                0 <= h2 < h ==> (#[trigger] raw@[h2]@.contains(v) <==> exists|t: int|
                    0 <= t < nh@.len() && nh@[t] == v && #[trigger] a@[t] == h2 as usize),
            forall|h2: int| 0 <= h2 < h ==> (#[trigger] raw@[h2])@.no_duplicates(),
        decreases k - h,
    {
        let list = members_of(&nh, &a, h);
        let ghost r0 = raw@;
        raw.push(list);
        proof {
            assert forall|h2: int, v: i32|
                0 <= h2 < h + 1 implies (#[trigger] raw@[h2]@.contains(v) <==> exists|t: int|
                    0 <= t < nh@.len() && nh@[t] == v && #[trigger] a@[t] == h2 as usize) by {
                if h2 < h {
                    assert(raw@[h2] == r0[h2]);
                }
            }
            assert forall|h2: int| 0 <= h2 < h + 1 implies (#[trigger] raw@[h2])@.no_duplicates() by {
                if h2 < h {
                    assert(raw@[h2] == r0[h2]);
                }
            }
        }
        h = h + 1;
    }
    let hub_adj = hub_adjacency(g, &supers, &raw);
    let found = find_hub_cycle(k, &hub_adj);
    let is_cycle = found.is_some();
    let order: Vec<usize> = match found {
        Some(p) => p,
        None => {
            let mut id: Vec<usize> = Vec::new();
            let mut z: usize = 0;
            while z < k
                invariant
                    0 <= z <= k,
                    id@.len() == z,
                    forall|t: int| 0 <= t < z ==> #[trigger] id@[t] == t,
                decreases k - z,
            {
                id.push(z);
                z = z + 1;
            }
            id
        },
    };
    proof {
        if is_cycle {
            assert(hub_cycle(hub_adj@, order@, k as int));
        } else {
            assert(order@.no_duplicates());
        }
        assert(order@.no_duplicates());
        lemma_perm_covers(order@, k as int);
    }
    let mut clusters: Vec<HubCluster> = Vec::new();
    let mut m: usize = 0;
    while m < k
        invariant
            k == supers@.len(),
            raw@.len() == k,
            k >= 3,
            order@.len() == k,
            forall|t: int| 0 <= t < order@.len() ==> #[trigger] order@[t] < k,
            forall|h2: int| 0 <= h2 < k ==> (#[trigger] raw@[h2])@.no_duplicates(),
            0 <= m <= k,
            clusters@.len() == m,
            forall|q: int|
                0 <= q < m ==> (#[trigger] clusters@[q]).hub_id == supers@[order@[q] as int] && clusters@[q].cluster_idx == q
                    && (forall|v: i32| clusters@[q].vertices@.contains(v) <==> raw@[order@[q] as int]@.contains(v))
                    && candidates_ok(*g, clusters@[q].vertices@, clusters@[q].entry_candidates@, supers@[order@[prev_pos(q, k as int)] as int])
                    && candidates_ok(*g, clusters@[q].vertices@, clusters@[q].exit_candidates@, clusters@[q].hub_id),
        decreases k - m,
    {
        let c = cluster_at(g, &supers, &raw, &order, m);
        let ghost c0 = clusters@;
        clusters.push(c);
        proof {
            assert forall|q: int|
                0 <= q < m + 1 implies (#[trigger] clusters@[q]).hub_id == supers@[order@[q] as int] && clusters@[q].cluster_idx == q
                    && (forall|v: i32| clusters@[q].vertices@.contains(v) <==> raw@[order@[q] as int]@.contains(v))
                    && candidates_ok(*g, clusters@[q].vertices@, clusters@[q].entry_candidates@, supers@[order@[prev_pos(q, k as int)] as int])
                    && candidates_ok(*g, clusters@[q].vertices@, clusters@[q].exit_candidates@, clusters@[q].hub_id) by {
                if q < m {
                    assert(clusters@[q] == c0[q]);
                }
            }
        }
        m = m + 1;
    }
    proof {
        lemma_clusters_ok(*g, hv, supers@, nh@, a@, raw@, hub_adj@, order@, is_cycle, clusters@);
    }
    clusters
}

/// Positions and hub ids of the clusters.
proof fn lemma_clusters_hubs(g: Graph, supers: Seq<i32>, raw: Seq<Vec<i32>>, order: Seq<usize>, clusters: Seq<HubCluster>)
    requires
        supers.len() >= 3,
        supers.len() <= usize::MAX,
        order.len() == supers.len(),
        forall|t: int| 0 <= t < order.len() ==> #[trigger] order[t] < supers.len(),
        clusters.len() == supers.len(),
        forall|q: int|
            0 <= q < clusters.len() ==> (#[trigger] clusters[q]).hub_id == supers[order[q] as int] && clusters[q].cluster_idx == q
                && (forall|v: i32| clusters[q].vertices@.contains(v) <==> raw[order[q] as int]@.contains(v))
                && candidates_ok(g, clusters[q].vertices@, clusters[q].entry_candidates@, supers[order[prev_pos(q, supers.len() as int)] as int])
                && candidates_ok(g, clusters[q].vertices@, clusters[q].exit_candidates@, clusters[q].hub_id),
    ensures
        forall|m: int| 0 <= m < clusters.len() ==> (#[trigger] clusters[m]).cluster_idx == m && supers.contains(clusters[m].hub_id),
        forall|m: int|
            0 <= m < clusters.len() ==> candidates_ok(g, (#[trigger] clusters[m]).vertices@, clusters[m].entry_candidates@, clusters[prev_pos(m, clusters.len() as int)].hub_id)
                && candidates_ok(g, clusters[m].vertices@, clusters[m].exit_candidates@, clusters[m].hub_id),
{
    let k = supers.len() as int;
    assert forall|m: int| 0 <= m < k implies (#[trigger] clusters[m]).cluster_idx == m && supers.contains(clusters[m].hub_id) by {
        assert(supers[order[m] as int] == clusters[m].hub_id);
    }
    assert forall|m: int|
        0 <= m < k implies candidates_ok(g, (#[trigger] clusters[m]).vertices@, clusters[m].entry_candidates@, clusters[prev_pos(m, k)].hub_id)
            && candidates_ok(g, clusters[m].vertices@, clusters[m].exit_candidates@, clusters[m].hub_id) by {
        assert(clusters[prev_pos(m, k)].hub_id == supers[order[prev_pos(m, k)] as int]);
    }
}

/// Every super-hub heads a cluster.
proof fn lemma_clusters_cover_hubs(supers: Seq<i32>, order: Seq<usize>, clusters: Seq<HubCluster>)
    requires
        supers.len() <= usize::MAX,
        order.len() == supers.len(),
        clusters.len() == supers.len(),
        forall|i: usize| i < supers.len() ==> #[trigger] order.contains(i),
        forall|q: int| 0 <= q < clusters.len() ==> (#[trigger] clusters[q]).hub_id == supers[order[q] as int],
    ensures
        forall|i: int| 0 <= i < clusters.len() ==> hub_ids(clusters).contains(#[trigger] supers[i]),
{
    assert forall|i: int| 0 <= i < clusters.len() implies hub_ids(clusters).contains(#[trigger] supers[i]) by {
        assert(order.contains(i as usize));
        let m = choose|m: int| 0 <= m < order.len() && order[m] == i as usize;
        assert(clusters[m].hub_id == supers[order[m] as int]);
        assert(order[m] as int == i);
        assert(hub_ids(clusters)[m] == supers[i]);
    }
}

/// The vertex sets of the clusters partition the vertices that are not super-hubs.
proof fn lemma_clusters_partition(
    g: Graph,
    supers: Seq<i32>,
    nh: Seq<i32>,
    a: Seq<usize>,
    raw: Seq<Vec<i32>>,
    order: Seq<usize>,
    clusters: Seq<HubCluster>,
)
    requires
        supers.len() >= 3,
        supers.len() <= usize::MAX,
        order.len() == supers.len(),
        forall|t: int| 0 <= t < order.len() ==> #[trigger] order[t] < supers.len(),
        clusters.len() == supers.len(),
        forall|q: int|
            0 <= q < clusters.len() ==> (#[trigger] clusters[q]).hub_id == supers[order[q] as int] && clusters[q].cluster_idx == q
                && (forall|v: i32| clusters[q].vertices@.contains(v) <==> raw[order[q] as int]@.contains(v))
                && candidates_ok(g, clusters[q].vertices@, clusters[q].entry_candidates@, supers[order[prev_pos(q, supers.len() as int)] as int])
                && candidates_ok(g, clusters[q].vertices@, clusters[q].exit_candidates@, clusters[q].hub_id),
        forall|i: usize| i < supers.len() ==> #[trigger] order.contains(i),
        order.no_duplicates(),
        nh.no_duplicates(),
        forall|v: i32| nh.contains(v) <==> outside_hubs(g, supers, v),
        a.len() == nh.len(),
        forall|t: int| 0 <= t < a.len() ==> #[trigger] a[t] < supers.len(),
        raw.len() == supers.len(),
        forall|h2: int, v: i32|
            0 <= h2 < raw.len() ==> (#[trigger] raw[h2]@.contains(v) <==> exists|t: int|
                0 <= t < nh.len() && nh[t] == v && #[trigger] a[t] == h2 as usize),
    ensures
        forall|m: int, v: i32| 0 <= m < clusters.len() && #[trigger] clusters[m].vertices@.contains(v) ==> outside_hubs(g, supers, v),
        forall|v: i32| outside_hubs(g, supers, v) ==> exists|m: int| 0 <= m < clusters.len() && #[trigger] clusters[m].vertices@.contains(v),
        forall|x: int, y: int, v: i32|
            0 <= x < clusters.len() && 0 <= y < clusters.len() && x != y && #[trigger] clusters[x].vertices@.contains(v)
                ==> !#[trigger] clusters[y].vertices@.contains(v),
{
    let k = supers.len() as int;
    assert forall|m: int, v: i32| 0 <= m < k && #[trigger] clusters[m].vertices@.contains(v) implies outside_hubs(g, supers, v) by {
        assert(raw[order[m] as int]@.contains(v));
        let t = choose|t: int| 0 <= t < nh.len() && nh[t] == v && #[trigger] a[t] == order[m];
        assert(nh.contains(v));
    }
    assert forall|v: i32| outside_hubs(g, supers, v) implies exists|m: int| 0 <= m < k && #[trigger] clusters[m].vertices@.contains(v) by {
        assert(nh.contains(v));
        let t = choose|t: int| 0 <= t < nh.len() && nh[t] == v;
        let h = a[t];
        assert(order.contains(h));
        let m = choose|m: int| 0 <= m < order.len() && order[m] == h;
        assert(raw[h as int]@.contains(v));
        assert(clusters[m].vertices@.contains(v));
    }
    assert forall|x: int, y: int, v: i32|
        0 <= x < k && 0 <= y < k && x != y && #[trigger] clusters[x].vertices@.contains(v) implies !#[trigger] clusters[y].vertices@.contains(v) by {
        if clusters[y].vertices@.contains(v) {
            assert(raw[order[x] as int]@.contains(v));
            assert(raw[order[y] as int]@.contains(v));
            let t1 = choose|t: int| 0 <= t < nh.len() && nh[t] == v && #[trigger] a[t] == order[x];
            let t2 = choose|t: int| 0 <= t < nh.len() && nh[t] == v && #[trigger] a[t] == order[y];
            assert(t1 == t2);
            assert(order[x] != order[y]);
        }
    }
}

/// Either the super-hubs kept their order or every cluster has an entry candidate.
#[verifier::rlimit(50)]
proof fn lemma_clusters_order(
    g: Graph,
    supers: Seq<i32>,
    raw: Seq<Vec<i32>>,
    hub_adj: Seq<Vec<usize>>,
    order: Seq<usize>,
    is_cycle: bool,
    clusters: Seq<HubCluster>,
)
    requires
        supers.len() >= 3,
        supers.len() <= usize::MAX,
        order.len() == supers.len(),
        forall|t: int| 0 <= t < order.len() ==> #[trigger] order[t] < supers.len(),
        clusters.len() == supers.len(),
        forall|q: int|
            0 <= q < clusters.len() ==> (#[trigger] clusters[q]).hub_id == supers[order[q] as int] && clusters[q].cluster_idx == q
                && (forall|v: i32| clusters[q].vertices@.contains(v) <==> raw[order[q] as int]@.contains(v))
                && candidates_ok(g, clusters[q].vertices@, clusters[q].entry_candidates@, supers[order[prev_pos(q, supers.len() as int)] as int])
                && candidates_ok(g, clusters[q].vertices@, clusters[q].exit_candidates@, clusters[q].hub_id),
        hub_adj.len() == supers.len(),
        raw.len() == supers.len(),
        forall|i: int, j: usize|
            0 <= i < hub_adj.len() ==> (#[trigger] hub_adj[i]@.contains(j) && j < supers.len() <==> hub_arc(
                g,
                supers,
                crate::cycle_family::views(raw),
                i,
                j as int,
            )),
        is_cycle ==> hub_cycle(hub_adj, order, supers.len() as int),
        !is_cycle ==> forall|t: int| 0 <= t < order.len() ==> #[trigger] order[t] == t,
    ensures
        (forall|m: int| 0 <= m < clusters.len() ==> (#[trigger] clusters[m]).hub_id == supers[m]) || (forall|m: int|
            0 <= m < clusters.len() ==> (#[trigger] clusters[m]).entry_candidates@.len() > 0),
{
    let k = supers.len() as int;
    let rv = crate::cycle_family::views(raw);
    if is_cycle {
        assert forall|m: int| 0 <= m < k implies (#[trigger] clusters[m]).entry_candidates@.len() > 0 by {
            let pm = prev_pos(m, k);
            assert(next_pos(pm, k) == m);
            assert(order[pm] < k);
            assert(hub_adj[order[pm] as int]@.contains(order[next_pos(pm, k)]));
            assert(hub_arc(g, supers, rv, order[pm] as int, order[m] as int));
            let v = choose|v: i32| rv[order[m] as int].contains(v) && #[trigger] g.has_edge(v, supers[order[pm] as int]);
            assert(rv[order[m] as int] == raw[order[m] as int]@);
            assert(clusters[m].vertices@.contains(v));
            assert(clusters[m].entry_candidates@.contains(v));
        }
    } else {
        assert forall|m: int| 0 <= m < k implies (#[trigger] clusters[m]).hub_id == supers[m] by {
            assert(order[m] == m);
        }
    }
}

/// The final assembly of `partition_clusters` meets `clusters_ok`.
#[verifier::spinoff_prover]
#[verifier::rlimit(100)]
proof fn lemma_clusters_ok(
    g: Graph,
    hv: Seq<i32>,
    supers: Seq<i32>,
    nh: Seq<i32>,
    a: Seq<usize>,
    raw: Seq<Vec<i32>>,
    hub_adj: Seq<Vec<usize>>,
    order: Seq<usize>,
    is_cycle: bool,
    clusters: Seq<HubCluster>,
)
    requires
        hv.len() >= 3,
        supers == super_hubs_spec(g, hv),
        nh.len() > 0,
        nh.no_duplicates(),
        forall|v: i32| nh.contains(v) <==> outside_hubs(g, supers, v),
        a.len() == nh.len(),
        forall|t: int| 0 <= t < a.len() ==> #[trigger] a[t] < supers.len(),
        raw.len() == supers.len(),
        forall|h2: int, v: i32|
            0 <= h2 < raw.len() ==> (#[trigger] raw[h2]@.contains(v) <==> exists|t: int|
                0 <= t < nh.len() && nh[t] == v && #[trigger] a[t] == h2 as usize),
        hub_adj.len() == supers.len(),
        forall|i: int, j: usize|
            0 <= i < hub_adj.len() ==> (#[trigger] hub_adj[i]@.contains(j) && j < supers.len() <==> hub_arc(
                g,
                supers,
                crate::cycle_family::views(raw),
                i,
                j as int,
            )),
        order.no_duplicates(),
        forall|i: usize| i < supers.len() ==> #[trigger] order.contains(i),
        is_cycle ==> hub_cycle(hub_adj, order, supers.len() as int),
        !is_cycle ==> forall|t: int| 0 <= t < order.len() ==> #[trigger] order[t] == t,
        supers.len() >= 3,
        supers.len() <= usize::MAX,
        order.len() == supers.len(),
        forall|t: int| 0 <= t < order.len() ==> #[trigger] order[t] < supers.len(),
        clusters.len() == supers.len(),
        forall|q: int|
            0 <= q < clusters.len() ==> (#[trigger] clusters[q]).hub_id == supers[order[q] as int] && clusters[q].cluster_idx == q
                && (forall|v: i32| clusters[q].vertices@.contains(v) <==> raw[order[q] as int]@.contains(v))
                && candidates_ok(g, clusters[q].vertices@, clusters[q].entry_candidates@, supers[order[prev_pos(q, supers.len() as int)] as int])
                && candidates_ok(g, clusters[q].vertices@, clusters[q].exit_candidates@, clusters[q].hub_id),
    ensures
        clusters_ok(g, hv, clusters),
{
    lemma_clusters_hubs(g, supers, raw, order, clusters);
    lemma_clusters_cover_hubs(supers, order, clusters);
    lemma_clusters_partition(g, supers, nh, a, raw, order, clusters);
    lemma_clusters_order(g, supers, raw, hub_adj, order, is_cycle, clusters);
    assert(!(hv.len() < 3 || forall|v: i32| !outside_hubs(g, supers, v))) by {
        assert(nh.contains(nh[0]));
    }
}

impl HubPartitionedSolver {
    /// The clusters of `partition_clusters`.
    pub fn partition_clusters(g: &Graph, hub_registry: &HubRegistry) -> (r: Vec<HubCluster>)
        requires
            g.wf(),
        ensures
            clusters_ok(*g, hub_registry.hub_vertices@, r@),
    {
        partition_clusters(g, hub_registry)
    }
}

/// A simple cycle of `g`: at least three vertices, none twice, consecutive
/// ones (and the last and the first) adjacent.
pub fn is_valid_cycle(cycle: &[i32], g: &Graph) -> (b: bool)
    ensures
        b == simple_cycle(*g, cycle@),
{
    is_simple_cycle(cycle, g)
}

} // verus!
