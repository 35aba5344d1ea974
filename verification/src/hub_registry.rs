//! Detection of hub vertices: vertices whose degree is both large in absolute
//! terms and at least three times the average degree.
use crate::graph::Graph;
use std::collections::{HashMap, HashSet};
use vstd::prelude::*;

verus! {

broadcast use vstd::std_specs::hash::group_hash_axioms;

/// Which vertices are hubs, ordered by degree.
pub struct HubRegistry {
    pub is_hub: Vec<bool>,
    pub hub_vertices: Vec<i32>,
    pub hub_neighbors: HashMap<i32, HashSet<i32>>,
    pub min_hub_degree: usize,
}

/// The sum of the degrees of the first `k` vertices in graph order.
pub open spec fn degree_sum_upto(g: Graph, k: int) -> int
    decreases k,
{
    if k <= 0 {
        0
    } else {
        degree_sum_upto(g, k - 1) + g.degree_of(g.vertices()[k - 1])
    }
}

/// The largest degree among the first `k` vertices (0 for none).
pub open spec fn degree_max_upto(g: Graph, k: int) -> int
    decreases k,
{
    if k <= 0 {
        0
    } else {
        let d = g.degree_of(g.vertices()[k - 1]) as int;
        let m = degree_max_upto(g, k - 1);
        if d > m {
            d
        } else {
            m
        }
    }
}

/// The largest label among the first `k` vertices (0 for none).
pub open spec fn label_max_upto(g: Graph, k: int) -> int
    decreases k,
{
    if k <= 0 {
        0
    } else if k == 1 {
        g.vertices()[0] as int
    } else {
        let v = g.vertices()[k - 1] as int;
        let m = label_max_upto(g, k - 1);
        if v > m {
            v
        } else {
            m
        }
    }
}

/// Sum of all degrees.
pub open spec fn total_degree(g: Graph) -> int {
    degree_sum_upto(g, g.vertices().len() as int)
}

/// Largest degree.
pub open spec fn max_degree(g: Graph) -> int {
    degree_max_upto(g, g.vertices().len() as int)
}

/// The degree threshold: half the largest degree, clamped to `[20, 50]`.
pub open spec fn hub_threshold(g: Graph) -> int {
    let h = max_degree(g) / 2;
    if h < 20 {
        20
    } else if h > 50 {
        50
    } else {
        h
    }
}

/// `u` is a hub: a vertex whose degree reaches the threshold and is at least
/// three times the average degree.
pub open spec fn is_hub_spec(g: Graph, u: i32) -> bool {
    &&& g.adj().contains_key(u)
    &&& g.degree_of(u) >= hub_threshold(g)
    &&& g.degree_of(u) * g.vertices().len() >= 3 * total_degree(g)
}

/// Length of the hub flag vector: one past the larger of the largest label
/// and the number of vertices.
pub open spec fn flag_len(g: Graph) -> int {
    let m = label_max_upto(g, g.vertices().len() as int);
    let n = g.vertices().len() as int;
    (if m > n {
        m
    } else {
        n
    }) + 1
}

impl HubRegistry {
    /// Classifies the vertices of `g`: the hubs, their flags, their
    /// neighbourhoods, and the degree threshold used.
    pub fn new(g: &Graph) -> (r: HubRegistry)
        requires
            g.wf(),
            g.vertices().len() <= i32::MAX,
        ensures
            r.min_hub_degree == hub_threshold(*g),
            r.is_hub@.len() == flag_len(*g),
            forall|k: int| 0 <= k < r.is_hub@.len() ==> #[trigger] r.is_hub@[k] == (k <= i32::MAX
                && is_hub_spec(*g, k as i32)),
            r.hub_vertices@.no_duplicates(),
            forall|u: i32| r.hub_vertices@.contains(u) <==> is_hub_spec(*g, u),
            forall|a: int, b: int|
                0 <= a < b < r.hub_vertices@.len() ==> g.degree_of(r.hub_vertices@[a]) >= g.degree_of(
                    r.hub_vertices@[b],
                ),
            forall|u: i32| r.hub_neighbors@.contains_key(u) <==> is_hub_spec(*g, u),
            forall|u: i32|
                #![trigger r.hub_neighbors@[u]]
                r.hub_neighbors@.contains_key(u) ==> r.hub_neighbors@[u]@ == g.adj()[u].to_set(),
    {
        let verts = g.vertex_list();
        let total_v = verts.len();
        // degree sum, degree maximum and label maximum
        let mut total_deg: u128 = 0;
        let mut max_deg: usize = 0;
        let mut max_label: i64 = 0;
        let mut k: usize = 0;
        while k < total_v
            invariant
                total_v == verts@.len(),
                verts@ == g.vertices(),
                0 <= k <= total_v,
                total_deg == degree_sum_upto(*g, k as int),
                total_deg <= k * 0xffff_ffff_ffff_ffffu128,
                max_deg == degree_max_upto(*g, k as int),
                max_label == label_max_upto(*g, k as int),
            decreases total_v - k,
        {
            let d = g.degree(verts[k]);
            total_deg = total_deg + d as u128;
            if d > max_deg {
                max_deg = d;
            }
            let lbl = verts[k] as i64;
            if k == 0 || lbl > max_label {
                max_label = lbl;
            }
            k = k + 1;
        }
        let half = max_deg / 2;
        let min_hub_degree = if half < 20 {
            20
        } else if half > 50 {
            50
        } else {
            half
        };
        let n_i64 = total_v as i64;
        let max_v = if max_label > n_i64 {
            max_label
        } else {
            n_i64
        };
        proof {
            assert(max_label <= i32::MAX) by {
                lemma_label_max_bound(*g, total_v as int);
            }
        }
        let flag_count = (max_v as usize) + 1;
        let mut is_hub: Vec<bool> = vec![false; flag_count];
        let mut hub_vertices: Vec<i32> = Vec::new();
        let mut hub_neighbors: HashMap<i32, HashSet<i32>> = HashMap::new();
        let mut k: usize = 0;
        while k < total_v
            invariant
                total_v == verts@.len(),
                verts@ == g.vertices(),
                verts@.no_duplicates(),
                forall|v: i32| verts@.contains(v) <==> g.adj().contains_key(v),
                0 <= k <= total_v,
                total_deg == total_degree(*g),
                min_hub_degree == hub_threshold(*g),
                is_hub@.len() == flag_count,
                flag_count == flag_len(*g),
                forall|j: int| 0 <= j < is_hub@.len() ==> #[trigger] is_hub@[j] == (j <= i32::MAX
                    && exists|t: int| 0 <= t < k && verts@[t] == j && is_hub_spec(*g, verts@[t])),
                hub_vertices@.no_duplicates(),
                forall|u: i32| hub_vertices@.contains(u) <==> (exists|t: int| 0 <= t < k && verts@[t] == u)
                    && is_hub_spec(*g, u),
                forall|u: i32| hub_neighbors@.contains_key(u) <==> hub_vertices@.contains(u),
                forall|u: i32|
                    #![trigger hub_neighbors@[u]]
                    hub_neighbors@.contains_key(u) ==> hub_neighbors@[u]@ == g.adj()[u].to_set(),
            decreases total_v - k,
        {
            let u = verts[k];
            let d = g.degree(u);
            proof {
                assert(d as u128 * total_v as u128 <= 0xffff_ffff_ffff_ffffu128 * 0xffff_ffff_ffff_ffffu128) by (nonlinear_arith)
                    requires d <= 0xffff_ffff_ffff_ffffu128, total_v <= 0xffff_ffff_ffff_ffffu128;
            }
            let ghost hv0 = hub_vertices@;
            if d >= min_hub_degree && (d as u128 * total_v as u128) / 3 >= total_deg {
                proof {
                    let a = d as int * total_v as int;
                    assert(a / 3 >= total_degree(*g) ==> a >= 3 * total_degree(*g)) by (nonlinear_arith)
                        requires a >= 0;
                    lemma_is_hub_vertex(*g, u);
                    assert(verts@.contains(u));
                    assert(d as int == g.degree_of(u));
                    assert(a >= 3 * total_degree(*g));
                    assert(is_hub_spec(*g, u));
                }
                if u >= 0 && (u as usize) < is_hub.len() {
                    is_hub.set(u as usize, true);
                }
                hub_vertices.push(u);
                let set = to_hash_set(g.neighbors(u).unwrap());
                hub_neighbors.insert(u, set);
                proof {
                    assert(!(exists|t: int| 0 <= t < k && verts@[t] == u)) by {
                        if exists|t: int| 0 <= t < k && verts@[t] == u {
                            let t = choose|t: int| 0 <= t < k && verts@[t] == u;
                            assert(verts@[k as int] == u);
                        }
                    }
                    lemma_prefix_push(hv0, verts@, k as int, |w: i32| is_hub_spec(*g, w));
                    assert(hub_vertices@ == hv0.push(u));
                    assert forall|w: i32| hub_neighbors@.contains_key(w) <==> hub_vertices@.contains(w) by {
                        if w != u && hv0.contains(w) {
                            let q = choose|q: int| 0 <= q < hv0.len() && hv0[q] == w;
                            assert(hub_vertices@[q] == w);
                        }
                        if w == u {
                            assert(hub_vertices@[hub_vertices@.len() - 1] == w);
                        }
                        if w != u && hub_vertices@.contains(w) {
                            let q = choose|q: int| 0 <= q < hub_vertices@.len() && hub_vertices@[q] == w;
                            assert(q < hub_vertices@.len() - 1);
                            assert(hv0[q] == w);
                        }
                    }
                    assert forall|j: int| 0 <= j < is_hub@.len() implies #[trigger] is_hub@[j] == (j <= i32::MAX
                        && exists|t: int| 0 <= t < k + 1 && verts@[t] == j && is_hub_spec(*g, verts@[t])) by {
                        if j == u as int {
                            assert(verts@[k as int] == j);
                        }
                    }
                }
            } else {
                proof {
                    let a = d as int * total_v as int;
                    assert(a >= 3 * total_degree(*g) ==> a / 3 >= total_degree(*g)) by (nonlinear_arith)
                        requires a >= 0;
                    assert(!is_hub_spec(*g, u));
                    lemma_prefix_skip(hv0, verts@, k as int, |w: i32| is_hub_spec(*g, w));
                    assert forall|j: int| 0 <= j < is_hub@.len() implies #[trigger] is_hub@[j] == (j <= i32::MAX
                        && exists|t: int| 0 <= t < k + 1 && verts@[t] == j && is_hub_spec(*g, verts@[t])) by {
                        if exists|t: int| 0 <= t < k + 1 && verts@[t] == j && is_hub_spec(*g, verts@[t]) {
                            let t = choose|t: int| 0 <= t < k + 1 && verts@[t] == j && is_hub_spec(*g, verts@[t]);
                            assert(t != k);
                        }
                    }
                }
            }
            k = k + 1;
        }
        proof {
            assert forall|u: i32| hub_vertices@.contains(u) <==> is_hub_spec(*g, u) by {
                if is_hub_spec(*g, u) {
                    assert(verts@.contains(u));
                }
            }
            assert forall|j: int| 0 <= j < is_hub@.len() implies #[trigger] is_hub@[j] == (j <= i32::MAX
                && is_hub_spec(*g, j as i32)) by {
                if j <= i32::MAX && is_hub_spec(*g, j as i32) {
                    assert(verts@.contains(j as i32));
                    let t = choose|t: int| 0 <= t < verts@.len() && verts@[t] == j as i32;
                    assert(verts@[t] == j);
                }
            }
        }
        let ghost unsorted = hub_vertices@;
        sort_by_degree_desc(&mut hub_vertices, g);
        proof {
            crate::cycle_family::lemma_same_ms(unsorted, hub_vertices@);
        }
        HubRegistry { is_hub, hub_vertices, hub_neighbors, min_hub_degree }
    }

    /// `v` is flagged as a hub; labels outside the flag vector are not.
    pub open spec fn flagged(self, v: i32) -> bool {
        0 <= v < self.is_hub@.len() && self.is_hub@[v as int]
    }

    /// Whether `v` is flagged as a hub; labels outside the flag vector are not.
    pub fn is_hub_vertex(&self, v: i32) -> (b: bool)
        ensures
            b == self.flagged(v),
    {
        if v >= 0 && (v as usize) < self.is_hub.len() {
            self.is_hub[v as usize]
        } else {
            false
        }
    }
}

/// Extending a prefix scan by one selected element.
proof fn lemma_prefix_push(hv0: Seq<i32>, verts: Seq<i32>, k: int, p: spec_fn(i32) -> bool)
    requires
        0 <= k < verts.len(),
        p(verts[k]),
        forall|t: int| 0 <= t < k ==> verts[t] != verts[k],
        forall|w: i32| hv0.contains(w) <==> (exists|t: int| 0 <= t < k && verts[t] == w) && p(w),
    ensures
        forall|w: i32| hv0.push(verts[k]).contains(w) <==> (exists|t: int| 0 <= t < k + 1 && verts[t] == w) && p(w),
{
    let u = verts[k];
    let h = hv0.push(u);
    assert forall|w: i32| h.contains(w) <==> (exists|t: int| 0 <= t < k + 1 && verts[t] == w) && p(w) by {
        if w == u {
            assert(h[h.len() - 1] == w);
            assert(verts[k] == w);
        } else {
            if h.contains(w) {
                let q = choose|q: int| 0 <= q < h.len() && h[q] == w;
                assert(hv0[q] == w);
                assert(hv0.contains(w));
                let t = choose|t: int| 0 <= t < k && verts[t] == w;
                assert(0 <= t < k + 1 && verts[t] == w);
            }
            if (exists|t: int| 0 <= t < k + 1 && verts[t] == w) && p(w) {
                let t = choose|t: int| 0 <= t < k + 1 && verts[t] == w;
                assert(t != k);
                assert(exists|t2: int| 0 <= t2 < k && verts[t2] == w);
                assert(hv0.contains(w));
                let q = choose|q: int| 0 <= q < hv0.len() && hv0[q] == w;
                assert(h[q] == w);
            }
        }
    }
}

/// Extending a prefix scan by one element that is not selected.
proof fn lemma_prefix_skip(hv0: Seq<i32>, verts: Seq<i32>, k: int, p: spec_fn(i32) -> bool)
    requires
        0 <= k < verts.len(),
        !p(verts[k]),
        forall|w: i32| hv0.contains(w) <==> (exists|t: int| 0 <= t < k && verts[t] == w) && p(w),
    ensures
        forall|w: i32| hv0.contains(w) <==> (exists|t: int| 0 <= t < k + 1 && verts[t] == w) && p(w),
{
    assert forall|w: i32| hv0.contains(w) <==> (exists|t: int| 0 <= t < k + 1 && verts[t] == w) && p(w) by {
        if (exists|t: int| 0 <= t < k + 1 && verts[t] == w) && p(w) {
            let t = choose|t: int| 0 <= t < k + 1 && verts[t] == w;
            assert(t != k);
            assert(exists|t2: int| 0 <= t2 < k && verts[t2] == w);
        }
        if hv0.contains(w) {
            let t = choose|t: int| 0 <= t < k && verts[t] == w;
            assert(0 <= t < k + 1 && verts[t] == w);
        }
    }
}

proof fn lemma_is_hub_vertex(g: Graph, u: i32)
    requires
        g.adj().contains_key(u),
    ensures
        is_hub_spec(g, u) == (g.degree_of(u) >= hub_threshold(g) && g.degree_of(u)
            * g.vertices().len() >= 3 * total_degree(g)),
{
}

proof fn lemma_label_max_bound(g: Graph, k: int)
    requires
        0 <= k <= g.vertices().len(),
    ensures
        label_max_upto(g, k) <= i32::MAX,
    decreases k,
{
    if k > 1 {
        lemma_label_max_bound(g, k - 1);
    }
}

/// The neighbours of a vertex as a set.
fn to_hash_set(l: &Vec<i32>) -> (s: HashSet<i32>)
    ensures
        s@ == l@.to_set(),
{
    let mut s: HashSet<i32> = HashSet::new();
    let mut i: usize = 0;
    while i < l.len()
        invariant
            0 <= i <= l@.len(),
            s@ == l@.subrange(0, i as int).to_set(),
        decreases l@.len() - i,
    {
        s.insert(l[i]);
        proof {
            let p = l@.subrange(0, i as int);
            assert(l@.subrange(0, i + 1) =~= p.push(l@[i as int]));
            assert forall|w: i32| s@.contains(w) <==> p.push(l@[i as int]).contains(w) by {
                if p.contains(w) {
                    let q = choose|q: int| 0 <= q < p.len() && p[q] == w;
                    assert(p.push(l@[i as int])[q] == w);
                }
                if w == l@[i as int] {
                    assert(p.push(l@[i as int])[p.len() as int] == w);
                }
            }
            assert(s@ =~= l@.subrange(0, i + 1).to_set());
        }
        i = i + 1;
    }
    assert(l@.subrange(0, l@.len() as int) =~= l@);
    s
}

/// Exchanging two entries keeps the multiset of a sequence.
pub proof fn lemma_swap_ms(s: Seq<i32>, a: int, b: int)
    requires
        0 <= a < s.len(),
        0 <= b < s.len(),
    ensures
        s.update(a, s[b]).update(b, s[a]).to_multiset() == s.to_multiset(),
{
    vstd::seq_lib::to_multiset_update(s, a, s[b]);
    vstd::seq_lib::to_multiset_update(s.update(a, s[b]), b, s[a]);
    if a != b {
        assert(s.update(a, s[b])[b] == s[b]);
    }
    vstd::seq_lib::to_multiset_contains(s, s[a]);
    vstd::seq_lib::to_multiset_contains(s, s[b]);
    assert(s.contains(s[a]));
    assert(s.contains(s[b]));
    assert(s.update(a, s[b]).update(b, s[a]).to_multiset() =~= s.to_multiset());
}

/// Sorts vertices by non-increasing degree (insertion sort; equal degrees keep
/// their relative order).
fn sort_by_degree_desc(v: &mut Vec<i32>, g: &Graph)
    ensures
        final(v)@.to_multiset() == old(v)@.to_multiset(),
        final(v)@.len() == old(v)@.len(),
        forall|a: int, b: int|
            0 <= a < b < final(v)@.len() ==> g.degree_of(final(v)@[a]) >= g.degree_of(final(v)@[b]),
{
    let n = v.len();
    if n == 0 {
        return;
    }
    let mut i: usize = 1;
    while i < n
        invariant
            n == v@.len(),
            1 <= i <= n,
            v@.to_multiset() == old(v)@.to_multiset(),
            forall|a: int, b: int| 0 <= a < b < i ==> g.degree_of(v@[a]) >= g.degree_of(v@[b]),
        decreases n - i,
    {
        let mut j: usize = i;
        while j > 0 && g.degree(v[j - 1]) < g.degree(v[j])
            invariant
                n == v@.len(),
                1 <= i < n,
                0 <= j <= i,
                v@.to_multiset() == old(v)@.to_multiset(),
                forall|a: int, b: int|
                    0 <= a < b <= i && a != j && b != j ==> g.degree_of(v@[a]) >= g.degree_of(v@[b]),
                forall|a: int| j < a <= i ==> g.degree_of(v@[j as int]) > g.degree_of(v@[a]),
            decreases j,
        {
            let x = v[j - 1];
            let y = v[j];
            let ghost before = v@;
            v.set(j - 1, y);
            v.set(j, x);
            proof {
                lemma_swap_ms(before, j - 1, j as int);
                assert(v@ == before.update(j - 1, before[j as int]).update(j as int, before[j - 1]));
            }
            j = j - 1;
        }
        i = i + 1;
    }
}

} // verus!
