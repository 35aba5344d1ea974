//! Clustering of subcycles for independent sub-problems: cycles joined by many
//! graph edges are merged greedily, heaviest connection first, as long as a
//! cluster's total length stays within a bound.
use crate::cycle_family::views;
use crate::graph::Graph;
use crate::matching_patcher::clone_cycles;
use crate::multi_opt_sat_splicer::total_len;
use std::collections::HashMap;
use vstd::multiset::Multiset;
use vstd::prelude::*;

verus! {

broadcast use vstd::std_specs::hash::group_hash_axioms;

/// The index of the last cycle of `cs` that holds `v`.
pub open spec fn last_cycle_of(cs: Seq<Seq<i32>>, v: i32) -> Option<int>
    decreases cs.len(),
{
    if cs.len() == 0 {
        None
    } else if cs.last().contains(v) {
        Some(cs.len() - 1)
    } else {
        last_cycle_of(cs.drop_last(), v)
    }
}

/// The number of entries of `nbrs` whose last cycle is `b`.
pub open spec fn hits(cs: Seq<Seq<i32>>, nbrs: Seq<i32>, b: int) -> nat
    decreases nbrs.len(),
{
    if nbrs.len() == 0 {
        0
    } else {
        hits(cs, nbrs.drop_last(), b) + if last_cycle_of(cs, nbrs.last()) == Some(b) {
            1nat
        } else {
            0nat
        }
    }
}

/// Over the entries of `c` (repeats included), the number of adjacency-list
/// entries whose last cycle is `b`.
pub open spec fn cross_count(g: Graph, cs: Seq<Seq<i32>>, c: Seq<i32>, b: int) -> nat
    decreases c.len(),
{
    if c.len() == 0 {
        0
    } else {
        cross_count(g, cs, c.drop_last(), b) + if g.adj().contains_key(c.last()) {
            hits(cs, g.adj()[c.last()], b)
        } else {
            0nat
        }
    }
}

/// `x` comes before `y`: heavier first, then by increasing `(a, b)`.
pub open spec fn edge_before(x: (usize, usize, u128), y: (usize, usize, u128)) -> bool {
    ||| x.2 > y.2
    ||| x.2 == y.2 && (x.0 < y.0 || (x.0 == y.0 && x.1 < y.1))
}

/// `es` lists the cycle pairs `(a, b)`, `a < b`, with their positive cross
/// weight `cross_count(cs[a], b)`, heaviest first and ties in increasing order.
pub open spec fn weighted_edges(g: Graph, cs: Seq<Seq<i32>>, es: Seq<(usize, usize, u128)>) -> bool {
    &&& forall|i: int, j: int| 0 <= i < j < es.len() ==> edge_before(es[i], es[j])
    &&& forall|e: (usize, usize, u128)|
        es.contains(e) <==> e.0 < e.1 < cs.len() && e.2 == cross_count(g, cs, cs[e.0 as int], e.1 as int) && e.2 > 0
}

/// One greedy step on the edge `(a, b)`: when the two cycles carry different
/// labels whose total lengths fit within `max`, every cycle labelled like `b`
/// takes the label of `a`, and that label's total grows accordingly.
pub open spec fn merge_edge(label: Seq<int>, size: Seq<int>, a: int, b: int, max: int) -> (Seq<int>, Seq<int>) {
    let ra = label[a];
    let rb = label[b];
    if ra != rb && size[ra] + size[rb] <= max {
        (Seq::new(label.len(), |i: int| if label[i] == rb { ra } else { label[i] }), size.update(ra, size[ra] + size[rb]))
    } else {
        (label, size)
    }
}

/// The labels and totals after the greedy steps on the edges of `es`, in order.
pub open spec fn greedy_labels(label0: Seq<int>, size0: Seq<int>, es: Seq<(usize, usize, u128)>, max: int) -> (
    Seq<int>,
    Seq<int>,
)
    decreases es.len(),
{
    if es.len() == 0 {
        (label0, size0)
    } else {
        let prev = greedy_labels(label0, size0, es.drop_last(), max);
        merge_edge(prev.0, prev.1, es.last().0 as int, es.last().1 as int, max)
    }
}

/// The cycles among the first `n` that carry label `r`, in order.
pub open spec fn members(cs: Seq<Seq<i32>>, label: Seq<int>, r: int, n: int) -> Seq<Seq<i32>>
    decreases n,
{
    if n <= 0 {
        Seq::empty()
    } else if label[n - 1] == r {
        members(cs, label, r, n - 1).push(cs[n - 1])
    } else {
        members(cs, label, r, n - 1)
    }
}

/// `out` holds one cluster per label in use, in increasing order of label,
/// each listing its cycles in their original order.
pub open spec fn clusters_by_label(cs: Seq<Seq<i32>>, label: Seq<int>, out: Seq<Seq<Seq<i32>>>) -> bool {
    exists|roots: Seq<int>|
        {
            &&& #[trigger] roots.len() == out.len()
            &&& forall|i: int, j: int| 0 <= i < j < roots.len() ==> roots[i] < roots[j]
            &&& forall|r: int| roots.contains(r) <==> exists|i: int| 0 <= i < label.len() && label[i] == r
            &&& forall|k: int| 0 <= k < out.len() ==> out[k] == members(cs, label, #[trigger] roots[k], cs.len() as int)
        }
}

/// The clustering of `cs`: each cycle starts with its own label and its
/// length as total, and the greedy steps run over the weighted cycle pairs.
pub open spec fn greedy_clusters(g: Graph, cs: Seq<Seq<i32>>, max: int, out: Seq<Seq<Seq<i32>>>) -> bool {
    exists|es: Seq<(usize, usize, u128)>|
        #[trigger] weighted_edges(g, cs, es) && clusters_by_label(
            cs,
            greedy_labels(
                Seq::new(cs.len(), |i: int| i),
                Seq::new(cs.len(), |i: int| cs[i].len() as int),
                es,
                max,
            ).0,
            out,
        )
}

/// The view of a list of clusters.
pub open spec fn cluster_views(r: Seq<Vec<Vec<i32>>>) -> Seq<Seq<Seq<i32>>> {
    r.map_values(|cl: Vec<Vec<i32>>| views(cl@))
}

/// For each vertex, the index of the last cycle that holds it.
fn last_cycle_map(cycles: &Vec<Vec<i32>>) -> (m: HashMap<i32, usize>)
    ensures
        forall|v: i32|
            match #[trigger] last_cycle_of(views(cycles@), v) {
                Some(k) => m@.contains_key(v) && m@[v] == k,
                None => !m@.contains_key(v),
            },
{
    let ghost cs = views(cycles@);
    let mut m: HashMap<i32, usize> = HashMap::new();
    let mut k: usize = 0;
    while k < cycles.len()
        invariant
            cs == views(cycles@),
            0 <= k <= cycles@.len(),
            forall|v: i32|
                match #[trigger] last_cycle_of(cs.take(k as int), v) {
                    Some(i) => m@.contains_key(v) && m@[v] == i,
                    None => !m@.contains_key(v),
                },
        decreases cycles@.len() - k,
    {
        let c = &cycles[k];
        let ghost m0 = m@;
        let mut j: usize = 0;
        while j < c.len()
            invariant
                cs == views(cycles@),
                0 <= k < cycles@.len(),
                c@ == cs[k as int],
                0 <= j <= c@.len(),
                forall|v: i32|
                    if c@.take(j as int).contains(v) {
                        m@.contains_key(v) && m@[v] == k
                    } else {
                        match #[trigger] last_cycle_of(cs.take(k as int), v) {
                            Some(i) => m@.contains_key(v) && m@[v] == i,
                            None => !m@.contains_key(v),
                        }
                    },
            decreases c@.len() - j,
        {
            let v = c[j];
            m.insert(v, k);
            proof {
                assert(c@.take(j + 1) == c@.take(j as int).push(v));
                assert forall|x: i32| #[trigger] c@.take(j + 1).contains(x) <==> c@.take(j as int).contains(x) || x == v by {
                    let t0 = c@.take(j as int);
                    let t1 = c@.take(j + 1);
                    if t0.contains(x) {
                        let p = choose|p: int| 0 <= p < t0.len() && t0[p] == x;
                        assert(t1[p] == x);
                    }
                    if t1.contains(x) && x != v {
                        let p = choose|p: int| 0 <= p < t1.len() && t1[p] == x;
                        assert(t0[p] == x);
                    }
                    assert(t1[j as int] == v);
                }
                assert forall|x: i32|
                    if c@.take(j + 1).contains(x) {
                        m@.contains_key(x) && m@[x] == k
                    } else {
                        match #[trigger] last_cycle_of(cs.take(k as int), x) {
                            Some(i) => m@.contains_key(x) && m@[x] == i,
                            None => !m@.contains_key(x),
                        }
                    } by {
                    assert(c@.take(j + 1).contains(x) <==> c@.take(j as int).contains(x) || x == v);
                    let _ = last_cycle_of(cs.take(k as int), x);
                }
            }
            j = j + 1;
        }
        proof {
            assert(c@.take(c@.len() as int) == c@);
            assert(cs.take(k + 1).drop_last() == cs.take(k as int));
            assert(cs.take(k + 1).last() == cs[k as int]);
            assert forall|v: i32|
                match #[trigger] last_cycle_of(cs.take(k + 1), v) {
                    Some(i) => m@.contains_key(v) && m@[v] == i,
                    None => !m@.contains_key(v),
                } by {
                let _ = last_cycle_of(cs.take(k as int), v);
                assert(c@.take(c@.len() as int).contains(v) == c@.contains(v));
            }
        }
        k = k + 1;
    }
    proof {
        assert(cs.take(cycles@.len() as int) == cs);
    }
    m
}

/// The last cycle holding a vertex is one of the cycles.
proof fn lemma_last_cycle_range(cs: Seq<Seq<i32>>, v: i32)
    ensures
        match last_cycle_of(cs, v) {
            Some(k) => 0 <= k < cs.len() && cs[k].contains(v),
            None => true,
        },
    decreases cs.len(),
{
    if cs.len() > 0 && !cs.last().contains(v) {
        lemma_last_cycle_range(cs.drop_last(), v);
        match last_cycle_of(cs.drop_last(), v) {
            Some(k) => {
                assert(cs.drop_last()[k] == cs[k]);
            },
            None => {},
        }
    }
}

/// `hits` never exceeds the length of the list.
proof fn lemma_hits_bound(cs: Seq<Seq<i32>>, nbrs: Seq<i32>, b: int)
    ensures
        hits(cs, nbrs, b) <= nbrs.len(),
    decreases nbrs.len(),
{
    if nbrs.len() > 0 {
        lemma_hits_bound(cs, nbrs.drop_last(), b);
    }
}

/// The cross weights of cycle `a` towards each later cycle: entry `b > a` of
/// the result is `cross_count(cs[a], b)`.
fn cross_row(g: &Graph, cycles: &Vec<Vec<i32>>, vtc: &HashMap<i32, usize>, a: usize) -> (row: Vec<u128>)
    requires
        a < cycles@.len(),
        forall|v: i32|
            match #[trigger] last_cycle_of(views(cycles@), v) {
                Some(k) => vtc@.contains_key(v) && vtc@[v] == k,
                None => !vtc@.contains_key(v),
            },
    ensures
        row@.len() == cycles@.len(),
        forall|b: int| a < b < cycles@.len() ==> #[trigger] row@[b] == cross_count(*g, views(cycles@), views(cycles@)[a as int], b),
{
    let ghost cs = views(cycles@);
    let n = cycles.len();
    let mut row: Vec<u128> = Vec::new();
    let mut i: usize = 0;
    while i < n
        invariant
            n == cycles@.len(),
            0 <= i <= n,
            row@.len() == i,
            forall|b: int| 0 <= b < i ==> row@[b] == 0,
        decreases n - i,
    {
        row.push(0);
        i = i + 1;
    }
    let c = &cycles[a];
    let ghost big: int = usize::MAX as int;
    proof {
        assert(c@ == cs[a as int]);
        assert(c@.len() <= big) by {
            let l = c.len();
        }
    }
    let mut j: usize = 0;
    while j < c.len()
        invariant
            cs == views(cycles@),
            n == cycles@.len(),
            a < n,
            c@ == cs[a as int],
            big == usize::MAX,
            c@.len() <= big,
            forall|v: i32|
                match #[trigger] last_cycle_of(cs, v) {
                    Some(k) => vtc@.contains_key(v) && vtc@[v] == k,
                    None => !vtc@.contains_key(v),
                },
            0 <= j <= c@.len(),
            row@.len() == n,
            forall|b: int| a < b < n ==> #[trigger] row@[b] == cross_count(*g, cs, c@.take(j as int), b),
            forall|b: int| a < b < n ==> #[trigger] row@[b] <= j * big,
        decreases c@.len() - j,
    {
        let u = c[j];
        proof {
            assert(c@.take(j + 1).drop_last() == c@.take(j as int));
            assert(c@.take(j + 1).last() == u);
        }
        match g.neighbors(u) {
            Some(adjs) => {
                let ghost row0 = row@;
                let alen = adjs.len();
                let mut t: usize = 0;
                while t < adjs.len()
                    invariant
                        cs == views(cycles@),
                        n == cycles@.len(),
                        a < n,
                        big == usize::MAX,
                        j < c@.len(),
                        c@.len() <= big,
                        forall|v: i32|
                            match #[trigger] last_cycle_of(cs, v) {
                                Some(k) => vtc@.contains_key(v) && vtc@[v] == k,
                                None => !vtc@.contains_key(v),
                            },
                        0 <= t <= adjs@.len(),
                        adjs@.len() <= big,
                        row@.len() == n,
                        forall|b: int| a < b < n ==> #[trigger] row@[b] == row0[b] + hits(cs, adjs@.take(t as int), b),
                        forall|b: int| a < b < n ==> #[trigger] row0[b] <= j * big,
                    decreases adjs@.len() - t,
                {
                    let v = adjs[t];
                    proof {
                        assert(adjs@.take(t + 1).drop_last() == adjs@.take(t as int));
                        assert(adjs@.take(t + 1).last() == v);
                    }
                    let ghost row1 = row@;
                    match vtc.get(&v) {
                        Some(o) => {
                            let o = *o;
                            if a < o {
                                proof {
                                    let _ = last_cycle_of(cs, v);
                                    lemma_last_cycle_range(cs, v);
                                    lemma_hits_bound(cs, adjs@.take(t as int), o as int);
                                    assert(row@[o as int] == row0[o as int] + hits(cs, adjs@.take(t as int), o as int));
                                    assert(row@[o as int] + 1 <= u128::MAX) by (nonlinear_arith)
                                        requires
                                            row@[o as int] <= j * big + t,
                                            t < big,
                                            j + 1 <= big,
                                            big == usize::MAX,
                                            usize::MAX <= 0xffff_ffff_ffff_ffff,
                                    ;
                                }
                                let x = row[o] + 1;
                                row.set(o, x);
                            }
                        },
                        None => {},
                    }
                    proof {
                        let _ = last_cycle_of(cs, v);
                        assert forall|b: int| a < b < n implies #[trigger] row@[b] == row0[b] + hits(cs, adjs@.take(t + 1), b) by {
                            assert(row1[b] == row0[b] + hits(cs, adjs@.take(t as int), b));
                        }
                    }
                    t = t + 1;
                }
                proof {
                    assert(adjs@.take(adjs@.len() as int) == adjs@);
                    assert forall|b: int| a < b < n implies #[trigger] row@[b] <= (j + 1) * big by {
                        lemma_hits_bound(cs, adjs@, b);
                        assert(j * big + adjs@.len() <= (j + 1) * big) by (nonlinear_arith)
                            requires
                                adjs@.len() <= big,
                        ;
                    }
                }
            },
            None => {
                proof {
                    assert forall|b: int| a < b < n implies #[trigger] row@[b] <= (j + 1) * big by {
                        assert(j * big <= (j + 1) * big) by (nonlinear_arith)
                            requires
                                0 <= big,
                        ;
                    }
                }
            },
        }
        j = j + 1;
    }
    proof {
        assert(c@.take(c@.len() as int) == c@);
    }
    row
}

/// `es` is strictly ordered by `edge_before`.
pub open spec fn edges_sorted(es: Seq<(usize, usize, u128)>) -> bool {
    forall|i: int, j: int| 0 <= i < j < es.len() ==> edge_before(es[i], es[j])
}

/// Whether `x` comes before `y`.
fn edge_less(x: (usize, usize, u128), y: (usize, usize, u128)) -> (r: bool)
    ensures
        r == edge_before(x, y),
{
    x.2 > y.2 || (x.2 == y.2 && (x.0 < y.0 || (x.0 == y.0 && x.1 < y.1)))
}

/// Membership after inserting one element.
proof fn lemma_insert_contains<A>(s: Seq<A>, i: int, e: A)
    requires
        0 <= i <= s.len(),
    ensures
        forall|x: A| #[trigger] s.insert(i, e).contains(x) <==> s.contains(x) || x == e,
{
    let t = s.insert(i, e);
    assert forall|x: A| #[trigger] t.contains(x) <==> s.contains(x) || x == e by {
        if t.contains(x) {
            let j = choose|j: int| 0 <= j < t.len() && t[j] == x;
            if j < i {
                assert(s[j] == x);
            } else if j > i {
                assert(s[j - 1] == x);
            }
        }
        if s.contains(x) {
            let j = choose|j: int| 0 <= j < s.len() && s[j] == x;
            if j < i {
                assert(t[j] == x);
            } else {
                assert(t[j + 1] == x);
            }
        }
        if x == e {
            assert(t[i] == e);
        }
    }
}

/// Inserts `e`, whose pair is not yet listed, at its place in the order.
fn insert_edge_sorted(v: &mut Vec<(usize, usize, u128)>, e: (usize, usize, u128))
    requires
        edges_sorted(old(v)@),
        forall|i: int| 0 <= i < old(v)@.len() ==> (#[trigger] old(v)@[i]).0 != e.0 || old(v)@[i].1 != e.1,
    ensures
        edges_sorted(final(v)@),
        forall|x: (usize, usize, u128)| final(v)@.contains(x) <==> old(v)@.contains(x) || x == e,
{
    let mut i: usize = 0;
    while i < v.len() && edge_less(v[i], e)
        invariant
            v@ == old(v)@,
            edges_sorted(v@),
            0 <= i <= v@.len(),
            forall|j: int| 0 <= j < i ==> edge_before(v@[j], e),
        decreases v@.len() - i,
    {
        i = i + 1;
    }
    let ghost old_v = v@;
    assert(old_v == old(v)@);
    v.insert(i, e);
    proof {
        assert(v@ == old_v.insert(i as int, e));
        if i < old_v.len() {
            assert(!edge_before(old_v[i as int], e));
            assert(old_v[i as int].0 != e.0 || old_v[i as int].1 != e.1);
            assert(edge_before(e, old_v[i as int]));
        }
        assert forall|a: int, b: int| 0 <= a < b < v@.len() implies edge_before(v@[a], v@[b]) by {
            if b < i {
            } else if a < i && b == i {
            } else if a < i {
                assert(edge_before(old_v[a], old_v[b - 1]));
            } else if a == i {
                if b - 1 > i {
                    assert(edge_before(old_v[i as int], old_v[b - 1]));
                }
            } else {
                assert(edge_before(old_v[a - 1], old_v[b - 1]));
            }
        }
        lemma_insert_contains(old_v, i as int, e);
        assert(old_v == old(v)@);
    }
}

/// The weighted cycle pairs, heaviest first.
fn weighted_cycle_edges(g: &Graph, cycles: &Vec<Vec<i32>>, vtc: &HashMap<i32, usize>) -> (es: Vec<(usize, usize, u128)>)
    requires
        forall|v: i32|
            match #[trigger] last_cycle_of(views(cycles@), v) {
                Some(k) => vtc@.contains_key(v) && vtc@[v] == k,
                None => !vtc@.contains_key(v),
            },
    ensures
        weighted_edges(*g, views(cycles@), es@),
{
    let ghost cs = views(cycles@);
    let n = cycles.len();
    let mut es: Vec<(usize, usize, u128)> = Vec::new();
    let mut a: usize = 0;
    while a < n
        invariant
            cs == views(cycles@),
            n == cycles@.len(),
            forall|v: i32|
                match #[trigger] last_cycle_of(cs, v) {
                    Some(k) => vtc@.contains_key(v) && vtc@[v] == k,
                    None => !vtc@.contains_key(v),
                },
            0 <= a <= n,
            edges_sorted(es@),
            forall|e: (usize, usize, u128)|
                es@.contains(e) <==> e.0 < a && e.0 < e.1 < n && e.2 == cross_count(*g, cs, cs[e.0 as int], e.1 as int)
                    && e.2 > 0,
        decreases n - a,
    {
        let row = cross_row(g, cycles, vtc, a);
        let mut b: usize = a + 1;
        while b < n
            invariant
                cs == views(cycles@),
                n == cycles@.len(),
                0 <= a < n,
                a < b <= n,
                row@.len() == n,
                forall|b2: int| a < b2 < n ==> #[trigger] row@[b2] == cross_count(*g, cs, cs[a as int], b2),
                edges_sorted(es@),
                forall|e: (usize, usize, u128)|
                    es@.contains(e) <==> (e.0 < a || (e.0 == a && e.1 < b)) && e.0 < e.1 < n && e.2 == cross_count(
                        *g,
                        cs,
                        cs[e.0 as int],
                        e.1 as int,
                    ) && e.2 > 0,
            decreases n - b,
        {
            let w = row[b];
            if w > 0 {
                let ghost es0 = es@;
                proof {
                    assert forall|i: int| 0 <= i < es0.len() implies (#[trigger] es0[i]).0 != a || es0[i].1 != b by {
                        assert(es0.contains(es0[i]));
                    }
                }
                insert_edge_sorted(&mut es, (a, b, w));
                proof {
                    assert forall|e: (usize, usize, u128)|
                        es@.contains(e) <==> (e.0 < a || (e.0 == a && e.1 < b + 1)) && e.0 < e.1 < n && e.2 == cross_count(
                            *g,
                            cs,
                            cs[e.0 as int],
                            e.1 as int,
                        ) && e.2 > 0 by {
                        if e.0 == a && e.1 == b && e.2 == cross_count(*g, cs, cs[e.0 as int], e.1 as int) {
                            assert(e == (a, b, w));
                        }
                    }
                }
            }
            b = b + 1;
        }
        a = a + 1;
    }
    es
}

/// A sequence of machine integers as mathematical integers.
pub open spec fn ints(s: Seq<usize>) -> Seq<int> {
    s.map_values(|x: usize| x as int)
}

/// Runs the greedy steps over `es` and returns the final labels; each label in
/// use is the label of its own cycle.
fn greedy_merge(cycles: &Vec<Vec<i32>>, es: &Vec<(usize, usize, u128)>, max: usize) -> (label: Vec<usize>)
    requires
        forall|e: (usize, usize, u128)| #[trigger] es@.contains(e) ==> e.0 < e.1 < cycles@.len(),
    ensures
        label@.len() == cycles@.len(),
        ints(label@) == greedy_labels(
            Seq::new(cycles@.len(), |i: int| i),
            Seq::new(cycles@.len(), |i: int| views(cycles@)[i].len() as int),
            es@,
            max as int,
        ).0,
        forall|i: int| 0 <= i < label@.len() ==> #[trigger] label@[i] < label@.len() && label@[label@[i] as int] == label@[i],
{
    let ghost cs = views(cycles@);
    let n = cycles.len();
    let ghost l0 = Seq::new(n as nat, |i: int| i);
    let ghost s0 = Seq::new(n as nat, |i: int| cs[i].len() as int);
    let mut label: Vec<usize> = Vec::new();
    let mut size: Vec<usize> = Vec::new();
    let mut i: usize = 0;
    while i < n
        invariant
            n == cycles@.len(),
            cs == views(cycles@),
            0 <= i <= n,
            label@.len() == i,
            size@.len() == i,
            forall|k: int| 0 <= k < i ==> #[trigger] label@[k] == k,
            forall|k: int| 0 <= k < i ==> #[trigger] size@[k] == cs[k].len(),
        decreases n - i,
    {
        label.push(i);
        size.push(cycles[i].len());
        i = i + 1;
    }
    proof {
        assert(ints(label@) == l0);
        assert(ints(size@) == s0);
        assert(es@.take(0) == Seq::<(usize, usize, u128)>::empty());
    }
    let mut k: usize = 0;
    while k < es.len()
        invariant
            n == cycles@.len(),
            cs == views(cycles@),
            l0 == Seq::new(n as nat, |i: int| i),
            s0 == Seq::new(n as nat, |i: int| cs[i].len() as int),
            forall|e: (usize, usize, u128)| #[trigger] es@.contains(e) ==> e.0 < e.1 < n,
            0 <= k <= es@.len(),
            label@.len() == n,
            size@.len() == n,
            ints(label@) == greedy_labels(l0, s0, es@.take(k as int), max as int).0,
            ints(size@) == greedy_labels(l0, s0, es@.take(k as int), max as int).1,
            forall|i: int| 0 <= i < n ==> #[trigger] label@[i] < n && label@[label@[i] as int] == label@[i],
        decreases es@.len() - k,
    {
        let e = es[k];
        proof {
            assert(es@.contains(e));
            assert(es@.take(k + 1).drop_last() == es@.take(k as int));
            assert(es@.take(k + 1).last() == e);
        }
        let a = e.0;
        let b = e.1;
        let ra = label[a];
        let rb = label[b];
        let ghost lab0 = label@;
        let ghost sz0 = size@;
        if ra != rb && size[ra] <= max && size[rb] <= max - size[ra] {
            let mut t: usize = 0;
            while t < n
                invariant
                    label@.len() == n,
                    lab0.len() == n,
                    0 <= t <= n,
                    ra < n,
                    rb < n,
                    forall|i: int| 0 <= i < t ==> #[trigger] label@[i] == (if lab0[i] == rb { ra } else { lab0[i] }),
                    forall|i: int| t <= i < n ==> #[trigger] label@[i] == lab0[i],
                decreases n - t,
            {
                if label[t] == rb {
                    label.set(t, ra);
                }
                t = t + 1;
            }
            let total = size[ra] + size[rb];
            size.set(ra, total);
            proof {
                let prev = greedy_labels(l0, s0, es@.take(k as int), max as int);
                assert(prev.0[a as int] == ra);
                assert(prev.0[b as int] == rb);
                assert(prev.1[ra as int] == sz0[ra as int]);
                assert(prev.1[rb as int] == sz0[rb as int]);
                assert(ints(label@) == Seq::new(prev.0.len(), |i: int| if prev.0[i] == rb { ra as int } else { prev.0[i] }));
                assert(ints(size@) == prev.1.update(ra as int, prev.1[ra as int] + prev.1[rb as int]));
                assert forall|i: int| 0 <= i < n implies #[trigger] label@[i] < n && label@[label@[i] as int] == label@[i] by {
                    assert(lab0[lab0[i] as int] == lab0[i]);
                    assert(lab0[ra as int] == ra);
                }
            }
        } else {
            proof {
                let prev = greedy_labels(l0, s0, es@.take(k as int), max as int);
                assert(prev.0[a as int] == ra);
                assert(prev.0[b as int] == rb);
            }
        }
        k = k + 1;
    }
    proof {
        assert(es@.take(es@.len() as int) == es@);
    }
    label
}

/// Copies of the cycles labelled `r`, in order.
fn members_of(cycles: &Vec<Vec<i32>>, label: &Vec<usize>, r: usize) -> (cl: Vec<Vec<i32>>)
    requires
        label@.len() == cycles@.len(),
    ensures
        views(cl@) == members(views(cycles@), ints(label@), r as int, cycles@.len() as int),
{
    let ghost cs = views(cycles@);
    let mut cl: Vec<Vec<i32>> = Vec::new();
    let mut i: usize = 0;
    while i < cycles.len()
        invariant
            cs == views(cycles@),
            label@.len() == cycles@.len(),
            0 <= i <= cycles@.len(),
            views(cl@) == members(cs, ints(label@), r as int, i as int),
        decreases cycles@.len() - i,
    {
        if label[i] == r {
            let c = cycles[i].clone();
            let ghost cl0 = cl@;
            cl.push(c);
            proof {
                assert(views(cl@) == views(cl0).push(c@));
            }
        }
        i = i + 1;
    }
    cl
}

/// Partitions the cycles into clusters for independent sub-problems. Cycle
/// `a` and a later cycle `b` are weighted by the number of adjacency entries
/// from the vertices of `a` to vertices whose last cycle is `b`; going
/// through the weighted pairs heaviest first, two clusters are merged when
/// their total length stays within `max_cluster_size`. Clusters come in
/// increasing order of their representative cycle, each listing its cycles in
/// their original order. With at most one cycle, the result is one cluster
/// holding the input.
pub fn cluster_subcycles(cycles: &Vec<Vec<i32>>, g: &Graph, max_cluster_size: usize) -> (r: Vec<Vec<Vec<i32>>>)
    ensures
        cycles@.len() <= 1 ==> r@.len() == 1 && views(r@[0]@) == views(cycles@),
        cycles@.len() > 1 ==> greedy_clusters(*g, views(cycles@), max_cluster_size as int, cluster_views(r@)),
{
    let n = cycles.len();
    if n <= 1 {
        let c = clone_cycles(cycles.as_slice());
        let r = vec![c];
        assert(r@[0] == c);
        return r;
    }
    let ghost cs = views(cycles@);
    let vtc = last_cycle_map(cycles);
    let es = weighted_cycle_edges(g, cycles, &vtc);
    proof {
        assert forall|e: (usize, usize, u128)| #[trigger] es@.contains(e) implies e.0 < e.1 < cycles@.len() by {
        }
    }
    let label = greedy_merge(cycles, &es, max_cluster_size);
    let ghost lab = ints(label@);
    let mut out: Vec<Vec<Vec<i32>>> = Vec::new();
    let ghost mut roots: Seq<int> = Seq::empty();
    let mut r: usize = 0;
    while r < n
        invariant
            n == cycles@.len(),
            cs == views(cycles@),
            label@.len() == n,
            lab == ints(label@),
            0 <= r <= n,
            forall|i: int, j: int| 0 <= i < j < roots.len() ==> roots[i] < roots[j],
            forall|x: int| roots.contains(x) <==> 0 <= x < r && lab[x] == x,
            out@.len() == roots.len(),
            forall|k: int| 0 <= k < out@.len() ==> views((#[trigger] out@[k])@) == members(cs, lab, roots[k], n as int),
        decreases n - r,
    {
        if label[r] == r {
            let cl = members_of(cycles, &label, r);
            let ghost out0 = out@;
            let ghost roots0 = roots;
            out.push(cl);
            proof {
                roots = roots.push(r as int);
                assert forall|x: int| roots.contains(x) <==> 0 <= x < r + 1 && lab[x] == x by {
                    if roots0.contains(x) {
                        let p = choose|p: int| 0 <= p < roots0.len() && roots0[p] == x;
                        assert(roots[p] == x);
                    }
                    if roots.contains(x) && x != r {
                        let p = choose|p: int| 0 <= p < roots.len() && roots[p] == x;
                        assert(roots0[p] == x);
                    }
                    assert(roots[roots0.len() as int] == r);
                }
                assert forall|i: int, j: int| 0 <= i < j < roots.len() implies roots[i] < roots[j] by {
                    if j == roots0.len() {
                        assert(roots0.contains(roots0[i]));
                    }
                }
                assert forall|k: int| 0 <= k < out@.len() implies views((#[trigger] out@[k])@) == members(cs, lab, roots[k], n as int) by {
                    if k < out0.len() {
                        assert(out@[k] == out0[k]);
                    }
                }
            }
        } else {
            proof {
                assert forall|x: int| roots.contains(x) <==> 0 <= x < r + 1 && lab[x] == x by {
                }
            }
        }
        r = r + 1;
    }
    proof {
        let ov = cluster_views(out@);
        assert(ov.len() == roots.len());
        assert forall|x: int| roots.contains(x) <==> exists|i: int| 0 <= i < lab.len() && lab[i] == x by {
            if exists|i: int| 0 <= i < lab.len() && lab[i] == x {
                let i = choose|i: int| 0 <= i < lab.len() && lab[i] == x;
                assert(label@[i] < n && label@[label@[i] as int] == label@[i]);
            }
            if roots.contains(x) {
                assert(lab[x] == x);
            }
        }
        assert forall|k: int| 0 <= k < ov.len() implies ov[k] == members(cs, lab, #[trigger] roots[k], cs.len() as int) by {
            assert(ov[k] == views(out@[k]@));
        }
        assert(clusters_by_label(cs, lab, ov));
        assert(Seq::new(cs.len(), |i: int| i) =~= Seq::new(cycles@.len(), |i: int| i));
        assert(Seq::new(cs.len(), |i: int| cs[i].len() as int) =~= Seq::new(cycles@.len(), |i: int| views(cycles@)[i].len() as int));
        assert(weighted_edges(*g, cs, es@));
    }
    out
}

/// All cycles over a list of clusters, with their multiplicities.
pub open spec fn clusters_ms(out: Seq<Seq<Seq<i32>>>) -> Multiset<Seq<i32>>
    decreases out.len(),
{
    if out.len() == 0 {
        Multiset::empty()
    } else {
        clusters_ms(out.drop_last()).add(out.last().to_multiset())
    }
}

/// The cycles among the first `m` whose label is one of the first `kk` roots.
spec fn members_ms(cs: Seq<Seq<i32>>, label: Seq<int>, roots: Seq<int>, m: int, kk: int) -> Multiset<Seq<i32>>
    decreases kk,
{
    if kk <= 0 {
        Multiset::empty()
    } else {
        members_ms(cs, label, roots, m, kk - 1).add(members(cs, label, roots[kk - 1], m).to_multiset())
    }
}

/// The greedy steps keep one label and one total per cycle.
proof fn lemma_greedy_len(label0: Seq<int>, size0: Seq<int>, es: Seq<(usize, usize, u128)>, max: int)
    ensures
        greedy_labels(label0, size0, es, max).0.len() == label0.len(),
    decreases es.len(),
{
    if es.len() > 0 {
        lemma_greedy_len(label0, size0, es.drop_last(), max);
    }
}

/// With no cycle taken yet, no root has a member.
proof fn lemma_members_ms_zero(cs: Seq<Seq<i32>>, label: Seq<int>, roots: Seq<int>, kk: int)
    ensures
        members_ms(cs, label, roots, 0, kk) == Multiset::<Seq<i32>>::empty(),
    decreases kk,
{
    if kk > 0 {
        lemma_members_ms_zero(cs, label, roots, kk - 1);
        assert(members(cs, label, roots[kk - 1], 0) == Seq::<Seq<i32>>::empty());
        assert(Seq::<Seq<i32>>::empty().to_multiset() =~= Multiset::<Seq<i32>>::empty()) by {
            broadcast use vstd::seq_lib::group_to_multiset_ensures;
        }
        assert(Multiset::<Seq<i32>>::empty().add(Multiset::empty()) =~= Multiset::<Seq<i32>>::empty());
    }
}

/// Taking one more cycle adds it to the root of its label, when that root is
/// among the first `kk`.
proof fn lemma_members_ms_step(cs: Seq<Seq<i32>>, label: Seq<int>, roots: Seq<int>, m: int, kk: int)
    requires
        0 <= m,
        0 <= kk <= roots.len(),
        roots.no_duplicates(),
    ensures
        members_ms(cs, label, roots, m + 1, kk) == members_ms(cs, label, roots, m, kk).add(
            if roots.take(kk).contains(label[m]) {
                Multiset::singleton(cs[m])
            } else {
                Multiset::empty()
            },
        ),
    decreases kk,
{
    broadcast use vstd::seq_lib::group_to_multiset_ensures;

    if kk <= 0 {
        assert(roots.take(kk) =~= Seq::<int>::empty());
        assert(Multiset::<Seq<i32>>::empty().add(Multiset::empty()) =~= Multiset::<Seq<i32>>::empty());
    } else {
        lemma_members_ms_step(cs, label, roots, m, kk - 1);
        let r = roots[kk - 1];
        let prev_in = roots.take(kk - 1).contains(label[m]);
        assert(roots.take(kk) == roots.take(kk - 1).push(r));
        assert(roots.take(kk).contains(label[m]) <==> prev_in || r == label[m]) by {
            let t0 = roots.take(kk - 1);
            let t1 = roots.take(kk);
            if t0.contains(label[m]) {
                let p = choose|p: int| 0 <= p < t0.len() && t0[p] == label[m];
                assert(t1[p] == label[m]);
            }
            if t1.contains(label[m]) && r != label[m] {
                let p = choose|p: int| 0 <= p < t1.len() && t1[p] == label[m];
                assert(t0[p] == label[m]);
            }
            assert(t1[kk - 1] == r);
        }
        if prev_in && r == label[m] {
            let t0 = roots.take(kk - 1);
            let p = choose|p: int| 0 <= p < t0.len() && t0[p] == label[m];
            assert(roots[p] == roots[kk - 1]);
        }
        let a = members_ms(cs, label, roots, m, kk - 1);
        let mm = members(cs, label, r, m).to_multiset();
        let one = Multiset::singleton(cs[m]);
        let none = Multiset::<Seq<i32>>::empty();
        if label[m] == r {
            assert(members(cs, label, r, m + 1) == members(cs, label, r, m).push(cs[m]));
            assert(members(cs, label, r, m + 1).to_multiset() =~= mm.insert(cs[m]));
            assert(a.add(none).add(mm.insert(cs[m])) =~= a.add(mm).add(one));
        } else {
            assert(members(cs, label, r, m + 1) == members(cs, label, r, m));
            if prev_in {
                assert(a.add(one).add(mm) =~= a.add(mm).add(one));
            } else {
                assert(a.add(none).add(mm) =~= a.add(mm).add(none));
            }
        }
    }
}

/// The members of all roots among the first `m` cycles are those cycles,
/// when every label in use is a root.
proof fn lemma_members_ms_all(cs: Seq<Seq<i32>>, label: Seq<int>, roots: Seq<int>, m: int)
    requires
        0 <= m <= cs.len(),
        roots.no_duplicates(),
        forall|i: int| 0 <= i < m ==> roots.contains(#[trigger] label[i]),
    ensures
        members_ms(cs, label, roots, m, roots.len() as int) == cs.take(m).to_multiset(),
    decreases m,
{
    broadcast use vstd::seq_lib::group_to_multiset_ensures;

    if m == 0 {
        lemma_members_ms_zero(cs, label, roots, roots.len() as int);
        assert(cs.take(0) =~= Seq::<Seq<i32>>::empty());
        assert(Seq::<Seq<i32>>::empty().to_multiset() =~= Multiset::<Seq<i32>>::empty());
    } else {
        lemma_members_ms_all(cs, label, roots, m - 1);
        lemma_members_ms_step(cs, label, roots, m - 1, roots.len() as int);
        assert(roots.take(roots.len() as int) == roots);
        assert(roots.contains(label[m - 1]));
        assert(cs.take(m) == cs.take(m - 1).push(cs[m - 1]));
        assert(cs.take(m).to_multiset() =~= cs.take(m - 1).to_multiset().insert(cs[m - 1]));
        assert(cs.take(m - 1).to_multiset().add(Multiset::singleton(cs[m - 1])) =~= cs.take(m - 1).to_multiset().insert(
            cs[m - 1],
        ));
    }
}

/// The clusters listed so far hold the members of their roots.
proof fn lemma_clusters_ms_members(cs: Seq<Seq<i32>>, label: Seq<int>, roots: Seq<int>, out: Seq<Seq<Seq<i32>>>, kk: int)
    requires
        0 <= kk <= out.len(),
        roots.len() == out.len(),
        forall|k: int| 0 <= k < out.len() ==> out[k] == members(cs, label, #[trigger] roots[k], cs.len() as int),
    ensures
        clusters_ms(out.take(kk)) == members_ms(cs, label, roots, cs.len() as int, kk),
    decreases kk,
{
    if kk > 0 {
        lemma_clusters_ms_members(cs, label, roots, out, kk - 1);
        assert(out.take(kk).drop_last() == out.take(kk - 1));
        assert(out.take(kk).last() == out[kk - 1]);
    } else {
        assert(out.take(0).len() == 0);
    }
}

/// Every cycle lands in exactly one cluster: taken together, the clusters
/// hold the input cycles, each as often as the input does.
pub proof fn lemma_clusters_partition(g: Graph, cs: Seq<Seq<i32>>, max: int, out: Seq<Seq<Seq<i32>>>)
    requires
        greedy_clusters(g, cs, max, out),
    ensures
        clusters_ms(out) == cs.to_multiset(),
{
    let l0 = Seq::new(cs.len(), |i: int| i);
    let s0 = Seq::new(cs.len(), |i: int| cs[i].len() as int);
    let es = choose|es: Seq<(usize, usize, u128)>|
        #[trigger] weighted_edges(g, cs, es) && clusters_by_label(cs, greedy_labels(l0, s0, es, max).0, out);
    let label = greedy_labels(l0, s0, es, max).0;
    lemma_greedy_len(l0, s0, es, max);
    let roots = choose|roots: Seq<int>|
        {
            &&& #[trigger] roots.len() == out.len()
            &&& forall|i: int, j: int| 0 <= i < j < roots.len() ==> roots[i] < roots[j]
            &&& forall|r: int| roots.contains(r) <==> exists|i: int| 0 <= i < label.len() && label[i] == r
            &&& forall|k: int| 0 <= k < out.len() ==> out[k] == members(cs, label, #[trigger] roots[k], cs.len() as int)
        };
    assert(roots.no_duplicates()) by {
        assert forall|i: int, j: int| 0 <= i < roots.len() && 0 <= j < roots.len() && i != j implies roots[i] != roots[j] by {
            if i < j {
                assert(roots[i] < roots[j]);
            } else {
                assert(roots[j] < roots[i]);
            }
        }
    }
    assert(l0.len() == cs.len());
    assert(label.len() == cs.len());
    assert forall|i: int| 0 <= i < cs.len() implies roots.contains(#[trigger] label[i]) by {
        assert(0 <= i < label.len() && label[i] == label[i]);
    }
    lemma_members_ms_all(cs, label, roots, cs.len() as int);
    lemma_clusters_ms_members(cs, label, roots, out, out.len() as int);
    assert(out.take(out.len() as int) == out);
    assert(cs.take(cs.len() as int) == cs);
}

/// The state of the greedy merging: every label is the label of its own cycle,
/// and each such representative's total is the length of its members, at most
/// `max` once it has two or more.
spec fn sizes_inv(cs: Seq<Seq<i32>>, label: Seq<int>, size: Seq<int>, max: int) -> bool {
    let n = cs.len() as int;
    &&& label.len() == n
    &&& size.len() == n
    &&& forall|i: int| 0 <= i < n ==> 0 <= #[trigger] label[i] < n && label[label[i]] == label[i]
    &&& forall|r: int|
        0 <= r < n && #[trigger] label[r] == r ==> size[r] == total_len(members(cs, label, r, n)) && (members(
            cs,
            label,
            r,
            n,
        ).len() >= 2 ==> size[r] <= max)
}

/// Relabelling `rb` to `ra` merges their members and leaves the others alone.
proof fn lemma_members_relabel(cs: Seq<Seq<i32>>, label: Seq<int>, ra: int, rb: int, m: int)
    requires
        0 <= m <= label.len(),
        m <= cs.len(),
        ra != rb,
    ensures
        ({
            let l2 = Seq::new(label.len(), |i: int| if label[i] == rb { ra } else { label[i] });
            &&& total_len(members(cs, l2, ra, m)) == total_len(members(cs, label, ra, m)) + total_len(
                members(cs, label, rb, m),
            )
            &&& members(cs, l2, ra, m).len() == members(cs, label, ra, m).len() + members(cs, label, rb, m).len()
            &&& forall|r: int| r != ra && r != rb ==> #[trigger] members(cs, l2, r, m) == members(cs, label, r, m)
            &&& members(cs, l2, rb, m).len() == 0
        }),
    decreases m,
{
    let l2 = Seq::new(label.len(), |i: int| if label[i] == rb { ra } else { label[i] });
    if m > 0 {
        lemma_members_relabel(cs, label, ra, rb, m - 1);
        let c = cs[m - 1];
        assert forall|s2: Seq<Seq<i32>>| #[trigger] total_len(s2.push(c)) == total_len(s2) + c.len() by {
            assert(s2.push(c).drop_last() == s2);
        }
        assert forall|r: int| r != ra && r != rb implies #[trigger] members(cs, l2, r, m) == members(cs, label, r, m) by {
            assert(members(cs, l2, r, m - 1) == members(cs, label, r, m - 1));
        }
    }
}

/// The greedy merging keeps `sizes_inv`.
proof fn lemma_greedy_sizes(cs: Seq<Seq<i32>>, es: Seq<(usize, usize, u128)>, max: int)
    requires
        forall|i: int| 0 <= i < es.len() ==> (#[trigger] es[i]).0 < cs.len() && es[i].1 < cs.len(),
    ensures
        sizes_inv(
            cs,
            greedy_labels(Seq::new(cs.len(), |i: int| i), Seq::new(cs.len(), |i: int| cs[i].len() as int), es, max).0,
            greedy_labels(Seq::new(cs.len(), |i: int| i), Seq::new(cs.len(), |i: int| cs[i].len() as int), es, max).1,
            max,
        ),
    decreases es.len(),
{
    let n = cs.len() as int;
    let l0 = Seq::new(cs.len(), |i: int| i);
    let s0 = Seq::new(cs.len(), |i: int| cs[i].len() as int);
    if es.len() == 0 {
        assert forall|r: int| 0 <= r < n && #[trigger] l0[r] == r implies s0[r] == total_len(members(cs, l0, r, n)) && (members(
            cs,
            l0,
            r,
            n,
        ).len() >= 2 ==> s0[r] <= max) by {
            lemma_members_single(cs, r, n);
        }
    } else {
        let pre = es.drop_last();
        assert forall|i: int| 0 <= i < pre.len() implies (#[trigger] pre[i]).0 < cs.len() && pre[i].1 < cs.len() by {
            assert(pre[i] == es[i]);
        }
        lemma_greedy_sizes(cs, pre, max);
        let prev = greedy_labels(l0, s0, pre, max);
        let label = prev.0;
        let size = prev.1;
        let e = es.last();
        assert(e == es[es.len() - 1]);
        let a = e.0 as int;
        let b = e.1 as int;
        let ra = label[a];
        let rb = label[b];
        if ra != rb && size[ra] + size[rb] <= max {
            let l2 = Seq::new(label.len(), |i: int| if label[i] == rb { ra } else { label[i] });
            let s2 = size.update(ra, size[ra] + size[rb]);
            lemma_members_relabel(cs, label, ra, rb, n);
            assert(label[ra] == ra);
            assert(label[rb] == rb);
            assert forall|i: int| 0 <= i < n implies 0 <= #[trigger] l2[i] < n && l2[l2[i]] == l2[i] by {
                assert(label[label[i]] == label[i]);
            }
            assert forall|r: int| 0 <= r < n && #[trigger] l2[r] == r implies s2[r] == total_len(members(cs, l2, r, n)) && (members(
                cs,
                l2,
                r,
                n,
            ).len() >= 2 ==> s2[r] <= max) by {
                if r != ra {
                    assert(r != rb);
                    assert(label[r] == r);
                    assert(members(cs, l2, r, n) == members(cs, label, r, n));
                }
            }
        }
    }
}

/// The members of one cycle's own label, before any merge, are that cycle.
proof fn lemma_members_single(cs: Seq<Seq<i32>>, r: int, m: int)
    requires
        0 <= r < cs.len(),
        0 <= m <= cs.len(),
    ensures
        members(cs, Seq::new(cs.len(), |i: int| i), r, m) == (if r < m { seq![cs[r]] } else { Seq::<Seq<i32>>::empty() }),
        r < m ==> total_len(members(cs, Seq::new(cs.len(), |i: int| i), r, m)) == cs[r].len(),
    decreases m,
{
    if m > 0 {
        lemma_members_single(cs, r, m - 1);
        if r < m - 1 {
            assert(members(cs, Seq::new(cs.len(), |i: int| i), r, m) == members(cs, Seq::new(cs.len(), |i: int| i), r, m - 1));
        } else if r == m - 1 {
            assert(Seq::<Seq<i32>>::empty().push(cs[r]) == seq![cs[r]]);
        }
    }
    if r < m {
        let one = seq![cs[r]];
        assert(one.drop_last() == Seq::<Seq<i32>>::empty());
        assert(one.last() == cs[r]);
        assert(total_len(Seq::<Seq<i32>>::empty()) == 0);
        assert(total_len(one) == cs[r].len());
    }
}

/// Clusters stay within the bound: a cluster of two or more cycles has a
/// total length of at most `max`.
pub proof fn lemma_clusters_within_bound(g: Graph, cs: Seq<Seq<i32>>, max: int, out: Seq<Seq<Seq<i32>>>)
    requires
        greedy_clusters(g, cs, max, out),
    ensures
        forall|k: int| 0 <= k < out.len() && (#[trigger] out[k]).len() >= 2 ==> total_len(out[k]) <= max,
{
    let l0 = Seq::new(cs.len(), |i: int| i);
    let s0 = Seq::new(cs.len(), |i: int| cs[i].len() as int);
    let es = choose|es: Seq<(usize, usize, u128)>|
        #[trigger] weighted_edges(g, cs, es) && clusters_by_label(cs, greedy_labels(l0, s0, es, max).0, out);
    assert forall|i: int| 0 <= i < es.len() implies (#[trigger] es[i]).0 < cs.len() && es[i].1 < cs.len() by {
        assert(es.contains(es[i]));
    }
    lemma_greedy_sizes(cs, es, max);
    let label = greedy_labels(l0, s0, es, max).0;
    let size = greedy_labels(l0, s0, es, max).1;
    let roots = choose|roots: Seq<int>|
        {
            &&& #[trigger] roots.len() == out.len()
            &&& forall|i: int, j: int| 0 <= i < j < roots.len() ==> roots[i] < roots[j]
            &&& forall|r: int| roots.contains(r) <==> exists|i: int| 0 <= i < label.len() && label[i] == r
            &&& forall|k: int| 0 <= k < out.len() ==> out[k] == members(cs, label, #[trigger] roots[k], cs.len() as int)
        };
    assert forall|k: int| 0 <= k < out.len() && (#[trigger] out[k]).len() >= 2 implies total_len(out[k]) <= max by {
        let r = roots[k];
        assert(roots.contains(r));
        let i = choose|i: int| 0 <= i < label.len() && label[i] == r;
        assert(label[label[i]] == label[i]);
        assert(label[r] == r);
        assert(out[k] == members(cs, label, r, cs.len() as int));
    }
}

} // verus!
