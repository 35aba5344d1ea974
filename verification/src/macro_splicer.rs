//! Checks of tours against the raw graph, and local 2-opt merging of the
//! cycles of a 2-factor.
use crate::cycle_family::{all_closed_walks, lemma_ms_all_push, lemma_ms_all_remove, lemma_rev_from, lemma_rot_split, ms_all, rev_from, rot, views};
use crate::graph::{symmetric, Graph};
use crate::macro_solver::{lemma_lengths_fit, lemma_positions_upto, positions_map, pred_idx, succ_idx, vertex_positions};
use crate::splice::{rev_from_vec, rot_vec};
use crate::tour::{all_distinct, closed_walk, edge_at, hamiltonian_tour, is_closed_walk};
use vstd::prelude::*;

verus! {

broadcast use vstd::std_specs::hash::group_hash_axioms;

/// Independent Raw Graph Tour Verifier.
/// Verifies:
/// 1. tour.len() == g.adjacency_list.len() (matches total vertices in g)
/// 2. all vertices are distinct
/// 3. every consecutive pair (tour[i], tour[(i+1)%n]) is an edge in g
pub fn verify_tour_on_raw_graph(tour: &[i32], g: &Graph) -> (b: bool)
    requires
        g.wf(),
    ensures
        b == hamiltonian_tour(*g, tour@),
{
    let n = g.num_vertices();
    if n == 0 || tour.len() != n {
        return false;
    }
    let mut i: usize = 0;
    while i < n
        invariant
            n == tour@.len(),
            0 <= i <= n,
            forall|k: int| 0 <= k < i ==> g.adj().contains_key(#[trigger] tour@[k]),
        decreases n - i,
    {
        if !g.contains_vertex(tour[i]) {
            return false;
        }
        i = i + 1;
    }
    if !all_distinct(tour) {
        return false;
    }
    if n < 3 {
        // a tour of one or two vertices needs its closing edge(s) checked directly
        let mut k: usize = 0;
        while k < n
            invariant
                n == tour@.len(),
                n < 3,
                0 <= k <= n,
                forall|t: int| 0 <= t < k ==> #[trigger] crate::tour::edge_at(*g, tour@, t),
            decreases n - k,
        {
            if !is_edge_in_graph(g, tour[k], tour[(k + 1) % n]) {
                assert(!crate::tour::edge_at(*g, tour@, k as int));
                return false;
            }
            k = k + 1;
        }
        return true;
    }
    is_closed_walk(tour, g)
}

/// Whether `v` is in the adjacency list of `u`.
pub fn is_edge_in_graph(g: &Graph, u: i32, v: i32) -> (b: bool)
    ensures
        b == g.has_edge(u, v),
{
    g.contains_edge(u, v)
}

/// A 2-opt move of `cs` at position `i` of cycle `c1` and the `t`-th
/// neighbour `u2` of the vertex `u1` there: `u2` was last seen in another
/// cycle, and the successor `v1` of `u1` is adjacent to the successor or to
/// the predecessor of `u2` in that cycle.
pub open spec fn move_at(cs: Seq<Seq<i32>>, g: Graph, c1: int, i: int, t: int) -> bool {
    let c = cs[c1];
    let u1 = c[i];
    let v1 = c[succ_idx(i, c.len() as int)];
    let vp = vertex_positions(cs);
    let u2 = g.adj()[u1][t];
    let c2 = vp[u2].0 as int;
    let j = vp[u2].1 as int;
    let q = cs[c2].len() as int;
    &&& g.adj().contains_key(u1)
    &&& 0 <= t < g.adj()[u1].len()
    &&& vp.contains_key(u2)
    &&& c2 != c1
    &&& (g.has_edge(v1, cs[c2][succ_idx(j, q)]) || g.has_edge(v1, cs[c2][pred_idx(j, q)]))
}

/// No 2-opt move applies to `cs`.
pub open spec fn no_2opt_move(cs: Seq<Seq<i32>>, g: Graph) -> bool {
    forall|c1: int, i: int, t: int| 0 <= c1 < cs.len() && 0 <= i < cs[c1].len() ==> !#[trigger] move_at(cs, g, c1, i, t)
}

/// Consecutive entries of `a` are adjacent in `g`.
pub open spec fn path_along(g: Graph, a: Seq<i32>) -> bool {
    forall|s: int| 0 <= s < a.len() - 1 ==> #[trigger] g.has_edge(a[s], a[s + 1])
}

/// `x % n` for `0 <= x < 2n`.
proof fn lemma_mod_once(x: int, n: int)
    requires
        n > 0,
        0 <= x < 2 * n,
    ensures
        x % n == (if x < n { x } else { x - n }),
{
    if x < n {
        assert(x % n == x) by (nonlinear_arith)
            requires 0 <= x < n;
    } else {
        assert(x % n == x - n) by (nonlinear_arith)
            requires n <= x < 2 * n;
    }
}

/// A cycle read forwards from position `j` walks along its edges.
proof fn lemma_rot_path(g: Graph, c: Seq<i32>, j: int)
    requires
        closed_walk(g, c),
        0 <= j <= c.len(),
    ensures
        path_along(g, rot(c, j)),
        rot(c, j).len() == c.len(),
        rot(c, j)[0] == c[succ_idx(pred_idx(j % (c.len() as int), c.len() as int), c.len() as int)],
        rot(c, j)[c.len() - 1] == c[pred_idx(j % (c.len() as int), c.len() as int)],
{
    let n = c.len() as int;
    let r = rot(c, j);
    lemma_mod_once(j, n);
    assert forall|s: int| 0 <= s < r.len() - 1 implies #[trigger] g.has_edge(r[s], r[s + 1]) by {
        lemma_mod_once(j + s, n);
        lemma_mod_once(j + s + 1, n);
        let x = (j + s) % n;
        assert(edge_at(g, c, x));
        lemma_mod_once(x + 1, n);
    }
    lemma_mod_once(j + n - 1, n);
    lemma_mod_once(j + 0, n);
}

/// In a symmetric graph a cycle read backwards from position `j` walks along
/// its edges.
proof fn lemma_rev_path(g: Graph, c: Seq<i32>, j: int)
    requires
        closed_walk(g, c),
        symmetric(g),
        0 <= j < c.len(),
    ensures
        path_along(g, rev_from(c, j)),
        rev_from(c, j).len() == c.len(),
        rev_from(c, j)[0] == c[j],
        rev_from(c, j)[c.len() - 1] == c[succ_idx(j, c.len() as int)],
{
    let n = c.len() as int;
    let r = rev_from(c, j);
    assert forall|s: int| 0 <= s < r.len() - 1 implies #[trigger] g.has_edge(r[s], r[s + 1]) by {
        lemma_mod_once(j + n - s, n);
        lemma_mod_once(j + n - s - 1, n);
        let x = (j + n - s - 1) % n;
        assert(edge_at(g, c, x));
        lemma_mod_once(x + 1, n);
        assert(g.has_edge(r[s + 1], r[s]));
    }
    lemma_mod_once(j + n, n);
    lemma_mod_once(j + n - (n - 1), n);
}

/// Two paths joined at both ends form a closed walk.
proof fn lemma_join(g: Graph, a: Seq<i32>, b: Seq<i32>)
    requires
        path_along(g, a),
        path_along(g, b),
        a.len() >= 1,
        b.len() >= 1,
        a.len() + b.len() >= 3,
        g.has_edge(a[a.len() - 1], b[0]),
        g.has_edge(b[b.len() - 1], a[0]),
    ensures
        closed_walk(g, a + b),
{
    let m = a + b;
    let n = m.len() as int;
    assert forall|s: int| 0 <= s < n implies #[trigger] edge_at(g, m, s) by {
        if s < n - 1 {
            lemma_mod_once(s + 1, n);
            if s < a.len() - 1 {
                assert(m[s] == a[s] && m[s + 1] == a[s + 1]);
            } else if s == a.len() - 1 {
                assert(m[s] == a[a.len() - 1] && m[s + 1] == b[0]);
            } else {
                let t = s - a.len();
                assert(m[s] == b[t] && m[s + 1] == b[t + 1]);
            }
        } else {
            lemma_mod_once(n, n);
            assert(m[s] == b[b.len() - 1] && m[0] == a[0]);
        }
    }
}

/// The first 2-opt move of `cycles`, scanning cycles, then positions, then
/// neighbours in order: the two cycles and the merged cycle (the first cycle
/// read forwards from the successor of `u1`, then the second from `u2`,
/// backwards when `v1` is adjacent to the successor of `u2`, forwards
/// otherwise).
fn find_2opt(cycles: &Vec<Vec<i32>>, g: &Graph) -> (r: Option<(usize, usize, Vec<i32>)>)
    ensures
        match r {
            Some(x) => {
                &&& x.0 < cycles@.len()
                &&& x.1 < cycles@.len()
                &&& x.0 != x.1
                &&& x.2@.to_multiset() == cycles@[x.0 as int]@.to_multiset().add(cycles@[x.1 as int]@.to_multiset())
                &&& symmetric(*g) && closed_walk(*g, cycles@[x.0 as int]@) && closed_walk(*g, cycles@[x.1 as int]@)
                    ==> closed_walk(*g, x.2@)
            },
            None => no_2opt_move(views(cycles@), *g),
        },
{
    let ghost cs = views(cycles@);
    let sl = cycles.as_slice();
    let vert_map = positions_map(sl);
    proof {
        assert(sl@ == cycles@);
        lemma_lengths_fit(sl);
        lemma_positions_upto(cs, cs.len() as int);
    }
    let n = cycles.len();
    let mut c1: usize = 0;
    while c1 < n
        invariant
            n == cycles@.len(),
            cs == views(cycles@),
            vert_map@ == vertex_positions(cs),
            forall|v: i32| #[trigger] vertex_positions(cs).contains_key(v) ==> vertex_positions(cs)[v].0 < cs.len()
                && vertex_positions(cs)[v].1 < cs[vertex_positions(cs)[v].0 as int].len()
                && cs[vertex_positions(cs)[v].0 as int][vertex_positions(cs)[v].1 as int] == v,
            0 <= c1 <= n,
            forall|a: int, i: int, t: int| 0 <= a < c1 && 0 <= i < cs[a].len() ==> !#[trigger] move_at(cs, *g, a, i, t),
        decreases n - c1,
    {
        let c = &cycles[c1];
        let p = c.len();
        assert(cs[c1 as int] == c@);
        let mut i: usize = 0;
        while i < p
            invariant
                n == cycles@.len(),
                cs == views(cycles@),
                vert_map@ == vertex_positions(cs),
                forall|v: i32| #[trigger] vertex_positions(cs).contains_key(v) ==> vertex_positions(cs)[v].0 < cs.len()
                    && vertex_positions(cs)[v].1 < cs[vertex_positions(cs)[v].0 as int].len()
                    && cs[vertex_positions(cs)[v].0 as int][vertex_positions(cs)[v].1 as int] == v,
                c1 < n,
                cs[c1 as int] == c@,
                p == c@.len(),
                0 <= i <= p,
                forall|a: int, i2: int, t: int| 0 <= a < c1 && 0 <= i2 < cs[a].len() ==> !#[trigger] move_at(cs, *g, a, i2, t),
                forall|i2: int, t: int| 0 <= i2 < i ==> !#[trigger] move_at(cs, *g, c1 as int, i2, t),
            decreases p - i,
        {
            let u1 = c[i];
            let si = if i + 1 == p { 0 } else { i + 1 };
            let v1 = c[si];
            match g.neighbors(u1) {
                Some(nbrs) => {
                    let mut t: usize = 0;
                    while t < nbrs.len()
                        invariant
                            n == cycles@.len(),
                            cs == views(cycles@),
                            vert_map@ == vertex_positions(cs),
                            forall|v: i32| #[trigger] vertex_positions(cs).contains_key(v) ==> vertex_positions(cs)[v].0 < cs.len()
                                && vertex_positions(cs)[v].1 < cs[vertex_positions(cs)[v].0 as int].len()
                                && cs[vertex_positions(cs)[v].0 as int][vertex_positions(cs)[v].1 as int] == v,
                            c1 < n,
                            cs[c1 as int] == c@,
                            p == c@.len(),
                            0 <= i < p,
                            u1 == c@[i as int],
                            v1 == c@[succ_idx(i as int, p as int)],
                            g.adj().contains_key(u1),
                            nbrs@ == g.adj()[u1],
                            0 <= t <= nbrs@.len(),
                            forall|t2: int| 0 <= t2 < t ==> !#[trigger] move_at(cs, *g, c1 as int, i as int, t2),
                        decreases nbrs@.len() - t,
                    {
                        let u2 = nbrs[t];
                        match vert_map.get(&u2) {
                            Some(pos) => {
                                let c2 = pos.0;
                                let j = pos.1;
                                proof {
                                    assert(vertex_positions(cs).contains_key(u2));
                                }
                                if c2 != c1 {
                                    let d = &cycles[c2];
                                    assert(cs[c2 as int] == d@);
                                    let q = d.len();
                                    let sj = if j + 1 == q { 0 } else { j + 1 };
                                    let pj = if j == 0 { q - 1 } else { j - 1 };
                                    let v2 = d[sj];
                                    let w2 = d[pj];
                                    if g.contains_edge(v1, v2) {
                                        let mut merged = rot_vec(c.as_slice(), i + 1);
                                        let tail = rev_from_vec(d.as_slice(), j);
                                        let ghost a = merged@;
                                        let mut k: usize = 0;
                                        while k < tail.len()
                                            invariant
                                                0 <= k <= tail@.len(),
                                                merged@ == a + tail@.subrange(0, k as int),
                                            decreases tail@.len() - k,
                                        {
                                            merged.push(tail[k]);
                                            proof {
                                                assert(tail@.subrange(0, k + 1) == tail@.subrange(0, k as int).push(tail@[k as int]));
                                            }
                                            k = k + 1;
                                        }
                                        proof {
                                            assert(tail@.subrange(0, tail@.len() as int) == tail@);
                                            lemma_rot_split(c@, i + 1);
                                            lemma_rev_from(d@, j as int);
                                            vstd::seq_lib::lemma_multiset_commutative(a, tail@);
                                            if symmetric(*g) && closed_walk(*g, c@) && closed_walk(*g, d@) {
                                                lemma_rot_path(*g, c@, i + 1);
                                                lemma_rev_path(*g, d@, j as int);
                                                lemma_mod_once(i + 1, p as int);
                                                assert(g.has_edge(u1, u2));
                                                assert(g.has_edge(v2, v1));
                                                lemma_join(*g, a, tail@);
                                            }
                                        }
                                        return Some((c1, c2, merged));
                                    }
                                    if g.contains_edge(v1, w2) {
                                        let mut merged = rot_vec(c.as_slice(), i + 1);
                                        let tail = rot_vec(d.as_slice(), j);
                                        let ghost a = merged@;
                                        let mut k: usize = 0;
                                        while k < tail.len()
                                            invariant
                                                0 <= k <= tail@.len(),
                                                merged@ == a + tail@.subrange(0, k as int),
                                            decreases tail@.len() - k,
                                        {
                                            merged.push(tail[k]);
                                            proof {
                                                assert(tail@.subrange(0, k + 1) == tail@.subrange(0, k as int).push(tail@[k as int]));
                                            }
                                            k = k + 1;
                                        }
                                        proof {
                                            assert(tail@.subrange(0, tail@.len() as int) == tail@);
                                            lemma_rot_split(c@, i + 1);
                                            lemma_rot_split(d@, j as int);
                                            vstd::seq_lib::lemma_multiset_commutative(a, tail@);
                                            if symmetric(*g) && closed_walk(*g, c@) && closed_walk(*g, d@) {
                                                lemma_rot_path(*g, c@, i + 1);
                                                lemma_rot_path(*g, d@, j as int);
                                                lemma_mod_once(i + 1, p as int);
                                                lemma_mod_once(j as int, q as int);
                                                assert(g.has_edge(u1, u2));
                                                assert(g.has_edge(w2, v1));
                                                lemma_join(*g, a, tail@);
                                            }
                                        }
                                        return Some((c1, c2, merged));
                                    }
                                }
                            },
                            None => {},
                        }
                        t = t + 1;
                    }
                    proof {
                        assert forall|t2: int| !#[trigger] move_at(cs, *g, c1 as int, i as int, t2) by {
                            if 0 <= t2 < nbrs@.len() {
                            }
                        }
                    }
                },
                None => {},
            }
            i = i + 1;
        }
        c1 = c1 + 1;
    }
    None
}

/// Fast local 2-opt cycle patching to merge adjacent subcycles in 2-factor into fewer, larger cycles.
///
/// Repeatedly applies the first 2-opt move (see `find_2opt`): the two cycles
/// are removed and their merge appended, until one cycle is left or no move applies.
pub fn patch_cycles_2opt(cycles: Vec<Vec<i32>>, g: &Graph) -> (r: Vec<Vec<i32>>)
    ensures
        r@.len() <= cycles@.len(),
        cycles@.len() <= 1 ==> r@ == cycles@,
        ms_all(views(r@)) == ms_all(views(cycles@)),
        symmetric(*g) && all_closed_walks(*g, views(cycles@)) ==> all_closed_walks(*g, views(r@)),
        r@.len() <= 1 || no_2opt_move(views(r@), *g),
{
    let mut cycles = cycles;
    let ghost c0 = cycles@;
    let mut go = true;
    while go && cycles.len() > 1
        invariant
            cycles@.len() <= c0.len(),
            c0.len() <= 1 ==> cycles@ == c0,
            ms_all(views(cycles@)) == ms_all(views(c0)),
            symmetric(*g) && all_closed_walks(*g, views(c0)) ==> all_closed_walks(*g, views(cycles@)),
            !go ==> no_2opt_move(views(cycles@), *g),
        decreases cycles@.len() + (if go { 1int } else { 0int }),
    {
        match find_2opt(&cycles, g) {
            Some(x) => {
                let a = x.0;
                let b = x.1;
                let merged = x.2;
                let ghost before = cycles@;
                let hi = if a > b { a } else { b };
                let lo = if a > b { b } else { a };
                cycles.remove(hi);
                let ghost mid = cycles@;
                cycles.remove(lo);
                let ghost rest = cycles@;
                let ghost m = merged@;
                cycles.push(merged);
                proof {
                    let vb = views(before);
                    assert(views(mid) == vb.remove(hi as int));
                    assert(views(rest) == views(mid).remove(lo as int));
                    assert(views(cycles@) == views(rest).push(m));
                    lemma_ms_all_remove(vb, hi as int);
                    lemma_ms_all_remove(views(mid), lo as int);
                    assert(views(mid)[lo as int] == vb[lo as int]);
                    lemma_ms_all_push(views(rest), m);
                    assert(vb[a as int] == before[a as int]@);
                    assert(vb[b as int] == before[b as int]@);
                    assert(ms_all(views(cycles@)) =~= ms_all(vb));
                    if symmetric(*g) && all_closed_walks(*g, views(c0)) {
                        assert(closed_walk(*g, vb[a as int]));
                        assert(closed_walk(*g, vb[b as int]));
                        assert forall|k: int| 0 <= k < views(cycles@).len() implies closed_walk(*g, #[trigger] views(cycles@)[k]) by {
                            if k < views(rest).len() {
                                if k < lo {
                                    assert(views(cycles@)[k] == vb[k]);
                                } else if k + 1 < hi {
                                    assert(views(cycles@)[k] == vb[k + 1]);
                                } else {
                                    assert(views(cycles@)[k] == vb[k + 2]);
                                }
                            }
                        }
                    }
                }
            },
            None => {
                go = false;
            },
        }
    }
    cycles
}

} // verus!
