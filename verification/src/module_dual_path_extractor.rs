//! Dual traversals of a module whose vertices are paired by contracted
//! degree-2 chains ("virtual edges"): Hamiltonian paths of the module that
//! alternate between a virtual edge and a real edge of the graph at every step.
use crate::contraction::Degree2Contractor;
use crate::graph::Graph;
use crate::interface_port_synchronizer::member_set;
use crate::sorting::swapped;
use std::collections::{HashMap, HashSet};
use vstd::prelude::*;

verus! {

broadcast use vstd::std_specs::hash::group_hash_axioms;

/// Search for alternating Hamiltonian paths of a module.
pub struct ModuleDualPathExtractor;

/// What the chain key `k` says of `v` inside the module `mv`: its other end,
/// when `v` is one end of `k` and the other end lies in the module.
pub open spec fn key_partner(k: (i32, i32), mv: Seq<i32>, v: i32) -> Option<i32> {
    if k.0 == v && mv.contains(k.1) {
        Some(k.1)
    } else if k.1 == v && mv.contains(k.0) {
        Some(k.0)
    } else {
        None
    }
}

/// The partner of `v` given by the last of the first `j` keys that pairs `v`
/// with a module vertex.
pub open spec fn partner_upto(keys: Seq<(i32, i32)>, mv: Seq<i32>, v: i32, j: int) -> Option<i32>
    decreases j,
{
    if j <= 0 {
        None
    } else {
        match key_partner(keys[j - 1], mv, v) {
            Some(p) => Some(p),
            None => partner_upto(keys, mv, v, j - 1),
        }
    }
}

/// The virtual partner of the module vertex `v`: the other end of the last
/// chain key that joins `v` to another module vertex, if any.
pub open spec fn virtual_partner(keys: Seq<(i32, i32)>, mv: Seq<i32>, v: i32) -> Option<i32> {
    if mv.contains(v) {
        partner_upto(keys, mv, v, keys.len() as int)
    } else {
        None
    }
}

/// One step `u -> v` of an alternating path: along the virtual edge of `u`
/// when `virt`, else along a real edge of `g` to a module vertex that is not
/// the virtual partner of `u`.
pub open spec fn step_ok(g: Graph, keys: Seq<(i32, i32)>, mv: Seq<i32>, u: i32, v: i32, virt: bool) -> bool {
    if virt {
        virtual_partner(keys, mv, u) == Some(v)
    } else {
        g.has_edge(u, v) && mv.contains(v) && virtual_partner(keys, mv, u) != Some(v)
    }
}

/// The steps of `p` alternate, the first one virtual exactly when `first_virtual`.
pub open spec fn alternating(g: Graph, keys: Seq<(i32, i32)>, mv: Seq<i32>, p: Seq<i32>, first_virtual: bool) -> bool {
    forall|i: int| 0 <= i < p.len() - 1 ==> step_ok(g, keys, mv, #[trigger] p[i], p[i + 1], ((i % 2 == 0) == first_virtual))
}

/// The vertices of `s` that have no virtual partner in the module `mv`.
pub open spec fn without_partner(keys: Seq<(i32, i32)>, mv: Seq<i32>, s: Seq<i32>) -> Seq<i32> {
    s.filter(|v: i32| virtual_partner(keys, mv, v) is None)
}

/// The vertices a path may start from: those without a virtual partner when
/// there are at least two of them, otherwise every module vertex.
pub open spec fn start_vertices(keys: Seq<(i32, i32)>, mv: Seq<i32>) -> Seq<i32> {
    if without_partner(keys, mv, mv).len() >= 2 {
        without_partner(keys, mv, mv)
    } else {
        mv
    }
}

/// `p` visits each module vertex once, starts at a start vertex, and
/// alternates between virtual and real edges.
pub open spec fn dual_path_ok(g: Graph, keys: Seq<(i32, i32)>, mv: Seq<i32>, p: Seq<i32>) -> bool {
    &&& p.len() == mv.len()
    &&& p.len() >= 1
    &&& p.no_duplicates()
    &&& forall|i: int| 0 <= i < p.len() ==> mv.contains(#[trigger] p[i])
    &&& start_vertices(keys, mv).contains(p[0])
    &&& exists|b: bool| #[trigger] alternating(g, keys, mv, p, b)
}

/// The pair `{u, v}` with its smaller end first.
pub open spec fn min_max(u: i32, v: i32) -> (i32, i32) {
    if u < v {
        (u, v)
    } else {
        (v, u)
    }
}

/// The undirected edges along `p`.
pub open spec fn undirected_edges(p: Seq<i32>) -> Set<(i32, i32)> {
    Set::new(|e: (i32, i32)| exists|i: int| 0 <= i < p.len() - 1 && e == #[trigger] min_max(p[i], p[i + 1]))
}

/// The virtual partner map is recorded in `m` for the module vertices.
pub open spec fn partner_map_ok(m: Map<i32, i32>, keys: Seq<(i32, i32)>, mv: Seq<i32>) -> bool {
    &&& forall|v: i32| #[trigger] m.contains_key(v) <==> virtual_partner(keys, mv, v) is Some
    &&& forall|v: i32| #[trigger] m.contains_key(v) ==> virtual_partner(keys, mv, v) == Some(m[v])
}

/// A partner found by `partner_upto` lies in the module.
proof fn lemma_partner_in_module(keys: Seq<(i32, i32)>, mv: Seq<i32>, v: i32, j: int)
    ensures
        partner_upto(keys, mv, v, j) matches Some(p) ==> mv.contains(p),
    decreases j,
{
    if j > 0 {
        lemma_partner_in_module(keys, mv, v, j - 1);
    }
}

/// The virtual partner of `v` in the module, by a backward scan of the keys.
fn find_partner(keys: &Vec<(i32, i32)>, mv: &Vec<i32>, mod_set: &HashSet<i32>, v: i32) -> (r: Option<i32>)
    requires
        forall|x: i32| mod_set@.contains(x) <==> mv@.contains(x),
        mv@.contains(v),
    ensures
        r == virtual_partner(keys@, mv@, v),
        r matches Some(p) ==> mv@.contains(p),
{
    let mut j: usize = keys.len();
    while j > 0
        invariant
            forall|x: i32| mod_set@.contains(x) <==> mv@.contains(x),
            mv@.contains(v),
            0 <= j <= keys@.len(),
            partner_upto(keys@, mv@, v, j as int) == partner_upto(keys@, mv@, v, keys@.len() as int),
        decreases j,
    {
        let (a, b) = keys[j - 1];
        proof {
            assert(keys@[j - 1] == (a, b));
            assert(partner_upto(keys@, mv@, v, j as int) == match key_partner((a, b), mv@, v) {
                Some(p) => Some(p),
                None => partner_upto(keys@, mv@, v, j - 1),
            });
        }
        if a == v && mod_set.contains(&b) {
            return Some(b);
        } else if b == v && mod_set.contains(&a) {
            return Some(a);
        }
        j = j - 1;
    }
    None
}

/// The virtual partner map of the module.
fn partner_map(keys: &Vec<(i32, i32)>, mv: &Vec<i32>, mod_set: &HashSet<i32>) -> (m: HashMap<i32, i32>)
    requires
        forall|x: i32| mod_set@.contains(x) <==> mv@.contains(x),
    ensures
        partner_map_ok(m@, keys@, mv@),
        forall|v: i32| #[trigger] m@.contains_key(v) ==> mv@.contains(m@[v]),
{
    let mut m: HashMap<i32, i32> = HashMap::new();
    let mut i: usize = 0;
    while i < mv.len()
        invariant
            forall|x: i32| mod_set@.contains(x) <==> mv@.contains(x),
            0 <= i <= mv@.len(),
            forall|v: i32| #[trigger] m@.contains_key(v) <==> mv@.subrange(0, i as int).contains(v)
                && virtual_partner(keys@, mv@, v) is Some,
            forall|v: i32| #[trigger] m@.contains_key(v) ==> virtual_partner(keys@, mv@, v) == Some(m@[v]),
            forall|v: i32| #[trigger] m@.contains_key(v) ==> mv@.contains(m@[v]),
        decreases mv@.len() - i,
    {
        let v = mv[i];
        let ghost p = mv@.subrange(0, i as int);
        let ghost q = mv@.subrange(0, i + 1);
        proof {
            assert(q == p.push(v));
            assert forall|x: i32| q.contains(x) <==> p.contains(x) || x == v by {
                if p.contains(x) {
                    let j = choose|j: int| 0 <= j < p.len() && p[j] == x;
                    assert(q[j] == x);
                }
                if q.contains(x) && x != v {
                    let j = choose|j: int| 0 <= j < q.len() && q[j] == x;
                    assert(p[j] == x);
                }
                if x == v {
                    assert(q[i as int] == v);
                }
            }
            assert(mv@.contains(v)) by {
                assert(mv@[i as int] == v);
            }
        }
        match find_partner(keys, mv, mod_set, v) {
            Some(w) => {
                m.insert(v, w);
            },
            None => {},
        }
        i = i + 1;
    }
    proof {
        assert(mv@.subrange(0, mv@.len() as int) == mv@);
        assert forall|v: i32| #[trigger] m@.contains_key(v) <==> virtual_partner(keys@, mv@, v) is Some by {
            if virtual_partner(keys@, mv@, v) is Some {
                assert(mv@.contains(v));
            }
        }
    }
    m
}

/// Whether `{u, v}` is an edge along `q`.
fn has_undirected_edge(q: &Vec<i32>, u: i32, v: i32) -> (b: bool)
    ensures
        b == undirected_edges(q@).contains(min_max(u, v)),
{
    let e = if u < v {
        (u, v)
    } else {
        (v, u)
    };
    if q.len() < 2 {
        proof {
            if undirected_edges(q@).contains(min_max(u, v)) {
                let i = choose|i: int| 0 <= i < q@.len() - 1 && min_max(u, v) == #[trigger] min_max(q@[i], q@[i + 1]);
            }
        }
        return false;
    }
    let mut j: usize = 0;
    while j < q.len() - 1
        invariant
            q@.len() >= 2,
            e == min_max(u, v),
            0 <= j <= q@.len() - 1,
            forall|k: int| 0 <= k < j ==> #[trigger] min_max(q@[k], q@[k + 1]) != e,
        decreases q@.len() - j,
    {
        let a = q[j];
        let b = q[j + 1];
        let f = if a < b {
            (a, b)
        } else {
            (b, a)
        };
        if f.0 == e.0 && f.1 == e.1 {
            proof {
                assert(min_max(q@[j as int], q@[j + 1]) == e);
                assert(undirected_edges(q@).contains(e));
            }
            return true;
        }
        j = j + 1;
    }
    proof {
        if undirected_edges(q@).contains(e) {
            let i = choose|i: int| 0 <= i < q@.len() - 1 && e == #[trigger] min_max(q@[i], q@[i + 1]);
        }
    }
    false
}

/// Whether every edge along `p` is an edge along `q`.
fn edges_within(p: &Vec<i32>, q: &Vec<i32>) -> (b: bool)
    ensures
        b == undirected_edges(p@).subset_of(undirected_edges(q@)),
{
    if p.len() < 2 {
        proof {
            assert forall|e: (i32, i32)| undirected_edges(p@).contains(e) implies undirected_edges(q@).contains(e) by {
                let i = choose|i: int| 0 <= i < p@.len() - 1 && e == #[trigger] min_max(p@[i], p@[i + 1]);
            }
        }
        return true;
    }
    let mut j: usize = 0;
    while j < p.len() - 1
        invariant
            p@.len() >= 2,
            0 <= j <= p@.len() - 1,
            forall|k: int| 0 <= k < j ==> undirected_edges(q@).contains(#[trigger] min_max(p@[k], p@[k + 1])),
        decreases p@.len() - j,
    {
        if !has_undirected_edge(q, p[j], p[j + 1]) {
            proof {
                assert(undirected_edges(p@).contains(min_max(p@[j as int], p@[j + 1])));
            }
            return false;
        }
        j = j + 1;
    }
    proof {
        assert forall|e: (i32, i32)| undirected_edges(p@).contains(e) implies undirected_edges(q@).contains(e) by {
            let i = choose|i: int| 0 <= i < p@.len() - 1 && e == #[trigger] min_max(p@[i], p@[i + 1]);
        }
    }
    true
}

/// Whether `p` and `q` run along the same undirected edges.
fn same_edges(p: &Vec<i32>, q: &Vec<i32>) -> (b: bool)
    ensures
        b == (undirected_edges(p@) == undirected_edges(q@)),
{
    let a = edges_within(p, q);
    let b = edges_within(q, p);
    proof {
        if a && b {
            assert(undirected_edges(p@) =~= undirected_edges(q@));
        }
    }
    a && b
}

/// A prefix of a dual path: distinct module vertices from a start vertex,
/// alternating as `first_virtual` says.
pub open spec fn partial_ok(g: Graph, keys: Seq<(i32, i32)>, mv: Seq<i32>, p: Seq<i32>, first_virtual: bool) -> bool {
    &&& p.len() >= 1
    &&& p.no_duplicates()
    &&& forall|i: int| 0 <= i < p.len() ==> mv.contains(#[trigger] p[i])
    &&& start_vertices(keys, mv).contains(p[0])
    &&& alternating(g, keys, mv, p, first_virtual)
}

/// Whether `x` is the recorded virtual partner of `u`.
fn is_partner_of(partner: &HashMap<i32, i32>, u: i32, x: i32) -> (b: bool)
    ensures
        b == (partner@.contains_key(u) && partner@[u] == x),
{
    match partner.get(&u) {
        Some(p) => *p == x,
        None => false,
    }
}

/// A real step from `u` to `x` may be taken: `x` is an unvisited module
/// vertex other than the virtual partner of `u`.
pub open spec fn real_step_open(mod_set: Set<i32>, partner: Map<i32, i32>, visited: Set<i32>, u: i32, x: i32) -> bool {
    mod_set.contains(x) && !(partner.contains_key(u) && partner[u] == x) && !visited.contains(x)
}

/// The number of entries of `s` to which a real step from `u` may be taken.
pub open spec fn real_step_count(s: Seq<i32>, mod_set: Set<i32>, partner: Map<i32, i32>, visited: Set<i32>, u: i32) -> nat
    decreases s.len(),
{
    if s.len() == 0 {
        0
    } else {
        real_step_count(s.drop_last(), mod_set, partner, visited, u) + if real_step_open(
            mod_set,
            partner,
            visited,
            u,
            s.last(),
        ) {
            1nat
        } else {
            0nat
        }
    }
}

/// The number of unvisited real steps out of `u` (0 for a non-vertex).
pub open spec fn unvisited_real_degree_of(g: Graph, mod_set: Set<i32>, partner: Map<i32, i32>, visited: Set<i32>, u: i32) -> nat {
    if g.adj().contains_key(u) {
        real_step_count(g.adj()[u], mod_set, partner, visited, u)
    } else {
        0
    }
}

/// The number of real neighbours of `u` in the module that are not in `visited`.
fn unvisited_real_degree(
    g: &Graph,
    mod_set: &HashSet<i32>,
    partner: &HashMap<i32, i32>,
    visited: &HashSet<i32>,
    u: i32,
) -> (c: usize)
    ensures
        c == unvisited_real_degree_of(*g, mod_set@, partner@, visited@, u),
{
    match g.neighbors(u) {
        Some(nbrs) => {
            let mut c: usize = 0;
            let mut t: usize = 0;
            while t < nbrs.len()
                invariant
                    c <= t <= nbrs@.len(),
                    c == real_step_count(nbrs@.take(t as int), mod_set@, partner@, visited@, u),
                decreases nbrs@.len() - t,
            {
                let x = nbrs[t];
                proof {
                    assert(nbrs@.take(t + 1).drop_last() == nbrs@.take(t as int));
                    assert(nbrs@.take(t + 1).last() == x);
                }
                if mod_set.contains(&x) && !is_partner_of(partner, u, x) && !visited.contains(&x) {
                    c = c + 1;
                }
                t = t + 1;
            }
            proof {
                assert(nbrs@.take(nbrs@.len() as int) == nbrs@);
            }
            c
        },
        None => 0,
    }
}

/// The real steps available from `curr` to unvisited module vertices, in
/// adjacency order, then stably ordered by how many unvisited real
/// neighbours each has.
fn real_candidates(
    curr: i32,
    g: &Graph,
    mod_set: &HashSet<i32>,
    partner: &HashMap<i32, i32>,
    visited: &HashSet<i32>,
    Ghost(keys): Ghost<Seq<(i32, i32)>>,
    Ghost(mv): Ghost<Seq<i32>>,
) -> (r: Vec<i32>)
    requires
        forall|x: i32| mod_set@.contains(x) <==> mv.contains(x),
        partner_map_ok(partner@, keys, mv),
    ensures
        forall|x: int| 0 <= x < r@.len() ==> step_ok(*g, keys, mv, curr, #[trigger] r@[x], false)
            && !visited@.contains(r@[x]),
        forall|x: i32| r@.contains(x) <==> g.has_edge(curr, x) && real_step_open(mod_set@, partner@, visited@, curr, x),
        forall|a: int, b: int| 0 <= a < b < r@.len() ==> unvisited_real_degree_of(*g, mod_set@, partner@, visited@, #[trigger] r@[a])
            <= unvisited_real_degree_of(*g, mod_set@, partner@, visited@, #[trigger] r@[b]),
        g.adj().contains_key(curr) && g.adj()[curr].no_duplicates() ==> r@.no_duplicates(),
{
    let ghost nd = g.adj().contains_key(curr) && g.adj()[curr].no_duplicates();
    let mut r: Vec<i32> = Vec::new();
    let mut deg: Vec<usize> = Vec::new();
    match g.neighbors(curr) {
        Some(nbrs) => {
            let mut t: usize = 0;
            while t < nbrs.len()
                invariant
                    forall|x: i32| mod_set@.contains(x) <==> mv.contains(x),
                    partner_map_ok(partner@, keys, mv),
                    g.adj().contains_key(curr),
                    nbrs@ == g.adj()[curr],
                    0 <= t <= nbrs@.len(),
                    r@.len() == deg@.len(),
                    forall|x: int| 0 <= x < r@.len() ==> step_ok(*g, keys, mv, curr, #[trigger] r@[x], false)
                        && !visited@.contains(r@[x]),
                    forall|x: int| 0 <= x < r@.len() ==> g.has_edge(curr, #[trigger] r@[x]) && real_step_open(
                        mod_set@,
                        partner@,
                        visited@,
                        curr,
                        r@[x],
                    ),
                    forall|x: int| 0 <= x < r@.len() ==> #[trigger] deg@[x] == unvisited_real_degree_of(
                        *g,
                        mod_set@,
                        partner@,
                        visited@,
                        r@[x],
                    ),
                    forall|q: int| 0 <= q < t && real_step_open(mod_set@, partner@, visited@, curr, #[trigger] nbrs@[q]) ==> r@.contains(nbrs@[q]),
                    forall|y: int| 0 <= y < r@.len() ==> nbrs@.take(t as int).contains(#[trigger] r@[y]),
                    nd == (g.adj().contains_key(curr) && g.adj()[curr].no_duplicates()),
                    nd ==> r@.no_duplicates(),
                decreases nbrs@.len() - t,
            {
                let x = nbrs[t];
                if mod_set.contains(&x) && !is_partner_of(partner, curr, x) && !visited.contains(&x) {
                    let d = unvisited_real_degree(g, mod_set, partner, visited, x);
                    let ghost r0 = r@;
                    r.push(x);
                    deg.push(d);
                    proof {
                        assert forall|y: int| 0 <= y < r@.len() implies nbrs@.take(t + 1).contains(#[trigger] r@[y]) by {
                            if y < r0.len() {
                                assert(r@[y] == r0[y]);
                                assert(nbrs@.take(t as int).contains(r0[y]));
                                let w = choose|w: int| 0 <= w < t && nbrs@.take(t as int)[w] == r0[y];
                                assert(nbrs@.take(t + 1)[w] == r0[y]);
                            } else {
                                assert(nbrs@.take(t + 1)[t as int] == x);
                            }
                        }
                        if nd {
                            assert forall|a: int, b: int| 0 <= a < b < r@.len() implies r@[a] != r@[b] by {
                                if b == r0.len() {
                                    assert(r@[a] == r0[a]);
                                    assert(nbrs@.take(t as int).contains(r0[a]));
                                    let w = choose|w: int| 0 <= w < t && nbrs@.take(t as int)[w] == r0[a];
                                    assert(nbrs@[w] == r0[a]);
                                    assert(nbrs@[t as int] == x);
                                } else {
                                    assert(r@[a] == r0[a] && r@[b] == r0[b]);
                                }
                            }
                        }
                        assert(g.has_edge(curr, x)) by {
                            assert(nbrs@[t as int] == x);
                        }
                        assert(r@[r0.len() as int] == x);
                        assert forall|y: int| 0 <= y < r@.len() implies step_ok(*g, keys, mv, curr, #[trigger] r@[y], false)
                            && !visited@.contains(r@[y]) by {
                            if y < r0.len() {
                                assert(r@[y] == r0[y]);
                            }
                        }
                        assert forall|q: int| 0 <= q < t + 1 && real_step_open(mod_set@, partner@, visited@, curr, #[trigger] nbrs@[q]) implies r@.contains(nbrs@[q]) by {
                            if q < t {
                                assert(r0.contains(nbrs@[q]));
                                let w = choose|w: int| 0 <= w < r0.len() && r0[w] == nbrs@[q];
                                assert(r@[w] == nbrs@[q]);
                            } else {
                                assert(r@[r0.len() as int] == nbrs@[q]);
                            }
                        }
                    }
                }
                proof {
                    assert forall|y: int| 0 <= y < r@.len() implies nbrs@.take(t + 1).contains(#[trigger] r@[y]) by {
                        if !nbrs@.take(t as int).contains(r@[y]) {
                            assert(r@[y] == x);
                            assert(nbrs@.take(t + 1)[t as int] == x);
                        } else {
                            let w = choose|w: int| 0 <= w < t && nbrs@.take(t as int)[w] == r@[y];
                            assert(nbrs@.take(t + 1)[w] == r@[y]);
                        }
                    }
                }
                t = t + 1;
            }
            proof {
                assert forall|x: i32| r@.contains(x) <==> g.has_edge(curr, x) && real_step_open(mod_set@, partner@, visited@, curr, x) by {
                    if r@.contains(x) {
                        let w = choose|w: int| 0 <= w < r@.len() && r@[w] == x;
                        assert(g.has_edge(curr, r@[w]));
                    }
                    if g.has_edge(curr, x) && real_step_open(mod_set@, partner@, visited@, curr, x) {
                        let q = choose|q: int| 0 <= q < nbrs@.len() && nbrs@[q] == x;
                        assert(real_step_open(mod_set@, partner@, visited@, curr, nbrs@[q]));
                    }
                }
            }
        },
        None => {},
    }
    let n = r.len();
    if n == 0 {
        return r;
    }
    let mut i: usize = 1;
    while i < n
        invariant
            n == r@.len(),
            deg@.len() == n,
            1 <= i <= n,
            forall|x: int| 0 <= x < n ==> step_ok(*g, keys, mv, curr, #[trigger] r@[x], false)
                && !visited@.contains(r@[x]),
            forall|x: i32| r@.contains(x) <==> g.has_edge(curr, x) && real_step_open(mod_set@, partner@, visited@, curr, x),
            forall|x: int| 0 <= x < n ==> #[trigger] deg@[x] == unvisited_real_degree_of(*g, mod_set@, partner@, visited@, r@[x]),
            forall|a: int, b: int| 0 <= a < b < i ==> #[trigger] deg@[a] <= #[trigger] deg@[b],
            nd == (g.adj().contains_key(curr) && g.adj()[curr].no_duplicates()),
            nd ==> r@.no_duplicates(),
        decreases n - i,
    {
        let mut j: usize = i;
        while j > 0 && deg[j - 1] > deg[j]
            invariant
                n == r@.len(),
                deg@.len() == n,
                1 <= i < n,
                0 <= j <= i,
                forall|x: int| 0 <= x < n ==> step_ok(*g, keys, mv, curr, #[trigger] r@[x], false)
                    && !visited@.contains(r@[x]),
                forall|x: i32| r@.contains(x) <==> g.has_edge(curr, x) && real_step_open(mod_set@, partner@, visited@, curr, x),
                forall|x: int| 0 <= x < n ==> #[trigger] deg@[x] == unvisited_real_degree_of(*g, mod_set@, partner@, visited@, r@[x]),
                forall|a: int, b: int| 0 <= a < b <= i && a != j && b != j ==> #[trigger] deg@[a] <= #[trigger] deg@[b],
                forall|b: int| j < b <= i ==> deg@[j as int] < #[trigger] deg@[b],
                nd ==> r@.no_duplicates(),
            decreases j,
        {
            let ghost rb = r@;
            let ghost db = deg@;
            let x = r[j - 1];
            let y = r[j];
            r.set(j - 1, y);
            r.set(j, x);
            let dx = deg[j - 1];
            let dy = deg[j];
            deg.set(j - 1, dy);
            deg.set(j, dx);
            proof {
                let kk = j as int;
                assert forall|z: int| 0 <= z < n implies r@[z] == rb[swapped(kk, z)] && deg@[z] == db[swapped(kk, z)]
                    && 0 <= swapped(kk, z) < n by {}
                if nd {
                    assert forall|a: int, b: int| 0 <= a < b < n implies r@[a] != r@[b] by {
                        assert(swapped(kk, a) != swapped(kk, b));
                    }
                }
                assert forall|z: int| 0 <= z < n implies step_ok(*g, keys, mv, curr, #[trigger] r@[z], false)
                    && !visited@.contains(r@[z]) by {
                    assert(step_ok(*g, keys, mv, curr, rb[swapped(kk, z)], false));
                }
                assert forall|v: i32| r@.contains(v) <==> g.has_edge(curr, v) && real_step_open(mod_set@, partner@, visited@, curr, v) by {
                    assert(rb.contains(v) <==> g.has_edge(curr, v) && real_step_open(mod_set@, partner@, visited@, curr, v));
                    if r@.contains(v) {
                        let q = choose|q: int| 0 <= q < n && r@[q] == v;
                        assert(rb[swapped(kk, q)] == v);
                    }
                    if rb.contains(v) {
                        let q = choose|q: int| 0 <= q < n && rb[q] == v;
                        assert(r@[swapped(kk, q)] == v);
                    }
                }
                assert forall|z: int| 0 <= z < n implies #[trigger] deg@[z] == unvisited_real_degree_of(*g, mod_set@, partner@, visited@, r@[z]) by {
                    assert(db[swapped(kk, z)] == unvisited_real_degree_of(*g, mod_set@, partner@, visited@, rb[swapped(kk, z)]));
                }
                assert forall|a: int, b: int| 0 <= a < b <= i && a != kk - 1 && b != kk - 1 implies #[trigger] deg@[a] <= #[trigger] deg@[b] by {
                    if b == kk {
                        assert(db[a] <= db[kk - 1]);
                    } else if a == kk {
                        assert(db[kk - 1] <= db[b]);
                    } else {
                        assert(db[a] <= db[b]);
                    }
                }
                assert forall|b: int| kk - 1 < b <= i implies deg@[kk - 1] < #[trigger] deg@[b] by {
                    if b > kk {
                        assert(db[kk] < db[b]);
                    }
                }
            }
            j = j - 1;
        }
        proof {
            let kk = j as int;
            assert forall|a: int, b: int| 0 <= a < b < i + 1 implies #[trigger] deg@[a] <= #[trigger] deg@[b] by {
                if a == kk {
                } else if b == kk {
                    if a < kk - 1 {
                        assert(deg@[a] <= deg@[kk - 1]);
                    }
                }
            }
        }
        i = i + 1;
    }
    proof {
        assert forall|a: int, b: int| 0 <= a < b < r@.len() implies unvisited_real_degree_of(*g, mod_set@, partner@, visited@, #[trigger] r@[a])
            <= unvisited_real_degree_of(*g, mod_set@, partner@, visited@, #[trigger] r@[b]) by {
            assert(deg@[a] <= deg@[b]);
        }
    }
    r
}

/// `p` is an alternating Hamiltonian path of the module (first step virtual
/// exactly when `first_virtual`) that begins with `prefix`.
pub open spec fn alt_completes(g: Graph, keys: Seq<(i32, i32)>, mv: Seq<i32>, prefix: Seq<i32>, p: Seq<i32>, first_virtual: bool) -> bool {
    &&& p.len() == mv.len()
    &&& p.no_duplicates()
    &&& forall|i: int| 0 <= i < p.len() ==> mv.contains(#[trigger] p[i])
    &&& alternating(g, keys, mv, p, first_virtual)
    &&& prefix.len() <= p.len()
    &&& p.subrange(0, prefix.len() as int) == prefix
}

/// Some entry of `results` lists exactly `p`.
pub open spec fn path_recorded(results: Seq<Vec<i32>>, p: Seq<i32>) -> bool {
    exists|q: int| 0 <= q < results.len() && (#[trigger] results[q])@ == p
}

/// The entry of a completion after a proper prefix is a new module vertex
/// reached by the step that the prefix's length calls for.
proof fn lemma_alt_step(g: Graph, keys: Seq<(i32, i32)>, mv: Seq<i32>, prefix: Seq<i32>, p: Seq<i32>, fv: bool)
    requires
        alt_completes(g, keys, mv, prefix, p, fv),
        1 <= prefix.len() < mv.len(),
    ensures
        alt_completes(g, keys, mv, prefix.push(p[prefix.len() as int]), p, fv),
        step_ok(g, keys, mv, prefix[prefix.len() - 1], p[prefix.len() as int], (((prefix.len() - 1) % 2 == 0) == fv)),
        !prefix.contains(p[prefix.len() as int]),
        mv.contains(p[prefix.len() as int]),
{
    let l = prefix.len() as int;
    let x = p[l];
    assert(p.subrange(0, l)[l - 1] == p[l - 1]);
    assert(step_ok(g, keys, mv, p[l - 1], p[l], (((l - 1) % 2 == 0) == fv)));
    assert(p.subrange(0, l + 1) == prefix.push(x));
    if prefix.contains(x) {
        let c = choose|c: int| 0 <= c < l && prefix[c] == x;
        assert(p.subrange(0, l)[c] == p[c]);
    }
}

/// A vertex cannot follow itself twice in a sequence of alternating parities.
proof fn lemma_parity_flip(k: int)
    requires
        k >= 0,
    ensures
        ((k % 2 == 0) != ((k + 1) % 2 == 0)),
{
}

/// The adjacency list of each module vertex lists each neighbour once.
pub open spec fn adjacency_distinct_on(g: Graph, mv: Seq<i32>) -> bool {
    forall|u: i32| #[trigger] mv.contains(u) && g.adj().contains_key(u) ==> g.adj()[u].no_duplicates()
}

/// No two entries of `rs` list the same path.
pub open spec fn distinct_entries(rs: Seq<Vec<i32>>) -> bool {
    forall|a: int, b: int| 0 <= a < b < rs.len() ==> (#[trigger] rs[a])@ != (#[trigger] rs[b])@
}

/// No entry of `rs` completes `prefix` with first step virtual as `fv` says.
pub open spec fn fresh_for(rs: Seq<Vec<i32>>, g: Graph, keys: Seq<(i32, i32)>, mv: Seq<i32>, prefix: Seq<i32>, fv: bool) -> bool {
    forall|q: int| 0 <= q < rs.len() ==> !#[trigger] alt_completes(g, keys, mv, prefix, rs[q]@, fv)
}

/// A bound on the search calls below a partial path with `m` module vertices
/// still to visit: a virtual step has one way on, a real step at most `m`.
spec fn dfs_calls(m: nat, virt: bool) -> nat
    decreases m,
{
    if m == 0 {
        1
    } else if virt {
        1 + dfs_calls((m - 1) as nat, false)
    } else {
        1 + m * dfs_calls((m - 1) as nat, true)
    }
}

proof fn lemma_dfs_calls_pos(m: nat, virt: bool)
    ensures
        dfs_calls(m, virt) >= 1,
{
}

/// Up to nine module vertices, the two searches from one start make at
/// most 1666 calls together.
proof fn lemma_dfs_calls_small(m: nat)
    requires
        m <= 8,
    ensures
        dfs_calls(m, false) + dfs_calls(m, true) <= 1666,
{
    reveal_with_fuel(dfs_calls, 3);
    assert(dfs_calls(0, false) == 1 && dfs_calls(0, true) == 1);
    assert(dfs_calls(1, false) == 2 && dfs_calls(1, true) == 2);
    assert(dfs_calls(2, false) == 5 && dfs_calls(2, true) == 3);
    assert(dfs_calls(3, false) == 10 && dfs_calls(3, true) == 6);
    assert(dfs_calls(4, false) == 25 && dfs_calls(4, true) == 11);
    assert(dfs_calls(5, false) == 56 && dfs_calls(5, true) == 26);
    assert(dfs_calls(6, false) == 157 && dfs_calls(6, true) == 57);
    assert(dfs_calls(7, false) == 400 && dfs_calls(7, true) == 158);
    assert(dfs_calls(8, false) == 1265 && dfs_calls(8, true) == 401);
}

/// The edge from entry `i` to entry `i + 1` is an edge of `p`.
proof fn lemma_edge_of(p: Seq<i32>, i: int)
    requires
        0 <= i < p.len() - 1,
    ensures
        undirected_edges(p).contains(min_max(p[i], p[i + 1])),
{
    let e = min_max(p[i], p[i + 1]);
    assert(0 <= i < p.len() - 1 && e == min_max(p[i], p[i + 1]));
    assert(undirected_edges(p).contains(e));
}

/// Two paths without repeats that share their edges and their first `i`
/// entries agree on those entries; by induction, all of them.
proof fn lemma_prefix_agree(p: Seq<i32>, q: Seq<i32>, i: int)
    requires
        p.len() == q.len(),
        p.no_duplicates(),
        q.no_duplicates(),
        undirected_edges(p) == undirected_edges(q),
        1 <= i <= p.len(),
        p[0] == q[0],
    ensures
        forall|t: int| 0 <= t < i ==> p[t] == q[t],
    decreases i,
{
    if i > 1 {
        lemma_prefix_agree(p, q, i - 1);
        lemma_edge_of(p, i - 2);
        let e = min_max(p[i - 2], p[i - 1]);
        assert(undirected_edges(q).contains(e));
        let j = choose|j: int| 0 <= j < q.len() - 1 && e == #[trigger] min_max(q[j], q[j + 1]);
        assert(p[i - 2] == q[i - 2]);
        if q[j] == p[i - 2] {
            assert(j == i - 2);
        } else {
            assert(q[j + 1] == p[i - 2]);
            assert(j + 1 == i - 2);
            assert(p[i - 1] == q[j]);
            assert(p[i - 3] == q[i - 3]);
            assert(false);
        }
    }
}

/// Two paths without repeats, of one length, with the same edges and the
/// same first vertex, are the same path.
proof fn lemma_same_edges_same_start(p: Seq<i32>, q: Seq<i32>)
    requires
        p.len() == q.len(),
        p.len() >= 1,
        p.no_duplicates(),
        q.no_duplicates(),
        undirected_edges(p) == undirected_edges(q),
        p[0] == q[0],
    ensures
        p == q,
{
    lemma_prefix_agree(p, q, p.len() as int);
    assert(p =~= q);
}

/// A path without repeats that has the edges of another such path of the
/// same length starts at one of the other's ends.
proof fn lemma_same_edges_start_at_end(p: Seq<i32>, q: Seq<i32>)
    requires
        p.len() == q.len(),
        p.len() >= 2,
        p.no_duplicates(),
        q.no_duplicates(),
        undirected_edges(p) == undirected_edges(q),
    ensures
        q[0] == p[0] || q[0] == p[p.len() - 1],
{
    let l = p.len() as int;
    lemma_edge_of(q, 0);
    let e0 = min_max(q[0], q[1]);
    assert(undirected_edges(p).contains(e0));
    let i = choose|i: int| 0 <= i < p.len() - 1 && e0 == #[trigger] min_max(p[i], p[i + 1]);
    let m = if p[i] == q[0] { i } else { i + 1 };
    assert(p[m] == q[0]);
    if 0 < m < l - 1 {
        lemma_edge_of(p, m - 1);
        lemma_edge_of(p, m);
        let ea = min_max(p[m - 1], p[m]);
        let eb = min_max(p[m], p[m + 1]);
        assert(undirected_edges(q).contains(ea));
        assert(undirected_edges(q).contains(eb));
        let ja = choose|j: int| 0 <= j < q.len() - 1 && ea == #[trigger] min_max(q[j], q[j + 1]);
        let jb = choose|j: int| 0 <= j < q.len() - 1 && eb == #[trigger] min_max(q[j], q[j + 1]);
        assert(ja == 0) by {
            if q[ja] == q[0] {
            } else if q[ja + 1] == q[0] {
            } else {
                assert(q[ja] == p[m] || q[ja + 1] == p[m]);
            }
        }
        assert(jb == 0) by {
            if q[jb] == q[0] {
            } else if q[jb + 1] == q[0] {
            } else {
                assert(q[jb] == p[m] || q[jb + 1] == p[m]);
            }
        }
        assert(ea == eb);
        assert(p[m - 1] == p[m + 1]);
        assert(false);
    }
}

/// Three paths without repeats, of one length of at least two, that all have
/// the same edges cannot be pairwise different.
proof fn lemma_three_same_edges(a: Seq<i32>, b: Seq<i32>, c: Seq<i32>)
    requires
        a.len() == b.len(),
        a.len() == c.len(),
        a.len() >= 2,
        a.no_duplicates(),
        b.no_duplicates(),
        c.no_duplicates(),
        undirected_edges(a) == undirected_edges(b),
        undirected_edges(a) == undirected_edges(c),
    ensures
        a == b || a == c || b == c,
{
    lemma_same_edges_start_at_end(a, b);
    lemma_same_edges_start_at_end(a, c);
    if b[0] == a[0] {
        lemma_same_edges_same_start(a, b);
    } else if c[0] == a[0] {
        lemma_same_edges_same_start(a, c);
    } else {
        lemma_same_edges_same_start(b, c);
    }
}

/// A path of at least two vertices alternates in one phase only.
proof fn lemma_one_phase(g: Graph, keys: Seq<(i32, i32)>, mv: Seq<i32>, p: Seq<i32>, b: bool)
    requires
        p.len() >= 2,
        alternating(g, keys, mv, p, b),
    ensures
        !alternating(g, keys, mv, p, !b),
{
    assert(step_ok(g, keys, mv, p[0], p[1], ((0int % 2 == 0) == b)));
    if alternating(g, keys, mv, p, !b) {
        assert(step_ok(g, keys, mv, p[0], p[1], ((0int % 2 == 0) == !b)));
    }
}

/// A completion of a longer prefix completes the shorter one.
proof fn lemma_completes_shorter(g: Graph, keys: Seq<(i32, i32)>, mv: Seq<i32>, prefix: Seq<i32>, x: i32, p: Seq<i32>, fv: bool)
    requires
        alt_completes(g, keys, mv, prefix.push(x), p, fv),
    ensures
        alt_completes(g, keys, mv, prefix, p, fv),
        p[prefix.len() as int] == x,
{
    let l = prefix.len() as int;
    assert(p.subrange(0, l + 1)[l] == x);
    assert(p.subrange(0, l) =~= p.subrange(0, l + 1).subrange(0, l));
    assert(prefix.push(x).subrange(0, l) =~= prefix);
}

/// A sequence without repeats whose entries all occur in `b` is no longer than `b`.
proof fn lemma_nodup_len_le(a: Seq<i32>, b: Seq<i32>)
    requires
        a.no_duplicates(),
        forall|i: int| 0 <= i < a.len() ==> b.contains(#[trigger] a[i]),
    ensures
        a.len() <= b.len(),
{
    a.unique_seq_to_set();
    b.lemma_cardinality_of_set();
    assert(a.to_set().subset_of(b.to_set())) by {
        assert forall|x: i32| a.to_set().contains(x) implies b.to_set().contains(x) by {
            let i = choose|i: int| 0 <= i < a.len() && a[i] == x;
        }
    }
    vstd::set_lib::lemma_len_subset(a.to_set(), b.to_set());
}

/// When a sequence without repeats of the length of `mv` has all its entries
/// in `mv`, `mv` has no repeats either.
proof fn lemma_pigeonhole(p: Seq<i32>, mv: Seq<i32>)
    requires
        p.no_duplicates(),
        p.len() == mv.len(),
        forall|i: int| 0 <= i < p.len() ==> mv.contains(#[trigger] p[i]),
    ensures
        mv.no_duplicates(),
{
    p.unique_seq_to_set();
    mv.lemma_cardinality_of_set();
    assert(p.to_set().subset_of(mv.to_set())) by {
        assert forall|x: i32| p.to_set().contains(x) implies mv.to_set().contains(x) by {
            let i = choose|i: int| 0 <= i < p.len() && p[i] == x;
        }
    }
    vstd::set_lib::lemma_len_subset(p.to_set(), mv.to_set());
    mv.lemma_no_dup_set_cardinality();
}

/// Filtering keeps a sequence free of repeats.
proof fn lemma_filter_nodup(s: Seq<i32>, pred: spec_fn(i32) -> bool)
    requires
        s.no_duplicates(),
    ensures
        s.filter(pred).no_duplicates(),
    decreases s.len(),
{
    reveal(Seq::filter);
    if s.len() > 0 {
        let d = s.drop_last();
        lemma_filter_nodup(d, pred);
        if pred(s.last()) {
            if d.filter(pred).contains(s.last()) {
                d.lemma_filter_contains_rev(pred, s.last());
                let t = choose|t: int| 0 <= t < d.len() && d[t] == s.last();
                assert(s[t] == s[s.len() - 1]);
            }
        }
    }
}

impl ModuleDualPathExtractor {
    /// Depth-first extension of `path` by alternating steps; each path that
    /// covers the module is recorded, until ten are known or the step budget
    /// of twenty thousand calls is spent.
    fn dfs_alternating(
        curr: i32,
        must_take_virtual: bool,
        target_len: usize,
        g: &Graph,
        mod_set: &HashSet<i32>,
        partner: &HashMap<i32, i32>,
        path: &mut Vec<i32>,
        visited: &mut HashSet<i32>,
        results: &mut Vec<Vec<i32>>,
        steps: &mut usize,
        Ghost(keys): Ghost<Seq<(i32, i32)>>,
        Ghost(mv): Ghost<Seq<i32>>,
        Ghost(first_virtual): Ghost<bool>,
    )
        requires
            target_len == mv.len(),
            forall|x: i32| mod_set@.contains(x) <==> mv.contains(x),
            partner_map_ok(partner@, keys, mv),
            forall|v: i32| #[trigger] partner@.contains_key(v) ==> mv.contains(partner@[v]),
            partial_ok(*g, keys, mv, old(path)@, first_virtual),
            old(path)@.len() <= target_len,
            curr == old(path)@.last(),
            must_take_virtual == (((old(path)@.len() - 1) % 2 == 0) == first_virtual),
            forall|v: i32| old(visited)@.contains(v) <==> old(path)@.contains(v),
            forall|q: int| 0 <= q < old(results)@.len() ==> dual_path_ok(*g, keys, mv, #[trigger] old(results)@[q]@),
            old(results)@.len() <= 10,
            *old(steps) <= 20000,
        ensures
            final(path)@ == old(path)@,
            forall|v: i32| final(visited)@.contains(v) <==> old(visited)@.contains(v),
            forall|q: int| 0 <= q < final(results)@.len() ==> dual_path_ok(*g, keys, mv, #[trigger] final(results)@[q]@),
            final(results)@.len() <= 10,
            *final(steps) <= 20001,
            *old(steps) < *final(steps),
            old(results)@.len() <= final(results)@.len(),
            forall|q: int| 0 <= q < old(results)@.len() ==> #[trigger] final(results)@[q] == old(results)@[q],
            *final(steps) <= 20000 && final(results)@.len() < 10 ==> forall|p: Seq<i32>|
                #[trigger] alt_completes(*g, keys, mv, old(path)@, p, first_virtual) ==> path_recorded(final(results)@, p),
            adjacency_distinct_on(*g, mv) ==> *final(steps) <= *old(steps) + dfs_calls(
                (target_len - old(path)@.len()) as nat,
                must_take_virtual,
            ),
            forall|q: int| old(results)@.len() <= q < final(results)@.len() ==> alt_completes(*g, keys, mv, old(path)@, #[trigger] final(results)@[q]@, first_virtual),
            adjacency_distinct_on(*g, mv) && distinct_entries(old(results)@) && fresh_for(old(results)@, *g, keys, mv, old(path)@, first_virtual)
                ==> distinct_entries(final(results)@),
        decreases target_len - old(path)@.len(),
    {
        proof {
            lemma_dfs_calls_pos((target_len - old(path)@.len()) as nat, must_take_virtual);
        }
        *steps = *steps + 1;
        if *steps > 20000 || results.len() >= 10 {
            return;
        }
        if path.len() == target_len {
            let found = path.clone();
            assert(found@ =~= path@);
            let ghost r0 = results@;
            results.push(found);
            proof {
                assert(path@.subrange(0, path@.len() as int) =~= path@);
                assert(alt_completes(*g, keys, mv, path@, path@, first_virtual));
                assert(results@[r0.len() as int]@ == path@);
                if distinct_entries(r0) && fresh_for(r0, *g, keys, mv, path@, first_virtual) {
                    assert forall|a: int, b: int| 0 <= a < b < results@.len() implies (#[trigger] results@[a])@ != (
                    #[trigger] results@[b])@ by {
                        assert(results@[a] == r0[a]);
                        if b < r0.len() {
                            assert(results@[b] == r0[b]);
                        } else {
                            assert(!alt_completes(*g, keys, mv, path@, r0[a]@, first_virtual));
                        }
                    }
                }
                assert(alternating(*g, keys, mv, path@, first_virtual));
                assert forall|q: int| 0 <= q < results@.len() implies dual_path_ok(*g, keys, mv, #[trigger] results@[q]@) by {
                    if q < r0.len() {
                        assert(results@[q] == r0[q]);
                    }
                }
                assert forall|p: Seq<i32>| #[trigger] alt_completes(*g, keys, mv, old(path)@, p, first_virtual) implies path_recorded(results@, p) by {
                    assert(p == p.subrange(0, p.len() as int));
                    assert(results@[r0.len() as int]@ == p);
                }
            }
            return;
        }
        let ghost p0 = path@;
        proof {
            lemma_parity_flip(p0.len() - 1);
        }
        if must_take_virtual {
            match partner.get(&curr) {
                Some(nxt_ref) => {
                    let nxt = *nxt_ref;
                    if !visited.contains(&nxt) {
                        visited.insert(nxt);
                        path.push(nxt);
                        proof {
                            Self::lemma_extend(*g, keys, mv, p0, nxt, first_virtual, true);
                            assert forall|v: i32| visited@.contains(v) <==> path@.contains(v) by {
                                Self::lemma_push_contains(p0, nxt, v);
                            }
                        }
                        let ghost pushed = path@;
                        let ghost rb = results@;
                        let ghost sb = *steps;
                        proof {
                            assert forall|q: int| 0 <= q < rb.len() && fresh_for(rb, *g, keys, mv, p0, first_virtual) implies !#[trigger] alt_completes(
                                *g,
                                keys,
                                mv,
                                pushed,
                                rb[q]@,
                                first_virtual,
                            ) by {
                                if alt_completes(*g, keys, mv, pushed, rb[q]@, first_virtual) {
                                    lemma_completes_shorter(*g, keys, mv, p0, nxt, rb[q]@, first_virtual);
                                }
                            }
                        }
                        Self::dfs_alternating(
                            nxt,
                            false,
                            target_len,
                            g,
                            mod_set,
                            partner,
                            path,
                            visited,
                            results,
                            steps,
                            Ghost(keys),
                            Ghost(mv),
                            Ghost(first_virtual),
                        );
                        path.pop();
                        visited.remove(&nxt);
                        proof {
                            assert(path@ =~= p0);
                            assert(pushed == p0.push(nxt));
                            assert forall|q: int| rb.len() <= q < results@.len() implies alt_completes(*g, keys, mv, p0, #[trigger] results@[q]@, first_virtual) by {
                                lemma_completes_shorter(*g, keys, mv, p0, nxt, results@[q]@, first_virtual);
                            }
                            assert(dfs_calls((target_len - p0.len()) as nat, true) == 1 + dfs_calls((target_len - pushed.len()) as nat, false));
                            if *steps <= 20000 && results@.len() < 10 {
                                assert forall|p: Seq<i32>| #[trigger] alt_completes(*g, keys, mv, p0, p, first_virtual) implies path_recorded(results@, p) by {
                                    lemma_alt_step(*g, keys, mv, p0, p, first_virtual);
                                    assert(p[p0.len() as int] == nxt);
                                }
                            }
                        }
                    } else {
                        proof {
                            assert forall|p: Seq<i32>| !#[trigger] alt_completes(*g, keys, mv, p0, p, first_virtual) by {
                                if alt_completes(*g, keys, mv, p0, p, first_virtual) {
                                    lemma_alt_step(*g, keys, mv, p0, p, first_virtual);
                                    assert(p0.contains(nxt));
                                }
                            }
                        }
                    }
                },
                None => {
                    proof {
                        assert forall|p: Seq<i32>| !#[trigger] alt_completes(*g, keys, mv, p0, p, first_virtual) by {
                            if alt_completes(*g, keys, mv, p0, p, first_virtual) {
                                lemma_alt_step(*g, keys, mv, p0, p, first_virtual);
                            }
                        }
                    }
                },
            }
        } else {
            let cands = real_candidates(curr, g, mod_set, partner, visited, Ghost(keys), Ghost(mv));
            let ghost v0 = visited@;
            let ghost m: int = target_len - p0.len();
            let ghost nd = adjacency_distinct_on(*g, mv);
            let ghost cs: nat = dfs_calls((m - 1) as nat, true);
            let ghost ante = nd && distinct_entries(old(results)@) && fresh_for(old(results)@, *g, keys, mv, p0, first_virtual);
            proof {
                if nd {
                    assert(mv.contains(curr)) by {
                        assert(p0[p0.len() - 1] == curr);
                    }
                    assert(cands@.no_duplicates());
                    let both = cands@ + p0;
                    vstd::seq_lib::lemma_no_dup_in_concat(cands@, p0);
                    assert forall|i: int| 0 <= i < both.len() implies mv.contains(#[trigger] both[i]) by {
                        if i < cands@.len() {
                            assert(both[i] == cands@[i]);
                            assert(step_ok(*g, keys, mv, curr, cands@[i], false));
                        } else {
                            assert(both[i] == p0[i - cands@.len()]);
                        }
                    }
                    lemma_nodup_len_le(both, mv);
                }
            }
            let mut t: usize = 0;
            while t < cands.len()
                invariant
                    target_len == mv.len(),
                    forall|x: i32| mod_set@.contains(x) <==> mv.contains(x),
                    partner_map_ok(partner@, keys, mv),
                    forall|v: i32| #[trigger] partner@.contains_key(v) ==> mv.contains(partner@[v]),
                    partial_ok(*g, keys, mv, p0, first_virtual),
                    p0.len() < target_len,
                    curr == p0.last(),
                    !must_take_virtual,
                    must_take_virtual == (((p0.len() - 1) % 2 == 0) == first_virtual),
                    (p0.len() % 2 == 0) == first_virtual,
                    path@ == p0,
                    p0 == old(path)@,
                    forall|v: i32| visited@.contains(v) <==> p0.contains(v),
                    forall|v: i32| old(visited)@.contains(v) <==> p0.contains(v),
                    forall|x: int| 0 <= x < cands@.len() ==> step_ok(*g, keys, mv, curr, #[trigger] cands@[x], false)
                        && !p0.contains(cands@[x]),
                    forall|q: int| 0 <= q < results@.len() ==> dual_path_ok(*g, keys, mv, #[trigger] results@[q]@),
                    results@.len() <= 10,
                    *steps <= 20000,
                    0 <= t <= cands@.len(),
                    *old(steps) < *steps,
                    results@.len() < 10,
                    old(results)@.len() <= results@.len(),
                    forall|q: int| 0 <= q < old(results)@.len() ==> #[trigger] results@[q] == old(results)@[q],
                    forall|x: i32| cands@.contains(x) <==> g.has_edge(curr, x) && real_step_open(mod_set@, partner@, v0, curr, x),
                    forall|v: i32| v0.contains(v) <==> p0.contains(v),
                    forall|u: int, p: Seq<i32>| 0 <= u < t && #[trigger] alt_completes(*g, keys, mv, p0.push(#[trigger] cands@[u]), p, first_virtual) ==> path_recorded(results@, p),
                    m == target_len - p0.len(),
                    nd == adjacency_distinct_on(*g, mv),
                    cs == dfs_calls((m - 1) as nat, true),
                    ante == (nd && distinct_entries(old(results)@) && fresh_for(old(results)@, *g, keys, mv, p0, first_virtual)),
                    nd ==> cands@.no_duplicates() && cands@.len() <= m,
                    nd ==> *steps <= *old(steps) + 1 + t * cs,
                    forall|q: int| old(results)@.len() <= q < results@.len() ==> alt_completes(*g, keys, mv, p0, #[trigger] results@[q]@, first_virtual)
                        && cands@.take(t as int).contains(results@[q]@[p0.len() as int]),
                    ante ==> distinct_entries(results@),
                decreases cands@.len() - t,
            {
                let nxt = cands[t];
                proof {
                    assert(step_ok(*g, keys, mv, curr, cands@[t as int], false));
                }
                visited.insert(nxt);
                path.push(nxt);
                proof {
                    Self::lemma_extend(*g, keys, mv, p0, nxt, first_virtual, false);
                    assert forall|v: i32| visited@.contains(v) <==> path@.contains(v) by {
                        Self::lemma_push_contains(p0, nxt, v);
                    }
                }
                let ghost pushed = path@;
                let ghost rb = results@;
                let ghost sb = *steps;
                proof {
                    assert(pushed == p0.push(cands@[t as int]));
                    if ante {
                        assert forall|q: int| 0 <= q < rb.len() implies !#[trigger] alt_completes(*g, keys, mv, pushed, rb[q]@, first_virtual) by {
                            if alt_completes(*g, keys, mv, pushed, rb[q]@, first_virtual) {
                                lemma_completes_shorter(*g, keys, mv, p0, nxt, rb[q]@, first_virtual);
                                if q >= old(results)@.len() {
                                    let w = choose|w: int| 0 <= w < t && cands@.take(t as int)[w] == rb[q]@[p0.len() as int];
                                    assert(cands@[w] == cands@[t as int]);
                                } else {
                                    assert(rb[q] == old(results)@[q]);
                                }
                            }
                        }
                    }
                }
                Self::dfs_alternating(
                    nxt,
                    true,
                    target_len,
                    g,
                    mod_set,
                    partner,
                    path,
                    visited,
                    results,
                    steps,
                    Ghost(keys),
                    Ghost(mv),
                    Ghost(first_virtual),
                );
                path.pop();
                visited.remove(&nxt);
                proof {
                    assert(path@ =~= p0);
                    assert(!p0.contains(nxt));
                    assert forall|v: i32| visited@.contains(v) <==> p0.contains(v) by {
                        if v == nxt {
                            assert(!p0.contains(nxt));
                        }
                    }
                    assert(pushed.len() == p0.len() + 1);
                    if nd {
                        assert(t * cs + cs == (t + 1) * cs) by (nonlinear_arith);
                        assert((t + 1) * cs <= m * cs) by (nonlinear_arith)
                            requires
                                t + 1 <= m,
                        ;
                        assert(dfs_calls(m as nat, false) == 1 + m * cs);
                    }
                    assert forall|q: int| old(results)@.len() <= q < results@.len() implies alt_completes(*g, keys, mv, p0, #[trigger] results@[q]@, first_virtual)
                        && cands@.take(t + 1).contains(results@[q]@[p0.len() as int]) by {
                        if q < rb.len() {
                            assert(results@[q] == rb[q]);
                            let w = choose|w: int| 0 <= w < t && cands@.take(t as int)[w] == rb[q]@[p0.len() as int];
                            assert(cands@.take(t + 1)[w] == rb[q]@[p0.len() as int]);
                        } else {
                            lemma_completes_shorter(*g, keys, mv, p0, nxt, results@[q]@, first_virtual);
                            assert(cands@.take(t + 1)[t as int] == nxt);
                        }
                    }
                }
                if results.len() >= 10 || *steps > 20000 {
                    assert forall|v: i32| visited@.contains(v) <==> old(visited)@.contains(v) by {
                        assert(visited@.contains(v) <==> p0.contains(v));
                        assert(old(visited)@.contains(v) <==> p0.contains(v));
                    }
                    return;
                }
                proof {
                    assert(pushed == p0.push(cands@[t as int]));
                    assert forall|u: int, p: Seq<i32>| 0 <= u < t + 1 && #[trigger] alt_completes(*g, keys, mv, p0.push(#[trigger] cands@[u]), p, first_virtual) implies path_recorded(results@, p) by {
                        if u < t {
                            assert(path_recorded(rb, p));
                            let q = choose|q: int| 0 <= q < rb.len() && (#[trigger] rb[q])@ == p;
                            assert(results@[q] == rb[q]);
                        }
                    }
                }
                t = t + 1;
            }
            proof {
                if nd {
                    assert(t * cs <= m * cs) by (nonlinear_arith)
                        requires
                            t <= m,
                    ;
                    assert(dfs_calls(m as nat, false) == 1 + m * cs);
                }
                assert forall|p: Seq<i32>| #[trigger] alt_completes(*g, keys, mv, old(path)@, p, first_virtual) implies path_recorded(results@, p) by {
                    let l = p0.len() as int;
                    lemma_alt_step(*g, keys, mv, p0, p, first_virtual);
                    let x = p[l];
                    assert(step_ok(*g, keys, mv, curr, x, false));
                    assert(!v0.contains(x));
                    assert(mod_set@.contains(x));
                    assert(real_step_open(mod_set@, partner@, v0, curr, x));
                    assert(cands@.contains(x));
                    let u = choose|u: int| 0 <= u < cands@.len() && cands@[u] == x;
                    assert(alt_completes(*g, keys, mv, p0.push(cands@[u]), p, first_virtual));
                }
            }
        }
    }

    /// Runs the alternating search from `start`, first step virtual exactly
    /// when `first_virtual`.
    fn search_from(
        start: i32,
        first_virtual: bool,
        target_len: usize,
        g: &Graph,
        mod_set: &HashSet<i32>,
        partner: &HashMap<i32, i32>,
        results: &mut Vec<Vec<i32>>,
        steps: &mut usize,
        Ghost(keys): Ghost<Seq<(i32, i32)>>,
        Ghost(mv): Ghost<Seq<i32>>,
    )
        requires
            target_len == mv.len(),
            target_len >= 1,
            forall|x: i32| mod_set@.contains(x) <==> mv.contains(x),
            partner_map_ok(partner@, keys, mv),
            forall|v: i32| #[trigger] partner@.contains_key(v) ==> mv.contains(partner@[v]),
            start_vertices(keys, mv).contains(start),
            mv.contains(start),
            forall|q: int| 0 <= q < old(results)@.len() ==> dual_path_ok(*g, keys, mv, #[trigger] old(results)@[q]@),
            old(results)@.len() <= 10,
            *old(steps) <= 20000,
        ensures
            forall|q: int| 0 <= q < final(results)@.len() ==> dual_path_ok(*g, keys, mv, #[trigger] final(results)@[q]@),
            final(results)@.len() <= 10,
            *final(steps) <= 20001,
            *old(steps) < *final(steps),
            old(results)@.len() <= final(results)@.len(),
            forall|q: int| 0 <= q < old(results)@.len() ==> #[trigger] final(results)@[q] == old(results)@[q],
            *final(steps) <= 20000 && final(results)@.len() < 10 ==> forall|p: Seq<i32>|
                #[trigger] alt_completes(*g, keys, mv, seq![start], p, first_virtual) ==> path_recorded(final(results)@, p),
            adjacency_distinct_on(*g, mv) ==> *final(steps) <= *old(steps) + dfs_calls((target_len - 1) as nat, first_virtual),
            forall|q: int| old(results)@.len() <= q < final(results)@.len() ==> alt_completes(*g, keys, mv, seq![start], #[trigger] final(results)@[q]@, first_virtual),
            adjacency_distinct_on(*g, mv) && distinct_entries(old(results)@) && fresh_for(old(results)@, *g, keys, mv, seq![start], first_virtual)
                ==> distinct_entries(final(results)@),
    {
        let mut path: Vec<i32> = Vec::new();
        path.push(start);
        let mut visited: HashSet<i32> = HashSet::new();
        visited.insert(start);
        proof {
            assert(path@ =~= seq![start]);
            assert forall|v: i32| visited@.contains(v) <==> path@.contains(v) by {
                if v == start {
                    assert(path@[0] == start);
                }
            }
            assert(partial_ok(*g, keys, mv, path@, first_virtual));
        }
        Self::dfs_alternating(
            start,
            first_virtual,
            target_len,
            g,
            mod_set,
            partner,
            &mut path,
            &mut visited,
            results,
            steps,
            Ghost(keys),
            Ghost(mv),
            Ghost(first_virtual),
        );
    }

    /// Two alternating Hamiltonian paths of the module `mod_vertices` with
    /// different undirected edge sets, where each step alternates between a
    /// virtual edge (a contracted chain joining two module vertices) and a
    /// real edge of `g` inside the module.
    ///
    /// Paths start at the module vertices without a virtual partner (at every
    /// module vertex when fewer than two lack one), first with a real step and
    /// then with a virtual one; real steps are tried towards neighbours with
    /// fewer unvisited real neighbours first. The search keeps at most ten
    /// paths per start, stops after four paths or twenty thousand search
    /// calls, and returns the first two found whose edge sets differ. On a
    /// module of at most nine vertices whose adjacency lists name each
    /// neighbour once, the budget cannot run out, so `None` means that all
    /// dual paths run along the same edges.
    pub fn extract_dual_paths(mod_vertices: &[i32], g: &Graph, contractor: &Degree2Contractor) -> (r: Option<
        (Vec<i32>, Vec<i32>),
    >)
        requires
            contractor.wf(),
        ensures
            mod_vertices@.len() < 2 ==> r is None,
            r matches Some((t, f)) ==> {
                &&& dual_path_ok(*g, contractor.keys(), mod_vertices@, t@)
                &&& dual_path_ok(*g, contractor.keys(), mod_vertices@, f@)
                &&& undirected_edges(t@) != undirected_edges(f@)
            },
            r is None && mod_vertices@.len() <= 9 && adjacency_distinct_on(*g, mod_vertices@) ==> forall|p1: Seq<i32>, p2: Seq<i32>|
                #[trigger] dual_path_ok(*g, contractor.keys(), mod_vertices@, p1) && #[trigger] dual_path_ok(
                    *g,
                    contractor.keys(),
                    mod_vertices@,
                    p2,
                ) ==> undirected_edges(p1) == undirected_edges(p2),
    {
        let n = mod_vertices.len();
        if n < 2 {
            return None;
        }
        let mv = vstd::slice::slice_to_vec(mod_vertices);
        let mod_set = member_set(&mv);
        let keys = contractor.chain_ends();
        let partner = partner_map(&keys, &mv, &mod_set);
        let ghost kv = keys@;
        let ghost mvv = mv@;

        let mut boundary: Vec<i32> = Vec::new();
        let mut i: usize = 0;
        while i < mv.len()
            invariant
                mvv == mv@,
                partner_map_ok(partner@, kv, mvv),
                0 <= i <= mvv.len(),
                boundary@ == without_partner(kv, mvv, mvv.take(i as int)),
                forall|q: int| 0 <= q < boundary@.len() ==> mvv.contains(#[trigger] boundary@[q]),
            decreases mvv.len() - i,
        {
            let v = mv[i];
            let ghost b0 = boundary@;
            proof {
                reveal(Seq::filter);
                assert(mvv.take(i + 1).drop_last() =~= mvv.take(i as int));
                assert(mvv.take(i + 1).last() == v);
                assert(mvv.contains(v)) by {
                    assert(mvv[i as int] == v);
                }
            }
            if !partner.contains_key(&v) {
                boundary.push(v);
                proof {
                    assert forall|q: int| 0 <= q < boundary@.len() implies mvv.contains(#[trigger] boundary@[q]) by {
                        if q < b0.len() {
                            assert(boundary@[q] == b0[q]);
                        }
                    }
                }
            }
            i = i + 1;
        }
        assert(mvv.take(mvv.len() as int) =~= mvv);
        if boundary.len() < 2 {
            boundary = mv.clone();
            assert(boundary@ =~= mvv);
        }
        proof {
            assert(boundary@ == start_vertices(kv, mvv));
            assert forall|q: int| 0 <= q < boundary@.len() implies mvv.contains(#[trigger] boundary@[q]) by {
                if boundary@ == mvv {
                    assert(mvv.contains(mvv[q]));
                }
            }
            mvv.lemma_filter_len(|v: i32| virtual_partner(kv, mvv, v) is None);
            assert(boundary@.len() <= n);
            if mvv.no_duplicates() {
                lemma_filter_nodup(mvv, |v: i32| virtual_partner(kv, mvv, v) is None);
                assert(boundary@.no_duplicates());
            }
        }
        let ghost nd = adjacency_distinct_on(*g, mvv);

        let mut all_paths: Vec<Vec<i32>> = Vec::new();
        let mut steps: usize = 0;
        let mut done = false;
        let mut k: usize = 0;
        while k < boundary.len() && !done
            invariant
                mvv == mv@,
                n == mvv.len(),
                n >= 2,
                forall|x: i32| mod_set@.contains(x) <==> mvv.contains(x),
                partner_map_ok(partner@, kv, mvv),
                forall|v: i32| #[trigger] partner@.contains_key(v) ==> mvv.contains(partner@[v]),
                boundary@ == start_vertices(kv, mvv),
                forall|q: int| 0 <= q < boundary@.len() ==> mvv.contains(#[trigger] boundary@[q]),
                forall|q: int| 0 <= q < all_paths@.len() ==> dual_path_ok(*g, kv, mvv, #[trigger] all_paths@[q]@),
                all_paths@.len() <= 10,
                !done ==> steps <= 20000,
                0 <= k <= boundary@.len(),
                boundary@.len() <= n,
                mvv.no_duplicates() ==> boundary@.no_duplicates(),
                nd == adjacency_distinct_on(*g, mvv),
                nd ==> distinct_entries(all_paths@),
                forall|q: int| 0 <= q < all_paths@.len() ==> boundary@.take(k as int).contains((#[trigger] all_paths@[q])@[0]),
                !done ==> forall|p: Seq<i32>| #[trigger] dual_path_ok(*g, kv, mvv, p) && boundary@.take(k as int).contains(p[0])
                    ==> path_recorded(all_paths@, p),
                nd && n <= 9 ==> steps <= k * 1666,
                done ==> all_paths@.len() >= 4 || steps > 20000,
            decreases boundary@.len() - k,
        {
            let start = boundary[k];
            let ghost a0 = all_paths@;
            let ghost st0 = steps;
            proof {
                assert(start_vertices(kv, mvv).contains(start)) by {
                    assert(boundary@[k as int] == start);
                }
                if nd && distinct_entries(a0) {
                    assert forall|q: int| 0 <= q < a0.len() implies !#[trigger] alt_completes(*g, kv, mvv, seq![start], a0[q]@, false) by {
                        Self::lemma_fresh_start(*g, kv, mvv, boundary@, k as int, a0, q, false);
                    }
                }
            }
            Self::search_from(
                start,
                false,
                n,
                g,
                &mod_set,
                &partner,
                &mut all_paths,
                &mut steps,
                Ghost(kv),
                Ghost(mvv),
            );
            let ghost a1 = all_paths@;
            let ghost st1 = steps;
            proof {
                if nd && n <= 9 {
                    lemma_dfs_calls_small((n - 1) as nat);
                }
                assert forall|q: int| a0.len() <= q < a1.len() implies (#[trigger] a1[q])@[0] == start by {
                    Self::lemma_completes_start(*g, kv, mvv, start, a1[q]@, false);
                }
            }
            if all_paths.len() >= 4 || steps > 20000 {
                done = true;
            } else {
                proof {
                    if nd && distinct_entries(a1) {
                        assert forall|q: int| 0 <= q < a1.len() implies !#[trigger] alt_completes(*g, kv, mvv, seq![start], a1[q]@, true) by {
                            if q < a0.len() {
                                assert(a1[q] == a0[q]);
                                Self::lemma_fresh_start(*g, kv, mvv, boundary@, k as int, a0, q, true);
                            } else {
                                assert(alt_completes(*g, kv, mvv, seq![start], a1[q]@, false));
                                lemma_one_phase(*g, kv, mvv, a1[q]@, false);
                            }
                        }
                    }
                }
                Self::search_from(
                    start,
                    true,
                    n,
                    g,
                    &mod_set,
                    &partner,
                    &mut all_paths,
                    &mut steps,
                    Ghost(kv),
                    Ghost(mvv),
                );
                proof {
                    assert forall|q: int| a1.len() <= q < all_paths@.len() implies (#[trigger] all_paths@[q])@[0] == start by {
                        Self::lemma_completes_start(*g, kv, mvv, start, all_paths@[q]@, true);
                    }
                }
                if all_paths.len() >= 4 || steps > 20000 {
                    done = true;
                }
            }
            proof {
                assert(boundary@.take(k + 1)[k as int] == start);
                assert forall|q: int| 0 <= q < all_paths@.len() implies boundary@.take(k + 1).contains((#[trigger] all_paths@[q])@[0]) by {
                    if q < a0.len() {
                        assert(all_paths@[q] == a0[q]);
                        let w = choose|w: int| 0 <= w < k && boundary@.take(k as int)[w] == a0[q]@[0];
                        assert(boundary@.take(k + 1)[w] == a0[q]@[0]);
                    } else if q < a1.len() {
                        assert(all_paths@[q] == a1[q]);
                    }
                }
                if !done {
                    assert forall|p: Seq<i32>| #[trigger] dual_path_ok(*g, kv, mvv, p) && boundary@.take(k + 1).contains(p[0]) implies path_recorded(
                        all_paths@,
                        p,
                    ) by {
                        if boundary@.take(k as int).contains(p[0]) {
                            assert(path_recorded(a0, p));
                            let w = choose|w: int| 0 <= w < a0.len() && (#[trigger] a0[w])@ == p;
                            assert(all_paths@[w] == a0[w]);
                        } else {
                            let w = choose|w: int| 0 <= w < k + 1 && #[trigger] boundary@.take(k + 1)[w] == p[0];
                            if w < k {
                                assert(boundary@.take(k as int)[w] == p[0]);
                            }
                            assert(p[0] == start);
                            let b = Self::lemma_dual_completes(*g, kv, mvv, p);
                            if b {
                                assert(path_recorded(all_paths@, p));
                            } else {
                                assert(path_recorded(a1, p));
                                let w2 = choose|w2: int| 0 <= w2 < a1.len() && (#[trigger] a1[w2])@ == p;
                                assert(all_paths@[w2] == a1[w2]);
                            }
                        }
                    }
                }
            }
            k = k + 1;
        }

        proof {
            if nd && n <= 9 {
                assert(k * 1666 <= 9 * 1666) by (nonlinear_arith)
                    requires
                        k <= 9,
                ;
            }
            if !done {
                assert(boundary@.take(k as int) =~= boundary@);
            }
        }
        let mut distinct: Vec<Vec<i32>> = Vec::new();
        let mut q: usize = 0;
        while q < all_paths.len() && distinct.len() < 2
            invariant
                0 <= q <= all_paths@.len(),
                distinct@.len() <= 2,
                q > 0 ==> distinct@.len() >= 1,
                distinct@.len() < 2 ==> forall|x: int| 0 <= x < q ==> undirected_edges(#[trigger] all_paths@[x]@) == undirected_edges(
                    distinct@[0]@,
                ),
                forall|x: int| 0 <= x < all_paths@.len() ==> dual_path_ok(*g, kv, mvv, #[trigger] all_paths@[x]@),
                forall|x: int| 0 <= x < distinct@.len() ==> dual_path_ok(*g, kv, mvv, #[trigger] distinct@[x]@),
                forall|a: int, b: int|
                    0 <= a < b < distinct@.len() ==> undirected_edges(#[trigger] distinct@[a]@) != undirected_edges(
                        #[trigger] distinct@[b]@,
                    ),
            decreases all_paths@.len() - q,
        {
            let mut seen = false;
            let mut j: usize = 0;
            while j < distinct.len() && !seen
                invariant
                    0 <= q < all_paths@.len(),
                    0 <= j <= distinct@.len(),
                    !seen ==> forall|x: int| 0 <= x < j ==> undirected_edges(all_paths@[q as int]@) != undirected_edges(
                        #[trigger] distinct@[x]@,
                    ),
                    seen ==> 0 < j && undirected_edges(all_paths@[q as int]@) == undirected_edges(distinct@[j - 1]@),
                decreases distinct@.len() - j,
            {
                if same_edges(&all_paths[q], &distinct[j]) {
                    seen = true;
                }
                j = j + 1;
            }
            if !seen {
                let c = all_paths[q].clone();
                assert(c@ =~= all_paths@[q as int]@);
                let ghost d0 = distinct@;
                distinct.push(c);
                proof {
                    assert(dual_path_ok(*g, kv, mvv, all_paths@[q as int]@));
                    assert forall|x: int| 0 <= x < distinct@.len() implies dual_path_ok(*g, kv, mvv, #[trigger] distinct@[x]@) by {
                        if x < d0.len() {
                            assert(distinct@[x] == d0[x]);
                        }
                    }
                    assert forall|a: int, b: int| 0 <= a < b < distinct@.len() implies undirected_edges(
                        #[trigger] distinct@[a]@,
                    ) != undirected_edges(#[trigger] distinct@[b]@) by {
                        assert(distinct@[a] == d0[a]);
                        if b < d0.len() {
                            assert(distinct@[b] == d0[b]);
                        }
                    }
                    if d0.len() == 0 {
                        assert(q == 0);
                        assert(distinct@[0] == c);
                    } else {
                        assert(distinct@.len() == 2);
                    }
                }
            }
            q = q + 1;
        }
        if distinct.len() >= 2 {
            let t = distinct[0].clone();
            let f = distinct[1].clone();
            proof {
                assert(t@ =~= distinct@[0]@);
                assert(f@ =~= distinct@[1]@);
                assert(dual_path_ok(*g, kv, mvv, distinct@[0]@));
                assert(dual_path_ok(*g, kv, mvv, distinct@[1]@));
                assert(undirected_edges(distinct@[0]@) != undirected_edges(distinct@[1]@));
            }
            Some((t, f))
        } else {
            proof {
                assert(q == all_paths@.len());
                if nd && n <= 9 {
                    if all_paths@.len() >= 3 {
                        let a = all_paths@[0]@;
                        let b = all_paths@[1]@;
                        let c = all_paths@[2]@;
                        assert(dual_path_ok(*g, kv, mvv, a) && dual_path_ok(*g, kv, mvv, b) && dual_path_ok(*g, kv, mvv, c));
                        assert(undirected_edges(a) == undirected_edges(distinct@[0]@));
                        assert(undirected_edges(b) == undirected_edges(distinct@[0]@));
                        assert(undirected_edges(c) == undirected_edges(distinct@[0]@));
                        lemma_three_same_edges(a, b, c);
                        assert(all_paths@[0]@ != all_paths@[1]@);
                        assert(all_paths@[0]@ != all_paths@[2]@);
                        assert(all_paths@[1]@ != all_paths@[2]@);
                        assert(false);
                    }
                    assert(!done);
                    assert forall|p1: Seq<i32>, p2: Seq<i32>|
                        #[trigger] dual_path_ok(*g, kv, mvv, p1) && #[trigger] dual_path_ok(*g, kv, mvv, p2) implies undirected_edges(p1)
                        == undirected_edges(p2) by {
                        assert(boundary@.contains(p1[0]));
                        assert(boundary@.contains(p2[0]));
                        assert(path_recorded(all_paths@, p1));
                        assert(path_recorded(all_paths@, p2));
                        let w1 = choose|w: int| 0 <= w < all_paths@.len() && (#[trigger] all_paths@[w])@ == p1;
                        let w2 = choose|w: int| 0 <= w < all_paths@.len() && (#[trigger] all_paths@[w])@ == p2;
                        assert(undirected_edges(all_paths@[w1]@) == undirected_edges(distinct@[0]@));
                        assert(undirected_edges(all_paths@[w2]@) == undirected_edges(distinct@[0]@));
                    }
                }
            }
            None
        }
    }

    /// A completion of the one-vertex path `[s]` starts at `s`.
    proof fn lemma_completes_start(g: Graph, keys: Seq<(i32, i32)>, mv: Seq<i32>, s: i32, p: Seq<i32>, b: bool)
        requires
            alt_completes(g, keys, mv, seq![s], p, b),
        ensures
            p.len() >= 1,
            p[0] == s,
    {
        assert(p.subrange(0, 1)[0] == p[0]);
    }

    /// A dual path completes its own first vertex in one of the two phases.
    proof fn lemma_dual_completes(g: Graph, keys: Seq<(i32, i32)>, mv: Seq<i32>, p: Seq<i32>) -> (b: bool)
        requires
            dual_path_ok(g, keys, mv, p),
        ensures
            alt_completes(g, keys, mv, seq![p[0]], p, b),
    {
        let b = choose|b: bool| #[trigger] alternating(g, keys, mv, p, b);
        assert(p.subrange(0, 1) =~= seq![p[0]]);
        b
    }

    /// An entry recorded from an earlier start does not complete the start at
    /// position `k`: the starts are distinct once any dual path exists.
    proof fn lemma_fresh_start(
        g: Graph,
        keys: Seq<(i32, i32)>,
        mv: Seq<i32>,
        boundary: Seq<i32>,
        k: int,
        a: Seq<Vec<i32>>,
        q: int,
        b: bool,
    )
        requires
            0 <= k < boundary.len(),
            0 <= q < a.len(),
            mv.no_duplicates() ==> boundary.no_duplicates(),
            dual_path_ok(g, keys, mv, a[q]@),
            boundary.take(k).contains(a[q]@[0]),
        ensures
            !alt_completes(g, keys, mv, seq![boundary[k]], a[q]@, b),
    {
        if alt_completes(g, keys, mv, seq![boundary[k]], a[q]@, b) {
            Self::lemma_completes_start(g, keys, mv, boundary[k], a[q]@, b);
            lemma_pigeonhole(a[q]@, mv);
            let w = choose|w: int| 0 <= w < k && boundary.take(k)[w] == a[q]@[0];
            assert(boundary[w] == boundary[k]);
        }
    }

    /// Membership in a sequence after a push.
    proof fn lemma_push_contains(p: Seq<i32>, x: i32, v: i32)
        ensures
            p.push(x).contains(v) <==> p.contains(v) || v == x,
    {
        let q = p.push(x);
        if p.contains(v) {
            let j = choose|j: int| 0 <= j < p.len() && p[j] == v;
            assert(q[j] == v);
        }
        if q.contains(v) && v != x {
            let j = choose|j: int| 0 <= j < q.len() && q[j] == v;
            assert(p[j] == v);
        }
        if v == x {
            assert(q[p.len() as int] == x);
        }
    }

    /// Extending a prefix by a valid step to an unvisited vertex keeps it a prefix.
    proof fn lemma_extend(g: Graph, keys: Seq<(i32, i32)>, mv: Seq<i32>, p: Seq<i32>, x: i32, b: bool, virt: bool)
        requires
            partial_ok(g, keys, mv, p, b),
            virt == (((p.len() - 1) % 2 == 0) == b),
            step_ok(g, keys, mv, p.last(), x, virt),
            !p.contains(x),
            mv.contains(x),
        ensures
            partial_ok(g, keys, mv, p.push(x), b),
    {
        let q = p.push(x);
        assert forall|i: int| 0 <= i < q.len() - 1 implies step_ok(g, keys, mv, #[trigger] q[i], q[i + 1], ((i % 2 == 0) == b)) by {
            if i < p.len() - 1 {
                assert(q[i] == p[i] && q[i + 1] == p[i + 1]);
                assert(step_ok(g, keys, mv, p[i], p[i + 1], ((i % 2 == 0) == b)));
            } else {
                assert(q[i] == p.last() && q[i + 1] == x);
            }
        }
        assert forall|i: int| 0 <= i < q.len() implies mv.contains(#[trigger] q[i]) by {
            if i < p.len() {
                assert(q[i] == p[i]);
            }
        }
        assert(q[0] == p[0]);
    }
}

} // verus!
