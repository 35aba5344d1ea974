//! Ring decomposition of a contracted graph: elementary gadgets (the classes
//! of vertices joined through degree-2 vertices and virtual chain edges), and
//! their grouping into modules that form a ring.
use crate::contraction::Degree2Contractor;
use crate::graph::{add_neighbor, lemma_add_neighbor, lemma_add_neighbor_shape, Graph};
use crate::interface_port_synchronizer::{is_port, member_set, port_list};
use crate::macro_solver::{insert_pair_sorted, pairs_sorted};
use crate::sorting::{sorted_copy, sorted_distinct, strictly_sorted, swapped};
use std::collections::{HashMap, HashSet};
use vstd::prelude::*;

verus! {

broadcast use vstd::std_specs::hash::group_hash_axioms;

/// A class of the gadget relation, with its internal virtual edges and its ports.
pub struct ElementaryGadget {
    pub id: usize,
    pub vertices: Vec<i32>,
    pub virtual_edges: Vec<(i32, i32)>,
    pub ports: Vec<i32>,
}

/// A group of gadgets placed on the ring, with the vertices that touch the
/// previous and the next module.
pub struct Module42 {
    pub id: usize,
    pub vertices: Vec<i32>,
    pub virtual_edges: Vec<(i32, i32)>,
    pub ports_in: Vec<i32>,
    pub ports_out: Vec<i32>,
}

/// Why a ring decomposition was refused.
#[derive(Debug)]
pub enum RingError {
    /// The graph has no vertex.
    EmptyGraph,
    /// The chain ends are not as many as the vertices.
    PartnerCoverage { partners: usize, vertices: usize },
    /// The gadget at `index` does not have 22 vertices.
    GadgetSize { index: usize, size: usize },
    /// The number of gadgets is not a multiple of the number of modules.
    GadgetCount { count: usize },
    /// No ring order of the modules was found.
    NoRing,
    /// The module at `index` touches its predecessor or its successor nowhere.
    EmptyPorts { index: usize, ports_in: usize, ports_out: usize },
}

/// Decomposition into elementary gadgets and ring modules.
pub struct ModularRingDecomposer;

/// What the chain key `k` pairs `v` with, the second end taking precedence.
pub open spec fn key_other(k: (i32, i32), v: i32) -> Option<i32> {
    if k.1 == v {
        Some(k.0)
    } else if k.0 == v {
        Some(k.1)
    } else {
        None
    }
}

/// The partner of `v` given by the last of the first `j` keys that has `v` as an end.
pub open spec fn ring_partner_upto(keys: Seq<(i32, i32)>, v: i32, j: int) -> Option<i32>
    decreases j,
{
    if j <= 0 {
        None
    } else {
        match key_other(keys[j - 1], v) {
            Some(p) => Some(p),
            None => ring_partner_upto(keys, v, j - 1),
        }
    }
}

/// The virtual partner of `v`: the other end of the last chain key with `v`
/// as an end.
pub open spec fn ring_partner(keys: Seq<(i32, i32)>, v: i32) -> Option<i32> {
    ring_partner_upto(keys, v, keys.len() as int)
}

/// The vertices that end some chain.
pub open spec fn chain_end_vertices(keys: Seq<(i32, i32)>) -> Set<i32> {
    Set::new(|v: i32| exists|i: int| 0 <= i < keys.len() && (#[trigger] keys[i].0 == v || keys[i].1 == v))
}

/// `a` has exactly three entries in its adjacency list.
pub open spec fn degree_three(g: Graph, a: i32) -> bool {
    g.adj().contains_key(a) && g.adj()[a].len() == 3
}

/// The gadget relation: an edge at a vertex of degree three, or a virtual
/// partnership, in either direction.
pub open spec fn gadget_edge(g: Graph, keys: Seq<(i32, i32)>, a: i32, b: i32) -> bool {
    ||| degree_three(g, a) && g.has_edge(a, b)
    ||| degree_three(g, b) && g.has_edge(b, a)
    ||| ring_partner(keys, a) == Some(b)
    ||| ring_partner(keys, b) == Some(a)
}

/// `p` is a walk of the gadget relation.
pub open spec fn gadget_walk(g: Graph, keys: Seq<(i32, i32)>, p: Seq<i32>) -> bool {
    &&& p.len() >= 1
    &&& forall|i: int| 0 <= i < p.len() - 1 ==> gadget_edge(g, keys, #[trigger] p[i], p[i + 1])
}

/// The vertices reachable from `r` in the gadget relation.
pub open spec fn gadget_class(g: Graph, keys: Seq<(i32, i32)>, r: i32) -> Set<i32> {
    Set::new(|x: i32| exists|p: Seq<i32>| #[trigger] gadget_walk(g, keys, p) && p[0] == r && p.last() == x)
}

/// `s` is closed under the gadget relation.
pub open spec fn gadget_closed(g: Graph, keys: Seq<(i32, i32)>, s: Set<i32>) -> bool {
    forall|a: i32, b: i32| s.contains(a) && #[trigger] gadget_edge(g, keys, a, b) ==> s.contains(b)
}

/// `ring_partner_upto` finds a partner exactly for the ends of the first `j` keys.
proof fn lemma_partner_exists(keys: Seq<(i32, i32)>, v: i32, j: int)
    requires
        0 <= j <= keys.len(),
    ensures
        ring_partner_upto(keys, v, j) is Some <==> exists|i: int| 0 <= i < j && (#[trigger] keys[i].0 == v || keys[i].1 == v),
    decreases j,
{
    if j > 0 {
        lemma_partner_exists(keys, v, j - 1);
        if key_other(keys[j - 1], v) is None {
            assert forall|i: int| 0 <= i < j && (#[trigger] keys[i].0 == v || keys[i].1 == v) implies i < j - 1 by {
                if i == j - 1 {
                    assert(key_other(keys[j - 1], v) is Some);
                }
            }
        }
    }
}

/// The partner map: each chain end to its partner.
fn ring_partner_map(keys: &Vec<(i32, i32)>) -> (m: HashMap<i32, i32>)
    ensures
        forall|v: i32| #[trigger] m@.contains_key(v) <==> ring_partner(keys@, v) is Some,
        forall|v: i32| #[trigger] m@.contains_key(v) ==> ring_partner(keys@, v) == Some(m@[v]),
        m@.dom() == chain_end_vertices(keys@),
{
    let mut m: HashMap<i32, i32> = HashMap::new();
    let mut j: usize = 0;
    while j < keys.len()
        invariant
            0 <= j <= keys@.len(),
            forall|v: i32| #[trigger] m@.contains_key(v) <==> ring_partner_upto(keys@, v, j as int) is Some,
            forall|v: i32| #[trigger] m@.contains_key(v) ==> ring_partner_upto(keys@, v, j as int) == Some(m@[v]),
        decreases keys@.len() - j,
    {
        let (u, w) = keys[j];
        m.insert(u, w);
        m.insert(w, u);
        proof {
            assert(keys@[j as int] == (u, w));
            assert forall|v: i32| #[trigger] m@.contains_key(v) <==> ring_partner_upto(keys@, v, j + 1) is Some by {
                assert(ring_partner_upto(keys@, v, j + 1) == match key_other((u, w), v) {
                    Some(p) => Some(p),
                    None => ring_partner_upto(keys@, v, j as int),
                });
            }
            assert forall|v: i32| #[trigger] m@.contains_key(v) implies ring_partner_upto(keys@, v, j + 1) == Some(m@[v]) by {
                assert(ring_partner_upto(keys@, v, j + 1) == match key_other((u, w), v) {
                    Some(p) => Some(p),
                    None => ring_partner_upto(keys@, v, j as int),
                });
            }
        }
        j = j + 1;
    }
    proof {
        assert forall|v: i32| m@.dom().contains(v) <==> chain_end_vertices(keys@).contains(v) by {
            lemma_partner_exists(keys@, v, keys@.len() as int);
            if chain_end_vertices(keys@).contains(v) {
                let i = choose|i: int| 0 <= i < keys@.len() && (#[trigger] keys@[i].0 == v || keys@[i].1 == v);
            }
        }
        assert(m@.dom() =~= chain_end_vertices(keys@));
    }
    m
}

/// What `add_edge` does to the edge relation.
pub proof fn lemma_add_edge_relation(m: Map<i32, Seq<i32>>, u: i32, v: i32, a: i32, b: i32)
    ensures
        ({
            let r = add_neighbor(add_neighbor(m, u, v), v, u);
            (r.contains_key(a) && r[a].contains(b)) <==> ((m.contains_key(a) && m[a].contains(b)) || (a == u && b == v)
                || (a == v && b == u))
        }),
{
    let m1 = add_neighbor(m, u, v);
    lemma_add_neighbor(m, u, v);
    lemma_add_neighbor(m1, v, u);
    lemma_add_neighbor_shape(m, u, v, a, b);
    lemma_add_neighbor_shape(m1, v, u, a, b);
    if m.contains_key(a) && m[a].contains(b) {
        assert(m1.contains_key(a) && m1[a].contains(b));
    }
    if a == u && b == v {
        assert(m1.contains_key(a) && m1[a].contains(b));
    }
}

/// Membership in a one-longer prefix.
proof fn lemma_take_one_more(s: Seq<i32>, t: int, x: i32)
    requires
        0 <= t < s.len(),
    ensures
        s.take(t + 1).contains(x) <==> s.take(t).contains(x) || x == s[t],
{
    let p = s.take(t);
    let q = s.take(t + 1);
    assert(q == p.push(s[t]));
    if p.contains(x) {
        let j = choose|j: int| 0 <= j < p.len() && p[j] == x;
        assert(q[j] == x);
    }
    if q.contains(x) && x != s[t] {
        let j = choose|j: int| 0 <= j < q.len() && q[j] == x;
        assert(p[j] == x);
    }
    if x == s[t] {
        assert(q[t] == x);
    }
}

/// Edges at degree-three vertices among the first `i` of `vs`.
pub open spec fn degree_three_edges_upto(g: Graph, vs: Seq<i32>, i: int, a: i32, b: i32) -> bool {
    ||| vs.take(i).contains(a) && degree_three(g, a) && g.has_edge(a, b)
    ||| vs.take(i).contains(b) && degree_three(g, b) && g.has_edge(b, a)
}

/// `v` ends one of the first `j` keys.
pub open spec fn ends_upto(keys: Seq<(i32, i32)>, j: int, v: i32) -> bool {
    exists|i: int| 0 <= i < j && (#[trigger] keys[i].0 == v || keys[i].1 == v)
}

/// Partnerships of the ends of the first `j` keys.
pub open spec fn partner_edges_upto(keys: Seq<(i32, i32)>, j: int, a: i32, b: i32) -> bool {
    ||| ends_upto(keys, j, a) && ring_partner(keys, a) == Some(b)
    ||| ends_upto(keys, j, b) && ring_partner(keys, b) == Some(a)
}

/// The gadget graph: an undirected edge for every pair of the gadget relation.
fn gadget_graph(g: &Graph, keys: &Vec<(i32, i32)>, partner: &HashMap<i32, i32>) -> (gg: Graph)
    requires
        g.wf(),
        forall|v: i32| #[trigger] partner@.contains_key(v) <==> ring_partner(keys@, v) is Some,
        forall|v: i32| #[trigger] partner@.contains_key(v) ==> ring_partner(keys@, v) == Some(partner@[v]),
    ensures
        gg.wf(),
        forall|a: i32, b: i32| #[trigger] gg.has_edge(a, b) <==> gadget_edge(*g, keys@, a, b),
{
    let mut gg = Graph::new();
    let vs = g.vertex_list();
    let mut i: usize = 0;
    while i < vs.len()
        invariant
            gg.wf(),
            g.wf(),
            vs@ == g.vertices(),
            0 <= i <= vs@.len(),
            forall|a: i32, b: i32| #[trigger] gg.has_edge(a, b) <==> degree_three_edges_upto(*g, vs@, i as int, a, b),
        decreases vs@.len() - i,
    {
        let v = vs[i];
        proof {
            assert forall|x: i32| vs@.take(i + 1).contains(x) <==> vs@.take(i as int).contains(x) || x == v by {
                lemma_take_one_more(vs@, i as int, x);
            }
        }
        if g.degree(v) == 3 {
            match g.neighbors(v) {
                Some(nbrs) => {
                    let mut t: usize = 0;
                    while t < nbrs.len()
                        invariant
                            gg.wf(),
                            g.wf(),
                            vs@ == g.vertices(),
                            0 <= i < vs@.len(),
                            v == vs@[i as int],
                            g.adj().contains_key(v),
                            nbrs@ == g.adj()[v],
                            0 <= t <= nbrs@.len(),
                            forall|a: i32, b: i32| #[trigger] gg.has_edge(a, b) <==> degree_three_edges_upto(*g, vs@, i as int, a, b)
                                || (a == v && nbrs@.take(t as int).contains(b)) || (b == v && nbrs@.take(t as int).contains(a)),
                        decreases nbrs@.len() - t,
                    {
                        let x = nbrs[t];
                        let ghost m0 = gg.adj();
                        let ghost gg0 = gg;
                        gg.add_edge(v, x);
                        proof {
                            assert forall|a: i32, b: i32| #[trigger] gg.has_edge(a, b) <==> degree_three_edges_upto(*g, vs@, i as int, a, b)
                                || (a == v && nbrs@.take(t + 1).contains(b)) || (b == v && nbrs@.take(t + 1).contains(a)) by {
                                lemma_add_edge_relation(m0, v, x, a, b);
                                assert(gg0.has_edge(a, b) == (m0.contains_key(a) && m0[a].contains(b)));
                                lemma_take_one_more(nbrs@, t as int, a);
                                lemma_take_one_more(nbrs@, t as int, b);
                            }
                        }
                        t = t + 1;
                    }
                    proof {
                        assert(nbrs@.take(nbrs@.len() as int) == nbrs@);
                        assert forall|a: i32, b: i32| #[trigger] gg.has_edge(a, b) <==> degree_three_edges_upto(*g, vs@, i + 1, a, b) by {
                            if a == v && nbrs@.contains(b) {
                                assert(g.has_edge(a, b));
                            }
                            if b == v && nbrs@.contains(a) {
                                assert(g.has_edge(b, a));
                            }
                        }
                    }
                },
                None => {
                    proof {
                        assert forall|a: i32, b: i32| #[trigger] gg.has_edge(a, b) <==> degree_three_edges_upto(*g, vs@, i + 1, a, b) by {
                        }
                    }
                },
            }
        } else {
            proof {
                assert forall|a: i32, b: i32| #[trigger] gg.has_edge(a, b) <==> degree_three_edges_upto(*g, vs@, i + 1, a, b) by {
                }
            }
        }
        i = i + 1;
    }
    proof {
        g.lemma_wf();
        assert(vs@.take(vs@.len() as int) == vs@);
    }
    let mut j: usize = 0;
    while j < keys.len()
        invariant
            gg.wf(),
            g.wf(),
            vs@ == g.vertices(),
            forall|v: i32| vs@.contains(v) <==> g.adj().contains_key(v),
            forall|v: i32| #[trigger] partner@.contains_key(v) <==> ring_partner(keys@, v) is Some,
            forall|v: i32| #[trigger] partner@.contains_key(v) ==> ring_partner(keys@, v) == Some(partner@[v]),
            0 <= j <= keys@.len(),
            forall|a: i32, b: i32| #[trigger] gg.has_edge(a, b) <==> degree_three_edges_upto(*g, vs@, vs@.len() as int, a, b)
                || partner_edges_upto(keys@, j as int, a, b),
        decreases keys@.len() - j,
    {
        let (u, w) = keys[j];
        proof {
            assert(keys@[j as int] == (u, w));
            lemma_partner_exists(keys@, u, keys@.len() as int);
            lemma_partner_exists(keys@, w, keys@.len() as int);
            assert(keys@[j as int].0 == u);
            assert(keys@[j as int].1 == w);
        }
        let pu = match partner.get(&u) {
            Some(p) => *p,
            None => u,
        };
        let pw = match partner.get(&w) {
            Some(p) => *p,
            None => w,
        };
        let ghost m0 = gg.adj();
        let ghost gg0 = gg;
        gg.add_edge(u, pu);
        let ghost m1 = gg.adj();
        gg.add_edge(w, pw);
        proof {
            assert forall|a: i32, b: i32| #[trigger] gg.has_edge(a, b) <==> degree_three_edges_upto(*g, vs@, vs@.len() as int, a, b)
                || partner_edges_upto(keys@, j + 1, a, b) by {
                lemma_add_edge_relation(m0, u, pu, a, b);
                lemma_add_edge_relation(m1, w, pw, a, b);
                assert(gg0.has_edge(a, b) == (m0.contains_key(a) && m0[a].contains(b)));
                assert(ends_upto(keys@, j + 1, a) <==> ends_upto(keys@, j as int, a) || a == u || a == w) by {
                    if ends_upto(keys@, j + 1, a) && !ends_upto(keys@, j as int, a) {
                        let k = choose|k: int| 0 <= k < j + 1 && (#[trigger] keys@[k].0 == a || keys@[k].1 == a);
                        assert(k == j);
                    }
                    if a == u || a == w {
                        assert(keys@[j as int].0 == a || keys@[j as int].1 == a);
                    }
                }
                assert(ends_upto(keys@, j + 1, b) <==> ends_upto(keys@, j as int, b) || b == u || b == w) by {
                    if ends_upto(keys@, j + 1, b) && !ends_upto(keys@, j as int, b) {
                        let k = choose|k: int| 0 <= k < j + 1 && (#[trigger] keys@[k].0 == b || keys@[k].1 == b);
                        assert(k == j);
                    }
                    if b == u || b == w {
                        assert(keys@[j as int].0 == b || keys@[j as int].1 == b);
                    }
                }
            }
        }
        j = j + 1;
    }
    proof {
        assert(vs@.take(vs@.len() as int) == vs@);
        assert forall|a: i32, b: i32| #[trigger] gg.has_edge(a, b) <==> gadget_edge(*g, keys@, a, b) by {
            lemma_partner_exists(keys@, a, keys@.len() as int);
            lemma_partner_exists(keys@, b, keys@.len() as int);
            assert(ends_upto(keys@, keys@.len() as int, a) <==> ring_partner(keys@, a) is Some);
            assert(ends_upto(keys@, keys@.len() as int, b) <==> ring_partner(keys@, b) is Some);
            if degree_three(*g, a) {
                assert(vs@.contains(a));
            }
            if degree_three(*g, b) {
                assert(vs@.contains(b));
            }
        }
    }
    gg
}

/// A walk that starts in a set closed under the gadget relation stays in it.
proof fn lemma_walk_closed(g: Graph, keys: Seq<(i32, i32)>, s: Set<i32>, p: Seq<i32>)
    requires
        gadget_closed(g, keys, s),
        gadget_walk(g, keys, p),
        s.contains(p[0]),
    ensures
        s.contains(p.last()),
    decreases p.len(),
{
    if p.len() > 1 {
        let q = p.drop_last();
        assert forall|i: int| 0 <= i < q.len() - 1 implies gadget_edge(g, keys, #[trigger] q[i], q[i + 1]) by {
            assert(q[i] == p[i] && q[i + 1] == p[i + 1]);
        }
        lemma_walk_closed(g, keys, s, q);
        let k = p.len() - 2;
        assert(gadget_edge(g, keys, p[k], p[k + 1]));
    }
}

/// The gadget class of `root`, in breadth-first order, when every vertex in
/// `visited` belongs to a class already taken; the class joins `visited`.
fn gadget_component(
    gg: &Graph,
    root: i32,
    visited: &mut HashSet<i32>,
    Ghost(g): Ghost<Graph>,
    Ghost(keys): Ghost<Seq<(i32, i32)>>,
) -> (q: Vec<i32>)
    requires
        gg.wf(),
        forall|a: i32, b: i32| #[trigger] gg.has_edge(a, b) <==> gadget_edge(g, keys, a, b),
        !old(visited)@.contains(root),
        gadget_closed(g, keys, old(visited)@),
    ensures
        q@.len() >= 1,
        q@[0] == root,
        q@.no_duplicates(),
        forall|x: i32| #![trigger final(visited)@.contains(x)] #![trigger old(visited)@.contains(x)] #![trigger q@.contains(x)] final(visited)@.contains(x) <==> old(visited)@.contains(x) || q@.contains(x),
        forall|x: i32| q@.contains(x) ==> !old(visited)@.contains(x),
        q@.to_set() == gadget_class(g, keys, root),
        gadget_closed(g, keys, final(visited)@),
{
    let ghost v0 = visited@;
    let mut q: Vec<i32> = Vec::new();
    q.push(root);
    visited.insert(root);
    let ghost mut walks: Seq<Seq<i32>> = seq![seq![root]];
    proof {
        gg.lemma_wf();
        assert(gadget_walk(g, keys, walks[0]));
        assert forall|x: i32| visited@.contains(x) <==> v0.contains(x) || q@.contains(x) by {
            if x == root {
                assert(q@[0] == root);
            }
        }
    }
    let ghost bound = gg.adj().dom().len() + 1;
    let mut head: usize = 0;
    while head < q.len()
        invariant
            gg.wf(),
            gg.adj().dom().finite(),
            bound == gg.adj().dom().len() + 1,
            forall|a: i32, b: i32| #[trigger] gg.has_edge(a, b) <==> gadget_edge(g, keys, a, b),
            gadget_closed(g, keys, v0),
            0 <= head <= q@.len(),
            q@.len() <= bound,
            q@.len() >= 1,
            q@[0] == root,
            q@.no_duplicates(),
            forall|m: int| 1 <= m < q@.len() ==> gg.adj().contains_key(#[trigger] q@[m]),
            forall|x: i32| #![trigger visited@.contains(x)] #![trigger v0.contains(x)] #![trigger q@.contains(x)] visited@.contains(x) <==> v0.contains(x) || q@.contains(x),
            forall|x: i32| q@.contains(x) ==> !v0.contains(x),
            forall|m: int, y: i32| 0 <= m < head && #[trigger] gadget_edge(g, keys, q@[m], y) ==> q@.contains(y),
            walks.len() == q@.len(),
            forall|m: int|
                0 <= m < q@.len() ==> gadget_walk(g, keys, #[trigger] walks[m]) && walks[m][0] == root && walks[m].last()
                    == q@[m],
        decreases 2 * bound - q@.len() - head,
    {
        let x = q[head];
        let ghost qlen0 = q@.len();
        match gg.neighbors(x) {
            Some(nb) => {
                let mut t: usize = 0;
                while t < nb.len()
                    invariant
                        q@.len() >= qlen0,
                        gg.wf(),
                        gg.adj().dom().finite(),
                        bound == gg.adj().dom().len() + 1,
                        forall|a: i32, b: i32| #[trigger] gg.has_edge(a, b) <==> gadget_edge(g, keys, a, b),
                        gadget_closed(g, keys, v0),
                        0 <= head < q@.len(),
                        x == q@[head as int],
                        gg.adj().contains_key(x),
                        nb@ == gg.adj()[x],
                        0 <= t <= nb@.len(),
                        q@.len() <= bound,
                        q@.len() >= 1,
                        q@[0] == root,
                        q@.no_duplicates(),
                        forall|m: int| 1 <= m < q@.len() ==> gg.adj().contains_key(#[trigger] q@[m]),
                        forall|x2: i32| #![trigger visited@.contains(x2)] #![trigger v0.contains(x2)] #![trigger q@.contains(x2)] visited@.contains(x2) <==> v0.contains(x2) || q@.contains(x2),
                        forall|x2: i32| q@.contains(x2) ==> !v0.contains(x2),
                        forall|m: int, y: i32| 0 <= m < head && #[trigger] gadget_edge(g, keys, q@[m], y) ==> q@.contains(y),
                        forall|k: int| 0 <= k < t ==> q@.contains(#[trigger] nb@[k]),
                        walks.len() == q@.len(),
                        forall|m: int|
                            0 <= m < q@.len() ==> gadget_walk(g, keys, #[trigger] walks[m]) && walks[m][0] == root
                                && walks[m].last() == q@[m],
                    decreases nb@.len() - t,
                {
                    let y = nb[t];
                    proof {
                        assert(gg.has_edge(x, y)) by {
                            assert(nb@[t as int] == y);
                        }
                        assert(gadget_edge(g, keys, x, y));
                    }
                    if !visited.contains(&y) {
                        let ghost q0 = q@;
                        let ghost w0 = walks;
                        visited.insert(y);
                        q.push(y);
                        proof {
                            walks = walks.push(walks[head as int].push(y));
                            assert(!q0.contains(y));
                            gg.lemma_wf();
                            assert(gg.adj().contains_key(y));
                            assert forall|z: i32| q@.contains(z) <==> q0.contains(z) || z == y by {
                                if q0.contains(z) {
                                    let j = choose|j: int| 0 <= j < q0.len() && q0[j] == z;
                                    assert(q@[j] == z);
                                }
                                if q@.contains(z) && z != y {
                                    let j = choose|j: int| 0 <= j < q@.len() && q@[j] == z;
                                    assert(q0[j] == z);
                                }
                                if z == y {
                                    assert(q@[q0.len() as int] == y);
                                }
                            }
                            assert forall|m: int| 1 <= m < q@.len() implies gg.adj().contains_key(#[trigger] q@[m]) by {
                                if m < q0.len() {
                                    assert(q@[m] == q0[m]);
                                }
                            }
                            assert(q@.drop_first().no_duplicates());
                            assert forall|v: i32| #[trigger] q@.drop_first().contains(v) implies gg.adj().contains_key(v) by {
                                let j = choose|j: int| 0 <= j < q@.drop_first().len() && q@.drop_first()[j] == v;
                                assert(q@[j + 1] == v);
                            }
                            crate::graph::lemma_distinct_vertices_bound(*gg, q@.drop_first());
                            assert forall|m: int, z: i32| 0 <= m < head && #[trigger] gadget_edge(g, keys, q@[m], z) implies q@.contains(z) by {
                                assert(q@[m] == q0[m]);
                            }
                            assert forall|k: int| 0 <= k < t + 1 implies q@.contains(#[trigger] nb@[k]) by {
                                if k == t {
                                    assert(q@.contains(y));
                                }
                            }
                            let wy = w0[head as int].push(y);
                            assert(gadget_walk(g, keys, wy)) by {
                                let wh = w0[head as int];
                                assert(gadget_walk(g, keys, wh));
                                assert forall|i: int| 0 <= i < wy.len() - 1 implies gadget_edge(g, keys, #[trigger] wy[i], wy[i + 1]) by {
                                    if i < wh.len() - 1 {
                                        assert(wy[i] == wh[i] && wy[i + 1] == wh[i + 1]);
                                    } else {
                                        assert(wy[i] == x && wy[i + 1] == y);
                                    }
                                }
                            }
                            assert forall|m: int|
                                0 <= m < q@.len() implies gadget_walk(g, keys, #[trigger] walks[m]) && walks[m][0] == root
                                    && walks[m].last() == q@[m] by {
                                if m < q0.len() {
                                    assert(walks[m] == w0[m]);
                                    assert(q@[m] == q0[m]);
                                } else {
                                    assert(walks[m] == wy);
                                }
                            }
                        }
                    } else {
                        proof {
                            if v0.contains(y) {
                                assert(gadget_edge(g, keys, y, x));
                                assert(v0.contains(x));
                                assert(q@.contains(x)) by {
                                    assert(q@[head as int] == x);
                                }
                            }
                            assert forall|k: int| 0 <= k < t + 1 implies q@.contains(#[trigger] nb@[k]) by {
                            }
                        }
                    }
                    t = t + 1;
                }
                proof {
                    assert forall|m: int, y: i32| 0 <= m < head + 1 && #[trigger] gadget_edge(g, keys, q@[m], y) implies q@.contains(y) by {
                        if m == head {
                            assert(gg.has_edge(x, y));
                            let k = choose|k: int| 0 <= k < nb@.len() && nb@[k] == y;
                        }
                    }
                }
            },
            None => {
                proof {
                    assert forall|m: int, y: i32| 0 <= m < head + 1 && #[trigger] gadget_edge(g, keys, q@[m], y) implies q@.contains(y) by {
                        if m == head {
                            assert(gg.has_edge(x, y));
                        }
                    }
                }
            },
        }
        head = head + 1;
    }
    proof {
        let s = q@.to_set();
        assert(gadget_closed(g, keys, s)) by {
            assert forall|a: i32, b: i32| s.contains(a) && #[trigger] gadget_edge(g, keys, a, b) implies s.contains(b) by {
                let m = choose|m: int| 0 <= m < q@.len() && q@[m] == a;
                assert(gadget_edge(g, keys, q@[m], b));
            }
        }
        assert forall|x: i32| s.contains(x) <==> gadget_class(g, keys, root).contains(x) by {
            if s.contains(x) {
                let m = choose|m: int| 0 <= m < q@.len() && q@[m] == x;
                assert(gadget_walk(g, keys, walks[m]));
            }
            if gadget_class(g, keys, root).contains(x) {
                let p = choose|p: Seq<i32>| #[trigger] gadget_walk(g, keys, p) && p[0] == root && p.last() == x;
                assert(s.contains(root)) by {
                    assert(q@[0] == root);
                }
                lemma_walk_closed(g, keys, s, p);
            }
        }
        assert(s =~= gadget_class(g, keys, root));
        assert forall|a: i32, b: i32| visited@.contains(a) && #[trigger] gadget_edge(g, keys, a, b) implies visited@.contains(b) by {
            if !v0.contains(a) {
                assert(s.contains(a));
            }
        }
    }
    q
}

/// The least vertex of `g` in `s`.
pub open spec fn least_vertex(g: Graph, s: Seq<i32>) -> i32 {
    choose|r: i32| #[trigger] g.adj().contains_key(r) && s.contains(r) && forall|v: i32| #[trigger] g.adj().contains_key(v) && s.contains(v) ==> r <= v
}

/// `r` is the least vertex of `g` in `s`, so `least_vertex` names it.
proof fn lemma_least_vertex(g: Graph, s: Seq<i32>, r: i32)
    requires
        g.adj().contains_key(r),
        s.contains(r),
        forall|v: i32| #[trigger] g.adj().contains_key(v) && s.contains(v) ==> r <= v,
    ensures
        least_vertex(g, s) == r,
{
    let l = least_vertex(g, s);
    assert(g.adj().contains_key(l) && s.contains(l) && forall|v: i32| #[trigger] g.adj().contains_key(v) && s.contains(v) ==> l <= v);
    assert(l <= r);
    assert(r <= l);
}

/// `c` lists, without repetition and starting from its least vertex of `g`,
/// the gadget class of a vertex of `g`.
pub open spec fn class_ok(g: Graph, keys: Seq<(i32, i32)>, c: Seq<i32>) -> bool {
    &&& c.len() >= 1
    &&& c.no_duplicates()
    &&& g.adj().contains_key(c[0])
    &&& c.to_set() == gadget_class(g, keys, c[0])
    &&& forall|v: i32| #[trigger] g.adj().contains_key(v) && c.contains(v) ==> c[0] <= v
}

/// The classes in `cs` are valid, pairwise disjoint, and ordered by their
/// least vertex of `g`.
pub open spec fn classes_ok(g: Graph, keys: Seq<(i32, i32)>, cs: Seq<Seq<i32>>) -> bool {
    &&& forall|i: int| 0 <= i < cs.len() ==> class_ok(g, keys, #[trigger] cs[i])
    &&& forall|i: int, j: int| 0 <= i < j < cs.len() ==> (#[trigger] cs[i])[0] < (#[trigger] cs[j])[0]
    &&& forall|i: int, j: int, x: i32| 0 <= i < j < cs.len() ==> !(#[trigger] cs[i].contains(x) && #[trigger] cs[j].contains(x))
}

/// `x` lies in one of the classes of `cs`.
pub open spec fn covered(cs: Seq<Seq<i32>>, x: i32) -> bool {
    exists|i: int| 0 <= i < cs.len() && #[trigger] cs[i].contains(x)
}

/// The views of a sequence of vectors.
pub open spec fn views(cs: Seq<Vec<i32>>) -> Seq<Seq<i32>> {
    cs.map_values(|c: Vec<i32>| c@)
}

/// Each class starts at one of the first `idx` sorted vertices.
pub open spec fn rooted_before(sorted: Seq<i32>, idx: int, cs: Seq<Seq<i32>>) -> bool {
    forall|i: int| 0 <= i < cs.len() ==> exists|k: int| 0 <= k < idx && sorted[k] == (#[trigger] cs[i])[0]
}

/// One step of `gadget_classes` that takes a new class.
proof fn lemma_classes_step(
    g: Graph,
    keys: Seq<(i32, i32)>,
    sorted: Seq<i32>,
    idx: int,
    cs: Seq<Seq<i32>>,
    v0: Set<i32>,
    v1: Set<i32>,
    c: Seq<i32>,
)
    requires
        strictly_sorted(sorted),
        forall|x: i32| sorted.contains(x) <==> g.adj().contains_key(x),
        0 <= idx < sorted.len(),
        classes_ok(g, keys, cs),
        rooted_before(sorted, idx, cs),
        forall|x: i32| v0.contains(x) <==> covered(cs, x),
        forall|k: int| 0 <= k < idx ==> v0.contains(#[trigger] sorted[k]),
        !v0.contains(sorted[idx]),
        c.len() >= 1,
        c[0] == sorted[idx],
        c.no_duplicates(),
        c.to_set() == gadget_class(g, keys, c[0]),
        forall|x: i32| c.contains(x) ==> !v0.contains(x),
        forall|x: i32| #![trigger v1.contains(x)] #![trigger v0.contains(x)] #![trigger c.contains(x)] v1.contains(x) <==> v0.contains(x) || c.contains(x),
    ensures
        classes_ok(g, keys, cs.push(c)),
        rooted_before(sorted, idx + 1, cs.push(c)),
        forall|x: i32| v1.contains(x) <==> covered(cs.push(c), x),
        forall|k: int| 0 <= k < idx + 1 ==> v1.contains(#[trigger] sorted[k]),
{
    let u = sorted[idx];
    let n = cs.push(c);
    assert(sorted.contains(u));
    assert(class_ok(g, keys, c)) by {
        assert forall|v: i32| #[trigger] g.adj().contains_key(v) && c.contains(v) implies c[0] <= v by {
            if v < u {
                assert(sorted.contains(v));
                let k = choose|k: int| 0 <= k < sorted.len() && sorted[k] == v;
                if k > idx {
                    assert(sorted[idx] < sorted[k]);
                }
                assert(k < idx);
                assert(v0.contains(sorted[k]));
            }
        }
    }
    assert forall|i: int| 0 <= i < n.len() implies class_ok(g, keys, #[trigger] n[i]) by {
        if i < cs.len() {
            assert(n[i] == cs[i]);
        }
    }
    assert forall|i: int, j: int| 0 <= i < j < n.len() implies (#[trigger] n[i])[0] < (#[trigger] n[j])[0] by {
        assert(n[i] == cs[i]);
        if j < cs.len() {
            assert(n[j] == cs[j]);
        } else {
            let k = choose|k: int| 0 <= k < idx && sorted[k] == (#[trigger] cs[i])[0];
            assert(sorted[k] < sorted[idx]);
        }
    }
    assert forall|i: int, j: int, x: i32| 0 <= i < j < n.len() implies !(#[trigger] n[i].contains(x) && #[trigger] n[j].contains(x)) by {
        assert(n[i] == cs[i]);
        if j < cs.len() {
            assert(n[j] == cs[j]);
        } else if cs[i].contains(x) {
            assert(covered(cs, x));
            assert(v0.contains(x));
        }
    }
    assert forall|i: int| 0 <= i < n.len() implies exists|k: int| 0 <= k < idx + 1 && sorted[k] == (#[trigger] n[i])[0] by {
        if i < cs.len() {
            assert(n[i] == cs[i]);
            let k = choose|k: int| 0 <= k < idx && sorted[k] == (#[trigger] cs[i])[0];
            assert(0 <= k < idx + 1 && sorted[k] == n[i][0]);
        } else {
            assert(sorted[idx] == n[i][0]);
        }
    }
    assert forall|x: i32| v1.contains(x) <==> covered(n, x) by {
        if v0.contains(x) {
            let i = choose|i: int| 0 <= i < cs.len() && #[trigger] cs[i].contains(x);
            assert(n[i] == cs[i]);
        }
        if c.contains(x) {
            assert(n[cs.len() as int] == c);
        }
        if covered(n, x) {
            let i = choose|i: int| 0 <= i < n.len() && #[trigger] n[i].contains(x);
            if i < cs.len() {
                assert(n[i] == cs[i]);
                assert(covered(cs, x));
            }
        }
    }
    assert forall|k: int| 0 <= k < idx + 1 implies v1.contains(#[trigger] sorted[k]) by {
        if k == idx {
            assert(c.contains(u)) by {
                assert(c[0] == u);
            }
        }
    }
}

/// The gadget classes of the vertices of `g`, each in breadth-first order
/// from its least vertex of `g`, ordered by that vertex.
fn gadget_classes(g: &Graph, gg: &Graph, Ghost(keys): Ghost<Seq<(i32, i32)>>) -> (comps: Vec<Vec<i32>>)
    requires
        g.wf(),
        gg.wf(),
        forall|a: i32, b: i32| #[trigger] gg.has_edge(a, b) <==> gadget_edge(*g, keys, a, b),
    ensures
        classes_ok(*g, keys, views(comps@)),
        forall|v: i32| g.adj().contains_key(v) ==> covered(views(comps@), v),
{
    let sorted = sorted_distinct(g.vertex_list());
    proof {
        g.lemma_wf();
        assert(views(Seq::<Vec<i32>>::empty()) =~= Seq::<Seq<i32>>::empty());
    }
    let mut visited: HashSet<i32> = HashSet::new();
    let mut comps: Vec<Vec<i32>> = Vec::new();
    let mut idx: usize = 0;
    while idx < sorted.len()
        invariant
            g.wf(),
            gg.wf(),
            forall|a: i32, b: i32| #[trigger] gg.has_edge(a, b) <==> gadget_edge(*g, keys, a, b),
            strictly_sorted(sorted@),
            forall|x: i32| sorted@.contains(x) <==> g.adj().contains_key(x),
            0 <= idx <= sorted@.len(),
            gadget_closed(*g, keys, visited@),
            classes_ok(*g, keys, views(comps@)),
            rooted_before(sorted@, idx as int, views(comps@)),
            forall|x: i32| visited@.contains(x) <==> covered(views(comps@), x),
            forall|k: int| 0 <= k < idx ==> visited@.contains(#[trigger] sorted@[k]),
        decreases sorted@.len() - idx,
    {
        let u = sorted[idx];
        let ghost cs = views(comps@);
        if !visited.contains(&u) {
            let ghost v0 = visited@;
            let comp = gadget_component(gg, u, &mut visited, Ghost(*g), Ghost(keys));
            let ghost c0 = comps@;
            comps.push(comp);
            proof {
                assert(views(comps@) =~= cs.push(comp@)) by {
                    assert(comps@ == c0.push(comp));
                }
                lemma_classes_step(*g, keys, sorted@, idx as int, cs, v0, visited@, comp@);
            }
        } else {
            proof {
                assert forall|i: int| 0 <= i < cs.len() implies exists|k: int| 0 <= k < idx + 1 && sorted@[k] == (#[trigger] cs[i])[0] by {
                    let k = choose|k: int| 0 <= k < idx && sorted@[k] == (#[trigger] cs[i])[0];
                    assert(0 <= k < idx + 1);
                }
                assert(visited@.contains(sorted@[idx as int]));
            }
        }
        idx = idx + 1;
    }
    proof {
        assert forall|v: i32| g.adj().contains_key(v) implies covered(views(comps@), v) by {
            assert(sorted@.contains(v));
            let k = choose|k: int| 0 <= k < sorted@.len() && sorted@[k] == v;
            assert(visited@.contains(sorted@[k]));
        }
    }
    comps
}

/// `e` is a virtual edge between two vertices of `vs`, smaller end first.
pub open spec fn internal_virtual_edge(keys: Seq<(i32, i32)>, vs: Seq<i32>, e: (i32, i32)) -> bool {
    &&& vs.contains(e.0)
    &&& vs.contains(e.1)
    &&& e.0 < e.1
    &&& ring_partner(keys, e.0) == Some(e.1)
}

/// The virtual edges inside `vs`, ordered by their smaller end.
fn internal_virtual_edges(
    vs: &Vec<i32>,
    mod_set: &HashSet<i32>,
    partner: &HashMap<i32, i32>,
    Ghost(keys): Ghost<Seq<(i32, i32)>>,
) -> (r: Vec<(i32, i32)>)
    requires
        strictly_sorted(vs@),
        forall|x: i32| mod_set@.contains(x) <==> vs@.contains(x),
        forall|v: i32| #[trigger] partner@.contains_key(v) <==> ring_partner(keys, v) is Some,
        forall|v: i32| #[trigger] partner@.contains_key(v) ==> ring_partner(keys, v) == Some(partner@[v]),
    ensures
        forall|e: (i32, i32)| r@.contains(e) <==> internal_virtual_edge(keys, vs@, e),
        forall|a: int, b: int| 0 <= a < b < r@.len() ==> (#[trigger] r@[a]).0 < (#[trigger] r@[b]).0,
{
    let mut r: Vec<(i32, i32)> = Vec::new();
    let mut k: usize = 0;
    while k < vs.len()
        invariant
            strictly_sorted(vs@),
            forall|x: i32| mod_set@.contains(x) <==> vs@.contains(x),
            forall|v: i32| #[trigger] partner@.contains_key(v) <==> ring_partner(keys, v) is Some,
            forall|v: i32| #[trigger] partner@.contains_key(v) ==> ring_partner(keys, v) == Some(partner@[v]),
            0 <= k <= vs@.len(),
            forall|e: (i32, i32)| r@.contains(e) <==> vs@.take(k as int).contains(e.0) && internal_virtual_edge(keys, vs@, e),
            forall|q: int| 0 <= q < r@.len() ==> exists|j: int| 0 <= j < k && vs@[j] == (#[trigger] r@[q]).0,
            forall|a: int, b: int| 0 <= a < b < r@.len() ==> (#[trigger] r@[a]).0 < (#[trigger] r@[b]).0,
        decreases vs@.len() - k,
    {
        let u = vs[k];
        proof {
            assert forall|x: i32| vs@.take(k + 1).contains(x) <==> vs@.take(k as int).contains(x) || x == u by {
                lemma_take_one_more(vs@, k as int, x);
            }
            assert(vs@.contains(u)) by {
                assert(vs@[k as int] == u);
            }
            assert(!vs@.take(k as int).contains(u)) by {
                if vs@.take(k as int).contains(u) {
                    let j = choose|j: int| 0 <= j < k && vs@.take(k as int)[j] == u;
                    assert(vs@[j] < vs@[k as int]);
                }
            }
        }
        let ghost r0 = r@;
        match partner.get(&u) {
            Some(wr) => {
                let w = *wr;
                if u < w && mod_set.contains(&w) {
                    r.push((u, w));
                    proof {
                        assert forall|e: (i32, i32)| r@.contains(e) <==> vs@.take(k + 1).contains(e.0) && internal_virtual_edge(keys, vs@, e) by {
                            if r@.contains(e) && e != (u, w) {
                                let j = choose|j: int| 0 <= j < r@.len() && r@[j] == e;
                                assert(r0[j] == e);
                            }
                            if r0.contains(e) {
                                let j = choose|j: int| 0 <= j < r0.len() && r0[j] == e;
                                assert(r@[j] == e);
                            }
                            if e == (u, w) {
                                assert(r@[r0.len() as int] == e);
                            }
                            if vs@.take(k + 1).contains(e.0) && internal_virtual_edge(keys, vs@, e) && e.0 == u {
                                assert(e.1 == w);
                            }
                        }
                        assert forall|q: int| 0 <= q < r@.len() implies exists|j: int| 0 <= j < k + 1 && vs@[j] == (#[trigger] r@[q]).0 by {
                            if q < r0.len() {
                                assert(r@[q] == r0[q]);
                                let j = choose|j: int| 0 <= j < k && vs@[j] == (#[trigger] r0[q]).0;
                                assert(0 <= j < k + 1 && vs@[j] == r@[q].0);
                            } else {
                                assert(vs@[k as int] == r@[q].0);
                            }
                        }
                        assert forall|a: int, b: int| 0 <= a < b < r@.len() implies (#[trigger] r@[a]).0 < (#[trigger] r@[b]).0 by {
                            assert(r@[a] == r0[a]);
                            if b < r0.len() {
                                assert(r@[b] == r0[b]);
                            } else {
                                let j = choose|j: int| 0 <= j < k && vs@[j] == (#[trigger] r0[a]).0;
                                assert(vs@[j] < vs@[k as int]);
                            }
                        }
                    }
                } else {
                    proof {
                        assert forall|e: (i32, i32)| r@.contains(e) <==> vs@.take(k + 1).contains(e.0) && internal_virtual_edge(keys, vs@, e) by {
                            if vs@.take(k + 1).contains(e.0) && internal_virtual_edge(keys, vs@, e) && e.0 == u {
                                assert(e.1 == w);
                            }
                        }
                    }
                }
            },
            None => {},
        }
        k = k + 1;
    }
    proof {
        assert(vs@.take(vs@.len() as int) == vs@);
    }
    r
}

/// Duplicate-free sequences with the same members have the same length.
proof fn lemma_same_members_len(a: Seq<i32>, b: Seq<i32>)
    requires
        a.no_duplicates(),
        b.no_duplicates(),
        forall|x: i32| a.contains(x) <==> b.contains(x),
    ensures
        a.len() == b.len(),
{
    a.unique_seq_to_set();
    b.unique_seq_to_set();
    assert(a.to_set() =~= b.to_set());
}

/// A strictly increasing sequence has no repeated entry.
proof fn lemma_strictly_sorted_distinct(s: Seq<i32>)
    requires
        strictly_sorted(s),
    ensures
        s.no_duplicates(),
{
    assert forall|i: int, j: int| 0 <= i < s.len() && 0 <= j < s.len() && i != j implies s[i] != s[j] by {
        if i < j {
            assert(s[i] < s[j]);
        } else {
            assert(s[j] < s[i]);
        }
    }
}

/// An elementary gadget as reported at position `i`: a gadget class of 22
/// vertices in increasing order, with its internal virtual edges and its ports.
#[verifier::opaque]
pub open spec fn gadget_ok(g: Graph, keys: Seq<(i32, i32)>, gd: ElementaryGadget, i: int) -> bool {
    let vs = gd.vertices@;
    &&& gd.id == i
    &&& strictly_sorted(vs)
    &&& vs.len() == 22
    &&& g.adj().contains_key(least_vertex(g, vs))
    &&& vs.contains(least_vertex(g, vs))
    &&& vs.to_set() == gadget_class(g, keys, least_vertex(g, vs))
    &&& forall|e: (i32, i32)| gd.virtual_edges@.contains(e) <==> internal_virtual_edge(keys, vs, e)
    &&& forall|a: int, b: int| 0 <= a < b < gd.virtual_edges@.len() ==> (#[trigger] gd.virtual_edges@[a]).0 < (#[trigger] gd.virtual_edges@[b]).0
    &&& strictly_sorted(gd.ports@)
    &&& forall|v: i32| gd.ports@.contains(v) <==> is_port(g, vs, v)
}

/// The gadgets of `g`: every vertex of `g` in exactly one of them, ordered by
/// their least vertex of `g`.
#[verifier::opaque]
pub open spec fn gadgets_ok(g: Graph, keys: Seq<(i32, i32)>, gs: Seq<ElementaryGadget>) -> bool {
    &&& forall|i: int| 0 <= i < gs.len() ==> gadget_ok(g, keys, #[trigger] gs[i], i)
    &&& forall|i: int, j: int|
        0 <= i < j < gs.len() ==> least_vertex(g, (#[trigger] gs[i]).vertices@) < least_vertex(g, (#[trigger] gs[j]).vertices@)
    &&& forall|i: int, j: int, x: i32|
        0 <= i < j < gs.len() ==> !(#[trigger] gs[i].vertices@.contains(x) && #[trigger] gs[j].vertices@.contains(x))
    &&& forall|v: i32| g.adj().contains_key(v) ==> exists|i: int| 0 <= i < gs.len() && #[trigger] gs[i].vertices@.contains(v)
}

/// The classes of `comps`, each in increasing order.
fn sort_classes(comps: &Vec<Vec<i32>>, Ghost(g): Ghost<Graph>, Ghost(keys): Ghost<Seq<(i32, i32)>>) -> (raw: Vec<Vec<i32>>)
    requires
        classes_ok(g, keys, views(comps@)),
    ensures
        raw@.len() == comps@.len(),
        forall|k: int|
            0 <= k < raw@.len() ==> strictly_sorted(#[trigger] raw@[k]@) && raw@[k]@.len() == comps@[k]@.len() && forall|x: i32|
                raw@[k]@.contains(x) <==> comps@[k]@.contains(x),
{
    let ghost cs = views(comps@);
    let mut raw: Vec<Vec<i32>> = Vec::new();
    let mut i: usize = 0;
    while i < comps.len()
        invariant
            cs == views(comps@),
            0 <= i <= comps@.len(),
            raw@.len() == i,
            forall|k: int|
                0 <= k < i ==> strictly_sorted(#[trigger] raw@[k]@) && raw@[k]@.len() == comps@[k]@.len() && forall|x: i32|
                    raw@[k]@.contains(x) <==> comps@[k]@.contains(x),
            classes_ok(g, keys, cs),
        decreases comps@.len() - i,
    {
        let sc = sorted_distinct(&comps[i]);
        proof {
            assert(comps@[i as int]@ == cs[i as int]);
            assert(class_ok(g, keys, cs[i as int]));
            lemma_strictly_sorted_distinct(sc@);
            lemma_same_members_len(sc@, cs[i as int]);
        }
        let ghost r0 = raw@;
        raw.push(sc);
        proof {
            assert forall|k: int|
                0 <= k < i + 1 implies strictly_sorted(#[trigger] raw@[k]@) && raw@[k]@.len() == comps@[k]@.len() && forall|x: i32|
                    raw@[k]@.contains(x) <==> comps@[k]@.contains(x) by {
                if k < i {
                    assert(raw@[k] == r0[k]);
                }
            }
        }
        i = i + 1;
    }
    raw
}

/// The position of the first list whose length is not 22.
fn first_wrong_size(raw: &Vec<Vec<i32>>) -> (r: Option<usize>)
    ensures
        match r {
            Some(i) => i < raw@.len() && raw@[i as int]@.len() != 22,
            None => forall|k: int| 0 <= k < raw@.len() ==> (#[trigger] raw@[k])@.len() == 22,
        },
{
    let mut i: usize = 0;
    while i < raw.len()
        invariant
            0 <= i <= raw@.len(),
            forall|k: int| 0 <= k < i ==> (#[trigger] raw@[k])@.len() == 22,
        decreases raw@.len() - i,
    {
        if raw[i].len() != 22 {
            return Some(i);
        }
        i = i + 1;
    }
    None
}

/// The gadgets of the sorted classes `raw`, with their virtual edges and ports.
fn build_gadgets(
    g: &Graph,
    raw: &Vec<Vec<i32>>,
    partner: &HashMap<i32, i32>,
    Ghost(keys): Ghost<Seq<(i32, i32)>>,
    Ghost(cs): Ghost<Seq<Seq<i32>>>,
) -> (gadgets: Vec<ElementaryGadget>)
    requires
        g.wf(),
        raw@.len() == cs.len(),
        classes_ok(*g, keys, cs),
        forall|v: i32| g.adj().contains_key(v) ==> covered(cs, v),
        forall|v: i32| #[trigger] partner@.contains_key(v) <==> ring_partner(keys, v) is Some,
        forall|v: i32| #[trigger] partner@.contains_key(v) ==> ring_partner(keys, v) == Some(partner@[v]),
        forall|k: int|
            0 <= k < raw@.len() ==> strictly_sorted(#[trigger] raw@[k]@) && forall|x: i32|
                raw@[k]@.contains(x) <==> cs[k].contains(x),
        forall|k: int| 0 <= k < raw@.len() ==> (#[trigger] raw@[k])@.len() == 22,
    ensures
        gadgets_ok(*g, keys, gadgets@),
{
    let mut gadgets: Vec<ElementaryGadget> = Vec::new();
    let mut i: usize = 0;
    while i < raw.len()
        invariant
            g.wf(),
            0 <= i <= raw@.len(),
            raw@.len() == cs.len(),
            classes_ok(*g, keys, cs),
            forall|v: i32| #[trigger] partner@.contains_key(v) <==> ring_partner(keys, v) is Some,
            forall|v: i32| #[trigger] partner@.contains_key(v) ==> ring_partner(keys, v) == Some(partner@[v]),
            forall|k: int|
                0 <= k < raw@.len() ==> strictly_sorted(#[trigger] raw@[k]@) && forall|x: i32|
                    raw@[k]@.contains(x) <==> cs[k].contains(x),
            forall|k: int| 0 <= k < raw@.len() ==> (#[trigger] raw@[k])@.len() == 22,
            gadgets@.len() == i,
            forall|k: int|
                0 <= k < i ==> gadget_ok(*g, keys, #[trigger] gadgets@[k], k) && least_vertex(*g, gadgets@[k].vertices@)
                    == cs[k][0] && forall|x: i32| gadgets@[k].vertices@.contains(x) <==> cs[k].contains(x),
        decreases raw@.len() - i,
    {
        let vs = raw[i].clone();
        let mod_set = member_set(&vs);
        let ve = internal_virtual_edges(&vs, &mod_set, partner, Ghost(keys));
        let ports = port_list(g, &vs, &mod_set);
        let ghost c = cs[i as int];
        proof {
            assert(vs@ =~= raw@[i as int]@);
            assert(class_ok(*g, keys, c));
            assert(vs@.contains(c[0])) by {
                assert(c.contains(c[0]));
            }
            lemma_least_vertex(*g, vs@, c[0]);
            assert(vs@.to_set() =~= c.to_set());
        }
        let gd = ElementaryGadget { id: i, vertices: vs, virtual_edges: ve, ports };
        let ghost g0 = gadgets@;
        gadgets.push(gd);
        proof {
            reveal(gadget_ok);
            assert forall|k: int|
                0 <= k < i + 1 implies gadget_ok(*g, keys, #[trigger] gadgets@[k], k) && least_vertex(*g, gadgets@[k].vertices@)
                    == cs[k][0] && forall|x: i32| gadgets@[k].vertices@.contains(x) <==> cs[k].contains(x) by {
                if k < i {
                    assert(gadgets@[k] == g0[k]);
                }
            }
        }
        i = i + 1;
    }
    proof {
        let gs = gadgets@;
        assert forall|i: int, j: int|
            0 <= i < j < gs.len() implies least_vertex(*g, (#[trigger] gs[i]).vertices@) < least_vertex(*g, (#[trigger] gs[j]).vertices@) by {
            assert(cs[i][0] < cs[j][0]);
        }
        assert forall|i: int, j: int, x: i32|
            0 <= i < j < gs.len() implies !(#[trigger] gs[i].vertices@.contains(x) && #[trigger] gs[j].vertices@.contains(x)) by {
            if gs[i].vertices@.contains(x) && gs[j].vertices@.contains(x) {
                assert(cs[i].contains(x) && cs[j].contains(x));
            }
        }
        assert forall|v: i32| g.adj().contains_key(v) implies exists|i: int| 0 <= i < gs.len() && #[trigger] gs[i].vertices@.contains(v) by {
            assert(covered(cs, v));
            let i = choose|i: int| 0 <= i < cs.len() && #[trigger] cs[i].contains(v);
            assert(gs[i].vertices@.contains(v));
        }
        reveal(gadgets_ok);
    }
    gadgets
}

impl ModularRingDecomposer {
    /// Splits the graph into its elementary gadgets: the classes of the
    /// relation that joins a degree-three vertex to its neighbours and each
    /// chain end to its virtual partner, each of which must have 22 vertices.
    /// Refuses an empty graph, and a graph whose chain ends are not as many
    /// as its vertices.
    pub fn extract_elementary_gadgets(g: &Graph, contractor: &Degree2Contractor) -> (r: Result<
        Vec<ElementaryGadget>,
        RingError,
    >)
        requires
            g.wf(),
            contractor.wf(),
        ensures
            (r matches Err(RingError::EmptyGraph)) <==> g.adj().dom().len() == 0,
            (r matches Err(RingError::PartnerCoverage { .. })) <==> g.adj().dom().len() > 0
                && chain_end_vertices(contractor.keys()).len() != g.adj().dom().len(),
            r matches Err(RingError::PartnerCoverage { partners, vertices }) ==> partners == chain_end_vertices(
                contractor.keys(),
            ).len() && vertices == g.adj().dom().len(),
            r matches Err(RingError::GadgetSize { index, size }) ==> size != 22 && exists|v: i32|
                #[trigger] g.adj().contains_key(v) && gadget_class(*g, contractor.keys(), v).finite() && gadget_class(
                    *g,
                    contractor.keys(),
                    v,
                ).len() == size,
            (g.adj().dom().len() > 0 && chain_end_vertices(contractor.keys()).len() == g.adj().dom().len() && forall|v: i32|
                #[trigger] g.adj().contains_key(v) ==> gadget_class(*g, contractor.keys(), v).finite() && gadget_class(
                    *g,
                    contractor.keys(),
                    v,
                ).len() == 22) ==> r is Ok,
            r is Ok || r matches Err(RingError::EmptyGraph) || r matches Err(RingError::PartnerCoverage { .. })
                || r matches Err(RingError::GadgetSize { .. }),
            r matches Ok(gs) ==> gadgets_ok(*g, contractor.keys(), gs@),
    {
        let total_v = g.num_vertices();
        if total_v == 0 {
            return Err(RingError::EmptyGraph);
        }
        let keys = contractor.chain_ends();
        let partner = ring_partner_map(&keys);
        let np = partner.len();
        if np != total_v {
            return Err(RingError::PartnerCoverage { partners: np, vertices: total_v });
        }
        let gg = gadget_graph(g, &keys, &partner);
        let comps = gadget_classes(g, &gg, Ghost(keys@));
        let ghost cs = views(comps@);
        let raw = sort_classes(&comps, Ghost(*g), Ghost(keys@));
        proof {
            assert forall|k: int| 0 <= k < comps@.len() implies #[trigger] comps@[k]@ == cs[k] by {
            }
        }
        match first_wrong_size(&raw) {
            Some(i) => {
                proof {
                    let c = cs[i as int];
                    assert(class_ok(*g, keys@, c));
                    c.unique_seq_to_set();
                    assert(raw@[i as int]@.len() == c.len());
                    assert(g.adj().contains_key(c[0]));
                }
                return Err(RingError::GadgetSize { index: i, size: raw[i].len() });
            },
            None => {
                proof {
                    if forall|v: i32| #[trigger] g.adj().contains_key(v) ==> gadget_class(*g, keys@, v).finite() && gadget_class(*g, keys@, v).len() == 22 {
                        assert forall|k: int| 0 <= k < raw@.len() implies (#[trigger] raw@[k])@.len() == 22 by {
                            let c = cs[k];
                            assert(class_ok(*g, keys@, c));
                            c.unique_seq_to_set();
                            assert(g.adj().contains_key(c[0]));
                        }
                    }
                }
            },
        }
        let gadgets = build_gadgets(g, &raw, &partner, Ghost(keys@), Ghost(cs));
        Ok(gadgets)
    }
}

/// Gadgets `a` and `b` differ and an edge of `g` joins a vertex of `a` to a vertex of `b`.
pub open spec fn gadgets_linked(g: Graph, gs: Seq<ElementaryGadget>, a: int, b: int) -> bool {
    a != b && exists|u: i32, v: i32|
        #![trigger gs[a].vertices@.contains(u), gs[b].vertices@.contains(v)]
        gs[a].vertices@.contains(u) && gs[b].vertices@.contains(v) && g.has_edge(u, v)
}

/// The map from each gadget vertex to the position of its gadget.
fn gadget_index(gadgets: &Vec<ElementaryGadget>) -> (m: HashMap<i32, usize>)
    requires
        forall|i: int, j: int, x: i32|
            0 <= i < j < gadgets@.len() ==> !(#[trigger] gadgets@[i].vertices@.contains(x) && #[trigger] gadgets@[j].vertices@.contains(x)),
    ensures
        forall|v: i32| #[trigger] m@.contains_key(v) <==> exists|i: int| 0 <= i < gadgets@.len() && #[trigger] gadgets@[i].vertices@.contains(v),
        forall|v: i32| #[trigger] m@.contains_key(v) ==> m@[v] < gadgets@.len() && gadgets@[m@[v] as int].vertices@.contains(v),
        forall|v: i32, i: int| 0 <= i < gadgets@.len() && #[trigger] gadgets@[i].vertices@.contains(v) ==> m@.contains_key(v) && m@[v] == i,
{
    let mut m: HashMap<i32, usize> = HashMap::new();
    let mut i: usize = 0;
    while i < gadgets.len()
        invariant
            0 <= i <= gadgets@.len(),
            forall|a: int, b: int, x: i32|
                0 <= a < b < gadgets@.len() ==> !(#[trigger] gadgets@[a].vertices@.contains(x) && #[trigger] gadgets@[b].vertices@.contains(x)),
            forall|v: i32| #[trigger] m@.contains_key(v) <==> exists|a: int| 0 <= a < i && #[trigger] gadgets@[a].vertices@.contains(v),
            forall|v: i32| #[trigger] m@.contains_key(v) ==> m@[v] < i && gadgets@[m@[v] as int].vertices@.contains(v),
        decreases gadgets@.len() - i,
    {
        let vs = &gadgets[i].vertices;
        let mut t: usize = 0;
        while t < vs.len()
            invariant
                0 <= i < gadgets@.len(),
                vs@ == gadgets@[i as int].vertices@,
                0 <= t <= vs@.len(),
                forall|v: i32| #[trigger] m@.contains_key(v) <==> (exists|a: int| 0 <= a < i && #[trigger] gadgets@[a].vertices@.contains(v))
                    || vs@.take(t as int).contains(v),
                forall|v: i32| #[trigger] m@.contains_key(v) ==> m@[v] <= i && gadgets@[m@[v] as int].vertices@.contains(v),
            decreases vs@.len() - t,
        {
            let v = vs[t];
            m.insert(v, i);
            proof {
                assert forall|x: i32| vs@.take(t + 1).contains(x) <==> vs@.take(t as int).contains(x) || x == v by {
                    lemma_take_one_more(vs@, t as int, x);
                }
                assert(gadgets@[i as int].vertices@.contains(v)) by {
                    assert(vs@[t as int] == v);
                }
            }
            t = t + 1;
        }
        proof {
            assert(vs@.take(vs@.len() as int) == vs@);
            assert forall|v: i32| #[trigger] m@.contains_key(v) <==> exists|a: int| 0 <= a < i + 1 && #[trigger] gadgets@[a].vertices@.contains(v) by {
                if m@.contains_key(v) && !(exists|a: int| 0 <= a < i && #[trigger] gadgets@[a].vertices@.contains(v)) {
                    assert(gadgets@[i as int].vertices@.contains(v));
                }
            }
        }
        i = i + 1;
    }
    proof {
        assert forall|v: i32, a: int| 0 <= a < gadgets@.len() && #[trigger] gadgets@[a].vertices@.contains(v) implies m@.contains_key(v) && m@[v] == a by {
            assert(m@.contains_key(v));
            let b = m@[v] as int;
            assert(gadgets@[b].vertices@.contains(v));
            if b < a {
                assert(!(gadgets@[b].vertices@.contains(v) && gadgets@[a].vertices@.contains(v)));
            } else if a < b {
                assert(!(gadgets@[a].vertices@.contains(v) && gadgets@[b].vertices@.contains(v)));
            }
        }
    }
    m
}

/// An `n` by `n` matrix of zeros.
fn zero_matrix(n: usize) -> (w: Vec<Vec<usize>>)
    ensures
        w@.len() == n,
        forall|a: int| 0 <= a < n ==> (#[trigger] w@[a])@.len() == n,
        forall|a: int, b: int| 0 <= a < n && 0 <= b < n ==> #[trigger] w@[a]@[b] == 0,
{
    let mut row: Vec<usize> = Vec::new();
    let mut j: usize = 0;
    while j < n
        invariant
            0 <= j <= n,
            row@.len() == j,
            forall|b: int| 0 <= b < j ==> row@[b] == 0,
        decreases n - j,
    {
        row.push(0);
        j = j + 1;
    }
    let mut w: Vec<Vec<usize>> = Vec::new();
    let mut i: usize = 0;
    while i < n
        invariant
            0 <= i <= n,
            row@.len() == n,
            forall|b: int| 0 <= b < n ==> row@[b] == 0,
            w@.len() == i,
            forall|a: int| 0 <= a < i ==> (#[trigger] w@[a])@ == row@,
        decreases n - i,
    {
        let r = row.clone();
        assert(r@ =~= row@);
        w.push(r);
        i = i + 1;
    }
    w
}

/// The number of edges of `g` from each gadget to each other gadget,
/// counted once per adjacency entry (saturating at `usize::MAX`); nonzero
/// exactly for linked gadgets.
fn gadget_links(g: &Graph, gadgets: &Vec<ElementaryGadget>, index: &HashMap<i32, usize>) -> (w: Vec<Vec<usize>>)
    requires
        g.wf(),
        gadgets_cover(*g, gadgets@),
        forall|v: i32| #[trigger] index@.contains_key(v) ==> index@[v] < gadgets@.len() && gadgets@[index@[v] as int].vertices@.contains(v),
        forall|v: i32, i: int| 0 <= i < gadgets@.len() && #[trigger] gadgets@[i].vertices@.contains(v) ==> index@.contains_key(v) && index@[v] == i,
    ensures
        w@.len() == gadgets@.len(),
        forall|a: int| 0 <= a < gadgets@.len() ==> (#[trigger] w@[a])@.len() == gadgets@.len(),
        forall|a: int, b: int|
            0 <= a < gadgets@.len() && 0 <= b < gadgets@.len() ==> (#[trigger] w@[a]@[b] > 0 <==> gadgets_linked(*g, gadgets@, a, b)),
{
    let n = gadgets.len();
    let mut w = zero_matrix(n);
    let vs = g.vertex_list();
    proof {
        g.lemma_wf();
    }
    let mut i: usize = 0;
    while i < vs.len()
        invariant
            g.wf(),
            vs@ == g.vertices(),
            forall|v: i32| vs@.contains(v) <==> g.adj().contains_key(v),
            forall|u: i32, x: i32| #[trigger] g.has_edge(u, x) ==> g.adj().contains_key(x),
            n == gadgets@.len(),
            gadgets_cover(*g, gadgets@),
            forall|v: i32| #[trigger] index@.contains_key(v) ==> index@[v] < gadgets@.len() && gadgets@[index@[v] as int].vertices@.contains(v),
            forall|v: i32, a: int| 0 <= a < gadgets@.len() && #[trigger] gadgets@[a].vertices@.contains(v) ==> index@.contains_key(v) && index@[v] == a,
            0 <= i <= vs@.len(),
            w@.len() == n,
            forall|a: int| 0 <= a < n ==> (#[trigger] w@[a])@.len() == n,
            forall|a: int, b: int|
                0 <= a < n && 0 <= b < n ==> (#[trigger] w@[a]@[b] > 0 <==> a != b && exists|u: i32, v: i32|
                    #![trigger gadgets@[a].vertices@.contains(u), gadgets@[b].vertices@.contains(v)]
                    vs@.take(i as int).contains(u) && gadgets@[a].vertices@.contains(u) && gadgets@[b].vertices@.contains(v)
                        && g.has_edge(u, v)),
        decreases vs@.len() - i,
    {
        let u = vs[i];
        proof {
            assert(vs@.contains(u)) by {
                assert(vs@[i as int] == u);
            }
            assert forall|x: i32| vs@.take(i + 1).contains(x) <==> vs@.take(i as int).contains(x) || x == u by {
                lemma_take_one_more(vs@, i as int, x);
            }
            assert(g.adj().contains_key(u));
            let k = choose|k: int| 0 <= k < gadgets@.len() && #[trigger] gadgets@[k].vertices@.contains(u);
        }
        let g1 = *index.get(&u).unwrap();
        let nbrs = g.neighbors(u).unwrap();
        let mut t: usize = 0;
        while t < nbrs.len()
            invariant
                g.wf(),
                forall|u2: i32, x: i32| #[trigger] g.has_edge(u2, x) ==> g.adj().contains_key(x),
                n == gadgets@.len(),
                gadgets_cover(*g, gadgets@),
                forall|v: i32| #[trigger] index@.contains_key(v) ==> index@[v] < gadgets@.len() && gadgets@[index@[v] as int].vertices@.contains(v),
                forall|v: i32, a: int| 0 <= a < gadgets@.len() && #[trigger] gadgets@[a].vertices@.contains(v) ==> index@.contains_key(v) && index@[v] == a,
                g.adj().contains_key(u),
                nbrs@ == g.adj()[u],
                g1 < n,
                gadgets@[g1 as int].vertices@.contains(u),
                0 <= t <= nbrs@.len(),
                w@.len() == n,
                forall|a: int| 0 <= a < n ==> (#[trigger] w@[a])@.len() == n,
                forall|a: int, b: int|
                    0 <= a < n && 0 <= b < n ==> (#[trigger] w@[a]@[b] > 0 <==> a != b && ((exists|u2: i32, v: i32|
                        #![trigger gadgets@[a].vertices@.contains(u2), gadgets@[b].vertices@.contains(v)]
                        vs@.take(i as int).contains(u2) && gadgets@[a].vertices@.contains(u2) && gadgets@[b].vertices@.contains(v)
                            && g.has_edge(u2, v)) || (a == g1 && exists|v: i32| #![trigger gadgets@[b].vertices@.contains(v)]
                        nbrs@.take(t as int).contains(v) && gadgets@[b].vertices@.contains(v)))),
            decreases nbrs@.len() - t,
        {
            let x = nbrs[t];
            proof {
                assert(g.has_edge(u, x)) by {
                    assert(nbrs@[t as int] == x);
                }
                assert(g.adj().contains_key(x));
                let k = choose|k: int| 0 <= k < gadgets@.len() && #[trigger] gadgets@[k].vertices@.contains(x);
                assert forall|y: i32| nbrs@.take(t + 1).contains(y) <==> nbrs@.take(t as int).contains(y) || y == x by {
                    lemma_take_one_more(nbrs@, t as int, y);
                }
            }
            let g2 = *index.get(&x).unwrap();
            let ghost w0 = w@;
            if g1 != g2 {
                let old_w = w[g1][g2];
                let mut row = w[g1].clone();
                row.set(g2, old_w.saturating_add(1));
                w.set(g1, row);
                proof {
                    assert forall|a: int, b: int|
                        0 <= a < n && 0 <= b < n implies (#[trigger] w@[a]@[b] > 0 <==> a != b && ((exists|u2: i32, v: i32|
                            #![trigger gadgets@[a].vertices@.contains(u2), gadgets@[b].vertices@.contains(v)]
                            vs@.take(i as int).contains(u2) && gadgets@[a].vertices@.contains(u2) && gadgets@[b].vertices@.contains(v)
                                && g.has_edge(u2, v)) || (a == g1 && exists|v: i32| #![trigger gadgets@[b].vertices@.contains(v)]
                            nbrs@.take(t + 1).contains(v) && gadgets@[b].vertices@.contains(v)))) by {
                        if a == g1 && b == g2 {
                            lemma_take_one_more(nbrs@, t as int, x);
                            assert(nbrs@.take(t + 1).contains(x));
                            assert(gadgets@[b].vertices@.contains(x));
                        } else {
                            assert(w@[a]@[b] == w0[a]@[b]);
                            if a == g1 && (exists|v: i32| #![trigger gadgets@[b].vertices@.contains(v)]
                                nbrs@.take(t + 1).contains(v) && gadgets@[b].vertices@.contains(v)) {
                                let v = choose|v: i32| #![trigger gadgets@[b].vertices@.contains(v)]
                                    nbrs@.take(t + 1).contains(v) && gadgets@[b].vertices@.contains(v);
                                if v == x {
                                    assert(index@[x] == b);
                                }
                            }
                        }
                    }
                }
            } else {
                proof {
                    assert forall|a: int, b: int|
                        0 <= a < n && 0 <= b < n implies (#[trigger] w@[a]@[b] > 0 <==> a != b && ((exists|u2: i32, v: i32|
                            #![trigger gadgets@[a].vertices@.contains(u2), gadgets@[b].vertices@.contains(v)]
                            vs@.take(i as int).contains(u2) && gadgets@[a].vertices@.contains(u2) && gadgets@[b].vertices@.contains(v)
                                && g.has_edge(u2, v)) || (a == g1 && exists|v: i32| #![trigger gadgets@[b].vertices@.contains(v)]
                            nbrs@.take(t + 1).contains(v) && gadgets@[b].vertices@.contains(v)))) by {
                        if a == g1 && a != b && (exists|v: i32| #![trigger gadgets@[b].vertices@.contains(v)]
                            nbrs@.take(t + 1).contains(v) && gadgets@[b].vertices@.contains(v)) {
                            let v = choose|v: i32| #![trigger gadgets@[b].vertices@.contains(v)]
                                nbrs@.take(t + 1).contains(v) && gadgets@[b].vertices@.contains(v);
                            if v == x {
                                assert(index@[x] == b);
                            }
                        }
                    }
                }
            }
            t = t + 1;
        }
        proof {
            assert(nbrs@.take(nbrs@.len() as int) == nbrs@);
            assert forall|a: int, b: int|
                0 <= a < n && 0 <= b < n implies (#[trigger] w@[a]@[b] > 0 <==> a != b && exists|u2: i32, v: i32|
                    #![trigger gadgets@[a].vertices@.contains(u2), gadgets@[b].vertices@.contains(v)]
                    vs@.take(i + 1).contains(u2) && gadgets@[a].vertices@.contains(u2) && gadgets@[b].vertices@.contains(v)
                        && g.has_edge(u2, v)) by {
                if a == g1 && (exists|v: i32| #![trigger gadgets@[b].vertices@.contains(v)]
                    nbrs@.contains(v) && gadgets@[b].vertices@.contains(v)) {
                    let v = choose|v: i32| #![trigger gadgets@[b].vertices@.contains(v)]
                        nbrs@.contains(v) && gadgets@[b].vertices@.contains(v);
                    lemma_take_one_more(vs@, i as int, u);
                    assert(vs@[i as int] == u);
                    assert(g.has_edge(u, v));
                    assert(vs@.take(i + 1).contains(u) && gadgets@[a].vertices@.contains(u) && gadgets@[b].vertices@.contains(v)
                        && g.has_edge(u, v));
                }
                if a != b && exists|u2: i32, v: i32|
                    #![trigger gadgets@[a].vertices@.contains(u2), gadgets@[b].vertices@.contains(v)]
                    vs@.take(i + 1).contains(u2) && gadgets@[a].vertices@.contains(u2) && gadgets@[b].vertices@.contains(v)
                        && g.has_edge(u2, v) {
                    let (u2, v) = choose|u2: i32, v: i32|
                        #![trigger gadgets@[a].vertices@.contains(u2), gadgets@[b].vertices@.contains(v)]
                        vs@.take(i + 1).contains(u2) && gadgets@[a].vertices@.contains(u2) && gadgets@[b].vertices@.contains(v)
                            && g.has_edge(u2, v);
                    if u2 == u {
                        assert(index@[u] == a);
                        assert(nbrs@.contains(v));
                    }
                }
            }
        }
        i = i + 1;
    }
    proof {
        assert(vs@.take(vs@.len() as int) == vs@);
        assert forall|a: int, b: int|
            0 <= a < n && 0 <= b < n implies (#[trigger] w@[a]@[b] > 0 <==> gadgets_linked(*g, gadgets@, a, b)) by {
            if gadgets_linked(*g, gadgets@, a, b) {
                let (u2, v) = choose|u2: i32, v: i32|
                    #![trigger gadgets@[a].vertices@.contains(u2), gadgets@[b].vertices@.contains(v)]
                    gadgets@[a].vertices@.contains(u2) && gadgets@[b].vertices@.contains(v) && g.has_edge(u2, v);
                assert(g.adj().contains_key(u2));
                assert(vs@.contains(u2));
            }
        }
    }
    w
}

/// Every vertex of `g` lies in one of the gadgets.
pub open spec fn gadgets_cover(g: Graph, gs: Seq<ElementaryGadget>) -> bool {
    forall|v: i32| g.adj().contains_key(v) ==> exists|i: int| 0 <= i < gs.len() && #[trigger] gs[i].vertices@.contains(v)
}

/// The number of modules on the ring.
pub const MODULE_COUNT: usize = 42;

/// `s` is strictly increasing.
pub open spec fn increasing(s: Seq<usize>) -> bool {
    forall|a: int, b: int| 0 <= a < b < s.len() ==> s[a] < s[b]
}

/// The position of `x` in `v`, if any.
fn position_of(v: &Vec<usize>, x: usize) -> (r: Option<usize>)
    ensures
        match r {
            Some(i) => i < v@.len() && v@[i as int] == x,
            None => !v@.contains(x),
        },
{
    let mut i: usize = 0;
    while i < v.len()
        invariant
            0 <= i <= v@.len(),
            forall|k: int| 0 <= k < i ==> v@[k] != x,
        decreases v@.len() - i,
    {
        if v[i] == x {
            return Some(i);
        }
        i = i + 1;
    }
    None
}

/// Inserts `x` into the increasing `v` at its place.
pub(crate) fn insert_increasing(v: &mut Vec<usize>, x: usize)
    requires
        increasing(old(v)@),
        !old(v)@.contains(x),
    ensures
        increasing(final(v)@),
        final(v)@.len() == old(v)@.len() + 1,
        forall|y: usize| final(v)@.contains(y) <==> old(v)@.contains(y) || y == x,
{
    let mut p: usize = 0;
    while p < v.len() && v[p] < x
        invariant
            0 <= p <= v@.len(),
            forall|k: int| 0 <= k < p ==> v@[k] < x,
        decreases v@.len() - p,
    {
        p = p + 1;
    }
    let ghost v0 = v@;
    proof {
        assert forall|k: int| p <= k < v0.len() implies v0[k] > x by {
            assert(v0[p as int] >= x);
            assert(v0[p as int] != x);
            if k > p {
                assert(v0[p as int] < v0[k]);
            }
        }
    }
    v.insert(p, x);
    proof {
        assert forall|a: int, b: int| 0 <= a < b < v@.len() implies v@[a] < v@[b] by {
            if b < p {
                assert(v@[a] == v0[a] && v@[b] == v0[b]);
            } else if b == p {
                assert(v@[a] == v0[a]);
            } else if a < p {
                assert(v@[a] == v0[a] && v@[b] == v0[b - 1]);
            } else if a == p {
                assert(v@[b] == v0[b - 1]);
            } else {
                assert(v@[a] == v0[a - 1] && v@[b] == v0[b - 1]);
            }
        }
        assert forall|y: usize| v@.contains(y) <==> v0.contains(y) || y == x by {
            if v@.contains(y) && y != x {
                let k = choose|k: int| 0 <= k < v@.len() && v@[k] == y;
                if k < p {
                    assert(v0[k] == y);
                } else {
                    assert(k != p);
                    assert(v0[k - 1] == y);
                }
            }
            if v0.contains(y) {
                let k = choose|k: int| 0 <= k < v0.len() && v0[k] == y;
                if k < p {
                    assert(v@[k] == y);
                } else {
                    assert(v@[k + 1] == y);
                }
            }
            if y == x {
                assert(v@[p as int] == x);
            }
        }
    }
}

/// The gadget clusters: a partition of the gadget positions below `n` into
/// increasing lists.
pub open spec fn clusters_partition(cl: Seq<Seq<usize>>, n: int) -> bool {
    &&& forall|i: int, x: int| 0 <= i < cl.len() && 0 <= x < cl[i].len() ==> (#[trigger] cl[i][x]) < n
    &&& forall|j: usize| j < n ==> #[trigger] in_some_cluster(cl, j)
    &&& forall|i: int, i2: int, j: usize| 0 <= i < i2 < cl.len() ==> !(#[trigger] cl[i].contains(j) && #[trigger] cl[i2].contains(j))
    &&& forall|i: int| 0 <= i < cl.len() ==> increasing(#[trigger] cl[i])
}

/// `j` lies in one of the clusters.
pub open spec fn in_some_cluster(cl: Seq<Seq<usize>>, j: usize) -> bool {
    exists|i: int| 0 <= i < cl.len() && #[trigger] cl[i].contains(j)
}

/// The views of a sequence of index vectors.
pub open spec fn index_views(cs: Seq<Vec<usize>>) -> Seq<Seq<usize>> {
    cs.map_values(|c: Vec<usize>| c@)
}

/// Adds the links from gadget `b` to each still unassigned gadget to `cand`.
fn add_links(cand: &mut Vec<usize>, w: &Vec<Vec<usize>>, b: usize, unassigned: &Vec<usize>)
    requires
        b < w@.len(),
        old(cand)@.len() == w@[b as int]@.len(),
    ensures
        final(cand)@.len() == old(cand)@.len(),
        forall|j: int| 0 <= j < final(cand)@.len() && #[trigger] final(cand)@[j] > 0 ==> old(cand)@[j] > 0
            || unassigned@.contains(j as usize),
        forall|j: int|
            0 <= j < final(cand)@.len() ==> #[trigger] final(cand)@[j] == (if w@[b as int]@[j] > 0 && unassigned@.contains(
                j as usize,
            ) {
                if old(cand)@[j] + w@[b as int]@[j] > usize::MAX {
                    usize::MAX as int
                } else {
                    old(cand)@[j] + w@[b as int]@[j]
                }
            } else {
                old(cand)@[j] as int
            }),
{
    let n = cand.len();
    let mut j: usize = 0;
    while j < n
        invariant
            b < w@.len(),
            n == w@[b as int]@.len(),
            cand@.len() == n,
            0 <= j <= n,
            forall|k: int| 0 <= k < n && #[trigger] cand@[k] > 0 ==> old(cand)@[k] > 0 || unassigned@.contains(k as usize),
            forall|k: int| j <= k < n ==> cand@[k] == old(cand)@[k],
            forall|k: int|
                0 <= k < j ==> #[trigger] cand@[k] == (if w@[b as int]@[k] > 0 && unassigned@.contains(k as usize) {
                    if old(cand)@[k] + w@[b as int]@[k] > usize::MAX {
                        usize::MAX as int
                    } else {
                        old(cand)@[k] + w@[b as int]@[k]
                    }
                } else {
                    old(cand)@[k] as int
                }),
        decreases n - j,
    {
        let x = w[b][j];
        if x > 0 {
            match position_of(unassigned, j) {
                Some(_) => {
                    let c = cand[j];
                    cand.set(j, c.saturating_add(x));
                },
                None => {},
            }
        }
        j = j + 1;
    }
}

/// The unassigned gadget with the strongest link to the cluster (the
/// smallest such on ties), or the smallest unassigned gadget when none is linked.
fn pick_candidate(cand: &Vec<usize>, unassigned: &Vec<usize>) -> (best: usize)
    requires
        unassigned@.len() > 0,
        forall|j: int| 0 <= j < cand@.len() && #[trigger] cand@[j] > 0 ==> unassigned@.contains(j as usize),
    ensures
        unassigned@.contains(best),
{
    let mut best: usize = 0;
    let mut best_w: usize = 0;
    let mut j: usize = 0;
    while j < cand.len()
        invariant
            0 <= j <= cand@.len(),
            best_w > 0 ==> best < cand@.len() && cand@[best as int] == best_w,
        decreases cand@.len() - j,
    {
        if cand[j] > best_w {
            best = j;
            best_w = cand[j];
        }
        j = j + 1;
    }
    if best_w == 0 {
        assert(unassigned@.contains(unassigned@[0]));
        unassigned[0]
    } else {
        best
    }
}

/// Groups the `n` gadgets into `MODULE_COUNT` clusters of `n / MODULE_COUNT`:
/// each cluster starts from the smallest unassigned gadget and grows by the
/// unassigned gadget most strongly linked to it (`w` counts the links), the
/// last cluster taking every gadget left.
fn cluster_gadgets(w: &Vec<Vec<usize>>, n: usize) -> (cl: Vec<Vec<usize>>)
    requires
        w@.len() == n,
        forall|a: int| 0 <= a < n ==> (#[trigger] w@[a])@.len() == n,
        n % MODULE_COUNT == 0,
    ensures
        clusters_partition(index_views(cl@), n as int),
        n == 0 ==> cl@.len() == 0,
        n > 0 ==> cl@.len() == MODULE_COUNT,
        forall|i: int| 0 <= i < cl@.len() ==> (#[trigger] cl@[i])@.len() == n / MODULE_COUNT,
{
    let target = n / MODULE_COUNT;
    proof {
        assert(n == MODULE_COUNT * target) by (nonlinear_arith)
            requires
                n % 42 == 0,
                target == n / 42,
                MODULE_COUNT == 42,
        ;
    }
    let mut unassigned: Vec<usize> = Vec::new();
    let mut j: usize = 0;
    while j < n
        invariant
            0 <= j <= n,
            unassigned@.len() == j,
            forall|k: int| 0 <= k < j ==> unassigned@[k] == k,
        decreases n - j,
    {
        unassigned.push(j);
        j = j + 1;
    }
    proof {
        assert forall|x: usize| x < n implies unassigned@.contains(x) by {
            assert(unassigned@[x as int] == x);
        }
    }
    let mut cl: Vec<Vec<usize>> = Vec::new();
    let mut done = false;
    while unassigned.len() > 0 && !done
        invariant
            w@.len() == n,
            forall|a: int| 0 <= a < n ==> (#[trigger] w@[a])@.len() == n,
            target == n / MODULE_COUNT,
            n == MODULE_COUNT * target,
            increasing(unassigned@),
            forall|k: int| 0 <= k < unassigned@.len() ==> #[trigger] unassigned@[k] < n,
            forall|x: usize| x < n ==> unassigned@.contains(x) || #[trigger] in_some_cluster(index_views(cl@), x),
            forall|i: int, x: usize| 0 <= i < cl@.len() && #[trigger] cl@[i]@.contains(x) ==> !unassigned@.contains(x),
            forall|i: int, x: int| 0 <= i < cl@.len() && 0 <= x < cl@[i]@.len() ==> (#[trigger] cl@[i]@[x]) < n,
            forall|i: int, i2: int, x: usize| 0 <= i < i2 < cl@.len() ==> !(#[trigger] cl@[i]@.contains(x) && #[trigger] cl@[i2]@.contains(x)),
            forall|i: int| 0 <= i < cl@.len() ==> increasing(#[trigger] cl@[i]@),
            forall|i: int| 0 <= i < cl@.len() ==> (#[trigger] cl@[i])@.len() == target,
            !done ==> cl@.len() < MODULE_COUNT && unassigned@.len() == (MODULE_COUNT - cl@.len()) * target,
            done ==> cl@.len() == MODULE_COUNT && unassigned@.len() == 0,
            n == 0 ==> cl@.len() == 0,
        decreases unassigned@.len(),
    {
        let ghost c0 = cl@;
        if cl.len() + 1 == MODULE_COUNT {
            let last = unassigned.clone();
            assert(last@ =~= unassigned@);
            proof {
                assert(unassigned@.len() == target) by (nonlinear_arith)
                    requires
                        unassigned@.len() == (MODULE_COUNT - cl@.len()) * target,
                        cl@.len() + 1 == MODULE_COUNT,
                ;
            }
            cl.push(last);
            proof {
                assert forall|x: usize| x < n implies #[trigger] in_some_cluster(index_views(cl@), x) by {
                    if unassigned@.contains(x) {
                        assert(index_views(cl@)[c0.len() as int].contains(x));
                    } else {
                        assert(in_some_cluster(index_views(c0), x));
                        let i = choose|i: int| 0 <= i < c0.len() && #[trigger] index_views(c0)[i].contains(x);
                        assert(index_views(cl@)[i] == index_views(c0)[i]);
                    }
                }
                assert forall|i: int, i2: int, x: usize| 0 <= i < i2 < cl@.len() implies !(#[trigger] cl@[i]@.contains(x) && #[trigger] cl@[i2]@.contains(x)) by {
                    assert(cl@[i] == c0[i]);
                    if i2 < c0.len() {
                        assert(cl@[i2] == c0[i2]);
                    }
                }
                assert forall|i: int, x: int| 0 <= i < cl@.len() && 0 <= x < cl@[i]@.len() implies (#[trigger] cl@[i]@[x]) < n by {
                    if i < c0.len() {
                        assert(cl@[i] == c0[i]);
                    }
                }
            }
            unassigned = Vec::new();
            done = true;
            proof {
                assert forall|x: usize| x < n implies unassigned@.contains(x) || #[trigger] in_some_cluster(index_views(cl@), x) by {
                    assert(in_some_cluster(index_views(cl@), x));
                }
            }
        } else {
            let ghost u0 = unassigned@;
            let start = unassigned.remove(0);
            let mut chunk: Vec<usize> = Vec::new();
            chunk.push(start);
            let mut cand: Vec<usize> = Vec::new();
            let mut k: usize = 0;
            while k < n
                invariant
                    0 <= k <= n,
                    cand@.len() == k,
                    forall|q: int| 0 <= q < k ==> cand@[q] == 0,
                decreases n - k,
            {
                cand.push(0);
                k = k + 1;
            }
            proof {
                assert(unassigned@ == u0.remove(0));
                assert(start < n) by {
                    assert(u0[0] < n);
                }
                assert forall|a: int, b: int| 0 <= a < b < unassigned@.len() implies unassigned@[a] < unassigned@[b] by {
                    assert(unassigned@[a] == u0[a + 1] && unassigned@[b] == u0[b + 1]);
                }
                assert forall|y: usize| unassigned@.contains(y) <==> u0.contains(y) && y != start by {
                    if unassigned@.contains(y) {
                        let q = choose|q: int| 0 <= q < unassigned@.len() && unassigned@[q] == y;
                        assert(u0[q + 1] == y);
                        assert(u0[0] < u0[q + 1]);
                    }
                    if u0.contains(y) && y != start {
                        let q = choose|q: int| 0 <= q < u0.len() && u0[q] == y;
                        assert(q != 0);
                        assert(unassigned@[q - 1] == y);
                    }
                }
                assert(chunk@ == seq![start]);
                assert forall|x: usize| x < n implies unassigned@.contains(x) || chunk@.contains(x) || #[trigger] in_some_cluster(index_views(cl@), x) by {
                    if x == start {
                        assert(chunk@[0] == x);
                    }
                }
                assert(1 <= target) by (nonlinear_arith)
                    requires
                        n == MODULE_COUNT * target,
                        n >= 1,
                ;
                assert((MODULE_COUNT - cl@.len()) * target >= 2 * target) by (nonlinear_arith)
                    requires
                        cl@.len() + 1 < MODULE_COUNT,
                        target >= 0,
                ;
            }
            add_links(&mut cand, w, start, &unassigned);
            while chunk.len() < target && unassigned.len() > 0
                invariant
                    w@.len() == n,
                    forall|a: int| 0 <= a < n ==> (#[trigger] w@[a])@.len() == n,
                    target == n / MODULE_COUNT,
                    n == MODULE_COUNT * target,
                    cl@ == c0,
                    cl@.len() + 1 < MODULE_COUNT,
                    (MODULE_COUNT - cl@.len()) * target >= 2 * target,
                    target >= 1,
                    cand@.len() == n,
                    forall|q: int| 0 <= q < cand@.len() && #[trigger] cand@[q] > 0 ==> unassigned@.contains(q as usize),
                    increasing(unassigned@),
                    forall|q: int| 0 <= q < unassigned@.len() ==> #[trigger] unassigned@[q] < n,
                    increasing(chunk@),
                    1 <= chunk@.len() <= target,
                    forall|q: int| 0 <= q < chunk@.len() ==> #[trigger] chunk@[q] < n,
                    forall|x: usize| chunk@.contains(x) ==> !unassigned@.contains(x),
                    forall|i: int, x: usize| 0 <= i < cl@.len() && #[trigger] cl@[i]@.contains(x) ==> !unassigned@.contains(x) && !chunk@.contains(x),
                    chunk@.len() + unassigned@.len() == (MODULE_COUNT - cl@.len()) * target,
                    forall|x: usize| x < n ==> unassigned@.contains(x) || chunk@.contains(x) || #[trigger] in_some_cluster(index_views(cl@), x),
                decreases unassigned@.len(),
            {
                let best = pick_candidate(&cand, &unassigned);
                let pos = match position_of(&unassigned, best) {
                    Some(p) => p,
                    None => 0,
                };
                let ghost ua = unassigned@;
                let ghost ch = chunk@;
                unassigned.remove(pos);
                cand.set(best, 0);
                proof {
                    assert(ua[pos as int] == best);
                    assert(unassigned@ == ua.remove(pos as int));
                    assert forall|a: int, b: int| 0 <= a < b < unassigned@.len() implies unassigned@[a] < unassigned@[b] by {
                        if b < pos {
                            assert(unassigned@[a] == ua[a] && unassigned@[b] == ua[b]);
                        } else if a < pos {
                            assert(unassigned@[a] == ua[a] && unassigned@[b] == ua[b + 1]);
                        } else {
                            assert(unassigned@[a] == ua[a + 1] && unassigned@[b] == ua[b + 1]);
                        }
                    }
                    assert forall|y: usize| unassigned@.contains(y) <==> ua.contains(y) && y != best by {
                        if unassigned@.contains(y) {
                            let q = choose|q: int| 0 <= q < unassigned@.len() && unassigned@[q] == y;
                            if q < pos {
                                assert(ua[q] == y);
                                assert(ua[q] < ua[pos as int]);
                            } else {
                                assert(ua[q + 1] == y);
                                assert(ua[pos as int] < ua[q + 1]);
                            }
                        }
                        if ua.contains(y) && y != best {
                            let q = choose|q: int| 0 <= q < ua.len() && ua[q] == y;
                            if q < pos {
                                assert(unassigned@[q] == y);
                            } else {
                                assert(q != pos);
                                assert(unassigned@[q - 1] == y);
                            }
                        }
                    }
                    assert forall|q: int| 0 <= q < unassigned@.len() implies #[trigger] unassigned@[q] < n by {
                        if q < pos {
                            assert(unassigned@[q] == ua[q]);
                        } else {
                            assert(unassigned@[q] == ua[q + 1]);
                        }
                    }
                    assert(best < n) by {
                        assert(ua[pos as int] < n);
                    }
                    assert(!ch.contains(best));
                }
                insert_increasing(&mut chunk, best);
                add_links(&mut cand, w, best, &unassigned);
                proof {
                    assert forall|q: int| 0 <= q < chunk@.len() implies #[trigger] chunk@[q] < n by {
                        assert(chunk@.contains(chunk@[q]));
                        if chunk@[q] != best {
                            let r = choose|r: int| 0 <= r < ch.len() && ch[r] == chunk@[q];
                            assert(ch[r] < n);
                        }
                    }
                }
            }
            proof {
                if unassigned@.len() == 0 {
                    assert(chunk@.len() >= 2 * target);
                }
                assert(chunk@.len() == target);
                assert(unassigned@.len() == (MODULE_COUNT - (cl@.len() + 1)) * target) by (nonlinear_arith)
                    requires
                        chunk@.len() + unassigned@.len() == (MODULE_COUNT - cl@.len()) * target,
                        chunk@.len() == target,
                ;
            }
            cl.push(chunk);
            proof {
                let nc = cl@.len() - 1;
                assert forall|x: usize| x < n implies unassigned@.contains(x) || #[trigger] in_some_cluster(index_views(cl@), x) by {
                    if cl@[nc]@.contains(x) {
                        assert(index_views(cl@)[nc].contains(x));
                    } else if !unassigned@.contains(x) {
                        assert(in_some_cluster(index_views(c0), x));
                        let i = choose|i: int| 0 <= i < c0.len() && #[trigger] index_views(c0)[i].contains(x);
                        assert(index_views(cl@)[i] == index_views(c0)[i]);
                    }
                }
                assert forall|i: int, x: usize| 0 <= i < cl@.len() && #[trigger] cl@[i]@.contains(x) implies !unassigned@.contains(x) by {
                    if i < c0.len() {
                        assert(cl@[i] == c0[i]);
                    }
                }
                assert forall|i: int, i2: int, x: usize| 0 <= i < i2 < cl@.len() implies !(#[trigger] cl@[i]@.contains(x) && #[trigger] cl@[i2]@.contains(x)) by {
                    assert(cl@[i] == c0[i]);
                    if i2 < c0.len() {
                        assert(cl@[i2] == c0[i2]);
                    }
                }
                assert forall|i: int, x: int| 0 <= i < cl@.len() && 0 <= x < cl@[i]@.len() implies (#[trigger] cl@[i]@[x]) < n by {
                    if i < c0.len() {
                        assert(cl@[i] == c0[i]);
                    }
                }
                assert forall|i: int| 0 <= i < cl@.len() implies increasing(#[trigger] cl@[i]@) by {
                    if i < c0.len() {
                        assert(cl@[i] == c0[i]);
                    }
                }
                assert forall|i: int| 0 <= i < cl@.len() implies (#[trigger] cl@[i])@.len() == target by {
                    if i < c0.len() {
                        assert(cl@[i] == c0[i]);
                    }
                }
            }
        }
    }
    proof {
        if !done {
            assert(unassigned@.len() == 0);
            assert(n == 0 || (MODULE_COUNT - cl@.len()) * target > 0) by (nonlinear_arith)
                requires
                    n == MODULE_COUNT * target,
                    cl@.len() < MODULE_COUNT,
            ;
        }
        let v = index_views(cl@);
        assert forall|i: int, x: int| 0 <= i < v.len() && 0 <= x < v[i].len() implies (#[trigger] v[i][x]) < n by {
            assert(v[i] == cl@[i]@);
        }
        assert forall|i: int, i2: int, x: usize| 0 <= i < i2 < v.len() implies !(#[trigger] v[i].contains(x) && #[trigger] v[i2].contains(x)) by {
            assert(v[i] == cl@[i]@ && v[i2] == cl@[i2]@);
        }
        assert forall|i: int| 0 <= i < v.len() implies increasing(#[trigger] v[i]) by {
            assert(v[i] == cl@[i]@);
        }
        assert forall|x: usize| x < n implies #[trigger] in_some_cluster(v, x) by {
        }
    }
    cl
}

/// Clusters `m1` and `m2` differ and hold linked gadgets.
pub open spec fn clusters_linked(w: Seq<Vec<usize>>, cl: Seq<Seq<usize>>, m1: int, m2: int) -> bool {
    m1 != m2 && exists|g1: usize, g2: usize| #![trigger cl[m1].contains(g1), cl[m2].contains(g2)]
        cl[m1].contains(g1) && cl[m2].contains(g2) && w[g1 as int]@[g2 as int] > 0
}

/// The cluster of each gadget.
fn cluster_of(cl: &Vec<Vec<usize>>, n: usize) -> (r: Vec<usize>)
    requires
        clusters_partition(index_views(cl@), n as int),
    ensures
        r@.len() == n,
        forall|j: int| 0 <= j < n ==> (#[trigger] r@[j]) < cl@.len() && cl@[r@[j] as int]@.contains(j as usize),
{
    let ghost v = index_views(cl@);
    let mut r: Vec<usize> = Vec::new();
    let mut j: usize = 0;
    while j < n
        invariant
            v == index_views(cl@),
            clusters_partition(v, n as int),
            0 <= j <= n,
            r@.len() == j,
            forall|q: int| 0 <= q < j ==> (#[trigger] r@[q]) < cl@.len() && cl@[r@[q] as int]@.contains(q as usize),
        decreases n - j,
    {
        let mut i: usize = 0;
        let mut found: usize = 0;
        let mut ok = false;
        while i < cl.len()
            invariant
                0 <= i <= cl@.len(),
                ok ==> found < cl@.len() && cl@[found as int]@.contains(j),
                !ok ==> forall|q: int| 0 <= q < i ==> !(#[trigger] cl@[q]@).contains(j),
            decreases cl@.len() - i,
        {
            if !ok {
                if position_of(&cl[i], j).is_some() {
                    found = i;
                    ok = true;
                }
            }
            i = i + 1;
        }
        proof {
            assert(in_some_cluster(v, j));
            let q = choose|q: int| 0 <= q < v.len() && #[trigger] v[q].contains(j);
            assert(v[q] == cl@[q]@);
        }
        r.push(found);
        j = j + 1;
    }
    r
}

/// The module graph: `adj[m1][m2]` exactly when clusters `m1` and `m2` are linked.
fn module_adjacency(w: &Vec<Vec<usize>>, cl: &Vec<Vec<usize>>, n: usize) -> (adj: Vec<Vec<bool>>)
    requires
        w@.len() == n,
        forall|a: int| 0 <= a < n ==> (#[trigger] w@[a])@.len() == n,
        clusters_partition(index_views(cl@), n as int),
        cl@.len() == MODULE_COUNT || (n == 0 && cl@.len() == 0),
    ensures
        adj@.len() == MODULE_COUNT,
        forall|m: int| 0 <= m < MODULE_COUNT ==> (#[trigger] adj@[m])@.len() == MODULE_COUNT,
        forall|m1: int, m2: int|
            0 <= m1 < MODULE_COUNT && 0 <= m2 < MODULE_COUNT ==> (#[trigger] adj@[m1]@[m2] <==> cl@.len() == MODULE_COUNT
                && clusters_linked(w@, index_views(cl@), m1, m2)),
{
    let ghost v = index_views(cl@);
    let g2c = cluster_of(cl, n);
    let mut adj: Vec<Vec<bool>> = Vec::new();
    let mut i: usize = 0;
    while i < MODULE_COUNT
        invariant
            0 <= i <= MODULE_COUNT,
            adj@.len() == i,
            forall|m: int| 0 <= m < i ==> (#[trigger] adj@[m])@.len() == MODULE_COUNT,
            forall|m: int, m2: int| 0 <= m < i && 0 <= m2 < MODULE_COUNT ==> !(#[trigger] adj@[m]@[m2]),
        decreases MODULE_COUNT - i,
    {
        let mut row: Vec<bool> = Vec::new();
        let mut k: usize = 0;
        while k < MODULE_COUNT
            invariant
                0 <= k <= MODULE_COUNT,
                row@.len() == k,
                forall|q: int| 0 <= q < k ==> !row@[q],
            decreases MODULE_COUNT - k,
        {
            row.push(false);
            k = k + 1;
        }
        adj.push(row);
        i = i + 1;
    }
    let mut g1: usize = 0;
    while g1 < n
        invariant
            v == index_views(cl@),
            w@.len() == n,
            forall|a: int| 0 <= a < n ==> (#[trigger] w@[a])@.len() == n,
            clusters_partition(v, n as int),
            cl@.len() == MODULE_COUNT || (n == 0 && cl@.len() == 0),
            g2c@.len() == n,
            forall|j: int| 0 <= j < n ==> (#[trigger] g2c@[j]) < cl@.len() && cl@[g2c@[j] as int]@.contains(j as usize),
            0 <= g1 <= n,
            adj@.len() == MODULE_COUNT,
            forall|m: int| 0 <= m < MODULE_COUNT ==> (#[trigger] adj@[m])@.len() == MODULE_COUNT,
            forall|m1: int, m2: int|
                0 <= m1 < MODULE_COUNT && 0 <= m2 < MODULE_COUNT ==> (#[trigger] adj@[m1]@[m2] <==> m1 != m2 && exists|a: usize, b: usize|
                    #![trigger v[m1].contains(a), v[m2].contains(b)]
                    a < g1 && v[m1].contains(a) && v[m2].contains(b) && w@[a as int]@[b as int] > 0),
        decreases n - g1,
    {
        let m1 = g2c[g1];
        let mut g2: usize = 0;
        while g2 < n
            invariant
                v == index_views(cl@),
                w@.len() == n,
                forall|a: int| 0 <= a < n ==> (#[trigger] w@[a])@.len() == n,
                clusters_partition(v, n as int),
                cl@.len() == MODULE_COUNT || (n == 0 && cl@.len() == 0),
                g2c@.len() == n,
                forall|j: int| 0 <= j < n ==> (#[trigger] g2c@[j]) < cl@.len() && cl@[g2c@[j] as int]@.contains(j as usize),
                0 <= g1 < n,
                m1 == g2c@[g1 as int],
                0 <= g2 <= n,
                adj@.len() == MODULE_COUNT,
                forall|m: int| 0 <= m < MODULE_COUNT ==> (#[trigger] adj@[m])@.len() == MODULE_COUNT,
                forall|x1: int, x2: int|
                    0 <= x1 < MODULE_COUNT && 0 <= x2 < MODULE_COUNT ==> (#[trigger] adj@[x1]@[x2] <==> x1 != x2 && ((exists|a: usize, b: usize|
                        #![trigger v[x1].contains(a), v[x2].contains(b)]
                        a < g1 && v[x1].contains(a) && v[x2].contains(b) && w@[a as int]@[b as int] > 0) || (x1 == m1 && exists|b: usize|
                        #![trigger v[x2].contains(b)]
                        b < g2 && v[x2].contains(b) && w@[g1 as int]@[b as int] > 0))),
            decreases n - g2,
        {
            let m2 = g2c[g2];
            let ghost a0 = adj@;
            if w[g1][g2] > 0 && m1 != m2 {
                let mut row = adj[m1].clone();
                row.set(m2, true);
                adj.set(m1, row);
            }
            proof {
                assert(v[m2 as int] == cl@[m2 as int]@);
                assert(v[m1 as int] == cl@[m1 as int]@);
                assert forall|x1: int, x2: int|
                    0 <= x1 < MODULE_COUNT && 0 <= x2 < MODULE_COUNT implies (#[trigger] adj@[x1]@[x2] <==> x1 != x2 && ((exists|a: usize, b: usize|
                        #![trigger v[x1].contains(a), v[x2].contains(b)]
                        a < g1 && v[x1].contains(a) && v[x2].contains(b) && w@[a as int]@[b as int] > 0) || (x1 == m1 && exists|b: usize|
                        #![trigger v[x2].contains(b)]
                        b < g2 + 1 && v[x2].contains(b) && w@[g1 as int]@[b as int] > 0))) by {
                    if !(w@[g1 as int]@[g2 as int] > 0 && m1 != m2) || !(x1 == m1 && x2 == m2) {
                        assert(adj@[x1]@[x2] == a0[x1]@[x2]);
                    }
                    if x1 == m1 && (exists|b: usize| #![trigger v[x2].contains(b)] b < g2 + 1 && v[x2].contains(b) && w@[g1 as int]@[b as int] > 0) {
                        let b = choose|b: usize| #![trigger v[x2].contains(b)] b < g2 + 1 && v[x2].contains(b) && w@[g1 as int]@[b as int] > 0;
                        if b == g2 && x2 != m2 {
                            assert(!(v[x2].contains(g2) && v[m2 as int].contains(g2))) by {
                                if x2 < m2 {
                                    assert(!(v[x2].contains(g2) && v[m2 as int].contains(g2)));
                                } else {
                                    assert(!(v[m2 as int].contains(g2) && v[x2].contains(g2)));
                                }
                            }
                        }
                    }
                }
            }
            g2 = g2 + 1;
        }
        proof {
            assert(v[m1 as int] == cl@[m1 as int]@);
            assert forall|x1: int, x2: int|
                0 <= x1 < MODULE_COUNT && 0 <= x2 < MODULE_COUNT implies (#[trigger] adj@[x1]@[x2] <==> x1 != x2 && exists|a: usize, b: usize|
                    #![trigger v[x1].contains(a), v[x2].contains(b)]
                    a < g1 + 1 && v[x1].contains(a) && v[x2].contains(b) && w@[a as int]@[b as int] > 0) by {
                if x1 == m1 && exists|b: usize| #![trigger v[x2].contains(b)] b < n && v[x2].contains(b) && w@[g1 as int]@[b as int] > 0 {
                    let b = choose|b: usize| #![trigger v[x2].contains(b)] b < n && v[x2].contains(b) && w@[g1 as int]@[b as int] > 0;
                    assert(g1 < g1 + 1 && v[x1].contains(g1) && v[x2].contains(b) && w@[g1 as int]@[b as int] > 0);
                }
                if x1 != x2 && exists|a: usize, b: usize|
                    #![trigger v[x1].contains(a), v[x2].contains(b)]
                    a < g1 + 1 && v[x1].contains(a) && v[x2].contains(b) && w@[a as int]@[b as int] > 0 {
                    let (a, b) = choose|a: usize, b: usize|
                        #![trigger v[x1].contains(a), v[x2].contains(b)]
                        a < g1 + 1 && v[x1].contains(a) && v[x2].contains(b) && w@[a as int]@[b as int] > 0;
                    if a == g1 {
                        if x1 != m1 {
                            if x1 < m1 {
                                assert(!(v[x1].contains(g1) && v[m1 as int].contains(g1)));
                            } else {
                                assert(!(v[m1 as int].contains(g1) && v[x1].contains(g1)));
                            }
                        }
                        assert(b < n) by {
                            let q = choose|q: int| 0 <= q < v[x2].len() && v[x2][q] == b;
                            assert(v[x2][q] < n);
                        }
                    }
                }
            }
        }
        g1 = g1 + 1;
    }
    proof {
        assert forall|m1: int, m2: int|
            0 <= m1 < MODULE_COUNT && 0 <= m2 < MODULE_COUNT implies (#[trigger] adj@[m1]@[m2] <==> cl@.len() == MODULE_COUNT
                && clusters_linked(w@, v, m1, m2)) by {
            if adj@[m1]@[m2] {
                let (a, b) = choose|a: usize, b: usize|
                    #![trigger v[m1].contains(a), v[m2].contains(b)]
                    a < n && v[m1].contains(a) && v[m2].contains(b) && w@[a as int]@[b as int] > 0;
                assert(cl@.len() == MODULE_COUNT);
            }
            if cl@.len() == MODULE_COUNT && clusters_linked(w@, v, m1, m2) {
                let (a, b) = choose|a: usize, b: usize| #![trigger v[m1].contains(a), v[m2].contains(b)]
                    v[m1].contains(a) && v[m2].contains(b) && w@[a as int]@[b as int] > 0;
                assert(a < n) by {
                    let q = choose|q: int| 0 <= q < v[m1].len() && v[m1][q] == a;
                    assert(v[m1][q] < n);
                }
            }
        }
    }
    adj
}

/// A simple path of the module graph from module 0.
pub open spec fn ring_path(adj: Seq<Vec<bool>>, p: Seq<usize>) -> bool {
    &&& p.len() >= 1
    &&& p[0] == 0
    &&& p.no_duplicates()
    &&& forall|i: int| 0 <= i < p.len() ==> (#[trigger] p[i]) < MODULE_COUNT
    &&& forall|i: int| 0 <= i < p.len() - 1 ==> adj[#[trigger] p[i] as int]@[p[i + 1] as int]
}

/// A Hamiltonian cycle of the module graph, listed from module 0.
pub open spec fn ring_ok(adj: Seq<Vec<bool>>, p: Seq<usize>) -> bool {
    &&& ring_path(adj, p)
    &&& p.len() == MODULE_COUNT
    &&& adj[p[p.len() - 1] as int]@[p[0] as int]
}

/// Two clusters of gadgets differ and some gadget of the first is joined by
/// an edge of `g` to some gadget of the second.
pub open spec fn clusters_joined(g: Graph, gs: Seq<ElementaryGadget>, cls: Seq<Seq<usize>>, m1: int, m2: int) -> bool {
    m1 != m2 && exists|g1: usize, g2: usize| #![trigger cls[m1].contains(g1), cls[m2].contains(g2)]
        cls[m1].contains(g1) && cls[m2].contains(g2) && gadgets_linked(g, gs, g1 as int, g2 as int)
}

/// The gadgets split into `MODULE_COUNT` clusters of equal size whose module
/// graph has no Hamiltonian cycle.
#[verifier::opaque]
pub open spec fn ringless_clustering(g: Graph, gs: Seq<ElementaryGadget>) -> bool {
    exists|cls: Seq<Seq<usize>>, adj: Seq<Vec<bool>>|
        #![trigger clusters_partition(cls, gs.len() as int), has_module_ring(adj)]
        clusters_partition(cls, gs.len() as int) && cls.len() == MODULE_COUNT && (forall|i: int|
            0 <= i < MODULE_COUNT ==> (#[trigger] cls[i]).len() == gs.len() / (MODULE_COUNT as nat)) && adj.len() == MODULE_COUNT
            && (forall|m: int| 0 <= m < MODULE_COUNT ==> (#[trigger] adj[m])@.len() == MODULE_COUNT) && (forall|m1: int, m2: int|
            0 <= m1 < MODULE_COUNT && 0 <= m2 < MODULE_COUNT ==> (#[trigger] adj[m1]@[m2] <==> clusters_joined(g, gs, cls, m1, m2)))
            && !has_module_ring(adj)
}

/// The clustering and module graph built from gadget links witness
/// `ringless_clustering` when no ring was found.
proof fn lemma_ringless(g: Graph, gs: Seq<ElementaryGadget>, w: Seq<Vec<usize>>, cls: Seq<Seq<usize>>, adj: Seq<Vec<bool>>)
    requires
        gs.len() > 0,
        w.len() == gs.len(),
        forall|a: int| 0 <= a < gs.len() ==> (#[trigger] w[a])@.len() == gs.len(),
        forall|a: int, b: int| 0 <= a < gs.len() && 0 <= b < gs.len() ==> (#[trigger] w[a]@[b] > 0 <==> gadgets_linked(g, gs, a, b)),
        clusters_partition(cls, gs.len() as int),
        cls.len() == MODULE_COUNT,
        forall|i: int| 0 <= i < cls.len() ==> (#[trigger] cls[i]).len() == gs.len() / (MODULE_COUNT as nat),
        adj.len() == MODULE_COUNT,
        forall|m: int| 0 <= m < MODULE_COUNT ==> (#[trigger] adj[m])@.len() == MODULE_COUNT,
        forall|m1: int, m2: int|
            0 <= m1 < MODULE_COUNT && 0 <= m2 < MODULE_COUNT ==> (#[trigger] adj[m1]@[m2] <==> clusters_linked(w, cls, m1, m2)),
        !has_module_ring(adj),
    ensures
        ringless_clustering(g, gs),
{
    assert forall|m1: int, m2: int| 0 <= m1 < MODULE_COUNT && 0 <= m2 < MODULE_COUNT implies (#[trigger] adj[m1]@[m2] <==> clusters_joined(
        g,
        gs,
        cls,
        m1,
        m2,
    )) by {
        if clusters_linked(w, cls, m1, m2) {
            let (g1, g2) = choose|g1: usize, g2: usize| #![trigger cls[m1].contains(g1), cls[m2].contains(g2)]
                cls[m1].contains(g1) && cls[m2].contains(g2) && w[g1 as int]@[g2 as int] > 0;
            let x1 = choose|x: int| 0 <= x < cls[m1].len() && cls[m1][x] == g1;
            let x2 = choose|x: int| 0 <= x < cls[m2].len() && cls[m2][x] == g2;
            assert(cls[m1][x1] < gs.len() && cls[m2][x2] < gs.len());
        }
        if clusters_joined(g, gs, cls, m1, m2) {
            let (g1, g2) = choose|g1: usize, g2: usize| #![trigger cls[m1].contains(g1), cls[m2].contains(g2)]
                cls[m1].contains(g1) && cls[m2].contains(g2) && gadgets_linked(g, gs, g1 as int, g2 as int);
            let x1 = choose|x: int| 0 <= x < cls[m1].len() && cls[m1][x] == g1;
            let x2 = choose|x: int| 0 <= x < cls[m2].len() && cls[m2][x] == g2;
            assert(cls[m1][x1] < gs.len() && cls[m2][x2] < gs.len());
            assert(w[g1 as int]@[g2 as int] > 0);
        }
    }
    reveal(ringless_clustering);
}

/// The module graph has a Hamiltonian cycle.
#[verifier::opaque]
pub open spec fn has_module_ring(adj: Seq<Vec<bool>>) -> bool {
    exists|q: Seq<usize>| ring_ok(adj, q)
}

/// Some Hamiltonian cycle of the module graph begins with `p`.
#[verifier::opaque]
pub open spec fn ring_extends(adj: Seq<Vec<bool>>, p: Seq<usize>) -> bool {
    exists|q: Seq<usize>| #[trigger] ring_ok(adj, q) && p.len() <= q.len() && q.subrange(0, p.len() as int) == p
}

/// The number of modules adjacent to `m`.
fn module_degree(adj: &Vec<Vec<bool>>, m: usize) -> (c: usize)
    requires
        m < adj@.len(),
    ensures
        c == true_count(adj@[m as int]@),
{
    let row = &adj[m];
    let mut c: usize = 0;
    let mut j: usize = 0;
    while j < row.len()
        invariant
            c <= j <= row@.len(),
            c == true_count(row@.take(j as int)),
        decreases row@.len() - j,
    {
        proof {
            assert(row@.take(j + 1).drop_last() == row@.take(j as int));
            assert(row@.take(j + 1).last() == row@[j as int]);
        }
        if row[j] {
            c = c + 1;
        }
        j = j + 1;
    }
    proof {
        assert(row@.take(row@.len() as int) == row@);
    }
    c
}

/// The number of `true` entries.
pub open spec fn true_count(row: Seq<bool>) -> nat
    decreases row.len(),
{
    if row.len() == 0 {
        0
    } else {
        true_count(row.drop_last()) + if row.last() {
            1nat
        } else {
            0nat
        }
    }
}

/// Whether module `x` may come next after `curr`: a neighbour not yet visited.
pub open spec fn ring_candidate(adj: Seq<Vec<bool>>, visited: Seq<bool>, curr: usize, x: usize) -> bool {
    x < MODULE_COUNT && adj[curr as int]@[x as int] && !visited[x as int]
}

/// The order in which candidates are tried: fewer neighbours first, then the
/// smaller module.
pub open spec fn ring_rank_lt(adj: Seq<Vec<bool>>, x: usize, y: usize) -> bool {
    let dx = true_count(adj[x as int]@);
    let dy = true_count(adj[y as int]@);
    dx < dy || (dx == dy && x < y)
}

spec fn key_lt(d1: usize, x1: usize, d2: usize, x2: usize) -> bool {
    d1 < d2 || (d1 == d2 && x1 < x2)
}

/// The unvisited neighbours of `curr`, by increasing number of neighbours
/// (smaller module first on ties).
fn ring_candidates(adj: &Vec<Vec<bool>>, curr: usize, visited: &Vec<bool>) -> (r: Vec<usize>)
    requires
        adj@.len() == MODULE_COUNT,
        forall|m: int| 0 <= m < MODULE_COUNT ==> (#[trigger] adj@[m])@.len() == MODULE_COUNT,
        curr < MODULE_COUNT,
        visited@.len() == MODULE_COUNT,
    ensures
        r@.no_duplicates(),
        forall|x: usize| r@.contains(x) <==> ring_candidate(adj@, visited@, curr, x),
        forall|x: int| 0 <= x < r@.len() ==> (#[trigger] r@[x]) < MODULE_COUNT && adj@[curr as int]@[r@[x] as int] && !visited@[r@[x] as int],
        forall|a: int, b: int| 0 <= a < b < r@.len() ==> ring_rank_lt(adj@, #[trigger] r@[a], #[trigger] r@[b]),
{
    let mut r: Vec<usize> = Vec::new();
    let mut deg: Vec<usize> = Vec::new();
    let mut j: usize = 0;
    while j < MODULE_COUNT
        invariant
            adj@.len() == MODULE_COUNT,
            forall|m: int| 0 <= m < MODULE_COUNT ==> (#[trigger] adj@[m])@.len() == MODULE_COUNT,
            curr < MODULE_COUNT,
            visited@.len() == MODULE_COUNT,
            0 <= j <= MODULE_COUNT,
            r@.len() == deg@.len(),
            forall|x: int| 0 <= x < r@.len() ==> (#[trigger] r@[x]) < j && ring_candidate(adj@, visited@, curr, r@[x]),
            forall|x: int| 0 <= x < r@.len() ==> #[trigger] deg@[x] == true_count(adj@[r@[x] as int]@),
            forall|a: int, b: int| 0 <= a < b < r@.len() ==> #[trigger] r@[a] < #[trigger] r@[b],
            forall|x: usize| x < j && #[trigger] ring_candidate(adj@, visited@, curr, x) ==> r@.contains(x),
        decreases MODULE_COUNT - j,
    {
        if adj[curr][j] && !visited[j] {
            let d = module_degree(adj, j);
            let ghost r0 = r@;
            r.push(j);
            deg.push(d);
            proof {
                assert(r@[r0.len() as int] == j);
                assert forall|x: usize| x < j + 1 && #[trigger] ring_candidate(adj@, visited@, curr, x) implies r@.contains(x) by {
                    if x < j {
                        assert(r0.contains(x));
                        let q = choose|q: int| 0 <= q < r0.len() && r0[q] == x;
                        assert(r@[q] == x);
                    } else {
                        assert(r@[r0.len() as int] == x);
                    }
                }
            }
        }
        j = j + 1;
    }
    let ghost r0 = r@;
    proof {
        assert forall|x: usize| r@.contains(x) <==> ring_candidate(adj@, visited@, curr, x) by {
            if r@.contains(x) {
                let q = choose|q: int| 0 <= q < r@.len() && r@[q] == x;
                assert(ring_candidate(adj@, visited@, curr, r@[q]));
            }
        }
        assert forall|a: int, b: int| 0 <= a < b < r@.len() implies r@[a] != r@[b] by {
            assert(r@[a] < r@[b]);
        }
    }
    let n = r.len();
    if n == 0 {
        return r;
    }
    let mut i: usize = 1;
    while i < n
        invariant
            n == r@.len(),
            deg@.len() == n,
            1 <= i <= n,
            r@.no_duplicates(),
            forall|x: usize| r@.contains(x) <==> ring_candidate(adj@, visited@, curr, x),
            forall|x: int| 0 <= x < n ==> #[trigger] deg@[x] == true_count(adj@[r@[x] as int]@),
            forall|a: int, b: int| 0 <= a < b < i ==> key_lt(#[trigger] deg@[a], r@[a], #[trigger] deg@[b], r@[b]),
            forall|a: int, z: int| 0 <= a < i && i <= z < n ==> #[trigger] r@[a] < #[trigger] r@[z],
            forall|a: int, b: int| i <= a < b < n ==> #[trigger] r@[a] < #[trigger] r@[b],
        decreases n - i,
    {
        let mut k: usize = i;
        while k > 0 && deg[k - 1] > deg[k]
            invariant
                n == r@.len(),
                deg@.len() == n,
                1 <= i < n,
                0 <= k <= i,
                r@.no_duplicates(),
                forall|x: usize| r@.contains(x) <==> ring_candidate(adj@, visited@, curr, x),
                forall|x: int| 0 <= x < n ==> #[trigger] deg@[x] == true_count(adj@[r@[x] as int]@),
                forall|a: int, b: int| 0 <= a < b <= i && a != k && b != k ==> key_lt(#[trigger] deg@[a], r@[a], #[trigger] deg@[b], r@[b]),
                forall|b: int| k < b <= i ==> key_lt(deg@[k as int], r@[k as int], #[trigger] deg@[b], r@[b]),
                forall|a: int| 0 <= a <= i && a != k ==> #[trigger] r@[a] < r@[k as int],
                forall|a: int, z: int| 0 <= a <= i && i < z < n ==> #[trigger] r@[a] < #[trigger] r@[z],
                forall|a: int, b: int| i < a < b < n ==> #[trigger] r@[a] < #[trigger] r@[b],
            decreases k,
        {
            let ghost rb = r@;
            let ghost db = deg@;
            let x = r[k - 1];
            let y = r[k];
            r.set(k - 1, y);
            r.set(k, x);
            let dx = deg[k - 1];
            let dy = deg[k];
            deg.set(k - 1, dy);
            deg.set(k, dx);
            proof {
                let kk = k as int;
                assert forall|z: int| 0 <= z < n implies r@[z] == rb[swapped(kk, z)] && deg@[z] == db[swapped(kk, z)]
                    && 0 <= swapped(kk, z) < n && swapped(kk, swapped(kk, z)) == z by {}
                assert forall|a: int, b: int| 0 <= a < b < n && a != b implies r@[a] != r@[b] by {
                    assert(rb[swapped(kk, a)] != rb[swapped(kk, b)]);
                }
                assert forall|v: usize| r@.contains(v) <==> #[trigger] ring_candidate(adj@, visited@, curr, v) by {
                    assert(rb.contains(v) <==> ring_candidate(adj@, visited@, curr, v));
                    if r@.contains(v) {
                        let q = choose|q: int| 0 <= q < n && r@[q] == v;
                        assert(rb[swapped(kk, q)] == v);
                    }
                    if rb.contains(v) {
                        let q = choose|q: int| 0 <= q < n && rb[q] == v;
                        assert(r@[swapped(kk, q)] == v);
                    }
                }
                assert forall|z: int| 0 <= z < n implies #[trigger] deg@[z] == true_count(adj@[r@[z] as int]@) by {
                    assert(db[swapped(kk, z)] == true_count(adj@[rb[swapped(kk, z)] as int]@));
                }
                assert forall|a: int, b: int| 0 <= a < b <= i && a != kk - 1 && b != kk - 1 implies key_lt(
                    #[trigger] deg@[a], r@[a], #[trigger] deg@[b], r@[b]) by {
                    if b == kk {
                        assert(key_lt(db[a], rb[a], db[kk - 1], rb[kk - 1]));
                    } else if a == kk {
                        assert(key_lt(db[kk - 1], rb[kk - 1], db[b], rb[b]));
                    } else {
                        assert(key_lt(db[a], rb[a], db[b], rb[b]));
                    }
                }
                assert forall|b: int| kk - 1 < b <= i implies key_lt(deg@[kk - 1], r@[kk - 1], #[trigger] deg@[b], r@[b]) by {
                    if b > kk {
                        assert(key_lt(db[kk], rb[kk], db[b], rb[b]));
                    }
                }
                assert forall|a: int| 0 <= a <= i && a != kk - 1 implies #[trigger] r@[a] < r@[kk - 1] by {
                    assert(rb[swapped(kk, a)] < rb[kk]);
                }
                assert forall|a: int, z: int| 0 <= a <= i && i < z < n implies #[trigger] r@[a] < #[trigger] r@[z] by {
                    assert(rb[swapped(kk, a)] < rb[z]);
                }
                assert forall|a: int, b: int| i < a < b < n implies #[trigger] r@[a] < #[trigger] r@[b] by {
                    assert(rb[a] < rb[b]);
                }
            }
            k = k - 1;
        }
        proof {
            let kk = k as int;
            if kk > 0 {
                assert(key_lt(deg@[kk - 1], r@[kk - 1], deg@[kk], r@[kk]));
            }
            assert forall|a: int, b: int| 0 <= a < b < i + 1 implies key_lt(#[trigger] deg@[a], r@[a], #[trigger] deg@[b], r@[b]) by {
                if a == kk {
                } else if b == kk {
                    if a < kk - 1 {
                        assert(key_lt(deg@[a], r@[a], deg@[kk - 1], r@[kk - 1]));
                    }
                }
            }
        }
        i = i + 1;
    }
    proof {
        assert forall|a: int, b: int| 0 <= a < b < r@.len() implies ring_rank_lt(adj@, #[trigger] r@[a], #[trigger] r@[b]) by {
            assert(key_lt(deg@[a], r@[a], deg@[b], r@[b]));
        }
        assert forall|x: int| 0 <= x < r@.len() implies (#[trigger] r@[x]) < MODULE_COUNT && adj@[curr as int]@[r@[x] as int] && !visited@[r@[x] as int] by {
            assert(r@.contains(r@[x]));
        }
    }
    r
}

/// Depth-first search for a Hamiltonian cycle of the module graph that
/// extends `path`, trying modules with fewer neighbours first.
fn find_module_ring(curr: usize, path: &mut Vec<usize>, visited: &mut Vec<bool>, adj: &Vec<Vec<bool>>) -> (found: bool)
    requires
        adj@.len() == MODULE_COUNT,
        forall|m: int| 0 <= m < MODULE_COUNT ==> (#[trigger] adj@[m])@.len() == MODULE_COUNT,
        ring_path(adj@, old(path)@),
        old(path)@.len() <= MODULE_COUNT,
        curr == old(path)@.last(),
        old(visited)@.len() == MODULE_COUNT,
        forall|j: int| 0 <= j < MODULE_COUNT ==> (old(visited)@[j] <==> #[trigger] old(path)@.contains(j as usize)),
    ensures
        found ==> ring_ok(adj@, final(path)@),
        !found ==> final(path)@ == old(path)@,
        !found ==> !ring_extends(adj@, old(path)@),
        final(visited)@.len() == MODULE_COUNT,
        !found ==> forall|j: int| 0 <= j < MODULE_COUNT ==> (final(visited)@[j] <==> #[trigger] final(path)@.contains(j as usize)),
    decreases MODULE_COUNT - old(path)@.len(),
{
    if path.len() == MODULE_COUNT {
        proof {
            lemma_full_ring_extends(adj@, path@);
        }
        return adj[curr][path[0]];
    }
    let cands = ring_candidates(adj, curr, visited);
    let ghost p0 = path@;
    let ghost v0 = visited@;
    proof {
        assert forall|x: int| 0 <= x < cands@.len() implies !p0.contains(#[trigger] cands@[x]) by {
            let j = cands@[x] as int;
            assert(!visited@[j]);
            assert((j as usize) == cands@[x]);
        }
    }
    let mut t: usize = 0;
    while t < cands.len()
        invariant
            adj@.len() == MODULE_COUNT,
            forall|m: int| 0 <= m < MODULE_COUNT ==> (#[trigger] adj@[m])@.len() == MODULE_COUNT,
            ring_path(adj@, p0),
            p0.len() < MODULE_COUNT,
            curr == p0.last(),
            path@ == p0,
            p0 == old(path)@,
            visited@.len() == MODULE_COUNT,
            forall|j: int| 0 <= j < MODULE_COUNT ==> (visited@[j] <==> #[trigger] p0.contains(j as usize)),
            forall|x: int| 0 <= x < cands@.len() ==> (#[trigger] cands@[x]) < MODULE_COUNT && adj@[curr as int]@[cands@[x] as int]
                && !p0.contains(cands@[x]),
            0 <= t <= cands@.len(),
            forall|x: usize| cands@.contains(x) <==> ring_candidate(adj@, v0, curr, x),
            forall|j: int| 0 <= j < MODULE_COUNT ==> (v0[j] <==> #[trigger] p0.contains(j as usize)),
            v0.len() == MODULE_COUNT,
            forall|u: int| 0 <= u < t ==> !ring_extends(adj@, p0.push(#[trigger] cands@[u])),
        decreases cands@.len() - t,
    {
        let nbr = cands[t];
        proof {
            assert(cands@[t as int] < MODULE_COUNT && adj@[curr as int]@[nbr as int] && !p0.contains(nbr));
        }
        visited.set(nbr, true);
        path.push(nbr);
        proof {
            let q = path@;
            assert(q == p0.push(nbr));
            assert forall|i: int| 0 <= i < q.len() - 1 implies adj@[#[trigger] q[i] as int]@[q[i + 1] as int] by {
                if i < p0.len() - 1 {
                    assert(q[i] == p0[i] && q[i + 1] == p0[i + 1]);
                } else {
                    assert(q[i] == curr && q[i + 1] == nbr);
                }
            }
            assert forall|i: int| 0 <= i < q.len() implies (#[trigger] q[i]) < MODULE_COUNT by {
                if i < p0.len() {
                    assert(q[i] == p0[i]);
                }
            }
            assert(q[0] == p0[0]);
            assert forall|j: int| 0 <= j < MODULE_COUNT implies (visited@[j] <==> #[trigger] q.contains(j as usize)) by {
                if q.contains(j as usize) && j != nbr {
                    let k = choose|k: int| 0 <= k < q.len() && q[k] == j as usize;
                    assert(p0[k] == j as usize);
                }
                if p0.contains(j as usize) {
                    let k = choose|k: int| 0 <= k < p0.len() && p0[k] == j as usize;
                    assert(q[k] == j as usize);
                }
                if j == nbr {
                    assert(q[p0.len() as int] == nbr);
                }
            }
        }
        if find_module_ring(nbr, path, visited, adj) {
            return true;
        }
        let ghost pushed = path@;
        path.pop();
        visited.set(nbr, false);
        proof {
            assert(path@ =~= p0);
            assert forall|j: int| 0 <= j < MODULE_COUNT implies (visited@[j] <==> #[trigger] p0.contains(j as usize)) by {
                if j != nbr {
                    assert(p0.push(nbr).contains(j as usize) <==> p0.contains(j as usize)) by {
                        let q = p0.push(nbr);
                        if q.contains(j as usize) {
                            let k = choose|k: int| 0 <= k < q.len() && q[k] == j as usize;
                            assert(p0[k] == j as usize);
                        }
                        if p0.contains(j as usize) {
                            let k = choose|k: int| 0 <= k < p0.len() && p0[k] == j as usize;
                            assert(q[k] == j as usize);
                        }
                    }
                }
            }
        }
        proof {
            assert(pushed == p0.push(cands@[t as int]));
        }
        t = t + 1;
    }
    proof {
        lemma_no_ring_extension(adj@, p0, v0, curr, cands@);
    }
    false
}

/// A cycle that extends a sequence of every module is that sequence.
proof fn lemma_full_ring_extends(adj: Seq<Vec<bool>>, p: Seq<usize>)
    requires
        p.len() == MODULE_COUNT,
    ensures
        ring_extends(adj, p) ==> ring_ok(adj, p),
{
    reveal(ring_extends);
    if ring_extends(adj, p) {
        let q = choose|q: Seq<usize>| #[trigger] ring_ok(adj, q) && p.len() <= q.len() && q.subrange(0, p.len() as int) == p;
        assert(q == q.subrange(0, q.len() as int));
    }
}

/// If no cycle extends `p` by any of its candidate successors, none extends `p`.
#[verifier::rlimit(40)]
proof fn lemma_no_ring_extension(adj: Seq<Vec<bool>>, p0: Seq<usize>, v0: Seq<bool>, curr: usize, cands: Seq<usize>)
    requires
        1 <= p0.len() < MODULE_COUNT,
        curr == p0.last(),
        v0.len() == MODULE_COUNT,
        forall|j: int| 0 <= j < MODULE_COUNT ==> (v0[j] <==> #[trigger] p0.contains(j as usize)),
        forall|x: usize| cands.contains(x) <==> ring_candidate(adj, v0, curr, x),
        forall|u: int| 0 <= u < cands.len() ==> !ring_extends(adj, p0.push(#[trigger] cands[u])),
    ensures
        !ring_extends(adj, p0),
{
    if ring_extends(adj, p0) {
        assert(exists|q: Seq<usize>| #[trigger] ring_ok(adj, q) && p0.len() <= q.len() && q.subrange(0, p0.len() as int) == p0) by {
            reveal(ring_extends);
        }
        let q = choose|q: Seq<usize>| #[trigger] ring_ok(adj, q) && p0.len() <= q.len() && q.subrange(0, p0.len() as int) == p0;
        let l = p0.len() as int;
        {
            let x = q[l];
            assert(q[l - 1] == p0[l - 1]);
            assert(adj[q[l - 1] as int]@[q[l] as int]);
            assert(x < MODULE_COUNT);
            assert(!p0.contains(x)) by {
                if p0.contains(x) {
                    let c = choose|c: int| 0 <= c < p0.len() && p0[c] == x;
                    assert(q[c] == x);
                    assert(q.no_duplicates());
                }
            }
            assert(p0.contains((x as int) as usize) == p0.contains(x));
            assert(!v0[x as int]);
            assert(ring_candidate(adj, v0, curr, x));
            assert(cands.contains(x));
            let u = choose|u: int| 0 <= u < cands.len() && cands[u] == x;
            assert(!ring_extends(adj, p0.push(cands[u])));
            assert(q.subrange(0, l + 1) == p0.push(x));
            assert(ring_extends(adj, p0.push(x))) by {
                reveal(ring_extends);
            }
        }
    }
}

/// A gadget class is closed under the gadget relation.
proof fn lemma_class_closed(g: Graph, keys: Seq<(i32, i32)>, r: i32)
    ensures
        gadget_closed(g, keys, gadget_class(g, keys, r)),
{
    assert forall|a: i32, b: i32| gadget_class(g, keys, r).contains(a) && #[trigger] gadget_edge(g, keys, a, b) implies gadget_class(g, keys, r).contains(b) by {
        let p = choose|p: Seq<i32>| #[trigger] gadget_walk(g, keys, p) && p[0] == r && p.last() == a;
        let q = p.push(b);
        assert forall|i: int| 0 <= i < q.len() - 1 implies gadget_edge(g, keys, #[trigger] q[i], q[i + 1]) by {
            if i < p.len() - 1 {
                assert(q[i] == p[i] && q[i + 1] == p[i + 1]);
            } else {
                assert(q[i] == a && q[i + 1] == b);
            }
        }
        assert(gadget_walk(g, keys, q));
        assert(q[0] == r && q.last() == b);
    }
}

/// `u` has a neighbour in `other`.
fn has_neighbour_in(g: &Graph, u: i32, set: &HashSet<i32>, Ghost(other): Ghost<Seq<i32>>) -> (b: bool)
    requires
        forall|x: i32| set@.contains(x) <==> other.contains(x),
    ensures
        b == exists|w: i32| #[trigger] g.has_edge(u, w) && other.contains(w),
{
    match g.neighbors(u) {
        Some(nbrs) => {
            let mut t: usize = 0;
            while t < nbrs.len()
                invariant
                    forall|x: i32| set@.contains(x) <==> other.contains(x),
                    g.adj().contains_key(u),
                    nbrs@ == g.adj()[u],
                    0 <= t <= nbrs@.len(),
                    forall|q: int| 0 <= q < t ==> !other.contains(#[trigger] nbrs@[q]),
                decreases nbrs@.len() - t,
            {
                if set.contains(&nbrs[t]) {
                    assert(g.has_edge(u, nbrs@[t as int]));
                    return true;
                }
                t = t + 1;
            }
            proof {
                assert forall|w: i32| #[trigger] g.has_edge(u, w) implies !other.contains(w) by {
                    let q = choose|q: int| 0 <= q < nbrs@.len() && nbrs@[q] == w;
                }
            }
            false
        },
        None => false,
    }
}

/// `v` lies in `vs` and has a neighbour in `other`.
pub open spec fn touches(g: Graph, vs: Seq<i32>, other: Seq<i32>, v: i32) -> bool {
    vs.contains(v) && exists|w: i32| #[trigger] g.has_edge(v, w) && other.contains(w)
}

/// The vertices of `vs` with a neighbour in `other`, in increasing order.
fn touching(g: &Graph, vs: &Vec<i32>, other_set: &HashSet<i32>, Ghost(other): Ghost<Seq<i32>>) -> (r: Vec<i32>)
    requires
        strictly_sorted(vs@),
        forall|x: i32| other_set@.contains(x) <==> other.contains(x),
    ensures
        strictly_sorted(r@),
        forall|v: i32| r@.contains(v) <==> touches(*g, vs@, other, v),
{
    let mut r: Vec<i32> = Vec::new();
    let mut k: usize = 0;
    while k < vs.len()
        invariant
            forall|x: i32| other_set@.contains(x) <==> other.contains(x),
            strictly_sorted(vs@),
            0 <= k <= vs@.len(),
            strictly_sorted(r@),
            forall|q: int| 0 <= q < r@.len() ==> exists|j: int| 0 <= j < k && vs@[j] == #[trigger] r@[q],
            forall|v: i32| r@.contains(v) <==> vs@.take(k as int).contains(v) && touches(*g, vs@, other, v),
        decreases vs@.len() - k,
    {
        let u = vs[k];
        let ghost r0 = r@;
        proof {
            assert forall|x: i32| vs@.take(k + 1).contains(x) <==> vs@.take(k as int).contains(x) || x == u by {
                lemma_take_one_more(vs@, k as int, x);
            }
            assert(vs@.contains(u)) by {
                assert(vs@[k as int] == u);
            }
        }
        if has_neighbour_in(g, u, other_set, Ghost(other)) {
            r.push(u);
            proof {
                assert forall|a: int, b: int| 0 <= a < b < r@.len() implies r@[a] < r@[b] by {
                    if b == r0.len() {
                        let j = choose|j: int| 0 <= j < k && vs@[j] == #[trigger] r0[a];
                        assert(vs@[j] < vs@[k as int]);
                    } else {
                        assert(r@[a] == r0[a] && r@[b] == r0[b]);
                    }
                }
                assert forall|q: int| 0 <= q < r@.len() implies exists|j: int| 0 <= j < k + 1 && vs@[j] == #[trigger] r@[q] by {
                    if q < r0.len() {
                        let j = choose|j: int| 0 <= j < k && vs@[j] == #[trigger] r0[q];
                        assert(vs@[j] == r@[q]);
                    } else {
                        assert(vs@[k as int] == r@[q]);
                    }
                }
                assert forall|v: i32| r@.contains(v) <==> vs@.take(k + 1).contains(v) && touches(*g, vs@, other, v) by {
                    if r@.contains(v) && v != u {
                        let j = choose|j: int| 0 <= j < r@.len() && r@[j] == v;
                        assert(r0[j] == v);
                    }
                    if r0.contains(v) {
                        let j = choose|j: int| 0 <= j < r0.len() && r0[j] == v;
                        assert(r@[j] == v);
                    }
                    if v == u {
                        assert(r@[r0.len() as int] == u);
                    }
                }
            }
        } else {
            proof {
                assert forall|q: int| 0 <= q < r@.len() implies exists|j: int| 0 <= j < k + 1 && vs@[j] == #[trigger] r@[q] by {
                    let j = choose|j: int| 0 <= j < k && vs@[j] == #[trigger] r@[q];
                    assert(vs@[j] == r@[q]);
                }
            }
        }
        k = k + 1;
    }
    assert(vs@.take(vs@.len() as int) == vs@);
    r
}

/// Membership in a concatenation.
proof fn lemma_concat_contains<A>(a: Seq<A>, b: Seq<A>, x: A)
    ensures
        (a + b).contains(x) <==> a.contains(x) || b.contains(x),
{
    let c = a + b;
    if c.contains(x) {
        let j = choose|j: int| 0 <= j < c.len() && c[j] == x;
        if j < a.len() {
            assert(a[j] == x);
        } else {
            assert(b[j - a.len()] == x);
        }
    }
    if a.contains(x) {
        let j = choose|j: int| 0 <= j < a.len() && a[j] == x;
        assert(c[j] == x);
    }
    if b.contains(x) {
        let j = choose|j: int| 0 <= j < b.len() && b[j] == x;
        assert(c[j + a.len()] == x);
    }
}

/// The vertices of the gadgets listed in `cluster`, in increasing order.
fn module_vertices(gadgets: &Vec<ElementaryGadget>, cluster: &Vec<usize>) -> (vs: Vec<i32>)
    requires
        forall|k: int| 0 <= k < cluster@.len() ==> (#[trigger] cluster@[k]) < gadgets@.len(),
    ensures
        strictly_sorted(vs@),
        forall|v: i32| vs@.contains(v) <==> exists|k: int|
            0 <= k < cluster@.len() && #[trigger] gadgets@[cluster@[k] as int].vertices@.contains(v),
{
    let mut all: Vec<i32> = Vec::new();
    let mut k: usize = 0;
    while k < cluster.len()
        invariant
            forall|q: int| 0 <= q < cluster@.len() ==> (#[trigger] cluster@[q]) < gadgets@.len(),
            0 <= k <= cluster@.len(),
            forall|v: i32| all@.contains(v) <==> exists|q: int|
                0 <= q < k && #[trigger] gadgets@[cluster@[q] as int].vertices@.contains(v),
        decreases cluster@.len() - k,
    {
        let gv = &gadgets[cluster[k]].vertices;
        let mut t: usize = 0;
        let ghost a0 = all@;
        while t < gv.len()
            invariant
                0 <= k < cluster@.len(),
                cluster@[k as int] < gadgets@.len(),
                gv@ == gadgets@[cluster@[k as int] as int].vertices@,
                0 <= t <= gv@.len(),
                all@ == a0 + gv@.take(t as int),
            decreases gv@.len() - t,
        {
            all.push(gv[t]);
            proof {
                assert(gv@.take(t + 1) == gv@.take(t as int).push(gv@[t as int]));
                assert(all@ =~= a0 + gv@.take(t + 1));
            }
            t = t + 1;
        }
        proof {
            assert(gv@.take(gv@.len() as int) == gv@);
            assert forall|v: i32| all@.contains(v) <==> exists|q: int|
                0 <= q < k + 1 && #[trigger] gadgets@[cluster@[q] as int].vertices@.contains(v) by {
                lemma_concat_contains(a0, gv@, v);
                if gv@.contains(v) {
                    assert(gadgets@[cluster@[k as int] as int].vertices@.contains(v));
                }
                if exists|q: int| 0 <= q < k + 1 && #[trigger] gadgets@[cluster@[q] as int].vertices@.contains(v) {
                    let q = choose|q: int| 0 <= q < k + 1 && #[trigger] gadgets@[cluster@[q] as int].vertices@.contains(v);
                    if q == k {
                        assert(gv@.contains(v));
                    }
                }
            }
        }
        k = k + 1;
    }
    sorted_distinct(&all)
}

/// The virtual edges of the gadgets listed in `cluster`, in increasing order.
fn module_virtual_edges(gadgets: &Vec<ElementaryGadget>, cluster: &Vec<usize>) -> (ve: Vec<(i32, i32)>)
    requires
        forall|k: int| 0 <= k < cluster@.len() ==> (#[trigger] cluster@[k]) < gadgets@.len(),
    ensures
        pairs_sorted(ve@),
        forall|e: (i32, i32)| ve@.contains(e) <==> exists|k: int|
            0 <= k < cluster@.len() && #[trigger] gadgets@[cluster@[k] as int].virtual_edges@.contains(e),
{
    let mut all: Vec<(i32, i32)> = Vec::new();
    let mut k: usize = 0;
    while k < cluster.len()
        invariant
            forall|q: int| 0 <= q < cluster@.len() ==> (#[trigger] cluster@[q]) < gadgets@.len(),
            0 <= k <= cluster@.len(),
            pairs_sorted(all@),
            forall|e: (i32, i32)| all@.contains(e) <==> exists|q: int|
                0 <= q < k && #[trigger] gadgets@[cluster@[q] as int].virtual_edges@.contains(e),
        decreases cluster@.len() - k,
    {
        let ge = &gadgets[cluster[k]].virtual_edges;
        let mut t: usize = 0;
        let ghost a0 = all@;
        while t < ge.len()
            invariant
                0 <= k < cluster@.len(),
                cluster@[k as int] < gadgets@.len(),
                ge@ == gadgets@[cluster@[k as int] as int].virtual_edges@,
                0 <= t <= ge@.len(),
                pairs_sorted(all@),
                forall|e: (i32, i32)| #![trigger all@.contains(e)] #![trigger a0.contains(e)] #![trigger ge@.take(t as int).contains(e)]
                    all@.contains(e) <==> a0.contains(e) || ge@.take(t as int).contains(e),
            decreases ge@.len() - t,
        {
            let e = ge[t];
            let ghost b0 = all@;
            insert_pair_sorted(&mut all, e);
            proof {
                assert forall|x: (i32, i32)| b0.contains(x) <==> a0.contains(x) || ge@.take(t as int).contains(x) by {
                }
                assert forall|x: (i32, i32)| ge@.take(t + 1).contains(x) <==> ge@.take(t as int).contains(x) || x == e by {
                    let p = ge@.take(t as int);
                    let q = ge@.take(t + 1);
                    assert(q == p.push(e));
                    if p.contains(x) {
                        let j = choose|j: int| 0 <= j < p.len() && p[j] == x;
                        assert(q[j] == x);
                    }
                    if q.contains(x) && x != e {
                        let j = choose|j: int| 0 <= j < q.len() && q[j] == x;
                        assert(p[j] == x);
                    }
                    if x == e {
                        assert(q[t as int] == x);
                    }
                }
            }
            t = t + 1;
        }
        proof {
            assert(ge@.take(ge@.len() as int) == ge@);
            assert forall|e: (i32, i32)| all@.contains(e) <==> exists|q: int|
                0 <= q < k + 1 && #[trigger] gadgets@[cluster@[q] as int].virtual_edges@.contains(e) by {
                assert(all@.contains(e) <==> a0.contains(e) || ge@.contains(e));
                if ge@.contains(e) {
                    assert(gadgets@[cluster@[k as int] as int].virtual_edges@.contains(e));
                }
                if exists|q: int| 0 <= q < k + 1 && #[trigger] gadgets@[cluster@[q] as int].virtual_edges@.contains(e) {
                    let q = choose|q: int| 0 <= q < k + 1 && #[trigger] gadgets@[cluster@[q] as int].virtual_edges@.contains(e);
                    if q == k {
                        assert(ge@.contains(e));
                    }
                }
            }
        }
        k = k + 1;
    }
    all
}

/// A module as reported at position `i` of the ring `ms`: a union of gadget
/// classes of vertices of `g`, in increasing order, with its internal virtual
/// edges and the vertices that touch its predecessor and its successor on the
/// ring, neither of them empty.
pub open spec fn module_ok(g: Graph, keys: Seq<(i32, i32)>, ms: Seq<Module42>, i: int) -> bool {
    let m = ms[i];
    let vs = m.vertices@;
    let prev = ms[(i + MODULE_COUNT - 1) % (MODULE_COUNT as int)].vertices@;
    let next = ms[(i + 1) % (MODULE_COUNT as int)].vertices@;
    &&& m.id == i
    &&& strictly_sorted(vs)
    &&& forall|v: i32| #[trigger] vs.contains(v) ==> gadget_class(g, keys, v).subset_of(vs.to_set())
    &&& forall|v: i32| #[trigger] vs.contains(v) ==> exists|r: i32| #[trigger] g.adj().contains_key(r) && gadget_class(g, keys, r).contains(v)
    &&& forall|e: (i32, i32)| m.virtual_edges@.contains(e) <==> internal_virtual_edge(keys, vs, e)
    &&& pairs_sorted(m.virtual_edges@)
    &&& strictly_sorted(m.ports_in@)
    &&& forall|v: i32| m.ports_in@.contains(v) <==> touches(g, vs, prev, v)
    &&& strictly_sorted(m.ports_out@)
    &&& forall|v: i32| m.ports_out@.contains(v) <==> touches(g, vs, next, v)
    &&& m.ports_in@.len() > 0
    &&& m.ports_out@.len() > 0
}

/// The ring of modules: `MODULE_COUNT` modules as `module_ok` says, pairwise
/// disjoint, covering every vertex of `g`.
pub open spec fn modules_ok(g: Graph, keys: Seq<(i32, i32)>, ms: Seq<Module42>) -> bool {
    &&& ms.len() == MODULE_COUNT
    &&& forall|i: int| 0 <= i < ms.len() ==> #[trigger] module_ok(g, keys, ms, i)
    &&& forall|i: int, j: int, x: i32| 0 <= i < j < ms.len() ==> !(#[trigger] ms[i].vertices@.contains(x) && #[trigger] ms[j].vertices@.contains(x))
    &&& forall|v: i32| g.adj().contains_key(v) ==> exists|i: int| 0 <= i < ms.len() && #[trigger] ms[i].vertices@.contains(v)
}

/// The vertex set of a gadget: closed under the gadget relation and the
/// class of its least vertex of `g`.
pub open spec fn gadget_set_facts(g: Graph, keys: Seq<(i32, i32)>, vs: Seq<i32>) -> bool {
    &&& gadget_closed(g, keys, vs.to_set())
    &&& g.adj().contains_key(least_vertex(g, vs))
    &&& vs.to_set() == gadget_class(g, keys, least_vertex(g, vs))
}

/// A reported gadget has the facts of a gadget vertex set.
proof fn lemma_gadget_set_facts(g: Graph, keys: Seq<(i32, i32)>, gd: ElementaryGadget, i: int)
    requires
        gadget_ok(g, keys, gd, i),
    ensures
        gadget_set_facts(g, keys, gd.vertices@),
        forall|e: (i32, i32)| gd.virtual_edges@.contains(e) <==> internal_virtual_edge(keys, gd.vertices@, e),
{
    reveal(gadget_ok);
    lemma_class_closed(g, keys, least_vertex(g, gd.vertices@));
}

/// A union of whole gadgets is a union of gadget classes of vertices of `g`.
proof fn lemma_module_classes(g: Graph, keys: Seq<(i32, i32)>, gv: Seq<Seq<i32>>, c: Seq<usize>, vs: Seq<i32>)
    requires
        forall|j: int| 0 <= j < gv.len() ==> #[trigger] gadget_set_facts(g, keys, gv[j]),
        forall|k: int| 0 <= k < c.len() ==> (#[trigger] c[k]) < gv.len(),
        forall|v: i32| vs.contains(v) <==> exists|k: int| 0 <= k < c.len() && #[trigger] gv[c[k] as int].contains(v),
    ensures
        forall|v: i32| #[trigger] vs.contains(v) ==> gadget_class(g, keys, v).subset_of(vs.to_set()),
        forall|v: i32| #[trigger] vs.contains(v) ==> exists|r: i32| #[trigger] g.adj().contains_key(r) && gadget_class(g, keys, r).contains(v),
{
    assert forall|v: i32| #[trigger] vs.contains(v) implies gadget_class(g, keys, v).subset_of(vs.to_set())
        && exists|r: i32| #[trigger] g.adj().contains_key(r) && gadget_class(g, keys, r).contains(v) by {
        let k = choose|k: int| 0 <= k < c.len() && #[trigger] gv[c[k] as int].contains(v);
        let j = c[k] as int;
        let sj = gv[j].to_set();
        assert(gadget_set_facts(g, keys, gv[j]));
        assert(sj.contains(v));
        assert forall|x: i32| gadget_class(g, keys, v).contains(x) implies vs.to_set().contains(x) by {
            let p = choose|p: Seq<i32>| #[trigger] gadget_walk(g, keys, p) && p[0] == v && p.last() == x;
            lemma_walk_closed(g, keys, sj, p);
            assert(gv[c[k] as int].contains(x));
        }
        let root = least_vertex(g, gv[j]);
        assert(gadget_class(g, keys, root).contains(v));
    }
}

/// The virtual edges of whole gadgets are the internal virtual edges of their union.
proof fn lemma_module_edges(
    g: Graph,
    keys: Seq<(i32, i32)>,
    gv: Seq<Seq<i32>>,
    ge: Seq<Seq<(i32, i32)>>,
    c: Seq<usize>,
    vs: Seq<i32>,
    ve: Seq<(i32, i32)>,
)
    requires
        ge.len() == gv.len(),
        forall|j: int| 0 <= j < gv.len() ==> #[trigger] gadget_set_facts(g, keys, gv[j]),
        forall|j: int, e: (i32, i32)| 0 <= j < gv.len() ==> (#[trigger] ge[j].contains(e) <==> internal_virtual_edge(keys, gv[j], e)),
        forall|k: int| 0 <= k < c.len() ==> (#[trigger] c[k]) < gv.len(),
        forall|v: i32| vs.contains(v) <==> exists|k: int| 0 <= k < c.len() && #[trigger] gv[c[k] as int].contains(v),
        forall|e: (i32, i32)| ve.contains(e) <==> exists|k: int| 0 <= k < c.len() && #[trigger] ge[c[k] as int].contains(e),
    ensures
        forall|e: (i32, i32)| ve.contains(e) <==> internal_virtual_edge(keys, vs, e),
{
    assert forall|e: (i32, i32)| ve.contains(e) <==> internal_virtual_edge(keys, vs, e) by {
        if ve.contains(e) {
            let k = choose|k: int| 0 <= k < c.len() && #[trigger] ge[c[k] as int].contains(e);
            let j = c[k] as int;
            assert(internal_virtual_edge(keys, gv[j], e));
            assert(gv[c[k] as int].contains(e.0));
            assert(gv[c[k] as int].contains(e.1));
        }
        if internal_virtual_edge(keys, vs, e) {
            let k = choose|k: int| 0 <= k < c.len() && #[trigger] gv[c[k] as int].contains(e.0);
            let j = c[k] as int;
            let sj = gv[j].to_set();
            assert(gadget_set_facts(g, keys, gv[j]));
            assert(sj.contains(e.0));
            assert(gadget_edge(g, keys, e.0, e.1));
            assert(sj.contains(e.1));
            assert(internal_virtual_edge(keys, gv[j], e));
            assert(ge[c[k] as int].contains(e));
        }
    }
}

/// The gadget vertex sets.
pub open spec fn gadget_vertex_sets(gs: Seq<ElementaryGadget>) -> Seq<Seq<i32>> {
    gs.map_values(|gd: ElementaryGadget| gd.vertices@)
}

/// The gadget virtual edge lists.
pub open spec fn gadget_edge_lists(gs: Seq<ElementaryGadget>) -> Seq<Seq<(i32, i32)>> {
    gs.map_values(|gd: ElementaryGadget| gd.virtual_edges@)
}

/// `v` lies in a gadget of the cluster `c`.
pub open spec fn in_cluster_gadgets(gv: Seq<Seq<i32>>, c: Seq<usize>, v: i32) -> bool {
    exists|k: int| 0 <= k < c.len() && #[trigger] gv[c[k] as int].contains(v)
}

/// The vertex lists of the modules, in ring order.
fn module_vertex_lists(gadgets: &Vec<ElementaryGadget>, cl: &Vec<Vec<usize>>, ring: &Vec<usize>) -> (mvs: Vec<Vec<i32>>)
    requires
        clusters_partition(index_views(cl@), gadgets@.len() as int),
        cl@.len() == MODULE_COUNT,
        ring@.len() == MODULE_COUNT,
        forall|i: int| 0 <= i < ring@.len() ==> (#[trigger] ring@[i]) < MODULE_COUNT,
    ensures
        mvs@.len() == MODULE_COUNT,
        forall|i: int| 0 <= i < MODULE_COUNT ==> strictly_sorted(#[trigger] mvs@[i]@),
        forall|i: int, v: i32|
            0 <= i < MODULE_COUNT ==> (#[trigger] mvs@[i]@.contains(v) <==> in_cluster_gadgets(
                gadget_vertex_sets(gadgets@),
                cl@[ring@[i] as int]@,
                v,
            )),
{
    let ghost gv = gadget_vertex_sets(gadgets@);
    let mut mvs: Vec<Vec<i32>> = Vec::new();
    let mut i: usize = 0;
    while i < MODULE_COUNT
        invariant
            gv == gadget_vertex_sets(gadgets@),
            clusters_partition(index_views(cl@), gadgets@.len() as int),
            cl@.len() == MODULE_COUNT,
            ring@.len() == MODULE_COUNT,
            forall|q: int| 0 <= q < ring@.len() ==> (#[trigger] ring@[q]) < MODULE_COUNT,
            0 <= i <= MODULE_COUNT,
            mvs@.len() == i,
            forall|q: int| 0 <= q < i ==> strictly_sorted(#[trigger] mvs@[q]@),
            forall|q: int, v: i32| 0 <= q < i ==> (#[trigger] mvs@[q]@.contains(v) <==> in_cluster_gadgets(gv, cl@[ring@[q] as int]@, v)),
        decreases MODULE_COUNT - i,
    {
        let m = ring[i];
        let c = &cl[m];
        proof {
            assert(index_views(cl@)[m as int] == c@);
            assert forall|k: int| 0 <= k < c@.len() implies (#[trigger] c@[k]) < gadgets@.len() by {
                assert(index_views(cl@)[m as int][k] < gadgets@.len());
            }
        }
        let vs = module_vertices(gadgets, c);
        let ghost m0 = mvs@;
        mvs.push(vs);
        proof {
            assert forall|q: int, v: i32| 0 <= q < i + 1 implies (#[trigger] mvs@[q]@.contains(v) <==> in_cluster_gadgets(gv, cl@[ring@[q] as int]@, v)) by {
                if q < i {
                    assert(mvs@[q] == m0[q]);
                } else {
                    assert(mvs@[q]@ == vs@);
                    if vs@.contains(v) {
                        let k = choose|k: int| 0 <= k < c@.len() && #[trigger] gadgets@[c@[k] as int].vertices@.contains(v);
                        assert(gv[c@[k] as int] == gadgets@[c@[k] as int].vertices@);
                    }
                    if in_cluster_gadgets(gv, c@, v) {
                        let k = choose|k: int| 0 <= k < c@.len() && #[trigger] gv[c@[k] as int].contains(v);
                        assert(gv[c@[k] as int] == gadgets@[c@[k] as int].vertices@);
                    }
                }
            }
            assert forall|q: int| 0 <= q < i + 1 implies strictly_sorted(#[trigger] mvs@[q]@) by {
                if q < i {
                    assert(mvs@[q] == m0[q]);
                }
            }
        }
        i = i + 1;
    }
    mvs
}

/// What holds of the module built at position `i` from the vertex lists `mvs`.
pub open spec fn built_module_ok(g: Graph, keys: Seq<(i32, i32)>, mvs: Seq<Seq<i32>>, m: Module42, i: int) -> bool {
    let vs = m.vertices@;
    let prev = mvs[(i + MODULE_COUNT - 1) % (MODULE_COUNT as int)];
    let next = mvs[(i + 1) % (MODULE_COUNT as int)];
    &&& m.id == i
    &&& vs == mvs[i]
    &&& strictly_sorted(vs)
    &&& forall|v: i32| #[trigger] vs.contains(v) ==> gadget_class(g, keys, v).subset_of(vs.to_set())
    &&& forall|v: i32| #[trigger] vs.contains(v) ==> exists|r: i32| #[trigger] g.adj().contains_key(r) && gadget_class(g, keys, r).contains(v)
    &&& forall|e: (i32, i32)| m.virtual_edges@.contains(e) <==> internal_virtual_edge(keys, vs, e)
    &&& pairs_sorted(m.virtual_edges@)
    &&& strictly_sorted(m.ports_in@)
    &&& forall|v: i32| m.ports_in@.contains(v) <==> touches(g, vs, prev, v)
    &&& strictly_sorted(m.ports_out@)
    &&& forall|v: i32| m.ports_out@.contains(v) <==> touches(g, vs, next, v)
    &&& m.ports_in@.len() > 0
    &&& m.ports_out@.len() > 0
}

/// The views of the module vertex lists.
pub open spec fn list_views(vs: Seq<Vec<i32>>) -> Seq<Seq<i32>> {
    vs.map_values(|v: Vec<i32>| v@)
}

/// Builds the modules in ring order, refusing a module that touches its
/// predecessor or its successor nowhere.
fn build_modules(
    g: &Graph,
    gadgets: &Vec<ElementaryGadget>,
    cl: &Vec<Vec<usize>>,
    ring: &Vec<usize>,
    mvs: &Vec<Vec<i32>>,
    Ghost(keys): Ghost<Seq<(i32, i32)>>,
) -> (r: Result<Vec<Module42>, RingError>)
    requires
        forall|j: int| 0 <= j < gadgets@.len() ==> #[trigger] gadget_set_facts(*g, keys, gadget_vertex_sets(gadgets@)[j]),
        forall|j: int, e: (i32, i32)|
            0 <= j < gadgets@.len() ==> (#[trigger] gadget_edge_lists(gadgets@)[j].contains(e) <==> internal_virtual_edge(
                keys,
                gadget_vertex_sets(gadgets@)[j],
                e,
            )),
        clusters_partition(index_views(cl@), gadgets@.len() as int),
        cl@.len() == MODULE_COUNT,
        ring@.len() == MODULE_COUNT,
        forall|i: int| 0 <= i < ring@.len() ==> (#[trigger] ring@[i]) < MODULE_COUNT,
        mvs@.len() == MODULE_COUNT,
        forall|i: int| 0 <= i < MODULE_COUNT ==> strictly_sorted(#[trigger] mvs@[i]@),
        forall|i: int, v: i32|
            0 <= i < MODULE_COUNT ==> (#[trigger] mvs@[i]@.contains(v) <==> in_cluster_gadgets(
                gadget_vertex_sets(gadgets@),
                cl@[ring@[i] as int]@,
                v,
            )),
    ensures
        r matches Ok(ms) ==> ms@.len() == MODULE_COUNT && forall|i: int|
            0 <= i < MODULE_COUNT ==> #[trigger] built_module_ok(*g, keys, list_views(mvs@), ms@[i], i),
        r matches Err(e) ==> e matches RingError::EmptyPorts { .. },
{
    let ghost gv = gadget_vertex_sets(gadgets@);
    let ghost ge = gadget_edge_lists(gadgets@);
    let ghost lv = list_views(mvs@);
    let mut modules: Vec<Module42> = Vec::new();
    let mut i: usize = 0;
    while i < MODULE_COUNT
        invariant
            gv == gadget_vertex_sets(gadgets@),
            ge == gadget_edge_lists(gadgets@),
            lv == list_views(mvs@),
            forall|j: int| 0 <= j < gadgets@.len() ==> #[trigger] gadget_set_facts(*g, keys, gv[j]),
            forall|j: int, e: (i32, i32)| 0 <= j < gadgets@.len() ==> (#[trigger] ge[j].contains(e) <==> internal_virtual_edge(keys, gv[j], e)),
            clusters_partition(index_views(cl@), gadgets@.len() as int),
            cl@.len() == MODULE_COUNT,
            ring@.len() == MODULE_COUNT,
            forall|q: int| 0 <= q < ring@.len() ==> (#[trigger] ring@[q]) < MODULE_COUNT,
            mvs@.len() == MODULE_COUNT,
            forall|q: int| 0 <= q < MODULE_COUNT ==> strictly_sorted(#[trigger] mvs@[q]@),
            forall|q: int, v: i32| 0 <= q < MODULE_COUNT ==> (#[trigger] mvs@[q]@.contains(v) <==> in_cluster_gadgets(gv, cl@[ring@[q] as int]@, v)),
            0 <= i <= MODULE_COUNT,
            modules@.len() == i,
            forall|q: int| 0 <= q < i ==> #[trigger] built_module_ok(*g, keys, lv, modules@[q], q),
        decreases MODULE_COUNT - i,
    {
        let prev_i = (i + MODULE_COUNT - 1) % MODULE_COUNT;
        let next_i = (i + 1) % MODULE_COUNT;
        let prev_set = member_set(&mvs[prev_i]);
        let next_set = member_set(&mvs[next_i]);
        let vs = mvs[i].clone();
        let m = ring[i];
        let c = &cl[m];
        proof {
            assert(vs@ =~= mvs@[i as int]@);
            assert(index_views(cl@)[m as int] == c@);
            assert forall|k: int| 0 <= k < c@.len() implies (#[trigger] c@[k]) < gadgets@.len() by {
                assert(index_views(cl@)[m as int][k] < gadgets@.len());
            }
        }
        let ve = module_virtual_edges(gadgets, c);
        let ports_in = touching(g, &vs, &prev_set, Ghost(mvs@[prev_i as int]@));
        let ports_out = touching(g, &vs, &next_set, Ghost(mvs@[next_i as int]@));
        if ports_in.len() == 0 || ports_out.len() == 0 {
            return Err(RingError::EmptyPorts { index: i, ports_in: ports_in.len(), ports_out: ports_out.len() });
        }
        proof {
            assert forall|k: int| 0 <= k < c@.len() implies (#[trigger] c@[k]) < gv.len() by {
            }
            assert forall|v: i32| vs@.contains(v) <==> exists|k: int| 0 <= k < c@.len() && #[trigger] gv[c@[k] as int].contains(v) by {
                assert(mvs@[i as int]@.contains(v) <==> in_cluster_gadgets(gv, c@, v));
            }
            assert forall|e: (i32, i32)| ve@.contains(e) <==> exists|k: int| 0 <= k < c@.len() && #[trigger] ge[c@[k] as int].contains(e) by {
                if ve@.contains(e) {
                    let k = choose|k: int| 0 <= k < c@.len() && #[trigger] gadgets@[c@[k] as int].virtual_edges@.contains(e);
                    assert(ge[c@[k] as int] == gadgets@[c@[k] as int].virtual_edges@);
                }
                if exists|k: int| 0 <= k < c@.len() && #[trigger] ge[c@[k] as int].contains(e) {
                    let k = choose|k: int| 0 <= k < c@.len() && #[trigger] ge[c@[k] as int].contains(e);
                    assert(ge[c@[k] as int] == gadgets@[c@[k] as int].virtual_edges@);
                }
            }
            lemma_module_classes(*g, keys, gv, c@, vs@);
            lemma_module_edges(*g, keys, gv, ge, c@, vs@, ve@);
            assert(lv[prev_i as int] == mvs@[prev_i as int]@);
            assert(lv[next_i as int] == mvs@[next_i as int]@);
            assert(lv[i as int] == mvs@[i as int]@);
        }
        let md = Module42 { id: i, vertices: vs, virtual_edges: ve, ports_in, ports_out };
        let ghost m0 = modules@;
        modules.push(md);
        proof {
            assert(built_module_ok(*g, keys, lv, modules@[i as int], i as int));
            assert forall|q: int| 0 <= q < i + 1 implies #[trigger] built_module_ok(*g, keys, lv, modules@[q], q) by {
                if q < i {
                    assert(modules@[q] == m0[q]);
                }
            }
        }
        i = i + 1;
    }
    Ok(modules)
}

/// The vertices of the first `k` gadgets of the cluster `c`.
spec fn cluster_prefix_set(gv: Seq<Seq<i32>>, c: Seq<usize>, k: int) -> Set<i32>
    decreases k,
{
    if k <= 0 {
        Set::empty()
    } else {
        cluster_prefix_set(gv, c, k - 1) + gv[c[k - 1] as int].to_set()
    }
}

/// The first `k` gadgets of an increasing cluster of pairwise disjoint
/// gadgets of 22 distinct vertices each hold `22 * k` vertices.
proof fn lemma_cluster_prefix_set(gv: Seq<Seq<i32>>, c: Seq<usize>, k: int)
    requires
        0 <= k <= c.len(),
        increasing(c),
        forall|q: int| 0 <= q < c.len() ==> (#[trigger] c[q]) < gv.len(),
        forall|j: int| 0 <= j < gv.len() ==> (#[trigger] gv[j]).len() == 22 && strictly_sorted(gv[j]),
        forall|a: int, b: int, x: i32| 0 <= a < b < gv.len() ==> !(#[trigger] gv[a].contains(x) && #[trigger] gv[b].contains(x)),
    ensures
        cluster_prefix_set(gv, c, k).finite(),
        cluster_prefix_set(gv, c, k).len() == 22 * k,
        forall|v: i32| cluster_prefix_set(gv, c, k).contains(v) <==> exists|q: int| 0 <= q < k && #[trigger] gv[c[q] as int].contains(v),
    decreases k,
{
    if k > 0 {
        lemma_cluster_prefix_set(gv, c, k - 1);
        let j = c[k - 1] as int;
        let sj = gv[j];
        assert(sj.no_duplicates()) by {
            assert forall|x: int, y: int| 0 <= x < sj.len() && 0 <= y < sj.len() && x != y implies sj[x] != sj[y] by {
                if x < y {
                    assert(sj[x] < sj[y]);
                } else {
                    assert(sj[y] < sj[x]);
                }
            }
        }
        sj.unique_seq_to_set();
        let before = cluster_prefix_set(gv, c, k - 1);
        assert(before.disjoint(sj.to_set())) by {
            assert forall|v: i32| before.contains(v) implies !sj.to_set().contains(v) by {
                let q = choose|q: int| 0 <= q < k - 1 && #[trigger] gv[c[q] as int].contains(v);
                assert(c[q] < c[k - 1]);
                if sj.contains(v) {
                    assert(gv[c[q] as int].contains(v) && gv[j].contains(v));
                }
            }
        }
        vstd::set_lib::lemma_set_disjoint_lens(before, sj.to_set());
        assert forall|v: i32| cluster_prefix_set(gv, c, k).contains(v) <==> exists|q: int| 0 <= q < k && #[trigger] gv[c[q] as int].contains(v) by {
            if before.contains(v) {
                let q = choose|q: int| 0 <= q < k - 1 && #[trigger] gv[c[q] as int].contains(v);
                assert(0 <= q < k);
            }
            if sj.contains(v) {
                assert(gv[c[k - 1] as int].contains(v));
            }
            if exists|q: int| 0 <= q < k && #[trigger] gv[c[q] as int].contains(v) {
                let q = choose|q: int| 0 <= q < k && #[trigger] gv[c[q] as int].contains(v);
                if q < k - 1 {
                    assert(before.contains(v));
                } else {
                    assert(sj.to_set().contains(v));
                }
            }
        }
    }
}

/// A strictly sorted list of exactly the vertices of the gadgets of an
/// increasing cluster, of pairwise disjoint gadgets of 22 distinct vertices
/// each, has 22 vertices per gadget of the cluster.
proof fn lemma_cluster_vertex_count(gv: Seq<Seq<i32>>, c: Seq<usize>, vs: Seq<i32>)
    requires
        increasing(c),
        forall|q: int| 0 <= q < c.len() ==> (#[trigger] c[q]) < gv.len(),
        forall|j: int| 0 <= j < gv.len() ==> (#[trigger] gv[j]).len() == 22 && strictly_sorted(gv[j]),
        forall|a: int, b: int, x: i32| 0 <= a < b < gv.len() ==> !(#[trigger] gv[a].contains(x) && #[trigger] gv[b].contains(x)),
        strictly_sorted(vs),
        forall|v: i32| vs.contains(v) <==> in_cluster_gadgets(gv, c, v),
    ensures
        vs.len() == 22 * c.len(),
{
    lemma_cluster_prefix_set(gv, c, c.len() as int);
    assert(vs.no_duplicates()) by {
        assert forall|x: int, y: int| 0 <= x < vs.len() && 0 <= y < vs.len() && x != y implies vs[x] != vs[y] by {
            if x < y {
                assert(vs[x] < vs[y]);
            } else {
                assert(vs[y] < vs[x]);
            }
        }
    }
    vs.unique_seq_to_set();
    assert(vs.to_set() =~= cluster_prefix_set(gv, c, c.len() as int));
}

/// The module vertex lists are pairwise disjoint and cover every vertex of `g`.
proof fn lemma_modules_partition(
    g: Graph,
    keys: Seq<(i32, i32)>,
    gs: Seq<ElementaryGadget>,
    cl: Seq<Seq<usize>>,
    ring: Seq<usize>,
    lv: Seq<Seq<i32>>,
)
    requires
        forall|a: int, b: int, x: i32| 0 <= a < b < gs.len() ==> !(#[trigger] gs[a].vertices@.contains(x) && #[trigger] gs[b].vertices@.contains(x)),
        gadgets_cover(g, gs),
        gs.len() <= usize::MAX,
        clusters_partition(cl, gs.len() as int),
        cl.len() == MODULE_COUNT,
        ring_path_perm(ring),
        lv.len() == MODULE_COUNT,
        forall|i: int, v: i32| 0 <= i < MODULE_COUNT ==> (#[trigger] lv[i].contains(v) <==> in_cluster_gadgets(gadget_vertex_sets(gs), cl[ring[i] as int], v)),
    ensures
        forall|i: int, j: int, x: i32| 0 <= i < j < lv.len() ==> !(#[trigger] lv[i].contains(x) && #[trigger] lv[j].contains(x)),
        forall|v: i32| g.adj().contains_key(v) ==> exists|i: int| 0 <= i < lv.len() && #[trigger] lv[i].contains(v),
{
    let gv = gadget_vertex_sets(gs);
    assert forall|i: int, j: int, x: i32| 0 <= i < j < lv.len() implies !(#[trigger] lv[i].contains(x) && #[trigger] lv[j].contains(x)) by {
        if lv[i].contains(x) && lv[j].contains(x) {
            let ci = cl[ring[i] as int];
            let cj = cl[ring[j] as int];
            let ka = choose|k: int| 0 <= k < ci.len() && #[trigger] gv[ci[k] as int].contains(x);
            let kb = choose|k: int| 0 <= k < cj.len() && #[trigger] gv[cj[k] as int].contains(x);
            let a = ci[ka];
            let b = cj[kb];
            assert(a < gs.len() && b < gs.len());
            assert(gs[a as int].vertices@.contains(x));
            assert(gs[b as int].vertices@.contains(x));
            if a < b {
                assert(!(gs[a as int].vertices@.contains(x) && gs[b as int].vertices@.contains(x)));
            } else if b < a {
                assert(!(gs[b as int].vertices@.contains(x) && gs[a as int].vertices@.contains(x)));
            }
            assert(a == b);
            assert(ci.contains(a) && cj.contains(a));
            let ri = ring[i] as int;
            let rj = ring[j] as int;
            if ri < rj {
                assert(!(cl[ri].contains(a) && cl[rj].contains(a)));
            } else if rj < ri {
                assert(!(cl[rj].contains(a) && cl[ri].contains(a)));
            }
            assert(ring[i] != ring[j]);
        }
    }
    assert forall|v: i32| g.adj().contains_key(v) implies exists|i: int| 0 <= i < lv.len() && #[trigger] lv[i].contains(v) by {
        let j = choose|j: int| 0 <= j < gs.len() && #[trigger] gs[j].vertices@.contains(v);
        assert(gv[j] == gs[j].vertices@);
        assert(in_some_cluster(cl, j as usize));
        let m = choose|m: int| 0 <= m < cl.len() && #[trigger] cl[m].contains(j as usize);
        crate::hub_sub_hcp::lemma_perm_covers(ring, MODULE_COUNT as int);
        assert(ring.contains(m as usize));
        let i = choose|i: int| 0 <= i < ring.len() && ring[i] == m as usize;
        let k = choose|k: int| 0 <= k < cl[m].len() && cl[m][k] == j as usize;
        assert(ring[i] as int == m);
        assert(cl[ring[i] as int] == cl[m]);
        assert(cl[m][k] as int == j);
        assert(gv[cl[ring[i] as int][k] as int].contains(v));
        assert(lv[i].contains(v));
    }
}

/// What `gadgets_ok` gives to the module construction.
proof fn lemma_gadgets_facts(g: Graph, keys: Seq<(i32, i32)>, gs: Seq<ElementaryGadget>)
    requires
        gadgets_ok(g, keys, gs),
    ensures
        forall|j: int| 0 <= j < gs.len() ==> #[trigger] gadget_set_facts(g, keys, gadget_vertex_sets(gs)[j]),
        forall|j: int, e: (i32, i32)|
            0 <= j < gs.len() ==> (#[trigger] gadget_edge_lists(gs)[j].contains(e) <==> internal_virtual_edge(
                keys,
                gadget_vertex_sets(gs)[j],
                e,
            )),
        forall|a: int, b: int, x: i32| 0 <= a < b < gs.len() ==> !(#[trigger] gs[a].vertices@.contains(x) && #[trigger] gs[b].vertices@.contains(x)),
        gadgets_cover(g, gs),
        forall|j: int| 0 <= j < gs.len() ==> (#[trigger] gadget_vertex_sets(gs)[j]).len() == 22 && strictly_sorted(gadget_vertex_sets(gs)[j]),
{
    reveal(gadgets_ok);
    assert forall|j: int| 0 <= j < gs.len() implies (#[trigger] gadget_vertex_sets(gs)[j]).len() == 22 && strictly_sorted(gadget_vertex_sets(gs)[j]) by {
        assert(gadget_ok(g, keys, gs[j], j));
        reveal(gadget_ok);
        assert(gadget_vertex_sets(gs)[j] == gs[j].vertices@);
    }
    assert forall|j: int| 0 <= j < gs.len() implies #[trigger] gadget_set_facts(g, keys, gadget_vertex_sets(gs)[j]) by {
        assert(gadget_ok(g, keys, gs[j], j));
        lemma_gadget_set_facts(g, keys, gs[j], j);
        assert(gadget_vertex_sets(gs)[j] == gs[j].vertices@);
    }
    assert forall|j: int, e: (i32, i32)|
        0 <= j < gs.len() implies (#[trigger] gadget_edge_lists(gs)[j].contains(e) <==> internal_virtual_edge(
            keys,
            gadget_vertex_sets(gs)[j],
            e,
        )) by {
        assert(gadget_ok(g, keys, gs[j], j));
        lemma_gadget_set_facts(g, keys, gs[j], j);
        assert(gadget_vertex_sets(gs)[j] == gs[j].vertices@);
        assert(gadget_edge_lists(gs)[j] == gs[j].virtual_edges@);
    }
}

/// A Hamiltonian cycle of the module graph from module 0, if the search finds one.
fn find_ring(adj: &Vec<Vec<bool>>) -> (r: Option<Vec<usize>>)
    requires
        adj@.len() == MODULE_COUNT,
        forall|m: int| 0 <= m < MODULE_COUNT ==> (#[trigger] adj@[m])@.len() == MODULE_COUNT,
    ensures
        match r {
            Some(ring) => ring_ok(adj@, ring@),
            None => !has_module_ring(adj@),
        },
{
    let mut ring: Vec<usize> = Vec::new();
    ring.push(0);
    let mut visited: Vec<bool> = Vec::new();
    let mut k: usize = 0;
    while k < MODULE_COUNT
        invariant
            0 <= k <= MODULE_COUNT,
            visited@.len() == k,
            forall|q: int| 0 <= q < k ==> visited@[q] == (q == 0),
        decreases MODULE_COUNT - k,
    {
        visited.push(k == 0);
        k = k + 1;
    }
    proof {
        assert(ring@ == seq![0usize]);
        assert forall|j: int| 0 <= j < MODULE_COUNT implies (visited@[j] <==> #[trigger] ring@.contains(j as usize)) by {
            if ring@.contains(j as usize) {
                let q = choose|q: int| 0 <= q < ring@.len() && ring@[q] == j as usize;
            }
            if j == 0 {
                assert(ring@[0] == 0);
            }
        }
    }
    let ghost start = ring@;
    if find_module_ring(0, &mut ring, &mut visited, adj) {
        Some(ring)
    } else {
        proof {
            reveal(has_module_ring);
            if exists|q: Seq<usize>| ring_ok(adj@, q) {
                let q = choose|q: Seq<usize>| ring_ok(adj@, q);
                assert(q.subrange(0, 1) == start);
                assert(ring_extends(adj@, start)) by {
                    reveal(ring_extends);
                }
            }
        }
        None
    }
}

/// The built modules satisfy `modules_ok`.
proof fn lemma_modules_ok(g: Graph, keys: Seq<(i32, i32)>, lv: Seq<Seq<i32>>, ms: Seq<Module42>)
    requires
        lv.len() == MODULE_COUNT,
        ms.len() == MODULE_COUNT,
        forall|i: int| 0 <= i < MODULE_COUNT ==> #[trigger] built_module_ok(g, keys, lv, ms[i], i),
        forall|i: int, j: int, x: i32| 0 <= i < j < lv.len() ==> !(#[trigger] lv[i].contains(x) && #[trigger] lv[j].contains(x)),
        forall|v: i32| g.adj().contains_key(v) ==> exists|i: int| 0 <= i < lv.len() && #[trigger] lv[i].contains(v),
    ensures
        modules_ok(g, keys, ms),
{
    assert forall|i: int| 0 <= i < ms.len() implies #[trigger] module_ok(g, keys, ms, i) by {
        assert(built_module_ok(g, keys, lv, ms[i], i));
        let pi = (i + MODULE_COUNT - 1) % (MODULE_COUNT as int);
        let ni = (i + 1) % (MODULE_COUNT as int);
        assert(0 <= pi < MODULE_COUNT);
        assert(0 <= ni < MODULE_COUNT);
        assert(built_module_ok(g, keys, lv, ms[pi], pi));
        assert(built_module_ok(g, keys, lv, ms[ni], ni));
        assert(ms[pi].vertices@ == lv[pi]);
        assert(ms[ni].vertices@ == lv[ni]);
    }
    assert forall|i: int, j: int, x: i32| 0 <= i < j < ms.len() implies !(#[trigger] ms[i].vertices@.contains(x) && #[trigger] ms[j].vertices@.contains(x)) by {
        assert(built_module_ok(g, keys, lv, ms[i], i));
        assert(built_module_ok(g, keys, lv, ms[j], j));
        assert(!(lv[i].contains(x) && lv[j].contains(x)));
    }
    assert forall|v: i32| g.adj().contains_key(v) implies exists|i: int| 0 <= i < ms.len() && #[trigger] ms[i].vertices@.contains(v) by {
        let i = choose|i: int| 0 <= i < lv.len() && #[trigger] lv[i].contains(v);
        assert(built_module_ok(g, keys, lv, ms[i], i));
    }
}

/// `ring` lists each module below `MODULE_COUNT` once.
pub open spec fn ring_path_perm(ring: Seq<usize>) -> bool {
    &&& ring.len() == MODULE_COUNT
    &&& ring.no_duplicates()
    &&& forall|i: int| 0 <= i < ring.len() ==> (#[trigger] ring[i]) < MODULE_COUNT
}

/// Clusters the gadgets by how many edges link them and looks for a cyclic
/// order of the clusters in which consecutive clusters are linked.
fn gadget_clusters_ring(g: &Graph, gadgets: &Vec<ElementaryGadget>) -> (res: (Vec<Vec<usize>>, Option<Vec<usize>>))
    requires
        g.wf(),
        gadgets.len() % MODULE_COUNT == 0,
        forall|a: int, b: int, x: i32| 0 <= a < b < gadgets@.len() ==> !(#[trigger] gadgets@[a].vertices@.contains(x) && #[trigger] gadgets@[b].vertices@.contains(x)),
        gadgets_cover(*g, gadgets@),
    ensures
        clusters_partition(index_views(res.0@), gadgets@.len() as int),
        res.1 matches Some(ring) ==> res.0@.len() == MODULE_COUNT && ring_path_perm(ring@),
        forall|i: int| 0 <= i < res.0@.len() ==> (#[trigger] res.0@[i])@.len() == gadgets@.len() / (MODULE_COUNT as nat),
        res.1 is None && gadgets@.len() > 0 ==> ringless_clustering(*g, gadgets@),
{
    let ghost gs = gadgets@;
    let n = gadgets.len();
    let index = gadget_index(gadgets);
    let w = gadget_links(g, gadgets, &index);
    let cl = cluster_gadgets(&w, n);
    let adj = module_adjacency(&w, &cl, n);
    let found = find_ring(&adj);
    match &found {
        Some(ring) => {
            proof {
                assert(adj@[ring@[0] as int]@[ring@[1] as int]);
                assert(cl@.len() == MODULE_COUNT);
            }
        },
        None => {
            proof {
                if n > 0 {
                    lemma_ringless(*g, gs, w@, index_views(cl@), adj@);
                }
            }
        },
    }
    (cl, found)
}

impl ModularRingDecomposer {
    /// Groups the elementary gadgets into `MODULE_COUNT` modules placed on a
    /// ring: gadgets are clustered greedily by how many edges link them,
    /// the clusters are ordered along a Hamiltonian cycle of the cluster
    /// graph found by depth-first search from cluster 0, and each module
    /// records the vertices that touch its predecessor and its successor.
    /// The errors of `extract_elementary_gadgets` are passed on; further a
    /// gadget count that is not a multiple of `MODULE_COUNT`, a cluster graph
    /// without a ring, and a module with no vertex touching a neighbour on
    /// the ring are refused.
    pub fn decompose(g: &Graph, contractor: &Degree2Contractor) -> (r: Result<Vec<Module42>, RingError>)
        requires
            g.wf(),
            contractor.wf(),
        ensures
            (r matches Err(RingError::EmptyGraph)) <==> g.adj().dom().len() == 0,
            (r matches Err(RingError::PartnerCoverage { .. })) <==> g.adj().dom().len() > 0
                && chain_end_vertices(contractor.keys()).len() != g.adj().dom().len(),
            r matches Err(RingError::PartnerCoverage { partners, vertices }) ==> partners == chain_end_vertices(
                contractor.keys(),
            ).len() && vertices == g.adj().dom().len(),
            r matches Err(RingError::GadgetSize { index, size }) ==> size != 22 && exists|v: i32|
                #[trigger] g.adj().contains_key(v) && gadget_class(*g, contractor.keys(), v).finite() && gadget_class(
                    *g,
                    contractor.keys(),
                    v,
                ).len() == size,
            (g.adj().dom().len() > 0 && chain_end_vertices(contractor.keys()).len() == g.adj().dom().len() && forall|v: i32|
                #[trigger] g.adj().contains_key(v) ==> gadget_class(*g, contractor.keys(), v).finite() && gadget_class(
                    *g,
                    contractor.keys(),
                    v,
                ).len() == 22) ==> !(r matches Err(RingError::GadgetSize { .. })),
            r matches Err(RingError::GadgetCount { count }) ==> count % MODULE_COUNT != 0 && exists|gs: Seq<ElementaryGadget>|
                gadgets_ok(*g, contractor.keys(), gs) && gs.len() == count,
            (r matches Err(RingError::NoRing)) || (r matches Err(RingError::EmptyPorts { .. })) ==> exists|gs: Seq<ElementaryGadget>|
                gadgets_ok(*g, contractor.keys(), gs) && gs.len() % (MODULE_COUNT as nat) == 0,
            r matches Err(RingError::NoRing) ==> exists|gs: Seq<ElementaryGadget>|
                gadgets_ok(*g, contractor.keys(), gs) && #[trigger] ringless_clustering(*g, gs),
            r matches Ok(ms) ==> modules_ok(*g, contractor.keys(), ms@),
            r matches Ok(ms) ==> exists|gs: Seq<ElementaryGadget>|
                gadgets_ok(*g, contractor.keys(), gs) && gs.len() % (MODULE_COUNT as nat) == 0 && forall|i: int|
                    0 <= i < ms@.len() ==> (#[trigger] ms@[i]).vertices@.len() == 22 * (gs.len() / (MODULE_COUNT as nat)),
    {
        let gadgets = match Self::extract_elementary_gadgets(g, contractor) {
            Ok(gs) => gs,
            Err(e) => {
                return Err(e);
            },
        };
        let ghost keys = contractor.keys();
        let ghost gs = gadgets@;
        let n = gadgets.len();
        if n % MODULE_COUNT != 0 {
            return Err(RingError::GadgetCount { count: n });
        }
        proof {
            lemma_gadgets_facts(*g, keys, gs);
        }
        let r = Self::ring_modules(g, &gadgets, Ghost(keys));
        proof {
            if r matches Err(RingError::NoRing) {
                assert(g.adj().dom().len() > 0);
                let v = g.adj().dom().choose();
                assert(g.adj().contains_key(v));
                assert(gadgets_ok(*g, keys, gs));
                assert(gs.len() > 0);
                assert(ringless_clustering(*g, gs));
            }
        }
        r
    }

    /// The ring modules of the gadgets `gadgets`, whose number is a multiple
    /// of `MODULE_COUNT`.
    #[verifier::spinoff_prover]
    #[verifier::rlimit(60)]
    fn ring_modules(g: &Graph, gadgets: &Vec<ElementaryGadget>, Ghost(keys): Ghost<Seq<(i32, i32)>>) -> (r: Result<
        Vec<Module42>,
        RingError,
    >)
        requires
            g.wf(),
            gadgets.len() % MODULE_COUNT == 0,
            forall|j: int| 0 <= j < gadgets@.len() ==> #[trigger] gadget_set_facts(*g, keys, gadget_vertex_sets(gadgets@)[j]),
            forall|j: int, e: (i32, i32)|
                0 <= j < gadgets@.len() ==> (#[trigger] gadget_edge_lists(gadgets@)[j].contains(e) <==> internal_virtual_edge(
                    keys,
                    gadget_vertex_sets(gadgets@)[j],
                    e,
                )),
            forall|a: int, b: int, x: i32| 0 <= a < b < gadgets@.len() ==> !(#[trigger] gadgets@[a].vertices@.contains(x) && #[trigger] gadgets@[b].vertices@.contains(x)),
            gadgets_cover(*g, gadgets@),
            forall|j: int| 0 <= j < gadgets@.len() ==> (#[trigger] gadget_vertex_sets(gadgets@)[j]).len() == 22 && strictly_sorted(gadget_vertex_sets(gadgets@)[j]),
        ensures
            r matches Ok(ms) ==> modules_ok(*g, keys, ms@),
            r matches Ok(ms) ==> forall|i: int| 0 <= i < ms@.len() ==> (#[trigger] ms@[i]).vertices@.len() == 22 * (gadgets@.len() / (MODULE_COUNT as nat)),
            r matches Err(e) ==> (e matches RingError::NoRing) || (e matches RingError::EmptyPorts { .. }),
            r matches Err(RingError::NoRing) && gadgets@.len() > 0 ==> ringless_clustering(*g, gadgets@),
    {
        let ghost gs = gadgets@;
        let (cl, found) = gadget_clusters_ring(g, gadgets);
        let ring = match found {
            Some(r) => r,
            None => {
                return Err(RingError::NoRing);
            },
        };
        let mvs = module_vertex_lists(gadgets, &cl, &ring);
        let built = build_modules(g, gadgets, &cl, &ring, &mvs, Ghost(keys));
        match built {
            Ok(ms) => {
                proof {
                    let lv = list_views(mvs@);
                    assert forall|i: int, v: i32| 0 <= i < MODULE_COUNT implies (#[trigger] lv[i].contains(v) <==> in_cluster_gadgets(gadget_vertex_sets(gs), index_views(cl@)[ring@[i] as int], v)) by {
                        assert(lv[i] == mvs@[i]@);
                        assert(index_views(cl@)[ring@[i] as int] == cl@[ring@[i] as int]@);
                    }
                    lemma_modules_partition(*g, keys, gs, index_views(cl@), ring@, lv);
                    lemma_modules_ok(*g, keys, lv, ms@);
                    let gv = gadget_vertex_sets(gs);
                    assert forall|a: int, b: int, x: i32| 0 <= a < b < gv.len() implies !(#[trigger] gv[a].contains(x) && #[trigger] gv[b].contains(x)) by {
                        assert(gv[a] == gs[a].vertices@ && gv[b] == gs[b].vertices@);
                    }
                    assert forall|i: int| 0 <= i < ms@.len() implies (#[trigger] ms@[i]).vertices@.len() == 22 * (gs.len() / (MODULE_COUNT as nat)) by {
                        assert(built_module_ok(*g, keys, lv, ms@[i], i));
                        let c = cl@[ring@[i] as int]@;
                        assert(index_views(cl@)[ring@[i] as int] == c);
                        assert(mvs@[i]@ == lv[i]);
                        lemma_cluster_vertex_count(gv, c, ms@[i].vertices@);
                    }
                }
                Ok(ms)
            },
            Err(e) => Err(e),
        }
    }
}

} // verus!
