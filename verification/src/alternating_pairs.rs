//! Detection of graphs whose degree-2 chains pair their end vertices into an
//! alternating structure: after contraction, the chain end pairs and the
//! remaining edges are walked from the first pair, and the structure is
//! accepted when the walk reaches at least both ends of every pair.
use crate::contraction::Degree2Contractor;
use crate::graph::Graph;
use crate::macro_solver::{insert_pair_sorted, pair_lt, pairs_sorted};
use crate::pair_cnf::{arcs_within, cnf_holds, distinct_ends, holds_end, pair_arc, pair_arcs, pair_cnf, pair_model_ok};
use crate::cycle_family::views;
use std::collections::HashMap;
use vstd::prelude::*;

verus! {

broadcast use vstd::std_specs::hash::group_hash_axioms;

/// The number of vertices of `vs` whose adjacency list has exactly two entries.
pub open spec fn count_degree2(g: Graph, vs: Seq<i32>) -> nat
    decreases vs.len(),
{
    if vs.len() == 0 {
        0
    } else {
        count_degree2(g, vs.drop_last()) + if g.degree_of(vs.last()) == 2 {
            1nat
        } else {
            0nat
        }
    }
}

/// `pairs` lists the chain end pairs `(u, w)` with `u < w`, in increasing
/// lexicographic order.
pub open spec fn chain_pairs(keys: Seq<(i32, i32)>, pairs: Seq<(i32, i32)>) -> bool {
    &&& pairs_sorted(pairs)
    &&& forall|k: (i32, i32)| pairs.contains(k) <==> keys.contains(k) && k.0 < k.1
}

/// Each end's partner: the other end of the last pair of `pairs` that holds it.
pub open spec fn partner_map_of(pairs: Seq<(i32, i32)>) -> Map<i32, i32>
    decreases pairs.len(),
{
    if pairs.len() == 0 {
        Map::empty()
    } else {
        let p = pairs.last();
        partner_map_of(pairs.drop_last()).insert(p.0, p.1).insert(p.1, p.0)
    }
}

/// One step of the walk: to the partner, or along an edge of the contracted
/// graph to a neighbour other than the partner (other than the label 0 where
/// there is no partner).
pub open spec fn alt_step(g: Graph, pm: Map<i32, i32>, x: i32, y: i32) -> bool {
    ||| pm.contains_key(x) && y == pm[x]
    ||| g.has_edge(x, y) && y != (if pm.contains_key(x) {
        pm[x]
    } else {
        0i32
    })
}

/// `w` is a walk made of such steps.
pub open spec fn alt_walk(g: Graph, pm: Map<i32, i32>, w: Seq<i32>) -> bool {
    &&& w.len() >= 1
    &&& forall|i: int| 0 <= i < w.len() - 1 ==> #[trigger] alt_step(g, pm, w[i], w[i + 1])
}

/// The vertices that walks from `a` or `b` reach.
pub open spec fn reached_set(g: Graph, pm: Map<i32, i32>, a: i32, b: i32) -> Set<i32> {
    Set::new(
        |x: i32|
            exists|w: Seq<i32>| #[trigger] alt_walk(g, pm, w) && (w[0] == a || w[0] == b) && w.last() == x,
    )
}

/// The acceptance test: at least 100 vertices of degree two in the raw graph,
/// making up at least a third of it; at least 50 chain pairs; and the walk
/// from the two ends of the first pair reaches at least twice as many
/// vertices as there are pairs.
pub open spec fn alternating_pairs_ok(raw: Graph, g: Graph, pairs: Seq<(i32, i32)>) -> bool {
    let d2 = count_degree2(raw, raw.vertices());
    let reached = reached_set(g, partner_map_of(pairs), pairs[0].0, pairs[0].1);
    &&& d2 >= 100
    &&& 3 * d2 >= raw.vertices().len()
    &&& pairs.len() >= 50
    &&& reached.finite()
    &&& reached.len() >= 2 * pairs.len()
}

/// The number of vertices of degree two.
fn degree2_count(raw: &Graph) -> (c: usize)
    requires
        raw.wf(),
    ensures
        c == count_degree2(*raw, raw.vertices()),
{
    let vs = raw.vertex_list();
    let mut c: usize = 0;
    let mut k: usize = 0;
    while k < vs.len()
        invariant
            vs@ == raw.vertices(),
            0 <= k <= vs@.len(),
            c <= k,
            c == count_degree2(*raw, vs@.take(k as int)),
        decreases vs@.len() - k,
    {
        proof {
            assert(vs@.take(k + 1).drop_last() == vs@.take(k as int));
            assert(vs@.take(k + 1).last() == vs@[k as int]);
        }
        if raw.degree(vs[k]) == 2 {
            c = c + 1;
        }
        k = k + 1;
    }
    proof {
        assert(vs@.take(vs@.len() as int) == vs@);
    }
    c
}

/// The chain end pairs `(u, w)` with `u < w`, in increasing lexicographic order.
fn sorted_chain_pairs(contractor: &Degree2Contractor) -> (pairs: Vec<(i32, i32)>)
    requires
        contractor.wf(),
    ensures
        chain_pairs(contractor.keys(), pairs@),
{
    let keys = contractor.chain_ends();
    let mut pairs: Vec<(i32, i32)> = Vec::new();
    let mut k: usize = 0;
    while k < keys.len()
        invariant
            keys@ == contractor.keys(),
            0 <= k <= keys@.len(),
            pairs_sorted(pairs@),
            forall|p: (i32, i32)| pairs@.contains(p) <==> keys@.take(k as int).contains(p) && p.0 < p.1,
        decreases keys@.len() - k,
    {
        let key = keys[k];
        let ghost t0 = keys@.take(k as int);
        let ghost t1 = keys@.take(k + 1);
        proof {
            assert(t1 == t0.push(key));
            assert forall|p: (i32, i32)| #[trigger] t1.contains(p) <==> t0.contains(p) || p == key by {
                if t0.contains(p) {
                    let j = choose|j: int| 0 <= j < t0.len() && t0[j] == p;
                    assert(t1[j] == p);
                }
                if t1.contains(p) && p != key {
                    let j = choose|j: int| 0 <= j < t1.len() && t1[j] == p;
                    assert(t0[j] == p);
                }
                assert(t1[k as int] == key);
            }
        }
        if key.0 < key.1 {
            insert_pair_sorted(&mut pairs, key);
        }
        k = k + 1;
    }
    proof {
        assert(keys@.take(keys@.len() as int) == keys@);
    }
    pairs
}

/// The partner map as a hash map.
fn build_partner_map(pairs: &Vec<(i32, i32)>) -> (m: HashMap<i32, i32>)
    ensures
        m@ == partner_map_of(pairs@),
{
    let mut m: HashMap<i32, i32> = HashMap::new();
    let mut k: usize = 0;
    while k < pairs.len()
        invariant
            0 <= k <= pairs@.len(),
            m@ == partner_map_of(pairs@.take(k as int)),
        decreases pairs@.len() - k,
    {
        let (u, w) = pairs[k];
        proof {
            assert(pairs@.take(k + 1).drop_last() == pairs@.take(k as int));
            assert(pairs@.take(k + 1).last() == pairs@[k as int]);
        }
        m.insert(u, w);
        m.insert(w, u);
        k = k + 1;
    }
    proof {
        assert(pairs@.take(pairs@.len() as int) == pairs@);
    }
    m
}

/// The partner map has a finite domain that holds both ends of every pair and
/// every partner.
proof fn lemma_partner_map(pairs: Seq<(i32, i32)>)
    ensures
        partner_map_of(pairs).dom().finite(),
        forall|x: i32| #[trigger] partner_map_of(pairs).contains_key(x) ==> partner_map_of(pairs).contains_key(partner_map_of(pairs)[x]),
        forall|i: int| 0 <= i < pairs.len() ==> partner_map_of(pairs).contains_key(#[trigger] pairs[i].0) && partner_map_of(pairs).contains_key(pairs[i].1),
    decreases pairs.len(),
{
    if pairs.len() > 0 {
        let pre = pairs.drop_last();
        lemma_partner_map(pre);
        assert forall|i: int| 0 <= i < pairs.len() implies partner_map_of(pairs).contains_key(#[trigger] pairs[i].0) && partner_map_of(pairs).contains_key(pairs[i].1) by {
            if i < pairs.len() - 1 {
                assert(pairs[i] == pre[i]);
            }
        }
    }
}

/// The state of the colouring walk: both start vertices coloured, every
/// coloured vertex in `univ`, coloured 0 or 1 and reached by its witness walk
/// from a start vertex; the stack lists coloured vertices once each; and every
/// coloured vertex off the stack, other than `skip`, has all its steps coloured.
pub open spec fn coloring_inv(
    g: Graph,
    pm: Map<i32, i32>,
    univ: Set<i32>,
    c: Map<i32, u8>,
    q: Seq<i32>,
    wit: Map<i32, Seq<i32>>,
    a: i32,
    b: i32,
    skip: Option<i32>,
) -> bool {
    &&& c.contains_key(a)
    &&& c.contains_key(b)
    &&& c.dom().subset_of(univ)
    &&& forall|x: i32|
        #[trigger] c.contains_key(x) ==> c[x] <= 1 && wit.contains_key(x) && alt_walk(g, pm, wit[x]) && (wit[x][0] == a
            || wit[x][0] == b) && wit[x].last() == x
    &&& forall|i: int| 0 <= i < q.len() ==> c.contains_key(#[trigger] q[i])
    &&& q.no_duplicates()
    &&& forall|x: i32, y: i32|
        c.contains_key(x) && !q.contains(x) && skip != Some(x) && #[trigger] alt_step(g, pm, x, y) ==> c.contains_key(y)
}

/// Colours `y`, one step from the coloured `curr`, and pushes it.
fn color_new(
    color: &mut HashMap<i32, u8>,
    q: &mut Vec<i32>,
    curr: i32,
    y: i32,
    val: u8,
    Ghost(g): Ghost<Graph>,
    Ghost(pm): Ghost<Map<i32, i32>>,
    Ghost(univ): Ghost<Set<i32>>,
    Ghost(wit): Ghost<Map<i32, Seq<i32>>>,
    Ghost(a): Ghost<i32>,
    Ghost(b): Ghost<i32>,
) -> (wit2: Ghost<Map<i32, Seq<i32>>>)
    requires
        coloring_inv(g, pm, univ, old(color)@, old(q)@, wit, a, b, Some(curr)),
        old(color)@.contains_key(curr),
        !old(q)@.contains(curr),
        !old(color)@.contains_key(y),
        alt_step(g, pm, curr, y),
        univ.contains(y),
        val <= 1,
    ensures
        coloring_inv(g, pm, univ, final(color)@, final(q)@, wit2@, a, b, Some(curr)),
        final(color)@.dom() == old(color)@.dom().insert(y),
        final(color)@[curr] == old(color)@[curr],
        final(q)@ == old(q)@.push(y),
        !final(q)@.contains(curr),
{
    let ghost c0 = color@;
    let ghost q0 = q@;
    color.insert(y, val);
    q.push(y);
    let ghost w2 = wit.insert(y, wit[curr].push(y));
    proof {
        let c1 = color@;
        let q1 = q@;
        assert(c1.dom() == c0.dom().insert(y));
        let wc = wit[curr];
        assert(c0.contains_key(curr));
        assert(alt_walk(g, pm, wc.push(y))) by {
            let wn = wc.push(y);
            assert forall|i: int| 0 <= i < wn.len() - 1 implies #[trigger] alt_step(g, pm, wn[i], wn[i + 1]) by {
                if i < wc.len() - 1 {
                    assert(wn[i] == wc[i] && wn[i + 1] == wc[i + 1]);
                    assert(alt_step(g, pm, wc[i], wc[i + 1]));
                } else {
                    assert(wn[i] == wc.last());
                }
            }
        }
        assert forall|x: i32| #[trigger] c1.contains_key(x) implies c1[x] <= 1 && w2.contains_key(x) && alt_walk(g, pm, w2[x])
            && (w2[x][0] == a || w2[x][0] == b) && w2[x].last() == x by {
            if x != y {
                assert(c0.contains_key(x));
            } else {
                assert(w2[x][0] == wc[0]);
            }
        }
        assert(!q0.contains(y)) by {
            if q0.contains(y) {
                let i = choose|i: int| 0 <= i < q0.len() && q0[i] == y;
                assert(c0.contains_key(q0[i]));
            }
        }
        assert forall|i: int| 0 <= i < q1.len() implies c1.contains_key(#[trigger] q1[i]) by {
            if i < q0.len() {
                assert(q1[i] == q0[i]);
                assert(c0.contains_key(q0[i]));
            }
        }
        assert(q1.no_duplicates()) by {
            assert forall|i: int, j: int| 0 <= i < j < q1.len() implies q1[i] != q1[j] by {
                if j == q0.len() {
                    assert(q0.contains(q0[i]));
                }
            }
        }
        assert forall|x: i32| q1.contains(x) <==> q0.contains(x) || x == y by {
            if q0.contains(x) {
                let i = choose|i: int| 0 <= i < q0.len() && q0[i] == x;
                assert(q1[i] == x);
            }
            if q1.contains(x) && x != y {
                let i = choose|i: int| 0 <= i < q1.len() && q1[i] == x;
                assert(q0[i] == x);
            }
            assert(q1[q0.len() as int] == y);
        }
        assert forall|x: i32, z: i32| c1.contains_key(x) && !q1.contains(x) && Some(curr) != Some(x) && #[trigger] alt_step(g, pm, x, z) implies c1.contains_key(z) by {
            assert(c0.contains_key(x));
        }
    }
    Ghost(w2)
}

/// Colours every uncoloured step of the popped vertex `curr`: first its
/// partner, then its neighbours other than the partner (other than 0 where
/// there is none), each with the colour opposite to that of `curr`.
fn visit(
    g: &Graph,
    partner: &HashMap<i32, i32>,
    color: &mut HashMap<i32, u8>,
    q: &mut Vec<i32>,
    curr: i32,
    Ghost(univ): Ghost<Set<i32>>,
    Ghost(wit): Ghost<Map<i32, Seq<i32>>>,
    Ghost(a): Ghost<i32>,
    Ghost(b): Ghost<i32>,
) -> (wit2: Ghost<Map<i32, Seq<i32>>>)
    requires
        g.wf(),
        univ == g.adj().dom().union(partner@.dom()),
        forall|x: i32| #[trigger] partner@.contains_key(x) ==> partner@.contains_key(partner@[x]),
        coloring_inv(*g, partner@, univ, old(color)@, old(q)@, wit, a, b, Some(curr)),
        old(color)@.contains_key(curr),
        !old(q)@.contains(curr),
    ensures
        coloring_inv(*g, partner@, univ, final(color)@, final(q)@, wit2@, a, b, None),
        old(color)@.dom().subset_of(final(color)@.dom()),
        final(color)@.dom().len() - old(color)@.dom().len() == final(q)@.len() - old(q)@.len(),
{
    proof {
        g.lemma_wf();
        assert(univ.finite());
        vstd::set_lib::lemma_len_subset(old(color)@.dom(), univ);
    }
    let ghost pm = partner@;
    let ghost c_start = color@;
    let ghost q_start = q@;
    let ghost mut w = wit;
    let curr_c = *color.get(&curr).unwrap();
    match partner.get(&curr) {
        Some(vp) => {
            let vp = *vp;
            if !color.contains_key(&vp) {
                let w2 = color_new(color, q, curr, vp, 1 - curr_c, Ghost(*g), Ghost(pm), Ghost(univ), Ghost(w), Ghost(a), Ghost(b));
                proof {
                    w = w2@;
                }
            }
        },
        None => {},
    }
    proof {
        vstd::set_lib::lemma_len_subset(color@.dom(), univ);
    }
    match g.neighbors(curr) {
        Some(nbrs) => {
            let vp = match partner.get(&curr) {
                Some(v) => *v,
                None => 0,
            };
            let mut j: usize = 0;
            while j < nbrs.len()
                invariant
                    g.wf(),
                    univ == g.adj().dom().union(pm.dom()),
                    pm == partner@,
                    coloring_inv(*g, pm, univ, color@, q@, w, a, b, Some(curr)),
                    color@.contains_key(curr),
                    color@[curr] == curr_c,
                    !q@.contains(curr),
                    g.adj().contains_key(curr),
                    nbrs@ == g.adj()[curr],
                    vp == (if pm.contains_key(curr) { pm[curr] } else { 0i32 }),
                    pm.contains_key(curr) ==> color@.contains_key(pm[curr]),
                    0 <= j <= nbrs@.len(),
                    forall|k: int| 0 <= k < j && nbrs@[k] != vp ==> color@.contains_key(#[trigger] nbrs@[k]),
                    c_start.dom().subset_of(color@.dom()),
                    color@.dom().len() - c_start.dom().len() == q@.len() - q_start.len(),
                    color@.dom().finite(),
                    univ.finite(),
                decreases nbrs@.len() - j,
            {
                let nxt = nbrs[j];
                proof {
                    g.lemma_wf();
                    assert(g.has_edge(curr, nxt)) by {
                        assert(nbrs@[j as int] == nxt);
                    }
                    assert(univ.contains(nxt));
                }
                if nxt != vp && !color.contains_key(&nxt) {
                    let ghost cb = color@;
                    let w2 = color_new(color, q, curr, nxt, 1 - curr_c, Ghost(*g), Ghost(pm), Ghost(univ), Ghost(w), Ghost(a), Ghost(b));
                    proof {
                        w = w2@;
                        assert(color@.dom() == cb.dom().insert(nxt));
                        assert(!cb.dom().contains(nxt));
                        vstd::set_lib::lemma_len_subset(color@.dom(), univ);
                    }
                }
                j = j + 1;
            }
        },
        None => {},
    }
    proof {
        let c = color@;
        assert forall|x: i32, y: i32| c.contains_key(x) && !q@.contains(x) && None::<i32> != Some(x) && #[trigger] alt_step(*g, pm, x, y) implies c.contains_key(y) by {
            if x == curr {
                if !(pm.contains_key(x) && y == pm[x]) {
                    assert(g.adj()[curr].contains(y));
                }
            } else {
                assert(Some(curr) != Some(x));
            }
        }
    }
    Ghost(w)
}

/// The colouring walk over a stack from `a` (colour 0) and `b` (colour 1):
/// each popped vertex gives its uncoloured partner, then its uncoloured
/// neighbours other than the partner, the colour opposite to its own. The
/// vertices coloured are those the walk reaches, each coloured 0 or 1.
pub fn alternating_colors(g: &Graph, partner: &HashMap<i32, i32>, a: i32, b: i32) -> (color: HashMap<i32, u8>)
    requires
        g.wf(),
        partner@.dom().finite(),
        forall|x: i32| #[trigger] partner@.contains_key(x) ==> partner@.contains_key(partner@[x]),
        partner@.contains_key(a),
        partner@.contains_key(b),
        a != b,
    ensures
        reached_set(*g, partner@, a, b).finite(),
        color@.dom() == reached_set(*g, partner@, a, b),
        forall|x: i32| #[trigger] color@.contains_key(x) ==> color@[x] <= 1,
{
    let ghost pm = partner@;
    let ghost univ = g.adj().dom().union(pm.dom());
    proof {
        g.lemma_wf();
    }
    let mut color: HashMap<i32, u8> = HashMap::new();
    color.insert(a, 0);
    color.insert(b, 1);
    let mut q: Vec<i32> = Vec::new();
    q.push(a);
    q.push(b);
    let ghost mut wit: Map<i32, Seq<i32>> = Map::empty().insert(a, seq![a]).insert(b, seq![b]);
    proof {
        let c = color@;
        assert(c.dom().subset_of(univ));
        assert forall|x: i32| #[trigger] c.contains_key(x) implies c[x] <= 1 && wit.contains_key(x) && alt_walk(*g, pm, wit[x])
            && (wit[x][0] == a || wit[x][0] == b) && wit[x].last() == x by {
        }
        assert(q@ == seq![a, b]);
        assert forall|x: i32, y: i32| c.contains_key(x) && !q@.contains(x) && None::<i32> != Some(x) && #[trigger] alt_step(*g, pm, x, y) implies c.contains_key(y) by {
            assert(q@[0] == a && q@[1] == b);
        }
        assert(coloring_inv(*g, pm, univ, color@, q@, wit, a, b, None));
    }
    while q.len() > 0
        invariant
            g.wf(),
            pm == partner@,
            univ == g.adj().dom().union(pm.dom()),
            univ.finite(),
            forall|x: i32| #[trigger] pm.contains_key(x) ==> pm.contains_key(pm[x]),
            coloring_inv(*g, pm, univ, color@, q@, wit, a, b, None),
        decreases 2 * univ.len() - 2 * color@.dom().len() + q@.len(),
    {
        proof {
            vstd::set_lib::lemma_len_subset(color@.dom(), univ);
        }
        let ghost q0 = q@;
        let ghost d0 = color@.dom().len();
        let ghost dom0 = color@.dom();
        let curr = q.pop().unwrap();
        proof {
            assert(q@ == q0.drop_last());
            assert(curr == q0.last());
            assert(!q@.contains(curr)) by {
                if q@.contains(curr) {
                    let i = choose|i: int| 0 <= i < q@.len() && q@[i] == curr;
                    assert(q0[i] == q0[q0.len() - 1]);
                }
            }
            assert(color@.contains_key(curr)) by {
                assert(color@.contains_key(q0[q0.len() - 1]));
            }
            let c = color@;
            assert forall|i: int| 0 <= i < q@.len() implies c.contains_key(#[trigger] q@[i]) by {
                assert(q@[i] == q0[i]);
                assert(c.contains_key(q0[i]));
            }
            assert forall|x: i32, y: i32| c.contains_key(x) && !q@.contains(x) && Some(curr) != Some(x) && #[trigger] alt_step(*g, pm, x, y) implies c.contains_key(y) by {
                if q0.contains(x) {
                    let i = choose|i: int| 0 <= i < q0.len() && q0[i] == x;
                    if i < q0.len() - 1 {
                        assert(q@[i] == x);
                    }
                }
            }
            assert(coloring_inv(*g, pm, univ, color@, q@, wit, a, b, Some(curr)));
        }
        let w2 = visit(g, partner, &mut color, &mut q, curr, Ghost(univ), Ghost(wit), Ghost(a), Ghost(b));
        proof {
            wit = w2@;
            vstd::set_lib::lemma_len_subset(color@.dom(), univ);
            vstd::set_lib::lemma_len_subset(dom0, color@.dom());
            assert(color@.dom().len() - d0 == q@.len() - (q0.len() - 1));
            assert(2 * univ.len() - 2 * color@.dom().len() + q@.len() < 2 * univ.len() - 2 * d0 + q0.len());
        }
    }
    proof {
        let c = color@;
        let rs = reached_set(*g, pm, a, b);
        assert forall|x: i32| rs.contains(x) <==> c.contains_key(x) by {
            if c.contains_key(x) {
                assert(alt_walk(*g, pm, wit[x]));
            }
            if rs.contains(x) {
                let w = choose|w: Seq<i32>| #[trigger] alt_walk(*g, pm, w) && (w[0] == a || w[0] == b) && w.last() == x;
                lemma_walk_colored(*g, pm, c, w);
            }
        }
        assert(rs == c.dom());
        vstd::set_lib::lemma_len_subset(c.dom(), univ);
    }
    color
}

/// The number of vertices the walk reaches from `a` and `b`.
fn reached_count(g: &Graph, partner: &HashMap<i32, i32>, a: i32, b: i32) -> (n: usize)
    requires
        g.wf(),
        partner@.dom().finite(),
        forall|x: i32| #[trigger] partner@.contains_key(x) ==> partner@.contains_key(partner@[x]),
        partner@.contains_key(a),
        partner@.contains_key(b),
        a != b,
    ensures
        reached_set(*g, partner@, a, b).finite(),
        n == reached_set(*g, partner@, a, b).len(),
{
    let color = alternating_colors(g, partner, a, b);
    color.len()
}

/// A walk that starts at a coloured vertex ends at one, once no coloured
/// vertex has an uncoloured step.
proof fn lemma_walk_colored(g: Graph, pm: Map<i32, i32>, c: Map<i32, u8>, w: Seq<i32>)
    requires
        alt_walk(g, pm, w),
        c.contains_key(w[0]),
        forall|x: i32, y: i32| c.contains_key(x) && #[trigger] alt_step(g, pm, x, y) ==> c.contains_key(y),
    ensures
        c.contains_key(w.last()),
    decreases w.len(),
{
    if w.len() > 1 {
        let w2 = w.drop_last();
        assert forall|i: int| 0 <= i < w2.len() - 1 implies #[trigger] alt_step(g, pm, w2[i], w2[i + 1]) by {
            assert(w2[i] == w[i] && w2[i + 1] == w[i + 1]);
            assert(alt_step(g, pm, w[i], w[i + 1]));
        }
        lemma_walk_colored(g, pm, c, w2);
        let i = w.len() - 2;
        assert(alt_step(g, pm, w[i], w[i + 1]));
    }
}

/// Two lexicographically increasing pair sequences with the same members are equal.
proof fn lemma_pairs_sorted_unique(a: Seq<(i32, i32)>, b: Seq<(i32, i32)>)
    requires
        pairs_sorted(a),
        pairs_sorted(b),
        forall|x: (i32, i32)| a.contains(x) <==> b.contains(x),
    ensures
        a == b,
    decreases a.len(),
{
    if a.len() == 0 {
        if b.len() > 0 {
            assert(b.contains(b[0]));
        }
        assert(a =~= b);
    } else {
        assert(a.contains(a[0]));
        assert(b.contains(b[0]));
        let j = choose|j: int| 0 <= j < b.len() && b[j] == a[0];
        let i = choose|i: int| 0 <= i < a.len() && a[i] == b[0];
        assert(a[0] == b[0]) by {
            if i > 0 {
                assert(pair_lt(a[0], a[i]));
            }
            if j > 0 {
                assert(pair_lt(b[0], b[j]));
            }
        }
        let a2 = a.drop_first();
        let b2 = b.drop_first();
        assert forall|x: (i32, i32)| a2.contains(x) <==> b2.contains(x) by {
            if a2.contains(x) {
                let k = choose|k: int| 0 <= k < a2.len() && a2[k] == x;
                assert(a[k + 1] == x);
                assert(pair_lt(a[0], a[k + 1]));
                assert(a.contains(x));
                let m = choose|m: int| 0 <= m < b.len() && b[m] == x;
                assert(m != 0);
                assert(b2[m - 1] == x);
            }
            if b2.contains(x) {
                let k = choose|k: int| 0 <= k < b2.len() && b2[k] == x;
                assert(b[k + 1] == x);
                assert(pair_lt(b[0], b[k + 1]));
                assert(b.contains(x));
                let m = choose|m: int| 0 <= m < a.len() && a[m] == x;
                assert(m != 0);
                assert(a2[m - 1] == x);
            }
        }
        lemma_pairs_sorted_unique(a2, b2);
        assert(a =~= b) by {
            assert forall|k: int| 0 <= k < a.len() implies a[k] == b[k] by {
                if k > 0 {
                    assert(a[k] == a2[k - 1]);
                    assert(b[k] == b2[k - 1]);
                }
            }
        }
    }
}

/// Whether the graph has many degree-2 chains whose end pairs, together with
/// the remaining edges of the contracted graph, form an alternating structure
/// that the two-colouring walk from the first pair covers. `g` and
/// `contractor` are the degree-2 contraction of `raw_g`. The answer is the
/// test `alternating_pairs_ok` on the chain pairs in increasing order.
pub fn can_solve_alternating_pairs(raw_g: &Graph, g: &Graph, contractor: &Degree2Contractor) -> (r: bool)
    requires
        raw_g.wf(),
        g.wf(),
        contractor.wf(),
    ensures
        exists|pairs: Seq<(i32, i32)>| chain_pairs(contractor.keys(), pairs),
        forall|pairs: Seq<(i32, i32)>|
            #[trigger] chain_pairs(contractor.keys(), pairs) ==> r == alternating_pairs_ok(*raw_g, *g, pairs),
{
    let deg2 = degree2_count(raw_g);
    let n = raw_g.num_vertices();
    let pairs = sorted_chain_pairs(contractor);
    proof {
        assert forall|p2: Seq<(i32, i32)>| #[trigger] chain_pairs(contractor.keys(), p2) implies p2 == pairs@ by {
            lemma_pairs_sorted_unique(p2, pairs@);
        }
    }
    if (deg2 as u128) < 100 || (deg2 as u128) * 3 < n as u128 {
        return false;
    }
    if pairs.len() < 50 {
        return false;
    }
    let partner = build_partner_map(&pairs);
    let (u0, w0) = pairs[0];
    proof {
        lemma_partner_map(pairs@);
        assert(partner@.contains_key(pairs@[0].0));
        assert(pairs@.contains(pairs@[0]));
    }
    let cnt = reached_count(g, &partner, u0, w0);
    (cnt as u128) >= (pairs.len() as u128) * 2
}

/// The encoding of the search for a tour of the pair graph: one node per
/// chain pair (its in end, then its out end), the arcs of the pair graph,
/// and the clauses over them (arc `i` is variable `i + 1`).
pub struct PairEncoding {
    pub nodes: Vec<(i32, i32)>,
    pub arcs: Vec<(usize, usize)>,
    pub clauses: Vec<Vec<i32>>,
}

/// Whether the ends of the nodes are pairwise distinct.
fn ends_distinct(nodes: &Vec<(i32, i32)>) -> (b: bool)
    ensures
        b == distinct_ends(nodes@),
{
    let mut p: usize = 0;
    while p < nodes.len()
        invariant
            0 <= p <= nodes@.len(),
            forall|x: int, y: int, v: i32| 0 <= x < p && holds_end(nodes@, x, v) && holds_end(nodes@, y, v) ==> x == y,
        decreases nodes@.len() - p,
    {
        let mut q: usize = 0;
        while q < nodes.len()
            invariant
                0 <= p < nodes@.len(),
                0 <= q <= nodes@.len(),
                forall|x: int, y: int, v: i32| 0 <= x < p && holds_end(nodes@, x, v) && holds_end(nodes@, y, v) ==> x == y,
                forall|y: int, v: i32| 0 <= y < q && holds_end(nodes@, p as int, v) && holds_end(nodes@, y, v) ==> p == y,
            decreases nodes@.len() - q,
        {
            if q != p {
                let (a, b) = nodes[p];
                let (c, d) = nodes[q];
                if a == c || a == d || b == c || b == d {
                    proof {
                        let v = if a == c || a == d { a } else { b };
                        assert(holds_end(nodes@, p as int, v) && holds_end(nodes@, q as int, v));
                    }
                    return false;
                }
            }
            q = q + 1;
        }
        p = p + 1;
    }
    proof {
        assert forall|x: int, y: int, v: i32| holds_end(nodes@, x, v) && holds_end(nodes@, y, v) implies x == y by {
            if y < x {
                assert(holds_end(nodes@, y, v) && holds_end(nodes@, x, v));
            }
        }
    }
    true
}

/// The encoding of the alternating pair search on the contracted graph `g`
/// and its chains: the chain pairs `(u, w)` with `u < w`, in increasing
/// order, each oriented by the colouring walk from the first pair (the in end
/// is `w` when `u` is coloured 1, `u` otherwise); the arcs of the pair graph;
/// and the clauses of `pair_cnf`. There is none when no chain pair has
/// `u < w`, when two pairs share an end, or when the arcs outnumber the
/// variables a clause can name.
pub fn alternating_pair_encoding(g: &Graph, contractor: &Degree2Contractor) -> (r: Option<PairEncoding>)
    requires
        g.wf(),
        contractor.wf(),
    ensures
        (forall|k: (i32, i32)| contractor.keys().contains(k) ==> k.0 >= k.1) ==> r is None,
        r matches Some(e) ==> {
            &&& e.nodes@.len() > 0
            &&& exists|pairs: Seq<(i32, i32)>|
                #[trigger] chain_pairs(contractor.keys(), pairs) && pairs.len() == e.nodes@.len() && forall|i: int|
                    0 <= i < pairs.len() ==> #[trigger] e.nodes@[i] == pairs[i] || e.nodes@[i] == (pairs[i].1, pairs[i].0)
            &&& distinct_ends(e.nodes@)
            &&& e.arcs@.no_duplicates()
            &&& e.arcs@.len() < 0x7fff_fff0
            &&& arcs_within(e.arcs@, e.nodes@.len() as usize)
            &&& forall|i: int| 0 <= i < e.arcs@.len() ==> #[trigger] pair_arc(*g, e.nodes@, e.arcs@[i].0 as int, e.arcs@[i].1 as int)
            &&& forall|p: int, q: int| #[trigger] pair_arc(*g, e.nodes@, p, q) ==> e.arcs@.contains((p as usize, q as usize))
            &&& forall|m: Seq<bool>| #[trigger] cnf_holds(m, views(e.clauses@)) <==> pair_model_ok(e.nodes@.len() as usize, e.arcs@, m)
        },
{
    let pairs = sorted_chain_pairs(contractor);
    if pairs.len() == 0 {
        proof {
            assert forall|k: (i32, i32)| contractor.keys().contains(k) && k.0 < k.1 implies false by {
                assert(pairs@.contains(k));
            }
        }
        return None;
    }
    let partner = build_partner_map(&pairs);
    let (u0, w0) = pairs[0];
    proof {
        lemma_partner_map(pairs@);
        assert(pairs@.contains(pairs@[0]));
    }
    let color = alternating_colors(g, &partner, u0, w0);
    let mut nodes: Vec<(i32, i32)> = Vec::new();
    let mut i: usize = 0;
    while i < pairs.len()
        invariant
            0 <= i <= pairs@.len(),
            nodes@.len() == i,
            forall|k: int| 0 <= k < i ==> #[trigger] nodes@[k] == pairs@[k] || nodes@[k] == (pairs@[k].1, pairs@[k].0),
        decreases pairs@.len() - i,
    {
        let (u, w) = pairs[i];
        let uc: u8 = match color.get(&u) {
            Some(c) => *c,
            None => 0,
        };
        if uc == 1 {
            nodes.push((w, u));
        } else {
            nodes.push((u, w));
        }
        i = i + 1;
    }
    if !ends_distinct(&nodes) {
        return None;
    }
    let arcs = pair_arcs(g, &nodes);
    if arcs.len() >= 0x7fff_fff0 {
        return None;
    }
    let clauses = pair_cnf(nodes.len(), &arcs);
    Some(PairEncoding { nodes, arcs, clauses })
}

} // verus!
