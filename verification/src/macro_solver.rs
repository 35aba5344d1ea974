//! The macro-graph of a family of subcycles: one macro node per subcycle, and
//! for each ordered pair of subcycles the graph edges ("connectors") that leave
//! the first at a breakable port and enter the second at a breakable port.
use crate::contraction::{is_safe_to_break, Degree2Contractor};
use crate::cycle_family::views;
use crate::graph::Graph;
use std::collections::HashMap;
use vstd::prelude::*;

verus! {

broadcast use vstd::std_specs::hash::group_hash_axioms;

/// Subcycles contracted to macro nodes.
pub struct MacroGraph {
    pub num_macro_nodes: usize,
    /// For each macro node, the macro nodes it has a connector to, increasing.
    pub macro_adj: Vec<Vec<usize>>,
    /// `connectors[i][j]`: the connector edges from subcycle `i` to subcycle
    /// `j`, in increasing order, each once (empty when there is none).
    pub connectors: Vec<Vec<Vec<(i32, i32)>>>,
    /// For each vertex, the subcycle and position where it was last seen.
    pub vertex_to_cycle: HashMap<i32, (usize, usize)>,
}

/// Solver that works on the macro-graph of a subcycle family.
pub struct MacroGraphSolver;

/// `m` with `(ci, p)` recorded for each of the first `n` positions `p` of
/// cycle `c`, later positions overwriting earlier ones.
pub open spec fn record_positions(m: Map<i32, (usize, usize)>, ci: int, c: Seq<i32>, n: int) -> Map<
    i32,
    (usize, usize),
>
    decreases n,
{
    if n <= 0 {
        m
    } else {
        record_positions(m, ci, c, n - 1).insert(c[n - 1], (ci as usize, (n - 1) as usize))
    }
}

/// Where each vertex was last seen when the first `n` cycles are scanned in order.
pub open spec fn positions_upto(cs: Seq<Seq<i32>>, n: int) -> Map<i32, (usize, usize)>
    decreases n,
{
    if n <= 0 {
        Map::empty()
    } else {
        record_positions(positions_upto(cs, n - 1), n - 1, cs[n - 1], cs[n - 1].len() as int)
    }
}

/// Where each vertex of the family was last seen (cycle, position).
pub open spec fn vertex_positions(cs: Seq<Seq<i32>>) -> Map<i32, (usize, usize)> {
    positions_upto(cs, cs.len() as int)
}

/// Index of the predecessor of position `pos` in a cycle of length `r`.
pub open spec fn pred_idx(pos: int, r: int) -> int {
    if pos == 0 {
        r - 1
    } else {
        pos - 1
    }
}

/// Index of the successor of position `pos` in a cycle of length `r`.
pub open spec fn succ_idx(pos: int, r: int) -> int {
    if pos + 1 == r {
        0
    } else {
        pos + 1
    }
}

/// Position `pos` of `c` is a port: the cycle has at most one vertex, or one
/// of the two cycle edges at `pos` may be broken.
pub open spec fn port_safe(c: Seq<i32>, pos: int, ctr: Degree2Contractor) -> bool {
    let r = c.len() as int;
    r <= 1 || !ctr.guarded(c[pred_idx(pos, r)], c[pos]) || !ctr.guarded(c[pos], c[succ_idx(pos, r)])
}

/// The edge `e` leaves cycle `ci` at its port `pos` and enters cycle `o`
/// (where its head was last seen) at a port.
pub open spec fn link_at(cs: Seq<Seq<i32>>, g: Graph, ctr: Degree2Contractor, ci: int, pos: int, o: int, e: (i32, i32)) -> bool {
    let vp = vertex_positions(cs);
    &&& 0 <= pos < cs[ci].len()
    &&& e.0 == cs[ci][pos]
    &&& port_safe(cs[ci], pos, ctr)
    &&& g.has_edge(e.0, e.1)
    &&& vp.contains_key(e.1)
    &&& vp[e.1].0 == o
    &&& o != ci
    &&& port_safe(cs[o], vp[e.1].1 as int, ctr)
}

/// `e` is a connector from cycle `ci` to cycle `o` through one of the first `b` positions of `ci`.
pub open spec fn linked_below(cs: Seq<Seq<i32>>, g: Graph, ctr: Degree2Contractor, ci: int, o: int, e: (i32, i32), b: int) -> bool {
    exists|pos: int| 0 <= pos < b && #[trigger] link_at(cs, g, ctr, ci, pos, o, e)
}

/// `e` is a connector from cycle `ci` to cycle `o`.
pub open spec fn linked(cs: Seq<Seq<i32>>, g: Graph, ctr: Degree2Contractor, ci: int, o: int, e: (i32, i32)) -> bool {
    linked_below(cs, g, ctr, ci, o, e, cs[ci].len() as int)
}

/// Lexicographic order on pairs.
pub open spec fn pair_lt(a: (i32, i32), b: (i32, i32)) -> bool {
    a.0 < b.0 || (a.0 == b.0 && a.1 < b.1)
}

/// `s` is strictly increasing in the lexicographic order.
pub open spec fn pairs_sorted(s: Seq<(i32, i32)>) -> bool {
    forall|a: int, b: int| 0 <= a < b < s.len() ==> pair_lt(s[a], s[b])
}

/// `s` is strictly increasing.
pub open spec fn indices_sorted(s: Seq<usize>) -> bool {
    forall|a: int, b: int| 0 <= a < b < s.len() ==> s[a] < s[b]
}

/// The connector matrix of `cs`: square, each entry sorted and holding
/// exactly the connectors of its pair.
pub open spec fn connectors_ok(cs: Seq<Seq<i32>>, g: Graph, ctr: Degree2Contractor, m: Seq<Vec<Vec<(i32, i32)>>>) -> bool {
    &&& m.len() == cs.len()
    &&& forall|i: int| 0 <= i < m.len() ==> (#[trigger] m[i])@.len() == cs.len()
    &&& forall|i: int, j: int|
        #![trigger m[i]@[j]]
        0 <= i < cs.len() && 0 <= j < cs.len() ==> pairs_sorted(m[i]@[j]@) && (forall|e: (i32, i32)|
            m[i]@[j]@.contains(e) <==> linked(cs, g, ctr, i, j, e))
}

/// Where the last sighting of a vertex points, that vertex stands.
proof fn lemma_record_positions(m: Map<i32, (usize, usize)>, ci: int, c: Seq<i32>, n: int, bound: int, cs: Seq<Seq<i32>>)
    requires
        0 <= ci < bound <= cs.len(),
        cs.len() <= usize::MAX,
        c.len() <= usize::MAX,
        cs[ci] == c,
        0 <= n <= c.len(),
        forall|v: i32| #[trigger] m.contains_key(v) ==> m[v].0 < ci && m[v].1 < cs[m[v].0 as int].len() && cs[m[v].0 as int][m[v].1 as int] == v,
    ensures
        forall|v: i32| #[trigger] record_positions(m, ci, c, n).contains_key(v) ==> record_positions(m, ci, c, n)[v].0 <= ci
            && record_positions(m, ci, c, n)[v].1 < cs[record_positions(m, ci, c, n)[v].0 as int].len()
            && cs[record_positions(m, ci, c, n)[v].0 as int][record_positions(m, ci, c, n)[v].1 as int] == v,
    decreases n,
{
    if n > 0 {
        lemma_record_positions(m, ci, c, n - 1, bound, cs);
        let prev = record_positions(m, ci, c, n - 1);
        let cur = record_positions(m, ci, c, n);
        assert(cur == prev.insert(c[n - 1], (ci as usize, (n - 1) as usize)));
        assert forall|v: i32| #[trigger] cur.contains_key(v) implies cur[v].0 <= ci && cur[v].1 < cs[cur[v].0 as int].len()
            && cs[cur[v].0 as int][cur[v].1 as int] == v by {
            if v == c[n - 1] {
                assert(cur[v] == (ci as usize, (n - 1) as usize));
            } else {
                assert(prev.contains_key(v));
                assert(cur[v] == prev[v]);
            }
        }
    }
}

/// Every recorded position is a position of that vertex in an earlier cycle.
pub proof fn lemma_positions_upto(cs: Seq<Seq<i32>>, n: int)
    requires
        0 <= n <= cs.len(),
        cs.len() <= usize::MAX,
        forall|i: int| 0 <= i < cs.len() ==> (#[trigger] cs[i]).len() <= usize::MAX,
    ensures
        forall|v: i32| #[trigger] positions_upto(cs, n).contains_key(v) ==> positions_upto(cs, n)[v].0 < n
            && positions_upto(cs, n)[v].1 < cs[positions_upto(cs, n)[v].0 as int].len()
            && cs[positions_upto(cs, n)[v].0 as int][positions_upto(cs, n)[v].1 as int] == v,
    decreases n,
{
    if n > 0 {
        lemma_positions_upto(cs, n - 1);
        lemma_record_positions(positions_upto(cs, n - 1), n - 1, cs[n - 1], cs[n - 1].len() as int, n, cs);
    }
}

/// Whether `a` comes before `b` lexicographically.
fn pair_less(a: (i32, i32), b: (i32, i32)) -> (r: bool)
    ensures
        r == pair_lt(a, b),
{
    a.0 < b.0 || (a.0 == b.0 && a.1 < b.1)
}

/// Inserts `p` into the strictly increasing `v` unless it is already there.
pub fn insert_pair_sorted(v: &mut Vec<(i32, i32)>, p: (i32, i32))
    requires
        pairs_sorted(old(v)@),
    ensures
        pairs_sorted(final(v)@),
        forall|q: (i32, i32)| final(v)@.contains(q) <==> old(v)@.contains(q) || q == p,
{
    let mut i: usize = 0;
    while i < v.len() && pair_less(v[i], p)
        invariant
            v@ == old(v)@,
            pairs_sorted(v@),
            0 <= i <= v@.len(),
            forall|j: int| 0 <= j < i ==> pair_lt(v@[j], p),
        decreases v@.len() - i,
    {
        i = i + 1;
    }
    if i < v.len() && v[i].0 == p.0 && v[i].1 == p.1 {
        assert(v@[i as int] == p);
        assert(v@.contains(p));
        return;
    }
    let ghost old_v = v@;
    assert(old_v == old(v)@);
    v.insert(i, p);
    proof {
        assert(v@ == old_v.insert(i as int, p));
        assert forall|a: int, b: int| 0 <= a < b < v@.len() implies pair_lt(v@[a], v@[b]) by {
            if b < i {
            } else if a < i && b == i {
            } else if a < i {
                assert(pair_lt(old_v[a], p));
                assert(!pair_lt(old_v[i as int], p));
                assert(old_v[i as int] != p);
                if b - 1 > i {
                    assert(pair_lt(old_v[i as int], old_v[b - 1]));
                }
            } else if a == i {
                assert(!pair_lt(old_v[i as int], p));
                assert(old_v[i as int] != p);
                if b - 1 > i {
                    assert(pair_lt(old_v[i as int], old_v[b - 1]));
                }
            } else {
                assert(pair_lt(old_v[a - 1], old_v[b - 1]));
            }
        }
        assert forall|q: (i32, i32)| v@.contains(q) <==> old_v.contains(q) || q == p by {
            if v@.contains(q) {
                let j = choose|j: int| 0 <= j < v@.len() && v@[j] == q;
                if j < i {
                    assert(old_v[j] == q);
                } else if j > i {
                    assert(old_v[j - 1] == q);
                }
            }
            if old_v.contains(q) {
                let j = choose|j: int| 0 <= j < old_v.len() && old_v[j] == q;
                if j < i {
                    assert(v@[j] == q);
                } else {
                    assert(v@[j + 1] == q);
                }
            }
            if q == p {
                assert(v@[i as int] == p);
            }
        }
        assert forall|q: (i32, i32)| v@.contains(q) <==> old(v)@.contains(q) || q == p by {
            assert(v@.contains(q) <==> old_v.contains(q) || q == p);
        }
    }
}

/// Whether position `pos` of `c` is a port.
fn port_is_safe(c: &Vec<i32>, pos: usize, contractor: &Degree2Contractor) -> (b: bool)
    requires
        contractor.wf(),
        pos < c@.len(),
    ensures
        b == port_safe(c@, pos as int, *contractor),
{
    let r = c.len();
    if r <= 1 {
        return true;
    }
    let pred = if pos == 0 {
        c[r - 1]
    } else {
        c[pos - 1]
    };
    let succ = if pos + 1 == r {
        c[0]
    } else {
        c[pos + 1]
    };
    is_safe_to_break(pred, c[pos], contractor) || is_safe_to_break(c[pos], succ, contractor)
}

/// The lengths of a family of vectors fit in `usize`.
pub proof fn lemma_lengths_fit(cycles: &[Vec<i32>])
    ensures
        views(cycles@).len() <= usize::MAX,
        forall|i: int| 0 <= i < views(cycles@).len() ==> (#[trigger] views(cycles@)[i]).len() <= usize::MAX,
{
    assert(cycles.len() == cycles@.len());
    assert forall|i: int| 0 <= i < views(cycles@).len() implies (#[trigger] views(cycles@)[i]).len() <= usize::MAX by {
        assert(cycles@[i].len() == cycles@[i]@.len());
    }
}

/// The last position of every vertex of the family.
pub(crate) fn positions_map(cycles: &[Vec<i32>]) -> (m: HashMap<i32, (usize, usize)>)
    ensures
        m@ == vertex_positions(views(cycles@)),
{
    let ghost cs = views(cycles@);
    let mut m: HashMap<i32, (usize, usize)> = HashMap::new();
    let mut ci: usize = 0;
    while ci < cycles.len()
        invariant
            cs == views(cycles@),
            0 <= ci <= cycles@.len(),
            m@ == positions_upto(cs, ci as int),
        decreases cycles@.len() - ci,
    {
        let c = &cycles[ci];
        assert(cs[ci as int] == c@);
        let mut p: usize = 0;
        while p < c.len()
            invariant
                cs == views(cycles@),
                0 <= ci < cycles@.len(),
                cs[ci as int] == c@,
                0 <= p <= c@.len(),
                m@ == record_positions(positions_upto(cs, ci as int), ci as int, c@, p as int),
            decreases c@.len() - p,
        {
            m.insert(c[p], (ci, p));
            p = p + 1;
        }
        ci = ci + 1;
    }
    m
}

/// A `k` by `k` matrix of empty connector lists.
fn empty_matrix(k: usize) -> (m: Vec<Vec<Vec<(i32, i32)>>>)
    ensures
        m@.len() == k,
        forall|i: int| 0 <= i < k ==> (#[trigger] m@[i])@.len() == k,
        forall|i: int, j: int| 0 <= i < k && 0 <= j < k ==> (#[trigger] m@[i]@[j])@.len() == 0,
{
    let mut m: Vec<Vec<Vec<(i32, i32)>>> = Vec::new();
    let mut i: usize = 0;
    while i < k
        invariant
            0 <= i <= k,
            m@.len() == i,
            forall|a: int| 0 <= a < i ==> (#[trigger] m@[a])@.len() == k,
            forall|a: int, j: int| 0 <= a < i && 0 <= j < k ==> (#[trigger] m@[a]@[j])@.len() == 0,
        decreases k - i,
    {
        let mut row: Vec<Vec<(i32, i32)>> = Vec::new();
        let mut j: usize = 0;
        while j < k
            invariant
                0 <= j <= k,
                row@.len() == j,
                forall|b: int| 0 <= b < j ==> (#[trigger] row@[b])@.len() == 0,
            decreases k - j,
        {
            row.push(Vec::new());
            j = j + 1;
        }
        m.push(row);
        i = i + 1;
    }
    m
}

/// Square shape and sorted entries of a connector matrix under construction.
pub open spec fn matrix_shape(m: Seq<Vec<Vec<(i32, i32)>>>, k: int) -> bool {
    &&& m.len() == k
    &&& forall|i: int| 0 <= i < k ==> (#[trigger] m[i])@.len() == k
    &&& forall|i: int, j: int| 0 <= i < k && 0 <= j < k ==> pairs_sorted((#[trigger] m[i]@[j])@)
}

/// Adds the connectors leaving cycle `ci` at position `pos`.
fn scan_port(
    cycles: &[Vec<i32>],
    g: &Graph,
    contractor: &Degree2Contractor,
    vtc: &HashMap<i32, (usize, usize)>,
    ci: usize,
    pos: usize,
    conns: &mut Vec<Vec<Vec<(i32, i32)>>>,
)
    requires
        contractor.wf(),
        ci < cycles@.len(),
        pos < cycles@[ci as int]@.len(),
        vtc@ == vertex_positions(views(cycles@)),
        matrix_shape(old(conns)@, cycles@.len() as int),
    ensures
        matrix_shape(final(conns)@, cycles@.len() as int),
        forall|i: int, j: int, e: (i32, i32)|
            0 <= i < cycles@.len() && 0 <= j < cycles@.len() ==> (#[trigger] final(conns)@[i]@[j]@.contains(e) <==> old(
                conns,
            )@[i]@[j]@.contains(e) || (i == ci && link_at(views(cycles@), *g, *contractor, ci as int, pos as int, j, e))),
{
    let ghost cs = views(cycles@);
    let ghost k = cycles@.len() as int;
    proof {
        lemma_lengths_fit(cycles);
        lemma_positions_upto(cs, cs.len() as int);
        assert(cs[ci as int] == cycles@[ci as int]@);
    }
    let c = &cycles[ci];
    if !port_is_safe(c, pos, contractor) {
        return;
    }
    let u = c[pos];
    match g.neighbors(u) {
        None => {},
        Some(nbrs) => {
            let mut t: usize = 0;
            while t < nbrs.len()
                invariant
                    contractor.wf(),
                    cs == views(cycles@),
                    k == cycles@.len(),
                    ci < k,
                    pos < cs[ci as int].len(),
                    u == cs[ci as int][pos as int],
                    port_safe(cs[ci as int], pos as int, *contractor),
                    g.adj().contains_key(u),
                    nbrs@ == g.adj()[u],
                    vtc@ == vertex_positions(cs),
                    forall|v: i32| #[trigger] vertex_positions(cs).contains_key(v) ==> vertex_positions(cs)[v].0 < cs.len()
                        && vertex_positions(cs)[v].1 < cs[vertex_positions(cs)[v].0 as int].len()
                        && cs[vertex_positions(cs)[v].0 as int][vertex_positions(cs)[v].1 as int] == v,
                    0 <= t <= nbrs@.len(),
                    matrix_shape(conns@, k),
                    forall|i: int, j: int, e: (i32, i32)|
                        0 <= i < k && 0 <= j < k ==> (#[trigger] conns@[i]@[j]@.contains(e) <==> old(conns)@[i]@[j]@.contains(e) || (
                        i == ci && link_at(cs, *g, *contractor, ci as int, pos as int, j, e) && nbrs@.subrange(0, t as int).contains(e.1))),
                decreases nbrs@.len() - t,
            {
                let v = nbrs[t];
                let ghost q0 = nbrs@.subrange(0, t as int);
                let ghost q1 = nbrs@.subrange(0, t + 1);
                let ghost before = conns@;
                proof {
                    assert(q1 == q0.push(v));
                    assert forall|x: i32| q1.contains(x) <==> q0.contains(x) || x == v by {
                        if q0.contains(x) {
                            let j = choose|j: int| 0 <= j < q0.len() && q0[j] == x;
                            assert(q1[j] == x);
                        }
                        if q1.contains(x) && x != v {
                            let j = choose|j: int| 0 <= j < q1.len() && q1[j] == x;
                            assert(q0[j] == x);
                        }
                        if x == v {
                            assert(q1[q0.len() as int] == v);
                        }
                    }
                    assert(g.adj()[u][t as int] == v);
                    assert(g.has_edge(u, v));
                }
                let mut added = false;
                match vtc.get(&v) {
                    Some(pr) => {
                        let oc = pr.0;
                        let op = pr.1;
                        if oc != ci {
                            proof {
                                assert(vertex_positions(cs).contains_key(v));
                                assert(cs[oc as int] == cycles@[oc as int]@);
                            }
                            if port_is_safe(&cycles[oc], op, contractor) {
                                let ghost cell = conns@[ci as int]@[oc as int]@;
                                insert_pair_sorted(&mut conns[ci][oc], (u, v));
                                added = true;
                                proof {
                                    assert(link_at(cs, *g, *contractor, ci as int, pos as int, oc as int, (u, v)));
                                    assert forall|i: int, j: int, e: (i32, i32)|
                                        0 <= i < k && 0 <= j < k implies (#[trigger] conns@[i]@[j]@.contains(e) <==> old(conns)@[i]@[j]@.contains(e) || (
                                        i == ci && link_at(cs, *g, *contractor, ci as int, pos as int, j, e) && q1.contains(e.1))) by {
                                        if i == ci && j == oc {
                                            assert(conns@[i]@[j]@.contains(e) <==> cell.contains(e) || e == (u, v));
                                            assert(before[i]@[j]@ == cell);
                                        } else {
                                            assert(conns@[i]@[j] == before[i]@[j]);
                                        }
                                        if i == ci && link_at(cs, *g, *contractor, ci as int, pos as int, j, e) && e.1 == v {
                                            assert(e.0 == u);
                                            assert(j == oc);
                                        }
                                    }
                                    assert forall|i: int, j: int| 0 <= i < k && 0 <= j < k implies pairs_sorted((#[trigger] conns@[i]@[j])@) by {
                                        if !(i == ci && j == oc) {
                                            assert(conns@[i]@[j] == before[i]@[j]);
                                        }
                                    }
                                    assert forall|i: int| 0 <= i < k implies (#[trigger] conns@[i])@.len() == k by {
                                        if i != ci {
                                            assert(conns@[i] == before[i]);
                                        }
                                    }
                                }
                            }
                        }
                    },
                    None => {},
                }
                if !added {
                    proof {
                        assert forall|i: int, j: int, e: (i32, i32)|
                            0 <= i < k && 0 <= j < k implies (#[trigger] conns@[i]@[j]@.contains(e) <==> old(conns)@[i]@[j]@.contains(e) || (
                            i == ci && link_at(cs, *g, *contractor, ci as int, pos as int, j, e) && q1.contains(e.1))) by {
                            if i == ci && link_at(cs, *g, *contractor, ci as int, pos as int, j, e) && e.1 == v {
                                assert(vertex_positions(cs).contains_key(v));
                            }
                        }
                    }
                }
                t = t + 1;
            }
            proof {
                assert(nbrs@.subrange(0, nbrs@.len() as int) == nbrs@);
                assert forall|j: int, e: (i32, i32)|
                    0 <= j < k && #[trigger] link_at(cs, *g, *contractor, ci as int, pos as int, j, e)
                        implies nbrs@.contains(e.1) by {
                }
            }
        },
    }
}

/// Builds the macro-graph of `cycles`: the last position of every vertex,
/// the connectors of every ordered pair of subcycles, sorted and each once,
/// and for each subcycle the subcycles it has a connector to.
pub fn build_macro_graph(cycles: &[Vec<i32>], g: &Graph, contractor: &Degree2Contractor) -> (mg: MacroGraph)
    requires
        contractor.wf(),
    ensures
        mg.num_macro_nodes == cycles@.len(),
        mg.vertex_to_cycle@ == vertex_positions(views(cycles@)),
        connectors_ok(views(cycles@), *g, *contractor, mg.connectors@),
        mg.macro_adj@.len() == cycles@.len(),
        forall|i: int|
            #![trigger mg.macro_adj@[i]]
            0 <= i < cycles@.len() ==> indices_sorted(mg.macro_adj@[i]@) && (forall|j: usize|
                mg.macro_adj@[i]@.contains(j) <==> j < cycles@.len() && mg.connectors@[i]@[j as int]@.len() > 0),
{
    let ghost cs = views(cycles@);
    let k = cycles.len();
    let vertex_to_cycle = positions_map(cycles);
    let mut conns = empty_matrix(k);
    let mut ci: usize = 0;
    while ci < k
        invariant
            contractor.wf(),
            cs == views(cycles@),
            k == cycles@.len(),
            0 <= ci <= k,
            vertex_to_cycle@ == vertex_positions(cs),
            matrix_shape(conns@, k as int),
            forall|i: int, j: int, e: (i32, i32)|
                0 <= i < k && 0 <= j < k ==> (#[trigger] conns@[i]@[j]@.contains(e) <==> i < ci && linked(
                    cs,
                    *g,
                    *contractor,
                    i,
                    j,
                    e,
                )),
        decreases k - ci,
    {
        let ghost len_c = cycles@[ci as int]@.len();
        let mut pos: usize = 0;
        while pos < cycles[ci].len()
            invariant
                contractor.wf(),
                cs == views(cycles@),
                k == cycles@.len(),
                0 <= ci < k,
                len_c == cycles@[ci as int]@.len(),
                cs[ci as int].len() == len_c,
                0 <= pos <= len_c,
                vertex_to_cycle@ == vertex_positions(cs),
                matrix_shape(conns@, k as int),
                forall|i: int, j: int, e: (i32, i32)|
                    0 <= i < k && 0 <= j < k ==> (#[trigger] conns@[i]@[j]@.contains(e) <==> (i < ci && linked(
                        cs,
                        *g,
                        *contractor,
                        i,
                        j,
                        e,
                    )) || (i == ci && linked_below(cs, *g, *contractor, i, j, e, pos as int))),
            decreases len_c - pos,
        {
            let ghost before = conns@;
            scan_port(cycles, g, contractor, &vertex_to_cycle, ci, pos, &mut conns);
            proof {
                assert forall|i: int, j: int, e: (i32, i32)|
                    0 <= i < k && 0 <= j < k implies (#[trigger] conns@[i]@[j]@.contains(e) <==> (i < ci && linked(
                        cs,
                        *g,
                        *contractor,
                        i,
                        j,
                        e,
                    )) || (i == ci && linked_below(cs, *g, *contractor, i, j, e, pos + 1))) by {
                    assert(before[i]@[j]@.contains(e) <==> (i < ci && linked(cs, *g, *contractor, i, j, e)) || (i == ci
                        && linked_below(cs, *g, *contractor, i, j, e, pos as int)));
                    if i == ci && linked_below(cs, *g, *contractor, i, j, e, pos + 1) {
                        let p = choose|p: int| 0 <= p < pos + 1 && #[trigger] link_at(cs, *g, *contractor, i, p, j, e);
                        if p < pos {
                            assert(linked_below(cs, *g, *contractor, i, j, e, pos as int));
                        }
                    }
                    if i == ci && linked_below(cs, *g, *contractor, i, j, e, pos as int) {
                        let p = choose|p: int| 0 <= p < pos && #[trigger] link_at(cs, *g, *contractor, i, p, j, e);
                        assert(linked_below(cs, *g, *contractor, i, j, e, pos + 1));
                    }
                    if i == ci && link_at(cs, *g, *contractor, i, pos as int, j, e) {
                        assert(linked_below(cs, *g, *contractor, i, j, e, pos + 1));
                    }
                }
            }
            pos = pos + 1;
        }
        ci = ci + 1;
    }
    let mut macro_adj: Vec<Vec<usize>> = Vec::new();
    let mut i: usize = 0;
    while i < k
        invariant
            k == cycles@.len(),
            0 <= i <= k,
            matrix_shape(conns@, k as int),
            macro_adj@.len() == i,
            forall|a: int|
                #![trigger macro_adj@[a]]
                0 <= a < i ==> indices_sorted(macro_adj@[a]@) && (forall|j: usize|
                    macro_adj@[a]@.contains(j) <==> j < k && conns@[a]@[j as int]@.len() > 0),
        decreases k - i,
    {
        let mut row: Vec<usize> = Vec::new();
        let mut j: usize = 0;
        while j < k
            invariant
                0 <= i < k,
                0 <= j <= k,
                matrix_shape(conns@, k as int),
                indices_sorted(row@),
                forall|x: int| 0 <= x < row@.len() ==> row@[x] < j,
                forall|o: usize| row@.contains(o) <==> o < j && conns@[i as int]@[o as int]@.len() > 0,
            decreases k - j,
        {
            if conns[i][j].len() > 0 {
                let ghost r0 = row@;
                row.push(j);
                proof {
                    assert forall|o: usize| row@.contains(o) <==> o < j + 1 && conns@[i as int]@[o as int]@.len() > 0 by {
                        if row@.contains(o) && o != j {
                            let x = choose|x: int| 0 <= x < row@.len() && row@[x] == o;
                            assert(r0[x] == o);
                        }
                        if r0.contains(o) {
                            let x = choose|x: int| 0 <= x < r0.len() && r0[x] == o;
                            assert(row@[x] == o);
                        }
                        if o == j {
                            assert(row@[r0.len() as int] == j);
                        }
                    }
                }
            }
            j = j + 1;
        }
        let ghost a0 = macro_adj@;
        macro_adj.push(row);
        proof {
            assert forall|a: int|
                #![trigger macro_adj@[a]]
                0 <= a < i + 1 implies indices_sorted(macro_adj@[a]@) && (forall|j: usize|
                    macro_adj@[a]@.contains(j) <==> j < k && conns@[a]@[j as int]@.len() > 0) by {
                if a < i {
                    assert(macro_adj@[a] == a0[a]);
                }
            }
        }
        i = i + 1;
    }
    proof {
        assert forall|i: int, j: int|
            #![trigger conns@[i]@[j]]
            0 <= i < cs.len() && 0 <= j < cs.len() implies pairs_sorted(conns@[i]@[j]@) && (forall|e: (i32, i32)|
                conns@[i]@[j]@.contains(e) <==> linked(cs, *g, *contractor, i, j, e)) by {
            assert forall|e: (i32, i32)| conns@[i]@[j]@.contains(e) <==> linked(cs, *g, *contractor, i, j, e) by {
                assert(conns@[i]@[j]@.contains(e) <==> i < k && linked(cs, *g, *contractor, i, j, e));
            }
        }
    }
    MacroGraph { num_macro_nodes: k, macro_adj, connectors: conns, vertex_to_cycle }
}

impl MacroGraph {
    /// The connectors from subcycle `i` to subcycle `j`, if there are any.
    pub fn connectors_between(&self, i: usize, j: usize) -> (r: Option<&Vec<(i32, i32)>>)
        ensures
            match r {
                Some(l) => i < self.connectors@.len() && j < self.connectors@[i as int]@.len() && l@.len() > 0
                    && *l == self.connectors@[i as int]@[j as int],
                None => !(i < self.connectors@.len() && j < self.connectors@[i as int]@.len()
                    && self.connectors@[i as int]@[j as int]@.len() > 0),
            },
    {
        if i < self.connectors.len() && j < self.connectors[i].len() && self.connectors[i][j].len() > 0 {
            Some(&self.connectors[i][j])
        } else {
            None
        }
    }
}

} // verus!
