//! Two-port gadgets: gadget modules of 8 to 32 vertices with exactly two
//! vertices that touch the rest of the graph, and two Hamiltonian paths of the
//! module between those ports (the "true" and the "false" traversal).
use crate::graph::Graph;
use crate::metagraph_router::{leaves, modules_ok, GadgetModule, MetagraphRouter};
use crate::sorting::{sorted_copy, sorted_distinct, strictly_sorted};
use std::collections::HashSet;
use vstd::prelude::*;

verus! {

broadcast use vstd::std_specs::hash::group_hash_axioms;

/// A two-port gadget and its two internal traversals.
pub struct GadgetDualPath {
    pub module_id: usize,
    pub vertices: Vec<i32>,
    pub ports: [i32; 2],
    pub true_path_edges: Vec<(i32, i32)>,
    pub false_path_edges: Vec<(i32, i32)>,
}

/// Detection of two-port gadgets.
pub struct InterfacePortSynchronizer;

/// `p` visits every vertex of `vs` exactly once, from `a` to `b`, along edges of `g`.
pub open spec fn ham_path_in(g: Graph, vs: Seq<i32>, p: Seq<i32>, a: i32, b: i32) -> bool {
    &&& p.len() == vs.len()
    &&& p.len() >= 1
    &&& p[0] == a
    &&& p[p.len() - 1] == b
    &&& p.no_duplicates()
    &&& forall|i: int| 0 <= i < p.len() ==> vs.contains(#[trigger] p[i])
    &&& forall|i: int| 0 <= i < p.len() - 1 ==> g.has_edge(#[trigger] p[i], p[i + 1])
}

/// The consecutive pairs of `p`.
pub open spec fn path_edges(p: Seq<i32>) -> Seq<(i32, i32)> {
    Seq::new((if p.len() == 0 { 0 } else { p.len() - 1 }) as nat, |i: int| (p[i], p[i + 1]))
}

/// `v` is a vertex of `vs` with a neighbour outside `vs`.
pub open spec fn is_port(g: Graph, vs: Seq<i32>, v: i32) -> bool {
    vs.contains(v) && exists|w: i32| #[trigger] g.has_edge(v, w) && !vs.contains(w)
}

/// What holds of a reported gadget: 8 to 32 vertices, in increasing order,
/// exactly two ports, and two Hamiltonian paths of the module between them
/// (given by their edges).
pub open spec fn dual_ok(g: Graph, d: GadgetDualPath) -> bool {
    let vs = d.vertices@;
    &&& 8 <= vs.len() <= 32
    &&& strictly_sorted(vs)
    &&& d.ports[0] < d.ports[1]
    &&& forall|v: i32| is_port(g, vs, v) <==> v == d.ports[0] || v == d.ports[1]
    &&& exists|t: Seq<i32>| #[trigger] ham_path_in(g, vs, t, d.ports[0], d.ports[1]) && d.true_path_edges@ == path_edges(t)
    &&& exists|f: Seq<i32>| #[trigger] ham_path_in(g, vs, f, d.ports[0], d.ports[1]) && d.false_path_edges@ == path_edges(f)
    &&& d.true_path_edges@ != d.false_path_edges@
}

/// Paths of at least two vertices with the same consecutive pairs are equal.
proof fn lemma_path_edges_injective(t: Seq<i32>, f: Seq<i32>)
    requires
        t.len() == f.len(),
        t.len() >= 2,
        path_edges(t) == path_edges(f),
    ensures
        t == f,
{
    assert forall|i: int| 0 <= i < t.len() implies t[i] == f[i] by {
        if i < t.len() - 1 {
            assert(path_edges(t)[i] == path_edges(f)[i]);
        } else {
            assert(path_edges(t)[i - 1] == path_edges(f)[i - 1]);
        }
    }
    assert(t =~= f);
}

/// `p` is a simple path of `g` inside `vs`, starting at `a`.
pub open spec fn partial_path(g: Graph, vs: Seq<i32>, p: Seq<i32>, a: i32) -> bool {
    &&& p.len() >= 1
    &&& p[0] == a
    &&& p.no_duplicates()
    &&& forall|i: int| 0 <= i < p.len() ==> vs.contains(#[trigger] p[i])
    &&& forall|i: int| 0 <= i < p.len() - 1 ==> g.has_edge(#[trigger] p[i], p[i + 1])
}

/// `p` is a Hamiltonian path of the module from `a` to `b` that begins with `prefix`.
pub open spec fn completes(g: Graph, vs: Seq<i32>, prefix: Seq<i32>, p: Seq<i32>, a: i32, b: i32) -> bool {
    ham_path_in(g, vs, p, a, b) && prefix.len() <= p.len() && p.subrange(0, prefix.len() as int) == prefix
}

/// Some entry of `results` lists exactly `p`.
pub open spec fn recorded(results: Seq<Vec<i32>>, p: Seq<i32>) -> bool {
    exists|q: int| 0 <= q < results.len() && (#[trigger] results[q])@ == p
}

/// The entry of a completion after a proper prefix is a module vertex joined
/// to the prefix's last vertex and new to it, and the target only at the end.
proof fn lemma_completion_step(g: Graph, vs: Seq<i32>, prefix: Seq<i32>, p: Seq<i32>, a: i32, b: i32)
    requires
        completes(g, vs, prefix, p, a, b),
        1 <= prefix.len() < vs.len(),
    ensures
        completes(g, vs, prefix.push(p[prefix.len() as int]), p, a, b),
        g.has_edge(prefix[prefix.len() - 1], p[prefix.len() as int]),
        vs.contains(p[prefix.len() as int]),
        !prefix.contains(p[prefix.len() as int]),
        p[prefix.len() as int] == b ==> prefix.len() + 1 == vs.len(),
{
    let l = prefix.len() as int;
    let x = p[l];
    assert(p.subrange(0, l)[l - 1] == p[l - 1]);
    assert(prefix[l - 1] == p[l - 1]);
    assert(g.has_edge(p[l - 1], p[l]));
    assert(p.subrange(0, l + 1) == prefix.push(x));
    if prefix.contains(x) {
        let c = choose|c: int| 0 <= c < l && prefix[c] == x;
        assert(p.subrange(0, l)[c] == p[c]);
    }
    if x == b && l + 1 < vs.len() {
        assert(p[p.len() - 1] == b);
    }
}

/// The ports of `vs` are exactly `a` and `b`, with `a < b`.
pub open spec fn exact_ports(g: Graph, vs: Seq<i32>, a: i32, b: i32) -> bool {
    a < b && forall|v: i32| #[trigger] is_port(g, vs, v) <==> v == a || v == b
}

/// Two different Hamiltonian paths of the module run from `a` to `b`.
pub open spec fn two_paths_between(g: Graph, vs: Seq<i32>, a: i32, b: i32) -> bool {
    exists|t: Seq<i32>, f: Seq<i32>| t != f && #[trigger] ham_path_in(g, vs, t, a, b) && #[trigger] ham_path_in(g, vs, f, a, b)
}

/// The module is a two-port gadget: 8 to 32 vertices, exactly two ports, and
/// two different Hamiltonian paths between them.
#[verifier::opaque]
pub open spec fn two_path_gadget(g: Graph, vs: Seq<i32>) -> bool {
    8 <= vs.len() <= 32 && exists|a: i32, b: i32| #[trigger] exact_ports(g, vs, a, b) && two_paths_between(g, vs, a, b)
}

/// The entries `r` come from the modules `ms`: each holds the vertex list of
/// the module it names, and every module with 8 to 32 vertices, exactly two
/// ports and two different Hamiltonian paths between them has an entry.
pub open spec fn duals_follow(g: Graph, ms: Seq<GadgetModule>, r: Seq<GadgetDualPath>) -> bool {
    &&& forall|q: int| 0 <= q < r.len() ==> #[trigger] r[q].module_id < ms.len() && r[q].vertices@ == ms[r[q].module_id as int].vertices@
    &&& forall|j: int| 0 <= j < ms.len() && #[trigger] two_path_gadget(g, ms[j].vertices@) ==> exists|q: int| 0 <= q < r.len() && r[q].module_id == j
}

/// The sorted port list of a two-port gadget is its two ports.
proof fn lemma_gadget_ports(g: Graph, vs: Seq<i32>, ports: Seq<i32>)
    requires
        strictly_sorted(ports),
        forall|v: i32| ports.contains(v) <==> is_port(g, vs, v),
        two_path_gadget(g, vs),
    ensures
        ports.len() == 2,
        two_paths_between(g, vs, ports[0], ports[1]),
{
    reveal(two_path_gadget);
    let (a, b) = choose|a: i32, b: i32| #[trigger] exact_ports(g, vs, a, b) && two_paths_between(g, vs, a, b);
    assert(is_port(g, vs, a) && is_port(g, vs, b));
    assert(ports.contains(a) && ports.contains(b));
    let ia = choose|i: int| 0 <= i < ports.len() && ports[i] == a;
    let ib = choose|i: int| 0 <= i < ports.len() && ports[i] == b;
    assert(ia < ib);
    assert forall|i: int| 0 <= i < ports.len() implies ports[i] == a || ports[i] == b by {
        assert(ports.contains(ports[i]));
        assert(is_port(g, vs, ports[i]));
    }
    if ports.len() > 2 {
        assert(ports[0] < ports[1] && ports[1] < ports[2]);
    }
    assert(ports.len() == 2);
    assert(ports[0] == a && ports[1] == b);
}

/// Fewer than two recorded paths cannot hold two different paths when every
/// path is recorded.
proof fn lemma_two_not_recorded(g: Graph, vs: Seq<i32>, paths: Seq<Vec<i32>>, a: i32, b: i32)
    requires
        paths.len() < 2,
        forall|p: Seq<i32>| #[trigger] ham_path_in(g, vs, p, a, b) ==> recorded(paths, p),
    ensures
        !two_paths_between(g, vs, a, b),
{
    if two_paths_between(g, vs, a, b) {
        let (t, f) = choose|t: Seq<i32>, f: Seq<i32>| t != f && #[trigger] ham_path_in(g, vs, t, a, b) && #[trigger] ham_path_in(g, vs, f, a, b);
        assert(recorded(paths, t) && recorded(paths, f));
        let qt = choose|q: int| 0 <= q < paths.len() && (#[trigger] paths[q])@ == t;
        let qf = choose|q: int| 0 <= q < paths.len() && (#[trigger] paths[q])@ == f;
    }
}

/// A completion of `prefix.push(x)` is a completion of `prefix`.
proof fn lemma_completes_shorter(g: Graph, vs: Seq<i32>, prefix: Seq<i32>, x: i32, p: Seq<i32>, a: i32, b: i32)
    requires
        completes(g, vs, prefix.push(x), p, a, b),
    ensures
        completes(g, vs, prefix, p, a, b),
        p[prefix.len() as int] == x,
{
    let l = prefix.len() as int;
    assert(p.subrange(0, l) == p.subrange(0, l + 1).subrange(0, l));
    assert(prefix.push(x).subrange(0, l) == prefix);
    assert(p.subrange(0, l + 1)[l] == p[l]);
}

/// The results of one branch, appended after those of earlier branches, keep
/// the new results distinct, each extending the prefix through an explored branch.
proof fn lemma_branch_results(
    g: Graph,
    vs: Seq<i32>,
    p0: Seq<i32>,
    sorted: Seq<i32>,
    t: int,
    r_in: Seq<Vec<i32>>,
    rb: Seq<Vec<i32>>,
    ra: Seq<Vec<i32>>,
    a: i32,
    b: i32,
)
    requires
        0 <= t < sorted.len(),
        strictly_sorted(sorted),
        r_in.len() <= rb.len() <= ra.len(),
        forall|q: int| 0 <= q < rb.len() ==> #[trigger] ra[q] == rb[q],
        forall|q: int| r_in.len() <= q < rb.len() ==> completes(g, vs, p0, #[trigger] rb[q]@, a, b) && sorted.take(t).contains(
            rb[q]@[p0.len() as int],
        ),
        forall|q1: int, q2: int| r_in.len() <= q1 < q2 < rb.len() ==> (#[trigger] rb[q1])@ != (#[trigger] rb[q2])@,
        forall|q: int| rb.len() <= q < ra.len() ==> completes(g, vs, p0.push(sorted[t]), #[trigger] ra[q]@, a, b),
        forall|q1: int, q2: int| rb.len() <= q1 < q2 < ra.len() ==> (#[trigger] ra[q1])@ != (#[trigger] ra[q2])@,
    ensures
        forall|q: int| r_in.len() <= q < ra.len() ==> completes(g, vs, p0, #[trigger] ra[q]@, a, b) && sorted.take(t + 1).contains(
            ra[q]@[p0.len() as int],
        ),
        forall|q1: int, q2: int| r_in.len() <= q1 < q2 < ra.len() ==> (#[trigger] ra[q1])@ != (#[trigger] ra[q2])@,
{
    let l = p0.len() as int;
    assert forall|q: int| r_in.len() <= q < ra.len() implies completes(g, vs, p0, #[trigger] ra[q]@, a, b) && sorted.take(t + 1).contains(
        ra[q]@[l],
    ) by {
        if q < rb.len() {
            assert(ra[q] == rb[q]);
            let u = choose|u: int| 0 <= u < t && sorted.take(t)[u] == rb[q]@[l];
            assert(sorted.take(t + 1)[u] == ra[q]@[l]);
        } else {
            lemma_completes_shorter(g, vs, p0, sorted[t], ra[q]@, a, b);
            assert(sorted.take(t + 1)[t] == ra[q]@[l]);
        }
    }
    assert forall|q1: int, q2: int| r_in.len() <= q1 < q2 < ra.len() implies (#[trigger] ra[q1])@ != (#[trigger] ra[q2])@ by {
        if q2 < rb.len() {
            assert(ra[q1] == rb[q1] && ra[q2] == rb[q2]);
        } else if q1 < rb.len() {
            assert(ra[q1] == rb[q1]);
            let u = choose|u: int| 0 <= u < t && sorted.take(t)[u] == rb[q1]@[l];
            lemma_completes_shorter(g, vs, p0, sorted[t], ra[q2]@, a, b);
            assert(sorted[u] < sorted[t]);
        }
    }
}

/// Depth-first search over simple paths of `g` inside the module, extending
/// `path` with neighbours in increasing order and entering `target` only as
/// the last vertex; each path that covers the module and ends at `target` is
/// recorded, until `limit` paths are known.
fn ham_dfs(
    g: &Graph,
    vs: &Vec<i32>,
    mod_set: &HashSet<i32>,
    start: i32,
    target: i32,
    visited: &mut HashSet<i32>,
    path: &mut Vec<i32>,
    results: &mut Vec<Vec<i32>>,
    limit: usize,
)
    requires
        forall|v: i32| mod_set@.contains(v) <==> vs@.contains(v),
        partial_path(*g, vs@, old(path)@, start),
        old(path)@.len() <= vs@.len(),
        forall|v: i32| old(visited)@.contains(v) <==> old(path)@.contains(v),
        forall|q: int| 0 <= q < old(results)@.len() ==> ham_path_in(*g, vs@, #[trigger] old(results)@[q]@, start, target),
        old(results)@.len() <= limit,
    ensures
        final(path)@ == old(path)@,
        forall|v: i32| final(visited)@.contains(v) <==> old(visited)@.contains(v),
        forall|q: int| 0 <= q < final(results)@.len() ==> ham_path_in(*g, vs@, #[trigger] final(results)@[q]@, start, target),
        final(results)@.len() <= limit,
        old(results)@.len() <= final(results)@.len(),
        forall|q: int| 0 <= q < old(results)@.len() ==> #[trigger] final(results)@[q] == old(results)@[q],
        final(results)@.len() < limit ==> forall|p: Seq<i32>| #[trigger] completes(*g, vs@, old(path)@, p, start, target) ==> recorded(
            final(results)@,
            p,
        ),
        forall|q: int| old(results)@.len() <= q < final(results)@.len() ==> completes(
            *g,
            vs@,
            old(path)@,
            #[trigger] final(results)@[q]@,
            start,
            target,
        ),
        forall|q1: int, q2: int|
            old(results)@.len() <= q1 < q2 < final(results)@.len() ==> (#[trigger] final(results)@[q1])@
                != (#[trigger] final(results)@[q2])@,
    decreases vs@.len() - old(path)@.len(),
{
    if results.len() >= limit {
        return;
    }
    let k = vs.len();
    let curr = path[path.len() - 1];
    if path.len() == k {
        let ghost r0 = results@;
        if curr == target {
            let found = path.clone();
            assert(found@ =~= path@);
            results.push(found);
            proof {
                assert forall|q: int| 0 <= q < results@.len() implies ham_path_in(*g, vs@, #[trigger] results@[q]@, start, target) by {
                    if q < r0.len() {
                        assert(results@[q] == r0[q]);
                    }
                }
                assert(results@[r0.len() as int]@ == path@);
                assert(path@.subrange(0, path@.len() as int) == path@);
            }
        }
        proof {
            assert forall|p: Seq<i32>| #[trigger] completes(*g, vs@, old(path)@, p, start, target) implies recorded(results@, p) by {
                assert(p == p.subrange(0, p.len() as int));
                assert(p[p.len() - 1] == target);
                assert(results@[r0.len() as int]@ == p);
            }
        }
        return;
    }
    match g.neighbors(curr) {
        Some(nbrs) => {
            let sorted = sorted_distinct(nbrs);
            let ghost r_in = results@;
            let mut t: usize = 0;
            while t < sorted.len()
                invariant
                    forall|v: i32| mod_set@.contains(v) <==> vs@.contains(v),
                    k == vs@.len(),
                    path@ == old(path)@,
                    partial_path(*g, vs@, path@, start),
                    path@.len() < k,
                    curr == path@[path@.len() - 1],
                    g.adj().contains_key(curr),
                    forall|x: i32| sorted@.contains(x) ==> g.adj()[curr].contains(x),
                    forall|v: i32| visited@.contains(v) <==> path@.contains(v),
                    forall|v: i32| old(visited)@.contains(v) <==> old(path)@.contains(v),
                    forall|q: int| 0 <= q < results@.len() ==> ham_path_in(*g, vs@, #[trigger] results@[q]@, start, target),
                    results@.len() <= limit,
                    0 <= t <= sorted@.len(),
                    results@.len() < limit,
                    old(results)@.len() <= results@.len(),
                    forall|q: int| 0 <= q < old(results)@.len() ==> #[trigger] results@[q] == old(results)@[q],
                    forall|u: int, p: Seq<i32>| 0 <= u < t && #[trigger] completes(*g, vs@, path@.push(#[trigger] sorted@[u]), p, start, target) ==> recorded(
                        results@,
                        p,
                    ),
                    strictly_sorted(sorted@),
                    r_in == old(results)@,
                    forall|q: int| r_in.len() <= q < results@.len() ==> completes(*g, vs@, path@, #[trigger] results@[q]@, start, target)
                        && sorted@.take(t as int).contains(results@[q]@[path@.len() as int]),
                    forall|q1: int, q2: int|
                        r_in.len() <= q1 < q2 < results@.len() ==> (#[trigger] results@[q1])@ != (#[trigger] results@[q2])@,
                decreases sorted@.len() - t,
            {
                let next = sorted[t];
                if mod_set.contains(&next) && !visited.contains(&next) && !(next == target && path.len() + 1 < k) {
                    let ghost p0 = path@;
                    let ghost v0 = visited@;
                    visited.insert(next);
                    path.push(next);
                    proof {
                        assert(sorted@.contains(next));
                        assert(g.has_edge(curr, next));
                        assert(!p0.contains(next));
                        assert forall|i: int| 0 <= i < path@.len() - 1 implies g.has_edge(#[trigger] path@[i], path@[i + 1]) by {
                            if i < p0.len() - 1 {
                                assert(path@[i] == p0[i] && path@[i + 1] == p0[i + 1]);
                            } else {
                                assert(path@[i] == curr && path@[i + 1] == next);
                            }
                        }
                        assert forall|i: int| 0 <= i < path@.len() implies vs@.contains(#[trigger] path@[i]) by {
                            if i < p0.len() {
                                assert(path@[i] == p0[i]);
                            }
                        }
                        assert forall|v: i32| visited@.contains(v) <==> path@.contains(v) by {
                            if path@.contains(v) && v != next {
                                let j = choose|j: int| 0 <= j < path@.len() && path@[j] == v;
                                assert(p0[j] == v);
                            }
                            if p0.contains(v) {
                                let j = choose|j: int| 0 <= j < p0.len() && p0[j] == v;
                                assert(path@[j] == v);
                            }
                            if v == next {
                                assert(path@[p0.len() as int] == next);
                            }
                        }
                        assert(path@[0] == start);
                    }
                    let ghost rb = results@;
                    ham_dfs(g, vs, mod_set, start, target, visited, path, results, limit);
                    let ghost p1 = path@;
                    path.pop();
                    visited.remove(&next);
                    proof {
                        assert(path@ =~= p0);
                        assert forall|v: i32| visited@.contains(v) <==> path@.contains(v) by {
                            if v == next {
                                assert(!p0.contains(next));
                            }
                        }
                    }
                    proof {
                        assert(p1 == p0.push(sorted@[t as int]));
                        lemma_branch_results(*g, vs@, p0, sorted@, t as int, r_in, rb, results@, start, target);
                    }
                    if results.len() >= limit {
                        return;
                    }
                    proof {
                        assert forall|u: int, p: Seq<i32>| 0 <= u < t + 1 && #[trigger] completes(*g, vs@, p0.push(#[trigger] sorted@[u]), p, start, target) implies recorded(
                            results@,
                            p,
                        ) by {
                            if u < t {
                                assert(recorded(rb, p));
                                let q = choose|q: int| 0 <= q < rb.len() && (#[trigger] rb[q])@ == p;
                                assert(results@[q] == rb[q]);
                            }
                        }
                    }
                } else {
                    proof {
                        assert forall|p: Seq<i32>| !#[trigger] completes(*g, vs@, path@.push(next), p, start, target) by {
                            if completes(*g, vs@, path@.push(next), p, start, target) {
                                let l = path@.len() as int;
                                assert(p.subrange(0, l) == path@) by {
                                    assert(p.subrange(0, l + 1) == path@.push(next));
                                    assert(p.subrange(0, l) == p.subrange(0, l + 1).subrange(0, l));
                                }
                                assert(completes(*g, vs@, path@, p, start, target));
                                lemma_completion_step(*g, vs@, path@, p, start, target);
                                assert(p[l] == next) by {
                                    assert(p.subrange(0, l + 1)[l] == p[l]);
                                }
                            }
                        }
                    }
                }
                t = t + 1;
            }
            proof {
                assert forall|p: Seq<i32>| #[trigger] completes(*g, vs@, old(path)@, p, start, target) implies recorded(results@, p) by {
                    let l = path@.len() as int;
                    lemma_completion_step(*g, vs@, path@, p, start, target);
                    let x = p[l];
                    assert(g.adj()[curr].contains(x));
                    assert(nbrs@.contains(x));
                    assert(sorted@.contains(x));
                    let u = choose|u: int| 0 <= u < sorted@.len() && sorted@[u] == x;
                    assert(completes(*g, vs@, path@.push(sorted@[u]), p, start, target));
                }
            }
        },
        None => {},
    }
}

/// Whether `u` has a neighbour outside `mod_set`.
fn has_outside_neighbour(g: &Graph, vs: &Vec<i32>, mod_set: &HashSet<i32>, u: i32) -> (b: bool)
    requires
        forall|v: i32| mod_set@.contains(v) <==> vs@.contains(v),
    ensures
        b == exists|w: i32| #[trigger] g.has_edge(u, w) && !vs@.contains(w),
{
    match g.neighbors(u) {
        Some(nbrs) => {
            let mut t: usize = 0;
            while t < nbrs.len()
                invariant
                    forall|v: i32| mod_set@.contains(v) <==> vs@.contains(v),
                    g.adj().contains_key(u),
                    nbrs@ == g.adj()[u],
                    0 <= t <= nbrs@.len(),
                    forall|q: int| 0 <= q < t ==> vs@.contains(#[trigger] nbrs@[q]),
                decreases nbrs@.len() - t,
            {
                if !mod_set.contains(&nbrs[t]) {
                    assert(g.has_edge(u, nbrs@[t as int]));
                    return true;
                }
                t = t + 1;
            }
            proof {
                assert forall|w: i32| #[trigger] g.has_edge(u, w) implies vs@.contains(w) by {
                    let q = choose|q: int| 0 <= q < nbrs@.len() && nbrs@[q] == w;
                }
            }
            false
        },
        None => false,
    }
}

/// The consecutive pairs of `p`.
fn edges_of(p: &Vec<i32>) -> (r: Vec<(i32, i32)>)
    ensures
        r@ == path_edges(p@),
{
    let mut r: Vec<(i32, i32)> = Vec::new();
    if p.len() == 0 {
        assert(r@ =~= path_edges(p@));
        return r;
    }
    let mut i: usize = 0;
    while i < p.len() - 1
        invariant
            p@.len() >= 1,
            0 <= i <= p@.len() - 1,
            r@.len() == i,
            forall|q: int| 0 <= q < i ==> #[trigger] r@[q] == (p@[q], p@[q + 1]),
        decreases p@.len() - i,
    {
        r.push((p[i], p[i + 1]));
        i = i + 1;
    }
    assert(r@ =~= path_edges(p@));
    r
}

/// The entries of `vs`, as a set.
pub(crate) fn member_set(vs: &Vec<i32>) -> (s: HashSet<i32>)
    ensures
        forall|v: i32| s@.contains(v) <==> vs@.contains(v),
{
    let mut mod_set: HashSet<i32> = HashSet::new();
    let mut k: usize = 0;
    while k < vs.len()
        invariant
            0 <= k <= vs@.len(),
            forall|v: i32| mod_set@.contains(v) <==> vs@.subrange(0, k as int).contains(v),
        decreases vs@.len() - k,
    {
        mod_set.insert(vs[k]);
        proof {
            let p = vs@.subrange(0, k as int);
            let q = vs@.subrange(0, k + 1);
            assert(q == p.push(vs@[k as int]));
            assert forall|v: i32| mod_set@.contains(v) <==> q.contains(v) by {
                if p.contains(v) {
                    let j = choose|j: int| 0 <= j < p.len() && p[j] == v;
                    assert(q[j] == v);
                }
                if q.contains(v) && v != vs@[k as int] {
                    let j = choose|j: int| 0 <= j < q.len() && q[j] == v;
                    assert(p[j] == v);
                }
                if v == vs@[k as int] {
                    assert(q[k as int] == v);
                }
            }
        }
        k = k + 1;
    }
    assert(vs@.subrange(0, vs@.len() as int) == vs@);
    mod_set
}

/// The ports of the module `vs`, in increasing order.
pub(crate) fn port_list(g: &Graph, vs: &Vec<i32>, mod_set: &HashSet<i32>) -> (ports: Vec<i32>)
    requires
        strictly_sorted(vs@),
        forall|v: i32| mod_set@.contains(v) <==> vs@.contains(v),
    ensures
        strictly_sorted(ports@),
        forall|v: i32| ports@.contains(v) <==> is_port(*g, vs@, v),
{
    let mut ports: Vec<i32> = Vec::new();
    let mut k: usize = 0;
    while k < vs.len()
        invariant
            forall|v: i32| mod_set@.contains(v) <==> vs@.contains(v),
            strictly_sorted(vs@),
            0 <= k <= vs@.len(),
            strictly_sorted(ports@),
            forall|q: int| 0 <= q < ports@.len() ==> exists|j: int| 0 <= j < k && vs@[j] == #[trigger] ports@[q],
            forall|v: i32| ports@.contains(v) <==> vs@.subrange(0, k as int).contains(v) && is_port(*g, vs@, v),
        decreases vs@.len() - k,
    {
        let u = vs[k];
        let ghost p0 = ports@;
        let ghost sp = vs@.subrange(0, k as int);
        let ghost sq = vs@.subrange(0, k + 1);
        proof {
            assert(sq == sp.push(u));
            assert forall|v: i32| sq.contains(v) <==> sp.contains(v) || v == u by {
                if sp.contains(v) {
                    let j = choose|j: int| 0 <= j < sp.len() && sp[j] == v;
                    assert(sq[j] == v);
                }
                if sq.contains(v) && v != u {
                    let j = choose|j: int| 0 <= j < sq.len() && sq[j] == v;
                    assert(sp[j] == v);
                }
                if v == u {
                    assert(sq[k as int] == u);
                }
            }
            assert(!sp.contains(u)) by {
                if sp.contains(u) {
                    let j = choose|j: int| 0 <= j < sp.len() && sp[j] == u;
                    assert(vs@[j] < vs@[k as int]);
                }
            }
            assert(vs@.contains(u));
        }
        if has_outside_neighbour(g, vs, &mod_set, u) {
            ports.push(u);
            proof {
                assert forall|a: int, b: int| 0 <= a < b < ports@.len() implies ports@[a] < ports@[b] by {
                    if b == p0.len() {
                        let j = choose|j: int| 0 <= j < k && vs@[j] == #[trigger] p0[a];
                        assert(vs@[j] < vs@[k as int]);
                    }
                }
                assert forall|q: int| 0 <= q < ports@.len() implies exists|j: int| 0 <= j < k + 1 && vs@[j]
                    == #[trigger] ports@[q] by {
                    if q < p0.len() {
                        let j = choose|j: int| 0 <= j < k && vs@[j] == #[trigger] p0[q];
                        assert(vs@[j] == ports@[q]);
                    } else {
                        assert(vs@[k as int] == ports@[q]);
                    }
                }
                assert forall|v: i32| ports@.contains(v) <==> sq.contains(v) && is_port(*g, vs@, v) by {
                    if ports@.contains(v) && v != u {
                        let j = choose|j: int| 0 <= j < ports@.len() && ports@[j] == v;
                        assert(p0[j] == v);
                    }
                    if p0.contains(v) {
                        let j = choose|j: int| 0 <= j < p0.len() && p0[j] == v;
                        assert(ports@[j] == v);
                    }
                    if v == u {
                        assert(ports@[p0.len() as int] == u);
                    }
                }
            }
        } else {
            proof {
                assert forall|q: int| 0 <= q < ports@.len() implies exists|j: int| 0 <= j < k + 1 && vs@[j]
                    == #[trigger] ports@[q] by {
                    let j = choose|j: int| 0 <= j < k && vs@[j] == #[trigger] ports@[q];
                    assert(vs@[j] == ports@[q]);
                }
            }
        }
        k = k + 1;
    }
    assert(vs@.subrange(0, vs@.len() as int) == vs@);
    ports
}

impl InterfacePortSynchronizer {
    /// Up to `limit` Hamiltonian paths of the module from `start` to
    /// `target`, found by depth-first search with neighbours in increasing order.
    fn find_distinct_hamiltonian_paths(start: i32, target: i32, module_vertices: &Vec<i32>, g: &Graph, limit: usize) -> (r: Vec<
        Vec<i32>,
    >)
        requires
            module_vertices@.contains(start),
        ensures
            forall|q: int| 0 <= q < r@.len() ==> ham_path_in(*g, module_vertices@, #[trigger] r@[q]@, start, target),
            r@.len() <= limit,
            r@.len() < limit ==> forall|p: Seq<i32>| #[trigger] ham_path_in(*g, module_vertices@, p, start, target) ==> recorded(r@, p),
            forall|q1: int, q2: int| 0 <= q1 < q2 < r@.len() ==> (#[trigger] r@[q1])@ != (#[trigger] r@[q2])@,
    {
        let mut mod_set: HashSet<i32> = HashSet::new();
        let mut k: usize = 0;
        while k < module_vertices.len()
            invariant
                0 <= k <= module_vertices@.len(),
                forall|v: i32| mod_set@.contains(v) <==> module_vertices@.subrange(0, k as int).contains(v),
            decreases module_vertices@.len() - k,
        {
            mod_set.insert(module_vertices[k]);
            proof {
                let p = module_vertices@.subrange(0, k as int);
                let q = module_vertices@.subrange(0, k + 1);
                assert(q == p.push(module_vertices@[k as int]));
                assert forall|v: i32| mod_set@.contains(v) <==> q.contains(v) by {
                    if p.contains(v) {
                        let j = choose|j: int| 0 <= j < p.len() && p[j] == v;
                        assert(q[j] == v);
                    }
                    if q.contains(v) && v != module_vertices@[k as int] {
                        let j = choose|j: int| 0 <= j < q.len() && q[j] == v;
                        assert(p[j] == v);
                    }
                    if v == module_vertices@[k as int] {
                        assert(q[k as int] == v);
                    }
                }
            }
            k = k + 1;
        }
        assert(module_vertices@.subrange(0, module_vertices@.len() as int) == module_vertices@);
        let mut visited: HashSet<i32> = HashSet::new();
        visited.insert(start);
        let mut path: Vec<i32> = Vec::new();
        path.push(start);
        let mut results: Vec<Vec<i32>> = Vec::new();
        proof {
            assert(path@ == seq![start]);
            assert forall|v: i32| visited@.contains(v) <==> path@.contains(v) by {
                if v == start {
                    assert(path@[0] == start);
                }
            }
        }
        if limit > 0 {
            ham_dfs(g, module_vertices, &mod_set, start, target, &mut visited, &mut path, &mut results, limit);
            proof {
                assert forall|p: Seq<i32>| #[trigger] ham_path_in(*g, module_vertices@, p, start, target) implies completes(
                    *g,
                    module_vertices@,
                    seq![start],
                    p,
                    start,
                    target,
                ) by {
                    assert(p.subrange(0, 1) == seq![start]);
                }
            }
        }
        results
    }

    /// The two-port gadget of a module, if the module has 8 to 32 vertices,
    /// exactly two ports and two Hamiltonian paths between them.
    fn dual_of_module(g: &Graph, module: &GadgetModule) -> (r: Option<GadgetDualPath>)
        requires
            strictly_sorted(module.vertices@),
        ensures
            r matches Some(d) ==> dual_ok(*g, d) && d.module_id == module.id && d.vertices@ == module.vertices@,
            r is None ==> !two_path_gadget(*g, module.vertices@),
    {
        let n = module.vertices.len();
        if n < 8 || n > 32 {
            proof {
                reveal(two_path_gadget);
            }
            return None;
        }
        let vs = &module.vertices;
        let mod_set = member_set(vs);
        let ports = port_list(g, vs, &mod_set);
        if ports.len() != 2 {
            proof {
                if two_path_gadget(*g, vs@) {
                    lemma_gadget_ports(*g, vs@, ports@);
                }
            }
            return None;
        }
        let p0 = ports[0];
        let p1 = ports[1];
        proof {
            assert(ports@.contains(p0) && ports@.contains(p1));
            assert forall|v: i32| is_port(*g, vs@, v) <==> v == p0 || v == p1 by {
                if is_port(*g, vs@, v) {
                    assert(ports@.contains(v));
                    let j = choose|j: int| 0 <= j < ports@.len() && ports@[j] == v;
                }
            }
        }
        let paths = Self::find_distinct_hamiltonian_paths(p0, p1, vs, g, 2);
        if paths.len() < 2 {
            proof {
                if two_path_gadget(*g, vs@) {
                    lemma_gadget_ports(*g, vs@, ports@);
                    lemma_two_not_recorded(*g, vs@, paths@, p0, p1);
                }
            }
            return None;
        }
        let true_path_edges = edges_of(&paths[0]);
        let false_path_edges = edges_of(&paths[1]);
        let copy = vs.clone();
        assert(copy@ =~= vs@);
        let d = GadgetDualPath { module_id: module.id, vertices: copy, ports: [p0, p1], true_path_edges, false_path_edges };
        proof {
            assert(ham_path_in(*g, vs@, paths@[0]@, p0, p1));
            assert(ham_path_in(*g, vs@, paths@[1]@, p0, p1));
            assert(d.ports[0] == p0 && d.ports[1] == p1);
            assert(paths@[0]@ != paths@[1]@);
            if d.true_path_edges@ == d.false_path_edges@ {
                lemma_path_edges_injective(paths@[0]@, paths@[1]@);
            }
        }
        Some(d)
    }

    /// Detects gadget modules with size 8 <= |V| <= 32 having exactly 2 interface ports,
    /// and extracts 2 distinct internal Hamiltonian paths (True and False paths) between the ports.
    pub fn extract_gadget_dual_paths(g: &Graph, max_module_size: usize) -> (r: Vec<GadgetDualPath>)
        requires
            g.wf(),
        ensures
            forall|q: int| 0 <= q < r@.len() ==> dual_ok(*g, #[trigger] r@[q]),
            forall|a: int, b: int| 0 <= a < b < r@.len() ==> r@[a].module_id < r@[b].module_id,
            forall|a: int, b: int, v: i32|
                0 <= a < r@.len() && 0 <= b < r@.len() && a != b && #[trigger] r@[a].vertices@.contains(v)
                    ==> !#[trigger] r@[b].vertices@.contains(v),
            exists|ms: Seq<GadgetModule>|
                modules_ok(*g, ms) && #[trigger] duals_follow(*g, ms, r@) && (ms.len() <= 120 || ms.len() + 10000
                    <= g.adj().dom().len() || crate::metagraph_router::separated(*g, crate::metagraph_router::module_sets(ms))),
    {
        let modules = MetagraphRouter::detect_gadget_modules_with_size(g, max_module_size);
        Self::duals_of_modules(g, &modules)
    }

    /// The two-port gadgets among `modules`, in module order: exactly the
    /// modules that have 8 to 32 vertices, exactly two ports and two
    /// different Hamiltonian paths between them give an entry.
    pub fn duals_of_modules(g: &Graph, modules: &Vec<GadgetModule>) -> (r: Vec<GadgetDualPath>)
        requires
            g.wf(),
            modules_ok(*g, modules@),
        ensures
            forall|q: int| 0 <= q < r@.len() ==> dual_ok(*g, #[trigger] r@[q]),
            forall|a: int, b: int| 0 <= a < b < r@.len() ==> r@[a].module_id < r@[b].module_id,
            forall|a: int, b: int, v: i32|
                0 <= a < r@.len() && 0 <= b < r@.len() && a != b && #[trigger] r@[a].vertices@.contains(v)
                    ==> !#[trigger] r@[b].vertices@.contains(v),
            forall|q: int| 0 <= q < r@.len() ==> #[trigger] r@[q].module_id < modules@.len() && r@[q].vertices@
                == modules@[r@[q].module_id as int].vertices@,
            forall|j: int| 0 <= j < modules@.len() && #[trigger] two_path_gadget(*g, modules@[j].vertices@) ==> exists|q: int|
                0 <= q < r@.len() && r@[q].module_id == j,
            duals_follow(*g, modules@, r@),
    {
        let ghost ms = crate::metagraph_router::module_sets(modules@);
        let mut result: Vec<GadgetDualPath> = Vec::new();
        let mut i: usize = 0;
        while i < modules.len()
            invariant
                g.wf(),
                modules_ok(*g, modules@),
                ms == crate::metagraph_router::module_sets(modules@),
                0 <= i <= modules@.len(),
                forall|q: int| 0 <= q < result@.len() ==> dual_ok(*g, #[trigger] result@[q]),
                forall|q: int|
                    0 <= q < result@.len() ==> #[trigger] result@[q].module_id < i && result@[q].vertices@
                        == modules@[result@[q].module_id as int].vertices@,
                forall|a: int, b: int| 0 <= a < b < result@.len() ==> result@[a].module_id < result@[b].module_id,
                forall|j: int| 0 <= j < i && #[trigger] two_path_gadget(*g, modules@[j].vertices@) ==> exists|q: int|
                    0 <= q < result@.len() && result@[q].module_id == j,
            decreases modules@.len() - i,
        {
            let module = &modules[i];
            proof {
                assert(modules@[i as int].id == i);
            }
            match Self::dual_of_module(g, module) {
                Some(d) => {
                    let ghost r0 = result@;
                    result.push(d);
                    proof {
                        assert forall|q: int| 0 <= q < result@.len() implies dual_ok(*g, #[trigger] result@[q]) by {
                            if q < r0.len() {
                                assert(result@[q] == r0[q]);
                            }
                        }
                        assert forall|q: int|
                            0 <= q < result@.len() implies #[trigger] result@[q].module_id < i + 1 && result@[q].vertices@
                                == modules@[result@[q].module_id as int].vertices@ by {
                            if q < r0.len() {
                                assert(result@[q] == r0[q]);
                            }
                        }
                        assert forall|a: int, b: int| 0 <= a < b < result@.len() implies result@[a].module_id
                            < result@[b].module_id by {
                            assert(result@[a] == r0[a]);
                            if b < r0.len() {
                                assert(result@[b] == r0[b]);
                            }
                        }
                        assert forall|j: int| 0 <= j < i + 1 && #[trigger] two_path_gadget(*g, modules@[j].vertices@) implies exists|q: int|
                            0 <= q < result@.len() && result@[q].module_id == j by {
                            if j < i {
                                let q = choose|q: int| 0 <= q < r0.len() && r0[q].module_id == j;
                                assert(result@[q] == r0[q]);
                            } else {
                                assert(result@[r0.len() as int].module_id == j);
                            }
                        }
                    }
                },
                None => {},
            }
            i = i + 1;
        }
        proof {
            assert forall|a: int, b: int, v: i32|
                0 <= a < result@.len() && 0 <= b < result@.len() && a != b && #[trigger] result@[a].vertices@.contains(v)
                    implies !#[trigger] result@[b].vertices@.contains(v) by {
                let ia = result@[a].module_id as int;
                let ib = result@[b].module_id as int;
                if a < b {
                    assert(ia < ib);
                } else {
                    assert(ib < ia);
                }
                assert(ms[ia] == modules@[ia].vertices@);
                assert(ms[ib] == modules@[ib].vertices@);
                assert(ms[ia].contains(v));
            }
        }
        result
    }
}

} // verus!
