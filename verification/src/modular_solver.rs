//! Satellite modules: the connected pieces left when hubs and very
//! high-degree vertices are removed, with their links back to the hubs.
use crate::graph::{symmetric, vec_contains, Graph};
use crate::hub_registry::HubRegistry;
use crate::sorting::{sort_i32, sorted_asc, sorted_copy, sorted_distinct, strictly_sorted};
use crate::tour::{is_simple_cycle, simple_cycle};
use std::collections::{HashMap, HashSet};
use vstd::prelude::*;

verus! {

broadcast use vstd::std_specs::hash::group_hash_axioms;

/// A satellite module and its attachment to the hubs.
pub struct SatelliteModule {
    pub module_id: usize,
    pub vertices: HashSet<i32>,
    pub internal_adj: HashMap<i32, Vec<i32>>,
    pub hub_connections: HashMap<i32, Vec<i32>>,
}

pub struct ModularSolver;

/// Vertices excluded from satellites: listed hubs and vertices of degree at least 20.
pub open spec fn excluded(g: Graph, hr: HubRegistry, v: i32) -> bool {
    hr.hub_vertices@.contains(v) || (g.adj().contains_key(v) && g.degree_of(v) >= 20)
}

/// The entries of `s` that belong to `set`, in order.
pub open spec fn keep_in(s: Seq<i32>, set: Set<i32>) -> Seq<i32>
    decreases s.len(),
{
    if s.len() == 0 {
        s
    } else if set.contains(s.last()) {
        keep_in(s.drop_last(), set).push(s.last())
    } else {
        keep_in(s.drop_last(), set)
    }
}

/// The internal adjacency of a module with vertex set `vs`: one sorted list
/// per member that is a vertex of `g`, holding its neighbours inside `vs`.
pub open spec fn internal_ok(g: Graph, vs: Set<i32>, ia: Map<i32, Vec<i32>>) -> bool {
    &&& forall|u: i32| #[trigger] ia.contains_key(u) <==> vs.contains(u) && g.adj().contains_key(u)
    &&& forall|u: i32|
        #![trigger ia[u]]
        ia.contains_key(u) ==> sorted_asc(ia[u]@) && ia[u]@.to_multiset() == keep_in(g.adj()[u], vs).to_multiset()
}

/// The hub links of a module with vertex set `vs`: one entry per flagged hub
/// outside `vs` that some member lists as a neighbour, holding (sorted, each
/// once) the members that list it.
pub open spec fn hubs_ok(g: Graph, hr: HubRegistry, vs: Set<i32>, hc: Map<i32, Vec<i32>>) -> bool {
    &&& forall|h: i32| #[trigger] hc.contains_key(h) ==> hr.flagged(h) && !vs.contains(h)
    &&& forall|h: i32|
        #![trigger hc[h]]
        hc.contains_key(h) ==> strictly_sorted(hc[h]@) && (forall|u: i32|
            hc[h]@.contains(u) <==> vs.contains(u) && g.has_edge(u, h))
    &&& forall|u: i32, h: i32|
        vs.contains(u) && #[trigger] g.has_edge(u, h) && !vs.contains(h) && hr.flagged(h) ==> hc.contains_key(h)
}

/// What holds of module `m` (at position `k`) extracted from `g`.
pub open spec fn module_ok(g: Graph, hr: HubRegistry, m: SatelliteModule, k: int) -> bool {
    let vs = m.vertices@;
    &&& m.module_id == k
    &&& vs.finite()
    &&& vs.len() >= 5
    &&& forall|v: i32| vs.contains(v) ==> !excluded(g, hr, v)
    &&& (symmetric(g) ==> forall|u: i32, v: i32|
        vs.contains(u) && #[trigger] g.has_edge(u, v) && !excluded(g, hr, v) ==> vs.contains(v))
    &&& internal_ok(g, vs, m.internal_adj@)
    &&& hubs_ok(g, hr, vs, m.hub_connections@)
}

/// `p` is a walk of `g` through vertices that are not excluded.
pub open spec fn clear_walk(g: Graph, hr: HubRegistry, p: Seq<i32>) -> bool {
    &&& p.len() >= 1
    &&& forall|k: int| 0 <= k < p.len() ==> !excluded(g, hr, #[trigger] p[k])
    &&& forall|k: int| 0 <= k < p.len() - 1 ==> g.has_edge(#[trigger] p[k], p[k + 1])
}

/// Some walk through non-excluded vertices leads from `a` to `b`.
pub open spec fn reaches(g: Graph, hr: HubRegistry, a: i32, b: i32) -> bool {
    exists|p: Seq<i32>| #[trigger] clear_walk(g, hr, p) && p[0] == a && p[p.len() - 1] == b
}

/// Every vertex of module `m` is reached from one of its vertices.
pub open spec fn module_connected(g: Graph, hr: HubRegistry, m: SatelliteModule) -> bool {
    exists|a: i32| m.vertices@.contains(a) && forall|v: i32| #[trigger] m.vertices@.contains(v) ==> reaches(g, hr, a, v)
}

/// A walk to `b` extends by a step to a non-excluded neighbour `c`.
proof fn lemma_reach_extend(g: Graph, hr: HubRegistry, a: i32, b: i32, c: i32)
    requires
        reaches(g, hr, a, b),
        g.has_edge(b, c),
        !excluded(g, hr, c),
    ensures
        reaches(g, hr, a, c),
{
    let p = choose|p: Seq<i32>| #[trigger] clear_walk(g, hr, p) && p[0] == a && p[p.len() - 1] == b;
    let q = p.push(c);
    assert forall|k: int| 0 <= k < q.len() implies !excluded(g, hr, #[trigger] q[k]) by {
        if k < p.len() {
            assert(q[k] == p[k]);
        }
    }
    assert forall|k: int| 0 <= k < q.len() - 1 implies g.has_edge(#[trigger] q[k], q[k + 1]) by {
        if k < p.len() - 1 {
            assert(q[k] == p[k] && q[k + 1] == p[k + 1]);
        } else {
            assert(q[k] == b);
        }
    }
    assert(clear_walk(g, hr, q));
}

/// Some module lists `v`.
pub open spec fn in_some_module(ms: Seq<SatelliteModule>, v: i32) -> bool {
    exists|k: int| 0 <= k < ms.len() && #[trigger] ms[k].vertices@.contains(v)
}

/// `v` lies in a set of fewer than five vertices closed under steps to
/// non-excluded neighbours.
pub open spec fn in_small_piece(g: Graph, hr: HubRegistry, v: i32) -> bool {
    exists|c: Set<i32>| #[trigger] closed_under(g, hr, c) && c.finite() && c.len() < 5 && c.contains(v)
}

impl ModularSolver {
    /// Extracts connected components of G[V \ Hubs] with >= 5 vertices,
    /// mapping boundary nodes to adjacent hubs.
    pub fn extract_satellite_modules(g: &Graph, hub_registry: &HubRegistry) -> (r: Vec<SatelliteModule>)
        requires
            g.wf(),
        ensures
            hub_registry.hub_vertices@.len() == 0 ==> r@.len() == 0,
            forall|k: int| 0 <= k < r@.len() ==> module_ok(*g, *hub_registry, #[trigger] r@[k], k),
            forall|k: int| 0 <= k < r@.len() ==> module_connected(*g, *hub_registry, #[trigger] r@[k]),
            forall|a: int, b: int, v: i32|
                0 <= a < b < r@.len() && #[trigger] r@[a].vertices@.contains(v) ==> !#[trigger] r@[b].vertices@.contains(v),
            hub_registry.hub_vertices@.len() > 0 && symmetric(*g) ==> forall|v: i32|
                #[trigger] g.adj().contains_key(v) && !excluded(*g, *hub_registry, v) ==> in_some_module(r@, v) || in_small_piece(
                    *g,
                    *hub_registry,
                    v,
                ),
    {
        let mut modules: Vec<SatelliteModule> = Vec::new();
        if hub_registry.hub_vertices.len() == 0 {
            return modules;
        }
        let verts = g.vertex_list();
        let mut non_hub: Vec<i32> = Vec::new();
        let mut k: usize = 0;
        while k < verts.len()
            invariant
                0 <= k <= verts@.len(),
                verts@ == g.vertices(),
                forall|v: i32| verts@.contains(v) <==> g.adj().contains_key(v),
                forall|v: i32| #[trigger] non_hub@.contains(v) ==> !excluded(*g, *hub_registry, v) && g.adj().contains_key(v),
                forall|j: int| 0 <= j < k && !excluded(*g, *hub_registry, #[trigger] verts@[j]) ==> non_hub@.contains(verts@[j]),
            decreases verts@.len() - k,
        {
            let u = verts[k];
            assert(verts@.contains(u));
            if !Self::is_excluded(g, hub_registry, u) {
                let ghost n0 = non_hub@;
                non_hub.push(u);
                proof {
                    assert(non_hub@[n0.len() as int] == u);
                    assert forall|j: int| 0 <= j < k + 1 && !excluded(*g, *hub_registry, #[trigger] verts@[j]) implies non_hub@.contains(verts@[j]) by {
                        if j < k {
                            assert(n0.contains(verts@[j]));
                            let w = choose|w: int| 0 <= w < n0.len() && n0[w] == verts@[j];
                            assert(non_hub@[w] == verts@[j]);
                        }
                    }
                    assert forall|v: i32| #[trigger] non_hub@.contains(v) implies !excluded(*g, *hub_registry, v) && g.adj().contains_key(v) by {
                        if v != u {
                            let j = choose|j: int| 0 <= j < non_hub@.len() && non_hub@[j] == v;
                            assert(n0[j] == v);
                            assert(n0.contains(v));
                        } else {
                            assert(verts@.contains(u));
                        }
                    }
                }
            }
            k = k + 1;
        }
        let ghost n1 = non_hub@;
        proof {
            assert forall|v: i32| g.adj().contains_key(v) && !excluded(*g, *hub_registry, v) implies n1.contains(v) by {
                assert(verts@.contains(v));
                let j = choose|j: int| 0 <= j < verts@.len() && verts@[j] == v;
            }
        }
        sort_i32(&mut non_hub);
        proof {
            crate::cycle_family::lemma_same_ms(n1, non_hub@);
        }
        let mut visited: HashSet<i32> = HashSet::new();
        let mut idx: usize = 0;
        while idx < non_hub.len()
            invariant
                g.wf(),
                0 <= idx <= non_hub@.len(),
                forall|v: i32| #[trigger] non_hub@.contains(v) ==> !excluded(*g, *hub_registry, v) && g.adj().contains_key(v),
                closed_under(*g, *hub_registry, visited@),
                forall|v: i32| visited@.contains(v) ==> !excluded(*g, *hub_registry, v),
                forall|k: int| 0 <= k < modules@.len() ==> module_ok(*g, *hub_registry, #[trigger] modules@[k], k),
                forall|k: int| 0 <= k < modules@.len() ==> module_connected(*g, *hub_registry, #[trigger] modules@[k]),
                forall|k: int, v: i32| 0 <= k < modules@.len() && #[trigger] modules@[k].vertices@.contains(v) ==> visited@.contains(v),
                forall|a: int, b: int, v: i32|
                    0 <= a < b < modules@.len() && #[trigger] modules@[a].vertices@.contains(v) ==> !#[trigger] modules@[b].vertices@.contains(v),
                forall|v: i32| g.adj().contains_key(v) && !excluded(*g, *hub_registry, v) ==> non_hub@.contains(v),
                forall|j: int| 0 <= j < idx ==> visited@.contains(#[trigger] non_hub@[j]),
                symmetric(*g) ==> forall|v: i32| #[trigger] visited@.contains(v) ==> in_some_module(modules@, v) || in_small_piece(*g, *hub_registry, v),
            decreases non_hub@.len() - idx,
        {
            let u = non_hub[idx];
            assert(non_hub@.contains(u));
            if !visited.contains(&u) {
                let ghost before = visited@;
                let comp = Self::component_from(g, hub_registry, u, &mut visited);
                if comp.len() >= 5 {
                    let module_id = modules.len();
                    let ghost cs = comp@;
                    let m = Self::build_module(g, hub_registry, comp, module_id);
                    proof {
                        assert forall|v: i32| m.vertices@.contains(v) implies !excluded(*g, *hub_registry, v) by {
                            assert(cs.contains(v));
                            assert(visited@.contains(v));
                        }
                        if symmetric(*g) {
                            assert forall|a: i32, b: i32|
                                m.vertices@.contains(a) && #[trigger] g.has_edge(a, b) && !excluded(*g, *hub_registry, b)
                                    implies m.vertices@.contains(b) by {
                                assert(cs.contains(a));
                                assert(cs.contains(b));
                            }
                        }
                        assert(module_ok(*g, *hub_registry, m, module_id as int));
                        assert(m.vertices@.contains(u));
                        assert forall|v: i32| #[trigger] m.vertices@.contains(v) implies reaches(*g, *hub_registry, u, v) by {
                            assert(cs.contains(v));
                        }
                        assert(module_connected(*g, *hub_registry, m));
                    }
                    let ghost mb = modules@;
                    modules.push(m);
                    proof {
                        assert forall|k: int| 0 <= k < modules@.len() implies module_ok(*g, *hub_registry, #[trigger] modules@[k], k) by {
                            if k < mb.len() {
                                assert(modules@[k] == mb[k]);
                            }
                        }
                        assert forall|k: int| 0 <= k < modules@.len() implies module_connected(*g, *hub_registry, #[trigger] modules@[k]) by {
                            if k < mb.len() {
                                assert(modules@[k] == mb[k]);
                            }
                        }
                        assert forall|k: int, v: i32| 0 <= k < modules@.len() && #[trigger] modules@[k].vertices@.contains(v) implies visited@.contains(v) by {
                            if k < mb.len() {
                                assert(modules@[k] == mb[k]);
                                assert(mb[k].vertices@.contains(v));
                                assert(before.contains(v));
                            } else {
                                assert(modules@[k] == m);
                                assert(cs.contains(v));
                            }
                        }
                        assert forall|a: int, b: int, v: i32|
                            0 <= a < b < modules@.len() && #[trigger] modules@[a].vertices@.contains(v) implies !#[trigger] modules@[b].vertices@.contains(v) by {
                            assert(modules@[a] == mb[a]);
                            assert(mb[a].vertices@.contains(v));
                            if b < mb.len() {
                                assert(modules@[b] == mb[b]);
                            } else {
                                assert(before.contains(v));
                                assert(modules@[b] == m);
                                if m.vertices@.contains(v) {
                                    assert(cs.contains(v));
                                    assert(!before.contains(v));
                                }
                            }
                        }
                        if symmetric(*g) {
                            assert forall|v: i32| #[trigger] visited@.contains(v) implies in_some_module(modules@, v) || in_small_piece(
                                *g,
                                *hub_registry,
                                v,
                            ) by {
                                if before.contains(v) {
                                    if in_some_module(mb, v) {
                                        let k = choose|k: int| 0 <= k < mb.len() && #[trigger] mb[k].vertices@.contains(v);
                                        assert(modules@[k] == mb[k]);
                                    }
                                } else {
                                    assert(cs.contains(v));
                                    assert(modules@[mb.len() as int] == m);
                                    assert(m.vertices@.contains(v));
                                }
                            }
                        }
                    }
                } else {
                    proof {
                        if symmetric(*g) {
                            let c = comp@.to_set();
                            comp@.unique_seq_to_set();
                            assert(closed_under(*g, *hub_registry, c)) by {
                                assert forall|a: i32, b: i32| c.contains(a) && #[trigger] g.has_edge(a, b) && !excluded(*g, *hub_registry, b) implies c.contains(b) by {
                                    assert(comp@.contains(a));
                                    assert(comp@.contains(b));
                                }
                            }
                            assert forall|v: i32| #[trigger] visited@.contains(v) implies in_some_module(modules@, v) || in_small_piece(
                                *g,
                                *hub_registry,
                                v,
                            ) by {
                                if !before.contains(v) {
                                    assert(comp@.contains(v));
                                    assert(c.contains(v));
                                }
                            }
                        }
                    }
                }
            }
            proof {
                assert(visited@.contains(non_hub@[idx as int]));
            }
            idx = idx + 1;
        }
        proof {
            assert forall|v: i32| #[trigger] g.adj().contains_key(v) && !excluded(*g, *hub_registry, v) implies visited@.contains(v) by {
                assert(non_hub@.contains(v));
                let j = choose|j: int| 0 <= j < non_hub@.len() && non_hub@[j] == v;
                assert(visited@.contains(non_hub@[j]));
            }
        }
        modules
    }

    fn is_excluded(g: &Graph, hub_registry: &HubRegistry, v: i32) -> (b: bool)
        ensures
            b == excluded(*g, *hub_registry, v),
    {
        vec_contains(&hub_registry.hub_vertices, v) || (g.contains_vertex(v) && g.degree(v) >= 20)
    }

    /// The non-excluded vertices reachable from `u` through non-excluded
    /// vertices and not visited before; all of them become visited.
    fn component_from(g: &Graph, hub_registry: &HubRegistry, u: i32, visited: &mut HashSet<i32>) -> (comp: Vec<i32>)
        requires
            g.wf(),
            g.adj().contains_key(u),
            !old(visited)@.contains(u),
            !excluded(*g, *hub_registry, u),
            closed_under(*g, *hub_registry, old(visited)@),
            forall|v: i32| old(visited)@.contains(v) ==> !excluded(*g, *hub_registry, v),
        ensures
            comp@.no_duplicates(),
            comp@.contains(u),
            forall|v: i32| #[trigger] comp@.contains(v) <==> final(visited)@.contains(v) && !old(visited)@.contains(v),
            old(visited)@.subset_of(final(visited)@),
            closed_under(*g, *hub_registry, final(visited)@),
            forall|v: i32| final(visited)@.contains(v) ==> !excluded(*g, *hub_registry, v),
            symmetric(*g) ==> forall|a: i32, b: i32|
                comp@.contains(a) && #[trigger] g.has_edge(a, b) && !excluded(*g, *hub_registry, b) ==> comp@.contains(b),
            forall|v: i32| #[trigger] comp@.contains(v) ==> reaches(*g, *hub_registry, u, v),
    {
        proof {
            g.lemma_wf();
        }
        let ghost v0 = visited@;
        let mut comp: Vec<i32> = Vec::new();
        let mut stack: Vec<i32> = Vec::new();
        visited.insert(u);
        stack.push(u);
        comp.push(u);
        proof {
            assert(comp@ == seq![u]);
            assert(stack@ == seq![u]);
            assert(comp@[0] == u);
            assert forall|v: i32| #[trigger] comp@.contains(v) <==> visited@.contains(v) && !v0.contains(v) by {
                if comp@.contains(v) {
                    let j = choose|j: int| 0 <= j < comp@.len() && comp@[j] == v;
                }
            }
            crate::graph::lemma_distinct_vertices_bound(*g, comp@);
            assert(clear_walk(*g, *hub_registry, seq![u]));
            assert forall|v: i32| #[trigger] comp@.contains(v) implies reaches(*g, *hub_registry, u, v) by {
                assert(seq![u][0] == u);
                assert(v == u);
            }
        }
        while stack.len() > 0
            invariant
                g.wf(),
                forall|a: i32, x: i32| #[trigger] g.has_edge(a, x) ==> g.adj().contains_key(x),
                g.adj().dom().finite(),
                v0 == old(visited)@,
                !v0.contains(u),
                comp@.no_duplicates(),
                comp@.contains(u),
                forall|v: i32| #[trigger] comp@.contains(v) ==> reaches(*g, *hub_registry, u, v),
                forall|v: i32| #[trigger] comp@.contains(v) ==> g.adj().contains_key(v),
                comp@.len() <= g.adj().dom().len(),
                forall|v: i32| #[trigger] comp@.contains(v) <==> visited@.contains(v) && !v0.contains(v),
                v0.subset_of(visited@),
                closed_under(*g, *hub_registry, v0),
                forall|v: i32| visited@.contains(v) ==> !excluded(*g, *hub_registry, v),
                forall|t: int| 0 <= t < stack@.len() ==> comp@.contains(#[trigger] stack@[t]),
                forall|a: i32, b: i32|
                    visited@.contains(a) && !v0.contains(a) && !stack@.contains(a) && #[trigger] g.has_edge(a, b)
                        && !excluded(*g, *hub_registry, b) ==> visited@.contains(b),
            decreases g.adj().dom().len() - comp@.len(), stack@.len(),
        {
            let ghost s0 = stack@;
            let ghost c0 = comp@;
            let curr = stack.pop().unwrap();
            proof {
                assert(s0 == stack@.push(curr));
                assert(comp@.contains(s0[s0.len() - 1]));
                assert forall|a: i32| s0.contains(a) <==> stack@.contains(a) || a == curr by {
                    if s0.contains(a) && a != curr {
                        let j = choose|j: int| 0 <= j < s0.len() && s0[j] == a;
                        assert(stack@[j] == a);
                    }
                    if stack@.contains(a) {
                        let j = choose|j: int| 0 <= j < stack@.len() && stack@[j] == a;
                        assert(s0[j] == a);
                    }
                    if a == curr {
                        assert(s0[s0.len() - 1] == curr);
                    }
                }
            }
            match g.neighbors(curr) {
                Some(nbrs) => {
                    let mut t: usize = 0;
                    while t < nbrs.len()
                        invariant
                            g.wf(),
                            forall|a: i32, x: i32| #[trigger] g.has_edge(a, x) ==> g.adj().contains_key(x),
                            g.adj().dom().finite(),
                            0 <= t <= nbrs@.len(),
                            nbrs@ == g.adj()[curr],
                            g.adj().contains_key(curr),
                            v0 == old(visited)@,
                            comp@.no_duplicates(),
                            comp@.contains(u),
                            comp@.contains(curr),
                            forall|v: i32| #[trigger] comp@.contains(v) ==> reaches(*g, *hub_registry, u, v),
                            forall|v: i32| #[trigger] comp@.contains(v) ==> g.adj().contains_key(v),
                            comp@.len() <= g.adj().dom().len(),
                            c0.len() <= comp@.len(),
                            forall|v: i32| #[trigger] comp@.contains(v) <==> visited@.contains(v) && !v0.contains(v),
                            v0.subset_of(visited@),
                            forall|v: i32| visited@.contains(v) ==> !excluded(*g, *hub_registry, v),
                            forall|q: int| 0 <= q < stack@.len() ==> comp@.contains(#[trigger] stack@[q]),
                            forall|q: int| 0 <= q < t ==> excluded(*g, *hub_registry, #[trigger] nbrs@[q]) || visited@.contains(nbrs@[q]),
                            forall|a: i32, b: i32|
                                visited@.contains(a) && !v0.contains(a) && !stack@.contains(a) && a != curr && #[trigger] g.has_edge(a, b)
                                    && !excluded(*g, *hub_registry, b) ==> visited@.contains(b),
                            stack@.len() > s0.len() - 1 ==> comp@.len() > c0.len(),
                        decreases nbrs@.len() - t,
                    {
                        let nbr = nbrs[t];
                        if !Self::is_excluded(g, hub_registry, nbr) && !visited.contains(&nbr) {
                            let ghost st = stack@;
                            let ghost cm = comp@;
                            let ghost vis0 = visited@;
                            visited.insert(nbr);
                            stack.push(nbr);
                            comp.push(nbr);
                            proof {
                                assert(nbrs@[t as int] == nbr);
                                assert(g.adj()[curr].contains(nbr));
                                assert(g.has_edge(curr, nbr));
                                assert(g.adj().contains_key(nbr));
                                assert(!cm.contains(nbr));
                                assert forall|v: i32| comp@.contains(v) <==> cm.contains(v) || v == nbr by {
                                    if comp@.contains(v) && v != nbr {
                                        let j = choose|j: int| 0 <= j < comp@.len() && comp@[j] == v;
                                        assert(cm[j] == v);
                                    }
                                    if cm.contains(v) {
                                        let j = choose|j: int| 0 <= j < cm.len() && cm[j] == v;
                                        assert(comp@[j] == v);
                                    }
                                    if v == nbr {
                                        assert(comp@[cm.len() as int] == nbr);
                                    }
                                }
                                assert forall|a: i32| stack@.contains(a) <==> st.contains(a) || a == nbr by {
                                    if stack@.contains(a) && a != nbr {
                                        let j = choose|j: int| 0 <= j < stack@.len() && stack@[j] == a;
                                        assert(st[j] == a);
                                    }
                                    if st.contains(a) {
                                        let j = choose|j: int| 0 <= j < st.len() && st[j] == a;
                                        assert(stack@[j] == a);
                                    }
                                    if a == nbr {
                                        assert(stack@[st.len() as int] == nbr);
                                    }
                                }
                                assert forall|q: int| 0 <= q < stack@.len() implies comp@.contains(#[trigger] stack@[q]) by {
                                    if q < st.len() {
                                        assert(stack@[q] == st[q]);
                                        assert(cm.contains(st[q]));
                                    }
                                }
                                assert forall|v: i32| #[trigger] comp@.contains(v) implies g.adj().contains_key(v) by {
                                    if v != nbr {
                                        assert(cm.contains(v));
                                    }
                                }
                                assert(cm.contains(curr));
                                assert(!excluded(*g, *hub_registry, nbr));
                                lemma_reach_extend(*g, *hub_registry, u, curr, nbr);
                                assert forall|v: i32| #[trigger] comp@.contains(v) implies reaches(*g, *hub_registry, u, v) by {
                                    if v != nbr {
                                        assert(cm.contains(v));
                                    }
                                }
                                assert(visited@ == vis0.insert(nbr));
                                assert(!v0.contains(nbr));
                                assert forall|v: i32| #[trigger] comp@.contains(v) <==> visited@.contains(v) && !v0.contains(v) by {
                                    if v != nbr {
                                        assert(comp@.contains(v) <==> cm.contains(v));
                                        assert(cm.contains(v) <==> vis0.contains(v) && !v0.contains(v));
                                    }
                                }
                                assert forall|a: i32, b: i32|
                                    visited@.contains(a) && !v0.contains(a) && !stack@.contains(a) && a != curr && #[trigger] g.has_edge(a, b)
                                        && !excluded(*g, *hub_registry, b) implies visited@.contains(b) by {
                                    assert(stack@[st.len() as int] == nbr);
                                    assert(stack@.contains(nbr));
                                    assert(a != nbr);
                                    assert(vis0.contains(a));
                                    assert(!st.contains(a));
                                    assert(vis0.contains(b));
                                }
                                crate::graph::lemma_distinct_vertices_bound(*g, comp@);
                            }
                        }
                        t = t + 1;
                    }
                    proof {
                        assert forall|b: i32| #[trigger] g.has_edge(curr, b) && !excluded(*g, *hub_registry, b) implies visited@.contains(b) by {
                            let q = choose|q: int| 0 <= q < nbrs@.len() && nbrs@[q] == b;
                            assert(excluded(*g, *hub_registry, nbrs@[q]) || visited@.contains(nbrs@[q]));
                        }
                    }
                },
                None => {},
            }
        }
        proof {
            assert forall|a: i32, b: i32| visited@.contains(a) && #[trigger] g.has_edge(a, b) && !excluded(*g, *hub_registry, b)
                implies visited@.contains(b) by {
                if v0.contains(a) {
                    assert(v0.contains(b));
                }
            }
            if symmetric(*g) {
                assert forall|a: i32, b: i32|
                    comp@.contains(a) && #[trigger] g.has_edge(a, b) && !excluded(*g, *hub_registry, b) implies comp@.contains(b) by {
                    assert(visited@.contains(b));
                    if v0.contains(b) {
                        assert(g.has_edge(b, a));
                        assert(!excluded(*g, *hub_registry, a));
                        assert(v0.contains(a));
                    }
                }
            }
        }
        comp
    }

    /// Assembles the module record of a component.
    fn build_module(g: &Graph, hub_registry: &HubRegistry, comp: Vec<i32>, module_id: usize) -> (m: SatelliteModule)
        requires
            comp@.no_duplicates(),
        ensures
            m.module_id == module_id,
            forall|v: i32| m.vertices@.contains(v) <==> comp@.contains(v),
            m.vertices@.finite(),
            m.vertices@.len() == comp@.len(),
            internal_ok(*g, m.vertices@, m.internal_adj@),
            hubs_ok(*g, *hub_registry, m.vertices@, m.hub_connections@),
    {
        let mut vertices: HashSet<i32> = HashSet::new();
        let mut k: usize = 0;
        while k < comp.len()
            invariant
                0 <= k <= comp@.len(),
                forall|v: i32| vertices@.contains(v) <==> comp@.subrange(0, k as int).contains(v),
            decreases comp@.len() - k,
        {
            vertices.insert(comp[k]);
            proof {
                let p = comp@.subrange(0, k as int);
                let q = comp@.subrange(0, k + 1);
                assert(q == p.push(comp@[k as int]));
                assert forall|v: i32| vertices@.contains(v) <==> q.contains(v) by {
                    if p.contains(v) {
                        let j = choose|j: int| 0 <= j < p.len() && p[j] == v;
                        assert(q[j] == v);
                    }
                    if q.contains(v) && v != comp@[k as int] {
                        let j = choose|j: int| 0 <= j < q.len() && q[j] == v;
                        assert(p[j] == v);
                    }
                    if v == comp@[k as int] {
                        assert(q[k as int] == v);
                    }
                }
            }
            k = k + 1;
        }
        proof {
            assert(comp@.subrange(0, comp@.len() as int) == comp@);
            comp@.unique_seq_to_set();
            assert(vertices@ =~= comp@.to_set());
        }
        let internal_adj = Self::internal_lists(g, &comp, &vertices);
        let hub_connections = Self::hub_links(g, hub_registry, &comp, &vertices);
        SatelliteModule { module_id, vertices, internal_adj, hub_connections }
    }

    /// For each member of the component that is a vertex, its neighbours
    /// inside the component, sorted.
    fn internal_lists(g: &Graph, comp: &Vec<i32>, vertices: &HashSet<i32>) -> (ia: HashMap<i32, Vec<i32>>)
        requires
            forall|v: i32| vertices@.contains(v) <==> comp@.contains(v),
        ensures
            internal_ok(*g, vertices@, ia@),
    {
        let mut ia: HashMap<i32, Vec<i32>> = HashMap::new();
        let mut k: usize = 0;
        while k < comp.len()
            invariant
                0 <= k <= comp@.len(),
                forall|v: i32| vertices@.contains(v) <==> comp@.contains(v),
                forall|u: i32| #[trigger] ia@.contains_key(u) <==> comp@.subrange(0, k as int).contains(u) && g.adj().contains_key(u),
                forall|u: i32|
                    #![trigger ia@[u]]
                    ia@.contains_key(u) ==> sorted_asc(ia@[u]@) && ia@[u]@.to_multiset() == keep_in(g.adj()[u], vertices@).to_multiset(),
            decreases comp@.len() - k,
        {
            let u = comp[k];
            let ghost p = comp@.subrange(0, k as int);
            proof {
                assert(comp@.subrange(0, k + 1) == p.push(u));
            }
            match g.neighbors(u) {
                Some(nbrs) => {
                    let mut inner: Vec<i32> = Vec::new();
                    let mut t: usize = 0;
                    while t < nbrs.len()
                        invariant
                            0 <= t <= nbrs@.len(),
                            inner@ == keep_in(nbrs@.subrange(0, t as int), vertices@),
                        decreases nbrs@.len() - t,
                    {
                        let x = nbrs[t];
                        proof {
                            let q = nbrs@.subrange(0, t + 1);
                            assert(q.drop_last() == nbrs@.subrange(0, t as int));
                            assert(q.last() == x);
                        }
                        if vertices.contains(&x) {
                            inner.push(x);
                        }
                        t = t + 1;
                    }
                    proof {
                        assert(nbrs@.subrange(0, nbrs@.len() as int) == nbrs@);
                    }
                    let sorted = sorted_copy(&inner);
                    ia.insert(u, sorted);
                },
                None => {},
            }
            proof {
                assert forall|w: i32| #[trigger] ia@.contains_key(w) <==> comp@.subrange(0, k + 1).contains(w) && g.adj().contains_key(w) by {
                    if p.contains(w) {
                        let j = choose|j: int| 0 <= j < p.len() && p[j] == w;
                        assert(p.push(u)[j] == w);
                    }
                    if p.push(u).contains(w) && w != u {
                        let j = choose|j: int| 0 <= j < p.push(u).len() && p.push(u)[j] == w;
                        assert(p[j] == w);
                    }
                    if w == u {
                        assert(p.push(u)[p.len() as int] == u);
                    }
                }
            }
            k = k + 1;
        }
        proof {
            assert(comp@.subrange(0, comp@.len() as int) == comp@);
        }
        ia
    }

    /// For each flagged hub outside the component that a member lists as a
    /// neighbour, the members that list it, sorted and each once.
    #[verifier::rlimit(40)]
    fn hub_links(g: &Graph, hub_registry: &HubRegistry, comp: &Vec<i32>, vertices: &HashSet<i32>) -> (hc: HashMap<i32, Vec<i32>>)
        requires
            forall|v: i32| vertices@.contains(v) <==> comp@.contains(v),
        ensures
            hubs_ok(*g, *hub_registry, vertices@, hc@),
    {
        let mut raw: HashMap<i32, Vec<i32>> = HashMap::new();
        let mut keys: Vec<i32> = Vec::new();
        let mut k: usize = 0;
        while k < comp.len()
            invariant
                0 <= k <= comp@.len(),
                forall|v: i32| vertices@.contains(v) <==> comp@.contains(v),
                forall|h: i32| raw@.contains_key(h) <==> keys@.contains(h),
                forall|h: i32| #[trigger] raw@.contains_key(h) ==> hub_registry.flagged(h) && !vertices@.contains(h),
                forall|h: i32, w: i32|
                    #![trigger raw@[h]@.contains(w)]
                    #![trigger raw@.contains_key(h), g.has_edge(w, h)]
                    raw@.contains_key(h) ==> (raw@[h]@.contains(w) <==> comp@.subrange(0, k as int).contains(w)
                        && g.has_edge(w, h)),
                forall|w: i32, h: i32|
                    comp@.subrange(0, k as int).contains(w) && #[trigger] g.has_edge(w, h) && !vertices@.contains(h)
                        && hub_registry.flagged(h) ==> raw@.contains_key(h),
            decreases comp@.len() - k,
        {
            let u = comp[k];
            let ghost p = comp@.subrange(0, k as int);
            let ghost pu = comp@.subrange(0, k + 1);
            proof {
                assert(pu == p.push(u));
                assert forall|w: i32| pu.contains(w) <==> p.contains(w) || w == u by {
                    if p.contains(w) {
                        let j = choose|j: int| 0 <= j < p.len() && p[j] == w;
                        assert(pu[j] == w);
                    }
                    if pu.contains(w) && w != u {
                        let j = choose|j: int| 0 <= j < pu.len() && pu[j] == w;
                        assert(p[j] == w);
                    }
                    if w == u {
                        assert(pu[p.len() as int] == u);
                    }
                }
            }
            match g.neighbors(u) {
                Some(nbrs) => {
                    let mut t: usize = 0;
                    while t < nbrs.len()
                        invariant
                            0 <= t <= nbrs@.len(),
                            nbrs@ == g.adj()[u],
                            g.adj().contains_key(u),
                            forall|w: i32| pu.contains(w) <==> p.contains(w) || w == u,
                            forall|h: i32| raw@.contains_key(h) <==> keys@.contains(h),
                            forall|h: i32| #[trigger] raw@.contains_key(h) ==> hub_registry.flagged(h) && !vertices@.contains(h),
                            forall|h: i32, w: i32|
                                #![trigger raw@[h]@.contains(w)]
                                #![trigger raw@.contains_key(h), g.has_edge(w, h)]
                                raw@.contains_key(h) ==> (raw@[h]@.contains(w) <==> (p.contains(w) && g.has_edge(w, h))
                                    || (w == u && nbrs@.subrange(0, t as int).contains(h))),
                            forall|w: i32, h: i32|
                                p.contains(w) && #[trigger] g.has_edge(w, h) && !vertices@.contains(h)
                                    && hub_registry.flagged(h) ==> raw@.contains_key(h),
                            forall|h: i32|
                                #[trigger] nbrs@.subrange(0, t as int).contains(h) && !vertices@.contains(h) && hub_registry.flagged(h)
                                    ==> raw@.contains_key(h),
                        decreases nbrs@.len() - t,
                    {
                        let x = nbrs[t];
                        let ghost q0 = nbrs@.subrange(0, t as int);
                        let ghost q1 = nbrs@.subrange(0, t + 1);
                        proof {
                            assert(q1 == q0.push(x));
                            assert forall|h: i32| q1.contains(h) <==> q0.contains(h) || h == x by {
                                if q0.contains(h) {
                                    let j = choose|j: int| 0 <= j < q0.len() && q0[j] == h;
                                    assert(q1[j] == h);
                                }
                                if q1.contains(h) && h != x {
                                    let j = choose|j: int| 0 <= j < q1.len() && q1[j] == h;
                                    assert(q0[j] == h);
                                }
                                if h == x {
                                    assert(q1[q0.len() as int] == x);
                                }
                            }
                        }
                        let ghost r0 = raw@;
                        let ghost k0 = keys@;
                        proof {
                            assert forall|h: i32, w: i32| r0.contains_key(h) && h != x implies (r0[h]@.contains(w) <==> (p.contains(w)
                                && g.has_edge(w, h)) || (w == u && q1.contains(h))) by {
                                assert(r0[h]@.contains(w) <==> (p.contains(w) && g.has_edge(w, h)) || (w == u && q0.contains(h)));
                            }
                        }
                        if !vertices.contains(&x) && hub_registry.is_hub_vertex(x) {
                            match raw.get(&x) {
                                Some(l) => {
                                    let mut l2 = l.clone();
                                    assert(l2@ =~= l@);
                                    l2.push(u);
                                    raw.insert(x, l2);
                                    proof {
                                        assert(keys@ == k0);
                                        let rx = r0[x]@;
                                        assert(raw@[x]@ == rx.push(u));
                                        assert forall|w: i32| raw@[x]@.contains(w) <==> (p.contains(w) && g.has_edge(w, x)) || (w == u
                                            && q1.contains(x)) by {
                                            assert(rx.contains(w) <==> (p.contains(w) && g.has_edge(w, x)) || (w == u && q0.contains(x)));
                                            if rx.contains(w) {
                                                let j = choose|j: int| 0 <= j < rx.len() && rx[j] == w;
                                                assert(raw@[x]@[j] == w);
                                            }
                                            if raw@[x]@.contains(w) && w != u {
                                                let j = choose|j: int| 0 <= j < raw@[x]@.len() && raw@[x]@[j] == w;
                                                assert(rx[j] == w);
                                            }
                                            assert(raw@[x]@[rx.len() as int] == u);
                                        }
                                    }
                                },
                                None => {
                                    let mut l2: Vec<i32> = Vec::new();
                                    l2.push(u);
                                    raw.insert(x, l2);
                                    keys.push(x);
                                    proof {
                                        assert(raw@[x]@ == seq![u]);
                                        assert forall|w: i32| raw@[x]@.contains(w) <==> (p.contains(w) && g.has_edge(w, x)) || (w == u
                                            && q1.contains(x)) by {
                                            if p.contains(w) && g.has_edge(w, x) {
                                                assert(r0.contains_key(x));
                                            }
                                            if w == u {
                                                assert(raw@[x]@[0] == u);
                                            }
                                        }
                                        assert forall|h: i32| raw@.contains_key(h) <==> keys@.contains(h) by {
                                            assert(keys@ == k0.push(x));
                                            if keys@.contains(h) && h != x {
                                                let j = choose|j: int| 0 <= j < keys@.len() && keys@[j] == h;
                                                assert(k0[j] == h);
                                            }
                                            if k0.contains(h) {
                                                let j = choose|j: int| 0 <= j < k0.len() && k0[j] == h;
                                                assert(keys@[j] == h);
                                            }
                                            if h == x {
                                                assert(keys@[k0.len() as int] == x);
                                            }
                                        }
                                    }
                                },
                            }
                            proof {
                                assert forall|h: i32, w: i32| raw@.contains_key(h) implies (raw@[h]@.contains(w) <==> (p.contains(w)
                                    && g.has_edge(w, h)) || (w == u && q1.contains(h))) by {
                                    if h != x {
                                        assert(raw@[h] == r0[h]);
                                        assert(r0.contains_key(h));
                                    }
                                }
                            }
                        } else {
                            proof {
                                if r0.contains_key(x) {
                                    assert(hub_registry.flagged(x) && !vertices@.contains(x));
                                }
                                assert forall|h: i32, w: i32| raw@.contains_key(h) implies (raw@[h]@.contains(w) <==> (p.contains(w)
                                    && g.has_edge(w, h)) || (w == u && q1.contains(h))) by {
                                    assert(h != x);
                                }
                            }
                        }
                        proof {
                            assert forall|h: i32, w: i32|
                                #![trigger raw@[h]@.contains(w)]
                                #![trigger raw@.contains_key(h), g.has_edge(w, h)]
                                raw@.contains_key(h) implies (raw@[h]@.contains(w) <==> (p.contains(w) && g.has_edge(w, h))
                                    || (w == u && nbrs@.subrange(0, t + 1).contains(h))) by {
                                assert(q1 == nbrs@.subrange(0, t + 1));
                            }
                        }
                        t = t + 1;
                    }
                    proof {
                        assert(nbrs@.subrange(0, nbrs@.len() as int) == nbrs@);
                    }
                },
                None => {},
            }
            proof {
                assert forall|h: i32, w: i32|
                    raw@.contains_key(h) implies (raw@[h]@.contains(w) <==> pu.contains(w) && g.has_edge(w, h)) by {
                }
                assert forall|w: i32, h: i32|
                    pu.contains(w) && #[trigger] g.has_edge(w, h) && !vertices@.contains(h) && hub_registry.flagged(h)
                        implies raw@.contains_key(h) by {
                    if w == u {
                        assert(g.adj()[u].contains(h));
                    }
                }
            }
            k = k + 1;
        }
        proof {
            assert(comp@.subrange(0, comp@.len() as int) == comp@);
        }
        let mut hc: HashMap<i32, Vec<i32>> = HashMap::new();
        let mut j: usize = 0;
        while j < keys.len()
            invariant
                0 <= j <= keys@.len(),
                forall|v: i32| vertices@.contains(v) <==> comp@.contains(v),
                forall|h: i32| raw@.contains_key(h) <==> keys@.contains(h),
                forall|h: i32| #[trigger] raw@.contains_key(h) ==> hub_registry.flagged(h) && !vertices@.contains(h),
                forall|h: i32, w: i32|
                    #![trigger raw@[h]@.contains(w)]
                    #![trigger raw@.contains_key(h), g.has_edge(w, h)]
                    raw@.contains_key(h) ==> (raw@[h]@.contains(w) <==> comp@.contains(w) && g.has_edge(w, h)),
                forall|w: i32, h: i32|
                    comp@.contains(w) && #[trigger] g.has_edge(w, h) && !vertices@.contains(h) && hub_registry.flagged(h)
                        ==> raw@.contains_key(h),
                forall|h: i32| #[trigger] hc@.contains_key(h) <==> keys@.subrange(0, j as int).contains(h),
                forall|h: i32|
                    #![trigger hc@[h]]
                    hc@.contains_key(h) ==> raw@.contains_key(h) && strictly_sorted(hc@[h]@) && (forall|w: i32|
                        hc@[h]@.contains(w) <==> raw@[h]@.contains(w)),
            decreases keys@.len() - j,
        {
            let h = keys[j];
            let ghost kp = keys@.subrange(0, j as int);
            let ghost kq = keys@.subrange(0, j + 1);
            proof {
                assert(kq == kp.push(h));
                assert(keys@.contains(h));
            }
            let ghost hc0 = hc@;
            match raw.get(&h) {
                Some(l) => {
                    let d = sorted_distinct(l);
                    hc.insert(h, d);
                    proof {
                        assert(hc@[h] == d);
                        assert forall|y: i32| #[trigger] hc@.contains_key(y) implies raw@.contains_key(y) && strictly_sorted(hc@[y]@)
                            && (forall|w: i32| hc@[y]@.contains(w) <==> raw@[y]@.contains(w)) by {
                            if y != h {
                                assert(hc@[y] == hc0[y]);
                                assert(hc0.contains_key(y));
                            }
                        }
                    }
                },
                None => {},
            }
            proof {
                assert forall|y: i32| #[trigger] hc@.contains_key(y) <==> kq.contains(y) by {
                    if kp.contains(y) {
                        let i = choose|i: int| 0 <= i < kp.len() && kp[i] == y;
                        assert(kq[i] == y);
                    }
                    if kq.contains(y) && y != h {
                        let i = choose|i: int| 0 <= i < kq.len() && kq[i] == y;
                        assert(kp[i] == y);
                    }
                    if y == h {
                        assert(kq[kp.len() as int] == h);
                    }
                }
            }
            j = j + 1;
        }
        proof {
            assert(keys@.subrange(0, keys@.len() as int) == keys@);
        }
        hc
    }
}

/// Every non-excluded neighbour of a vertex of `s` is in `s`.
pub open spec fn closed_under(g: Graph, hr: HubRegistry, s: Set<i32>) -> bool {
    forall|a: i32, b: i32| s.contains(a) && #[trigger] g.has_edge(a, b) && !excluded(g, hr, b) ==> s.contains(b)
}

/// A cycle of `g` (at least three vertices, consecutive ones adjacent,
/// closing edge included) that visits no vertex twice.
pub fn is_valid_cycle(cycle: &[i32], g: &Graph) -> (b: bool)
    ensures
        b == simple_cycle(*g, cycle@),
{
    is_simple_cycle(cycle, g)
}

} // verus!
