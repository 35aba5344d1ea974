//! A shallow modular decomposition: twin classes (vertices with the same open
//! or the same closed neighbourhood) become series modules under a prime root.
use crate::graph::Graph;
use crate::sorting::{sorted_asc, sorted_copy, sort_i32, swapped, vec_eq};
use std::collections::{HashMap, HashSet};
use vstd::multiset::Multiset;
use vstd::prelude::*;

verus! {

broadcast use vstd::std_specs::hash::group_hash_axioms;

/// The kind of a node of the decomposition tree.
#[derive(Debug)]
pub enum ModularNodeType {
    Leaf(i32),
    Parallel(Vec<usize>),
    Series(Vec<usize>),
    Prime { quotient_adj: HashMap<usize, HashSet<usize>>, children: Vec<usize> },
}

/// A node: its position, its vertices, its kind and its parent.
#[derive(Debug)]
pub struct ModularNode {
    pub id: usize,
    pub vertices: Vec<i32>,
    pub node_type: ModularNodeType,
    pub parent: Option<usize>,
}

/// The decomposition tree, nodes indexed by id.
#[derive(Debug)]
pub struct ModularDecompositionTree {
    pub root: usize,
    pub nodes: Vec<ModularNode>,
}

/// Open neighbourhood of `u`, as a multiset.
pub open spec fn open_ms(g: Graph, u: i32) -> Multiset<i32> {
    g.adj()[u].to_multiset()
}

/// Closed neighbourhood of `u` (its list plus `u`), as a multiset.
pub open spec fn closed_ms(g: Graph, u: i32) -> Multiset<i32> {
    g.adj()[u].push(u).to_multiset()
}

/// All members of `m` are vertices and they are pairwise false twins (equal
/// open neighbourhoods) or pairwise true twins (equal closed neighbourhoods).
pub open spec fn twin_class(g: Graph, m: Seq<i32>) -> bool {
    &&& forall|t: int| 0 <= t < m.len() ==> g.adj().contains_key(#[trigger] m[t])
    &&& {
        ||| forall|a: int, b: int| 0 <= a < m.len() && 0 <= b < m.len() ==> open_ms(g, m[a]) == open_ms(g, m[b])
        ||| forall|a: int, b: int| 0 <= a < m.len() && 0 <= b < m.len() ==> closed_ms(g, m[a]) == closed_ms(g, m[b])
    }
}

/// What holds of node `i` of a decomposition of `g`.
pub open spec fn node_ok(g: Graph, nodes: Seq<ModularNode>, i: int) -> bool {
    node_ok_at(g, nodes[i], i)
}

/// What holds of a node that sits at position `i`.
pub open spec fn node_ok_at(g: Graph, nd: ModularNode, i: int) -> bool {
    &&& nd.id == i
    &&& match nd.node_type {
        ModularNodeType::Leaf(v) => nd.vertices@ == seq![v] && g.adj().contains_key(v) && (nd.parent matches Some(
            p,
        ) && p < i),
        ModularNodeType::Series(ch) => nd.parent == Some(0usize) && nd.vertices@.len() >= 2 && twin_class(
            g,
            nd.vertices@,
        ) && ch@.len() == nd.vertices@.len() && i > 0,
        _ => i == 0,
    }
}

/// The vertices of `g` in increasing order.
pub open spec fn sorted_vertices(g: Graph, s: Seq<i32>) -> bool {
    &&& sorted_asc(s)
    &&& s.no_duplicates()
    &&& forall|v: i32| s.contains(v) <==> g.adj().contains_key(v)
}

impl ModularDecompositionTree {
    /// Decomposes `g`: the root lists all vertices in increasing order; twin
    /// classes of two or more vertices become series nodes over leaves, every
    /// other vertex is a leaf under the root; an empty graph gives a single
    /// parallel root.
    pub fn build(g: &Graph) -> (t: Self)
        requires
            g.wf(),
            g.vertices().len() <= usize::MAX / 8,
        ensures
            t.root == 0,
            t.nodes@.len() >= 1,
            t.nodes@[0].parent is None,
            sorted_vertices(*g, t.nodes@[0].vertices@),
            forall|i: int| 0 <= i < t.nodes@.len() ==> node_ok(*g, t.nodes@, i),
            g.adj().dom().len() == 0 ==> (t.nodes@.len() == 1 && (t.nodes@[0].node_type matches ModularNodeType::Parallel(
                ch,
            ) && ch@.len() == 0)),
            g.adj().dom().len() > 0 ==> t.nodes@[0].node_type is Prime,
            tree_links(t.nodes@),
            forall|x: i32| has_leaf(t.nodes@, x) <==> g.adj().contains_key(x),
            leaves_unique(t.nodes@),
            forall|x: i32, y: i32|
                #[trigger] joined_twins(*g, x, y) ==> exists|i: int|
                    0 <= i < t.nodes@.len() && (#[trigger] t.nodes@[i]).node_type is Series && t.nodes@[i].vertices@.contains(x)
                        && t.nodes@[i].vertices@.contains(y),
    {
        let verts = g.vertex_list();
        let all_vertices = sorted_copy(verts);
        proof {
            crate::cycle_family::lemma_same_ms(verts@, all_vertices@);
        }
        let n = all_vertices.len();
        let mut nodes: Vec<ModularNode> = Vec::new();
        if n == 0 {
            let root = ModularNode {
                id: 0,
                vertices: Vec::new(),
                node_type: ModularNodeType::Parallel(Vec::new()),
                parent: None,
            };
            nodes.push(root);
            proof {
                assert forall|v: i32| !g.adj().contains_key(v) by {
                    assert(!verts@.contains(v));
                }
                assert(g.adj().dom() =~= Set::<i32>::empty());
                assert(sorted_vertices(*g, nodes@[0].vertices@));
                assert forall|x: i32| !has_leaf(nodes@, x) by {
                    if has_leaf(nodes@, x) {
                        let i = choose|i: int| 0 <= i < nodes@.len() && #[trigger] leaf_of(nodes@[i]) == Some(x);
                        assert(i == 0);
                    }
                }
                assert forall|p: int, c: usize| 0 <= p < nodes@.len() && #[trigger] children_of(nodes@[p]).contains(c) implies p < c < nodes@.len()
                    && nodes@[c as int].parent == Some(p as usize) by {
                    assert(p == 0);
                    assert(children_of(nodes@[0]) == Seq::<usize>::empty());
                }
                assert forall|x: i32, y: i32| #[trigger] joined_twins(*g, x, y) implies false by {
                    assert(verts@.contains(x));
                }
            }
            return Self { root: 0, nodes };
        }
        // 1. false twins: equal open neighbourhoods
        let mut visited: HashSet<i32> = HashSet::new();
        let ghost visited0 = visited@;
        let mut strong_modules: Vec<Vec<i32>> = Vec::new();
        let groups = group_by_signature(g, &all_vertices, &visited, false);
        proof {
            assert(strong_modules@.len() == 0);
        }
        let mut k: usize = 0;
        while k < groups.len()
            invariant
                forall|q: int| 0 <= q < groups@.len() ==> (#[trigger] groups@[q])@.no_duplicates(),
                forall|q1: int, q2: int, t1: int, t2: int|
                    0 <= q1 < groups@.len() && 0 <= q2 < groups@.len() && q1 != q2 && 0 <= t1 < groups@[q1]@.len() && 0 <= t2
                        < groups@[q2]@.len() ==> sig_ms(*g, #[trigger] groups@[q1]@[t1], false) != sig_ms(
                        *g,
                        #[trigger] groups@[q2]@[t2],
                        false,
                    ),
                disjoint_lists(strong_modules@),
                forall|x: i32| visited@.contains(x) <==> listed_in(strong_modules@, x),
                forall|x: i32| visited@.contains(x) ==> exists|k2: int| 0 <= k2 < k && (#[trigger] groups@[k2])@.contains(x),
                forall|q: int| 0 <= q < groups@.len() ==> twin_class(*g, #[trigger] groups@[q]@),
                forall|q: int| 0 <= q < strong_modules@.len() ==> twin_class(*g, #[trigger] strong_modules@[q]@)
                    && strong_modules@[q]@.len() >= 2,
                0 <= k <= groups@.len(),
                total_len(groups@) <= n,
                total_len(strong_modules@) <= total_len(groups@.subrange(0, k as int)),
                forall|k2: int, x: i32, y: i32|
                    #![trigger groups@[k2]@.contains(x), groups@[k2]@.contains(y)]
                    0 <= k2 < k && groups@[k2]@.len() > 1 && groups@[k2]@.contains(x) && groups@[k2]@.contains(y) ==> together(
                        strong_modules@,
                        x,
                        y,
                    ),
                forall|q: int, t1: int, t2: int|
                    0 <= q < strong_modules@.len() && 0 <= t1 < strong_modules@[q]@.len() && 0 <= t2 < strong_modules@[q]@.len()
                        ==> open_ms(*g, #[trigger] strong_modules@[q]@[t1]) == open_ms(*g, #[trigger] strong_modules@[q]@[t2]),
                forall|q: int, t1: int, t2: int|
                    0 <= q < groups@.len() && 0 <= t1 < groups@[q]@.len() && 0 <= t2 < groups@[q]@.len() ==> sig_ms(
                        *g,
                        #[trigger] groups@[q]@[t1],
                        false,
                    ) == sig_ms(*g, #[trigger] groups@[q]@[t2], false),
            decreases groups@.len() - k,
        {
            if groups[k].len() > 1 {
                let ghost vk = visited@;
                let ghost gk = groups@[k as int]@;
                proof {
                    assert forall|x: i32| gk.contains(x) implies !vk.contains(x) by {
                        if vk.contains(x) {
                            let k2 = choose|k2: int| 0 <= k2 < k && (#[trigger] groups@[k2])@.contains(x);
                            let t1 = choose|t1: int| 0 <= t1 < groups@[k2]@.len() && groups@[k2]@[t1] == x;
                            let t2 = choose|t2: int| 0 <= t2 < gk.len() && gk[t2] == x;
                            assert(sig_ms(*g, groups@[k2]@[t1], false) != sig_ms(*g, groups@[k as int]@[t2], false));
                        }
                    }
                }
                let mut t: usize = 0;
                while t < groups[k].len()
                    invariant
                        0 <= t <= groups@[k as int]@.len(),
                        k < groups@.len(),
                        gk == groups@[k as int]@,
                        forall|x: i32| #[trigger] visited@.contains(x) <==> vk.contains(x) || gk.take(t as int).contains(x),
                    decreases groups@[k as int]@.len() - t,
                {
                    proof {
                        lemma_take_one_more(gk, t as int);
                    }
                    let ghost vb = visited@;
                    assert forall|x: i32| vb.contains(x) <==> vk.contains(x) || gk.take(t as int).contains(x) by {
                        assert(visited@.contains(x) <==> vk.contains(x) || gk.take(t as int).contains(x));
                    }
                    let x0 = groups[k][t];
                    visited.insert(x0);
                    proof {
                        assert(x0 == gk[t as int]);
                        assert forall|x: i32| visited@.contains(x) <==> vk.contains(x) || gk.take(t + 1).contains(x) by {
                            assert(visited@.contains(x) <==> vb.contains(x) || x == x0);
                            assert(vb.contains(x) <==> vk.contains(x) || gk.take(t as int).contains(x));
                            assert(gk.take(t + 1).contains(x) <==> gk.take(t as int).contains(x) || x == gk[t as int]);
                        }
                    }
                    t = t + 1;
                }
                let m = groups[k].clone();
                assert(m@ == groups@[k as int]@);
                let ghost sb = strong_modules@;
                strong_modules.push(m);
                proof {
                    lemma_total_len_push(sb, m);
                    assert(gk.take(gk.len() as int) == gk);
                    assert(strong_modules@ == sb.push(m));
                    assert(m@ == gk);
                    lemma_push_disjoint(sb, m, vk);
                    assert forall|x: i32| visited@.contains(x) <==> listed_in(strong_modules@, x) by {
                        assert(visited@.contains(x) <==> vk.contains(x) || gk.contains(x));
                    }
                    assert forall|x: i32| visited@.contains(x) implies exists|k2: int| 0 <= k2 < k + 1 && (#[trigger] groups@[k2])@.contains(x) by {
                        if visited@.contains(x) && !vk.contains(x) {
                            assert(groups@[k as int]@.contains(x));
                        }
                    }
                    assert forall|k2: int, x: i32, y: i32|
                        #![trigger groups@[k2]@.contains(x), groups@[k2]@.contains(y)]
                        0 <= k2 < k + 1 && groups@[k2]@.len() > 1 && groups@[k2]@.contains(x) && groups@[k2]@.contains(y) implies together(
                            strong_modules@,
                            x,
                            y,
                        ) by {
                        if k2 < k {
                            lemma_together_push(sb, m, x, y);
                        } else {
                            assert(strong_modules@[sb.len() as int]@ == gk);
                        }
                    }
                    assert forall|q: int, t1: int, t2: int|
                        0 <= q < strong_modules@.len() && 0 <= t1 < strong_modules@[q]@.len() && 0 <= t2 < strong_modules@[q]@.len()
                            implies open_ms(*g, #[trigger] strong_modules@[q]@[t1]) == open_ms(*g, #[trigger] strong_modules@[q]@[t2]) by {
                        if q < sb.len() {
                            assert(strong_modules@[q] == sb[q]);
                        } else {
                            assert(strong_modules@[q]@ == groups@[k as int]@);
                            assert(sig_ms(*g, groups@[k as int]@[t1], false) == sig_ms(*g, groups@[k as int]@[t2], false));
                        }
                    }
                }
            } else {
                proof {
                    assert forall|x: i32| visited@.contains(x) implies exists|k2: int| 0 <= k2 < k + 1 && (#[trigger] groups@[k2])@.contains(x) by {
                        if visited@.contains(x) {
                            let k2 = choose|k2: int| 0 <= k2 < k && (#[trigger] groups@[k2])@.contains(x);
                        }
                    }
                }
            }
            proof {
                lemma_total_len_push(groups@.subrange(0, k as int), groups@[k as int]);
                assert(groups@.subrange(0, k + 1) == groups@.subrange(0, k as int).push(groups@[k as int]));
            }
            k = k + 1;
        }
        proof {
            assert(groups@.subrange(0, groups@.len() as int) == groups@);
            assert forall|x: i32, y: i32| #[trigger] false_twins(*g, x, y) implies together(strong_modules@, x, y) by {
                assert(all_vertices@.contains(x) && all_vertices@.contains(y));
                assert(!visited0.contains(x) && !visited0.contains(y));
                let qx = choose|q: int| 0 <= q < groups@.len() && (#[trigger] groups@[q])@.contains(x);
                let qy = choose|q: int| 0 <= q < groups@.len() && (#[trigger] groups@[q])@.contains(y);
                let tx = choose|t: int| 0 <= t < groups@[qx]@.len() && groups@[qx]@[t] == x;
                let ty = choose|t: int| 0 <= t < groups@[qy]@.len() && groups@[qy]@[t] == y;
                assert(sig_ms(*g, groups@[qx]@[tx], false) == sig_ms(*g, groups@[qy]@[ty], false));
                assert(qx == qy);
                assert(tx != ty);
                assert(groups@[qx]@.len() > 1);
            }
            assert forall|x: i32| #[trigger] visited@.contains(x) implies exists|z: i32| #[trigger] false_twins(*g, x, z) by {
                assert(listed_in(strong_modules@, x));
                let q = choose|q: int| 0 <= q < strong_modules@.len() && (#[trigger] strong_modules@[q])@.contains(x);
                let m = strong_modules@[q]@;
                assert(twin_class(*g, m) && m.len() >= 2 && m.no_duplicates());
                let t = choose|t: int| 0 <= t < m.len() && m[t] == x;
                let t2 = if t == 0 { 1int } else { 0int };
                let z = m[t2];
                assert(open_ms(*g, strong_modules@[q]@[t]) == open_ms(*g, strong_modules@[q]@[t2]));
                assert(g.adj().contains_key(m[t]) && g.adj().contains_key(m[t2]));
                assert(false_twins(*g, x, z));
            }
        }
        // 1b. true twins among the rest: equal closed neighbourhoods
        let ghost visited1 = visited@;
        let groups2 = group_by_signature(g, &all_vertices, &visited, true);
        let mut k: usize = 0;
        while k < groups2.len()
            invariant
                forall|q: int| 0 <= q < groups2@.len() ==> (#[trigger] groups2@[q])@.no_duplicates(),
                forall|q1: int, q2: int, t1: int, t2: int|
                    0 <= q1 < groups2@.len() && 0 <= q2 < groups2@.len() && q1 != q2 && 0 <= t1 < groups2@[q1]@.len() && 0 <= t2
                        < groups2@[q2]@.len() ==> sig_ms(*g, #[trigger] groups2@[q1]@[t1], true) != sig_ms(
                        *g,
                        #[trigger] groups2@[q2]@[t2],
                        true,
                    ),
                forall|q: int, t: int| 0 <= q < groups2@.len() && 0 <= t < groups2@[q]@.len() ==> !visited1.contains(
                    #[trigger] groups2@[q]@[t],
                ),
                disjoint_lists(strong_modules@),
                forall|x: i32| visited@.contains(x) <==> listed_in(strong_modules@, x),
                forall|x: i32| visited@.contains(x) ==> visited1.contains(x) || exists|k2: int| 0 <= k2 < k && (#[trigger] groups2@[k2])@.contains(x),
                forall|q: int| 0 <= q < groups2@.len() ==> twin_class(*g, #[trigger] groups2@[q]@),
                forall|q: int| 0 <= q < strong_modules@.len() ==> twin_class(*g, #[trigger] strong_modules@[q]@)
                    && strong_modules@[q]@.len() >= 2,
                0 <= k <= groups2@.len(),
                total_len(groups2@) <= n,
                total_len(strong_modules@) <= n + total_len(groups2@.subrange(0, k as int)),
                forall|x: i32, y: i32| #[trigger] false_twins(*g, x, y) ==> together(strong_modules@, x, y),
                forall|k2: int, x: i32, y: i32|
                    #![trigger groups2@[k2]@.contains(x), groups2@[k2]@.contains(y)]
                    0 <= k2 < k && groups2@[k2]@.len() > 1 && groups2@[k2]@.contains(x) && groups2@[k2]@.contains(y) ==> together(
                        strong_modules@,
                        x,
                        y,
                    ),
            decreases groups2@.len() - k,
        {
            if groups2[k].len() > 1 {
                let ghost vk = visited@;
                let ghost gk = groups2@[k as int]@;
                proof {
                    assert forall|x: i32| gk.contains(x) implies !vk.contains(x) by {
                        let t2 = choose|t2: int| 0 <= t2 < gk.len() && gk[t2] == x;
                        assert(!visited1.contains(groups2@[k as int]@[t2]));
                        if vk.contains(x) {
                            let k2 = choose|k2: int| 0 <= k2 < k && (#[trigger] groups2@[k2])@.contains(x);
                            let t1 = choose|t1: int| 0 <= t1 < groups2@[k2]@.len() && groups2@[k2]@[t1] == x;
                            assert(sig_ms(*g, groups2@[k2]@[t1], true) != sig_ms(*g, groups2@[k as int]@[t2], true));
                        }
                    }
                }
                let mut t: usize = 0;
                while t < groups2[k].len()
                    invariant
                        0 <= t <= groups2@[k as int]@.len(),
                        k < groups2@.len(),
                        gk == groups2@[k as int]@,
                        forall|x: i32| #[trigger] visited@.contains(x) <==> vk.contains(x) || gk.take(t as int).contains(x),
                    decreases groups2@[k as int]@.len() - t,
                {
                    proof {
                        lemma_take_one_more(gk, t as int);
                    }
                    let ghost vb = visited@;
                    assert forall|x: i32| vb.contains(x) <==> vk.contains(x) || gk.take(t as int).contains(x) by {
                        assert(visited@.contains(x) <==> vk.contains(x) || gk.take(t as int).contains(x));
                    }
                    let x0 = groups2[k][t];
                    visited.insert(x0);
                    proof {
                        assert(x0 == gk[t as int]);
                        assert forall|x: i32| visited@.contains(x) <==> vk.contains(x) || gk.take(t + 1).contains(x) by {
                            assert(visited@.contains(x) <==> vb.contains(x) || x == x0);
                            assert(vb.contains(x) <==> vk.contains(x) || gk.take(t as int).contains(x));
                            assert(gk.take(t + 1).contains(x) <==> gk.take(t as int).contains(x) || x == gk[t as int]);
                        }
                    }
                    t = t + 1;
                }
                let m = groups2[k].clone();
                assert(m@ == groups2@[k as int]@);
                let ghost sb = strong_modules@;
                strong_modules.push(m);
                proof {
                    lemma_total_len_push(sb, m);
                    assert(gk.take(gk.len() as int) == gk);
                    assert(strong_modules@ == sb.push(m));
                    assert(m@ == gk);
                    lemma_push_disjoint(sb, m, vk);
                    assert forall|x: i32| visited@.contains(x) <==> listed_in(strong_modules@, x) by {
                        assert(visited@.contains(x) <==> vk.contains(x) || gk.contains(x));
                    }
                    assert forall|x: i32| visited@.contains(x) implies visited1.contains(x) || exists|k2: int| 0 <= k2 < k + 1 && (#[trigger] groups2@[k2])@.contains(x) by {
                        if visited@.contains(x) && !vk.contains(x) {
                            assert(groups2@[k as int]@.contains(x));
                        } else if visited@.contains(x) && !visited1.contains(x) {
                            let k2 = choose|k2: int| 0 <= k2 < k && (#[trigger] groups2@[k2])@.contains(x);
                        }
                    }
                    assert forall|x: i32, y: i32| #[trigger] false_twins(*g, x, y) implies together(strong_modules@, x, y) by {
                        lemma_together_push(sb, m, x, y);
                    }
                    assert forall|k2: int, x: i32, y: i32|
                        #![trigger groups2@[k2]@.contains(x), groups2@[k2]@.contains(y)]
                        0 <= k2 < k + 1 && groups2@[k2]@.len() > 1 && groups2@[k2]@.contains(x) && groups2@[k2]@.contains(y) implies together(
                            strong_modules@,
                            x,
                            y,
                        ) by {
                        if k2 < k {
                            lemma_together_push(sb, m, x, y);
                        } else {
                            assert(strong_modules@[sb.len() as int]@ == gk);
                        }
                    }
                }
            } else {
                proof {
                    assert forall|x: i32| visited@.contains(x) implies visited1.contains(x) || exists|k2: int| 0 <= k2 < k + 1 && (#[trigger] groups2@[k2])@.contains(x) by {
                        if visited@.contains(x) && !visited1.contains(x) {
                            let k2 = choose|k2: int| 0 <= k2 < k && (#[trigger] groups2@[k2])@.contains(x);
                        }
                    }
                }
            }
            proof {
                lemma_total_len_push(groups2@.subrange(0, k as int), groups2@[k as int]);
                assert(groups2@.subrange(0, k + 1) == groups2@.subrange(0, k as int).push(groups2@[k as int]));
            }
            k = k + 1;
        }
        proof {
            assert(groups2@.subrange(0, groups2@.len() as int) == groups2@);
            assert forall|x: i32, y: i32| #[trigger] joined_twins(*g, x, y) implies together(strong_modules@, x, y) by {
                if !false_twins(*g, x, y) {
                    assert(lone_true_twins(*g, x, y));
                    assert(!visited1.contains(x)) by {
                        if visited1.contains(x) {
                            let z = choose|z: i32| #[trigger] false_twins(*g, x, z);
                        }
                    }
                    assert(!visited1.contains(y)) by {
                        if visited1.contains(y) {
                            let z = choose|z: i32| #[trigger] false_twins(*g, y, z);
                        }
                    }
                    assert(all_vertices@.contains(x) && all_vertices@.contains(y));
                    let qx = choose|q: int| 0 <= q < groups2@.len() && (#[trigger] groups2@[q])@.contains(x);
                    let qy = choose|q: int| 0 <= q < groups2@.len() && (#[trigger] groups2@[q])@.contains(y);
                    let tx = choose|t: int| 0 <= t < groups2@[qx]@.len() && groups2@[qx]@[t] == x;
                    let ty = choose|t: int| 0 <= t < groups2@[qy]@.len() && groups2@[qy]@[t] == y;
                    assert(sig_ms(*g, groups2@[qx]@[tx], true) == sig_ms(*g, groups2@[qy]@[ty], true));
                    assert(qx == qy);
                    assert(tx != ty);
                    assert(groups2@[qx]@.len() > 1);
                }
            }
        }
        let ghost unsorted = strong_modules@;
        let ghost visited_all = visited@;
        proof {
            assert forall|x: i32| visited_all.contains(x) implies g.adj().contains_key(x) by {
                if visited_all.contains(x) {
                    assert(listed_in(unsorted, x));
                    let q = choose|q: int| 0 <= q < unsorted.len() && (#[trigger] unsorted[q])@.contains(x);
                    assert(twin_class(*g, unsorted[q]@));
                    let w = choose|w: int| 0 <= w < unsorted[q]@.len() && unsorted[q]@[w] == x;
                }
            }
        }
        sort_modules_by_first(&mut strong_modules);
        proof {
            assert forall|x: i32, y: i32| #[trigger] joined_twins(*g, x, y) implies together(strong_modules@, x, y) by {
                lemma_together_reorder(unsorted, strong_modules@, x, y);
            }
            assert(total_len(strong_modules@) <= 2 * n);
            assert forall|w: int| 0 <= w < strong_modules@.len() implies twin_class(*g, #[trigger] strong_modules@[w]@)
                && strong_modules@[w]@.len() >= 2 by {
                assert(is_member(unsorted, strong_modules@[w]@));
                let r = choose|r: int| 0 <= r < unsorted.len() && unsorted[r]@ == strong_modules@[w]@;
                assert(twin_class(*g, unsorted[r]@));
            }
        }
        // 2. the remaining vertices
        let mut remaining: Vec<i32> = Vec::new();
        let mut k: usize = 0;
        while k < n
            invariant
                n == all_vertices@.len(),
                0 <= k <= n,
                forall|v: i32| all_vertices@.contains(v) <==> g.adj().contains_key(v),
                forall|q: int| 0 <= q < remaining@.len() ==> g.adj().contains_key(#[trigger] remaining@[q]),
                remaining@.len() <= k,
                all_vertices@.no_duplicates(),
                visited@ == visited_all,
                forall|x: i32| remaining@.contains(x) <==> all_vertices@.take(k as int).contains(x) && !visited@.contains(x),
                remaining@.no_duplicates(),
            decreases n - k,
        {
            let v = all_vertices[k];
            proof {
                lemma_take_one_more(all_vertices@, k as int);
            }
            if !visited.contains(&v) {
                assert(all_vertices@.contains(v));
                let ghost r0 = remaining@;
                proof {
                    if r0.contains(v) {
                        let tk = all_vertices@.take(k as int);
                        let w = choose|w: int| 0 <= w < tk.len() && tk[w] == v;
                        assert(all_vertices@[w] == all_vertices@[k as int]);
                    }
                }
                remaining.push(v);
                proof {
                    assert forall|x: i32| remaining@.contains(x) <==> r0.contains(x) || x == v by {
                        if remaining@.contains(x) {
                            let w = choose|w: int| 0 <= w < remaining@.len() && remaining@[w] == x;
                            if w < r0.len() {
                                assert(r0[w] == x);
                            }
                        }
                        if r0.contains(x) {
                            let w = choose|w: int| 0 <= w < r0.len() && r0[w] == x;
                            assert(remaining@[w] == x);
                        }
                        if x == v {
                            assert(remaining@[r0.len() as int] == v);
                        }
                    }
                    assert forall|a: int, c: int| 0 <= a < c < remaining@.len() implies remaining@[a] != remaining@[c] by {
                        if c < r0.len() {
                            assert(remaining@[a] == r0[a] && remaining@[c] == r0[c]);
                        } else {
                            assert(remaining@[a] == r0[a]);
                            assert(r0.contains(r0[a]));
                        }
                    }
                    assert forall|x: i32| remaining@.contains(x) <==> all_vertices@.take(k + 1).contains(x) && !visited@.contains(x) by {
                        assert(all_vertices@.take(k + 1).contains(x) <==> all_vertices@.take(k as int).contains(x) || x == v);
                        assert(r0.contains(x) <==> all_vertices@.take(k as int).contains(x) && !visited@.contains(x));
                    }
                }
            } else {
                proof {
                    assert forall|x: i32| remaining@.contains(x) <==> all_vertices@.take(k + 1).contains(x) && !visited@.contains(x) by {
                        assert(all_vertices@.take(k + 1).contains(x) <==> all_vertices@.take(k as int).contains(x) || x == v);
                        assert(remaining@.contains(x) <==> all_vertices@.take(k as int).contains(x) && !visited@.contains(x));
                    }
                }
            }
            k = k + 1;
        }
        proof {
            assert(all_vertices@.take(n as int) == all_vertices@);
        }
        if strong_modules.len() == 0 {
            proof {
                assert forall|x: i32, y: i32| #[trigger] joined_twins(*g, x, y) implies false by {
                    assert(together(strong_modules@, x, y));
                }
            }
            return Self::build_prime(g, all_vertices);
        }
        // 3. children of the root
        proof {
            lemma_total_len_prefix(strong_modules@, 0);
            lemma_total_len_nonneg(Seq::<Vec<i32>>::empty());
            assert(strong_modules@.subrange(0, 0) == Seq::<Vec<i32>>::empty());
        }
        let mut rest: Vec<ModularNode> = Vec::new();
        let mut root_children: Vec<usize> = Vec::new();
        let mut firsts: Vec<i32> = Vec::new();
        proof {
            assert(links_ok(rest@, root_children@, -1));
        }
        let mut q: usize = 0;
        while q < strong_modules.len()
            invariant
                forall|w: int| 0 <= w < strong_modules@.len() ==> twin_class(*g, #[trigger] strong_modules@[w]@)
                    && strong_modules@[w]@.len() >= 2,
                0 <= q <= strong_modules@.len(),
                n <= usize::MAX / 8,
                total_len(strong_modules@) <= 2 * n,
                rest@.len() <= 2 * total_len(strong_modules@.subrange(0, q as int)),
                total_len(strong_modules@.subrange(0, q as int)) <= total_len(strong_modules@),
                root_children@.len() == firsts@.len(),
                forall|w: int| 0 <= w < rest@.len() ==> node_ok_at(*g, rest@[w], w + 1),
                forall|w: int| 0 <= w < root_children@.len() ==> 1 <= #[trigger] root_children@[w] <= rest@.len(),
                forall|w: int| 0 <= w < firsts@.len() ==> g.adj().contains_key(#[trigger] firsts@[w]),
                disjoint_lists(strong_modules@),
                leaves_unique(rest@),
                forall|x: i32| has_leaf(rest@, x) <==> listed_in(strong_modules@.take(q as int), x),
                links_ok(rest@, root_children@, -1),
                forall|q2: int| 0 <= q2 < q ==> #[trigger] series_for(rest@, strong_modules@[q2]@),
                forall|x: i32, y: i32| #[trigger] joined_twins(*g, x, y) ==> together(strong_modules@, x, y),
            decreases strong_modules@.len() - q,
        {
            let module = strong_modules[q].clone();
            assert(module@ == strong_modules@[q as int]@);
            proof {
                lemma_total_len_push(strong_modules@.subrange(0, q as int), strong_modules@[q as int]);
                assert(strong_modules@.subrange(0, q + 1) == strong_modules@.subrange(0, q as int).push(strong_modules@[q as int]));
                lemma_total_len_prefix(strong_modules@, q + 1);
            }
            let mod_id = rest.len() + 1;
            let ghost rc0 = root_children@;
            root_children.push(mod_id);
            firsts.push(module[0]);
            let mut mod_children: Vec<usize> = Vec::new();
            let mut t: usize = 0;
            while t < module.len()
                invariant
                    0 <= t <= module@.len(),
                    mod_children@.len() == t,
                    mod_id + module@.len() <= usize::MAX / 2,
                    forall|w: int| 0 <= w < t ==> #[trigger] mod_children@[w] == mod_id + 1 + w,
                decreases module@.len() - t,
            {
                mod_children.push(mod_id + 1 + t);
                t = t + 1;
            }
            let mverts = module.clone();
            assert(mverts@ == module@);
            let ghost before = rest@;
            let ghost mc = mod_children@;
            let series = ModularNode {
                id: mod_id,
                vertices: mverts,
                node_type: ModularNodeType::Series(mod_children),
                parent: Some(0),
            };
            proof {
                lemma_push_inner(before, series);
                assert(!rc0.contains((before.len() + 1) as usize));
                assert forall|c: usize| #[trigger] children_of(series).contains(c) implies before.len() + 1 < c by {
                    let w = choose|w: int| 0 <= w < mc.len() && mc[w] == c;
                }
                lemma_links_push_series(before, rc0, series);
            }
            rest.push(series);
            proof {
                assert(rest@ == before.push(series));
                assert forall|q2: int| 0 <= q2 < q + 1 implies #[trigger] series_for(rest@, strong_modules@[q2]@) by {
                    if q2 < q {
                        lemma_series_for_push(before, series, strong_modules@[q2]@);
                    } else {
                        assert(rest@[before.len() as int] == series);
                    }
                }
                assert forall|x: i32| has_leaf(rest@, x) <==> listed_in(strong_modules@.take(q as int), x) || module@.take(0).contains(x) by {
                    assert(has_leaf(before.push(series), x) <==> has_leaf(before, x));
                }
                assert forall|w: int| 0 <= w < rest@.len() implies node_ok_at(*g, rest@[w], w + 1) by {
                    if w < rest@.len() - 1 {
                        assert(before[w] == rest@[w]);
                    }
                }
            }
            let mut t: usize = 0;
            while t < module.len()
                invariant
                    0 <= t <= module@.len(),
                    twin_class(*g, module@),
                    1 <= mod_id <= rest@.len(),
                    rest@.len() <= mod_id + t,
                    mod_id + module@.len() <= usize::MAX / 2,
                    forall|w: int| 0 <= w < rest@.len() ==> node_ok_at(*g, rest@[w], w + 1),
                    forall|w: int| 0 <= w < root_children@.len() ==> 1 <= #[trigger] root_children@[w] <= rest@.len(),
                    q < strong_modules@.len(),
                    module@ == strong_modules@[q as int]@,
                    disjoint_lists(strong_modules@),
                    leaves_unique(rest@),
                    forall|x: i32| has_leaf(rest@, x) <==> listed_in(strong_modules@.take(q as int), x) || module@.take(t as int).contains(x),
                    rest@.len() == mod_id + t,
                    links_ok(rest@, root_children@, mod_id - 1),
                    children_of(rest@[mod_id - 1]) == mc,
                    mc.len() == module@.len(),
                    forall|w: int| 0 <= w < mc.len() ==> #[trigger] mc[w] == mod_id + 1 + w,
                    forall|q2: int| 0 <= q2 < q + 1 ==> #[trigger] series_for(rest@, strong_modules@[q2]@),
                decreases module@.len() - t,
            {
                let v = module[t];
                let ghost before2 = rest@;
                let leaf_id = rest.len() + 1;
                let lv = vec![v];
                assert(lv@ == seq![v]);
                let leaf = ModularNode {
                    id: leaf_id,
                    vertices: lv,
                    node_type: ModularNodeType::Leaf(v),
                    parent: Some(mod_id),
                };
                proof {
                    lemma_take_one_more(module@, t as int);
                    assert(!has_leaf(before2, v)) by {
                        if listed_in(strong_modules@.take(q as int), v) {
                            let q2 = choose|q2: int| 0 <= q2 < strong_modules@.take(q as int).len() && (#[trigger] strong_modules@.take(q as int)[q2])@.contains(v);
                            assert(strong_modules@[q2]@.contains(v));
                            assert(strong_modules@[q as int]@.contains(v)) by {
                                assert(module@[t as int] == v);
                            }
                        }
                        if module@.take(t as int).contains(v) {
                            let tk = module@.take(t as int);
                            let w = choose|w: int| 0 <= w < tk.len() && tk[w] == v;
                            assert(module@[w] == module@[t as int]);
                            assert(strong_modules@[q as int]@.no_duplicates());
                        }
                    }
                    lemma_push_leaf(before2, leaf, v);
                    assert(mc[t as int] == (before2.len() + 1) as usize);
                    lemma_links_push_child(before2, root_children@, mod_id - 1, leaf);
                }
                rest.push(leaf);
                proof {
                    assert(rest@ == before2.push(leaf));
                    assert(rest@[mod_id - 1] == before2[mod_id - 1]);
                    assert forall|q2: int| 0 <= q2 < q + 1 implies #[trigger] series_for(rest@, strong_modules@[q2]@) by {
                        lemma_series_for_push(before2, leaf, strong_modules@[q2]@);
                    }
                    assert forall|x: i32| has_leaf(rest@, x) <==> listed_in(strong_modules@.take(q as int), x) || module@.take(t + 1).contains(x) by {
                        assert(has_leaf(before2.push(leaf), x) <==> has_leaf(before2, x) || x == v);
                    }
                    assert(g.adj().contains_key(module@[t as int]));
                    assert forall|w: int| 0 <= w < rest@.len() implies node_ok_at(*g, rest@[w], w + 1) by {
                        if w < rest@.len() - 1 {
                            assert(before2[w] == rest@[w]);
                        }
                    }
                }
                t = t + 1;
            }
            proof {
                assert(module@.take(module@.len() as int) == module@);
                lemma_listed_take_one_more(strong_modules@, q as int);
                assert forall|c: usize| #[trigger] children_of(rest@[mod_id - 1]).contains(c) implies c <= rest@.len() by {
                    let w = choose|w: int| 0 <= w < mc.len() && mc[w] == c;
                }
                lemma_links_close(rest@, root_children@, mod_id - 1);
            }
            q = q + 1;
        }
        proof {
            assert(strong_modules@.subrange(0, strong_modules@.len() as int) == strong_modules@);
            assert(strong_modules@.take(strong_modules@.len() as int) == strong_modules@);
            assert forall|x: i32| remaining@.contains(x) <==> all_vertices@.contains(x) && !visited_all.contains(x) by {}
            assert forall|x: i32| !remaining@.take(0).contains(x) by {}
        }
        let mut q: usize = 0;
        while q < remaining.len()
            invariant
                0 <= q <= remaining@.len(),
                remaining@.len() <= n,
                n <= usize::MAX / 8,
                rest@.len() <= 4 * n + q,
                forall|w: int| 0 <= w < remaining@.len() ==> g.adj().contains_key(#[trigger] remaining@[w]),
                root_children@.len() == firsts@.len(),
                forall|w: int| 0 <= w < rest@.len() ==> node_ok_at(*g, rest@[w], w + 1),
                forall|w: int| 0 <= w < root_children@.len() ==> 1 <= #[trigger] root_children@[w] <= rest@.len(),
                forall|w: int| 0 <= w < firsts@.len() ==> g.adj().contains_key(#[trigger] firsts@[w]),
                leaves_unique(rest@),
                remaining@.no_duplicates(),
                forall|x: i32| remaining@.contains(x) <==> all_vertices@.contains(x) && !visited_all.contains(x),
                forall|x: i32| visited_all.contains(x) <==> listed_in(strong_modules@, x),
                forall|x: i32| has_leaf(rest@, x) <==> listed_in(strong_modules@, x) || remaining@.take(q as int).contains(x),
                links_ok(rest@, root_children@, -1),
                forall|q2: int| 0 <= q2 < strong_modules@.len() ==> #[trigger] series_for(rest@, strong_modules@[q2]@),
                forall|x: i32, y: i32| #[trigger] joined_twins(*g, x, y) ==> together(strong_modules@, x, y),
            decreases remaining@.len() - q,
        {
            let v = remaining[q];
            let leaf_id = rest.len() + 1;
            let ghost rc0 = root_children@;
            root_children.push(leaf_id);
            firsts.push(v);
            let lv = vec![v];
            assert(lv@ == seq![v]);
            let ghost before = rest@;
            let leaf = ModularNode {
                id: leaf_id,
                vertices: lv,
                node_type: ModularNodeType::Leaf(v),
                parent: Some(0),
            };
            proof {
                lemma_take_one_more(remaining@, q as int);
                assert(remaining@.contains(v));
                assert(!visited_all.contains(v));
                assert(!listed_in(strong_modules@, v));
                assert(!has_leaf(before, v)) by {
                    if remaining@.take(q as int).contains(v) {
                        let tk = remaining@.take(q as int);
                        let w = choose|w: int| 0 <= w < tk.len() && tk[w] == v;
                        assert(remaining@[w] == remaining@[q as int]);
                    }
                }
                lemma_push_leaf(before, leaf, v);
                assert(!rc0.contains((before.len() + 1) as usize));
                lemma_links_push_root_leaf(before, rc0, leaf);
            }
            rest.push(leaf);
            proof {
                assert(rest@ == before.push(leaf));
                assert forall|q2: int| 0 <= q2 < strong_modules@.len() implies #[trigger] series_for(rest@, strong_modules@[q2]@) by {
                    lemma_series_for_push(before, leaf, strong_modules@[q2]@);
                }
                assert forall|x: i32| has_leaf(rest@, x) <==> listed_in(strong_modules@, x) || remaining@.take(q + 1).contains(x) by {
                    assert(has_leaf(before.push(leaf), x) <==> has_leaf(before, x) || x == v);
                }
                assert forall|w: int| 0 <= w < rest@.len() implies node_ok_at(*g, rest@[w], w + 1) by {
                    if w < rest@.len() - 1 {
                        assert(before[w] == rest@[w]);
                    }
                }
            }
            q = q + 1;
        }
        // 4. quotient adjacency between the root's children, through their first vertices
        let mut quotient_adj: HashMap<usize, HashSet<usize>> = HashMap::new();
        let mut a: usize = 0;
        while a < root_children.len()
            invariant
                root_children@.len() == firsts@.len(),
                0 <= a <= root_children@.len(),
                forall|w: int| 0 <= w < rest@.len() ==> node_ok_at(*g, rest@[w], w + 1),
            decreases root_children@.len() - a,
        {
            match g.neighbors(firsts[a]) {
                Some(adjs) => {
                    let mut b: usize = 0;
                    while b < root_children.len()
                        invariant
                            root_children@.len() == firsts@.len(),
                            a < root_children@.len(),
                            forall|w: int| 0 <= w < rest@.len() ==> node_ok_at(*g, rest@[w], w + 1),
                            0 <= b <= root_children@.len(),
                        decreases root_children@.len() - b,
                    {
                        if a != b && crate::graph::vec_contains(adjs, firsts[b]) {
                            add_to_set_map(&mut quotient_adj, root_children[a], root_children[b]);
                        }
                        b = b + 1;
                    }
                },
                None => {},
            }
            a = a + 1;
        }
        let ghost rcf = root_children@;
        let root = ModularNode {
            id: 0,
            vertices: all_vertices,
            node_type: ModularNodeType::Prime { quotient_adj, children: root_children },
            parent: None,
        };
        nodes.push(root);
        let ghost rv = rest@;
        let ghost n0 = nodes@;
        assert(node_ok_at(*g, n0[0], 0));
        assert(forall|w: int| 0 <= w < rv.len() ==> node_ok_at(*g, rv[w], w + 1));
        nodes.append(&mut rest);
        proof {
            assert(nodes@ == n0 + rv);
            assert(nodes@[0] == n0[0]);
            assert(remaining@.take(remaining@.len() as int) == remaining@);
            lemma_prepend_root(n0[0], rv);
            assert(children_of(n0[0]) == rcf);
            lemma_links_root(n0[0], rv, rcf);
            assert(n0 == seq![n0[0]]);
            assert forall|x: i32| has_leaf(nodes@, x) <==> g.adj().contains_key(x) by {
                assert(has_leaf(nodes@, x) <==> has_leaf(rv, x));
                assert(all_vertices@.contains(x) <==> g.adj().contains_key(x));
            }
            assert forall|i: int| 0 <= i < nodes@.len() implies node_ok(*g, nodes@, i) by {
                if i > 0 {
                    assert(nodes@[i] == rv[i - 1]);
                    assert(node_ok_at(*g, rv[i - 1], (i - 1) + 1));
                    assert(node_ok_at(*g, nodes@[i], i));
                    assert(node_ok(*g, nodes@, i));
                } else {
                    assert(node_ok_at(*g, nodes@[i], i));
                    assert(node_ok(*g, nodes@, i));
                }
            }
            assert forall|x: i32, y: i32| #[trigger] joined_twins(*g, x, y) implies exists|i: int|
                0 <= i < nodes@.len() && (#[trigger] nodes@[i]).node_type is Series && nodes@[i].vertices@.contains(x)
                    && nodes@[i].vertices@.contains(y) by {
                assert(together(strong_modules@, x, y));
                let q2 = choose|q: int| 0 <= q < strong_modules@.len() && (#[trigger] strong_modules@[q])@.contains(x)
                    && strong_modules@[q]@.contains(y);
                assert(series_for(rv, strong_modules@[q2]@));
                let i = choose|i: int| 0 <= i < rv.len() && (#[trigger] rv[i]).node_type is Series && rv[i].vertices@ == strong_modules@[q2]@;
                assert(nodes@[i + 1] == rv[i]);
            }
        }
        Self { root: 0, nodes }
    }

    /// The tree of a graph without twins: a prime root over one leaf per vertex.
    fn build_prime(g: &Graph, all_vertices: Vec<i32>) -> (t: Self)
        requires
            g.wf(),
            sorted_vertices(*g, all_vertices@),
            all_vertices@.len() > 0,
        ensures
            t.root == 0,
            t.nodes@.len() >= 1,
            t.nodes@[0].parent is None,
            sorted_vertices(*g, t.nodes@[0].vertices@),
            forall|i: int| 0 <= i < t.nodes@.len() ==> node_ok(*g, t.nodes@, i),
            t.nodes@[0].node_type is Prime,
            forall|x: i32| has_leaf(t.nodes@, x) <==> g.adj().contains_key(x),
            leaves_unique(t.nodes@),
            tree_links(t.nodes@),
    {
        let n = all_vertices.len();
        let mut children: Vec<usize> = Vec::new();
        let mut idx: usize = 0;
        while idx < n
            invariant
                n == all_vertices@.len(),
                0 <= idx <= n,
                children@.len() == idx,
                forall|w: int| 0 <= w < idx ==> #[trigger] children@[w] == w + 1,
            decreases n - idx,
        {
            children.push(idx + 1);
            idx = idx + 1;
        }
        let mut quotient_adj: HashMap<usize, HashSet<usize>> = HashMap::new();
        let mut idx_u: usize = 0;
        while idx_u < n
            invariant
                n == all_vertices@.len(),
                children@.len() == n,
                0 <= idx_u <= n,
            decreases n - idx_u,
        {
            let u = all_vertices[idx_u];
            let child_u = children[idx_u];
            match g.neighbors(u) {
                Some(adjs) => {
                    let mut t: usize = 0;
                    while t < adjs.len()
                        invariant
                            n == all_vertices@.len(),
                            children@.len() == n,
                            0 <= t <= adjs@.len(),
                        decreases adjs@.len() - t,
                    {
                        match crate::patching::position_of(&all_vertices, adjs[t]) {
                            Some(pos) => {
                                add_to_set_map(&mut quotient_adj, child_u, children[pos]);
                            },
                            None => {},
                        }
                        t = t + 1;
                    }
                },
                None => {},
            }
            idx_u = idx_u + 1;
        }
        let mut nodes: Vec<ModularNode> = Vec::new();
        let ghost cs = children@;
        let verts_copy = all_vertices.clone();
        assert(verts_copy@ == all_vertices@);
        nodes.push(ModularNode {
            id: 0,
            vertices: verts_copy,
            node_type: ModularNodeType::Prime { quotient_adj, children },
            parent: None,
        });
        proof {
            assert forall|x: i32| !has_leaf(nodes@, x) by {
                if has_leaf(nodes@, x) {
                    let i = choose|i: int| 0 <= i < nodes@.len() && #[trigger] leaf_of(nodes@[i]) == Some(x);
                    assert(i == 0);
                }
            }
            assert(leaves_unique(nodes@));
            assert forall|x: i32| !all_vertices@.take(0).contains(x) by {}
        }
        let mut k: usize = 0;
        while k < n
            invariant
                n == all_vertices@.len(),
                sorted_vertices(*g, all_vertices@),
                0 <= k <= n,
                nodes@.len() == k + 1,
                sorted_vertices(*g, nodes@[0].vertices@),
                nodes@[0].parent is None,
                nodes@[0].node_type is Prime,
                forall|i: int| 0 <= i < nodes@.len() ==> node_ok(*g, nodes@, i),
                leaves_unique(nodes@),
                forall|x: i32| has_leaf(nodes@, x) <==> all_vertices@.take(k as int).contains(x),
                children_of(nodes@[0]) == cs,
                cs.len() == n,
                forall|w: int| 0 <= w < n ==> #[trigger] cs[w] == w + 1,
                forall|j: int| 1 <= j < nodes@.len() ==> (#[trigger] nodes@[j]).parent == Some(0usize) && children_of(nodes@[j]) == Seq::<usize>::empty(),
            decreases n - k,
        {
            let v = all_vertices[k];
            assert(all_vertices@.contains(v));
            assert(g.adj().contains_key(v));
            let ghost before = nodes@;
            let lv = vec![v];
            assert(lv@ == seq![v]);
            let nd = ModularNode { id: k + 1, vertices: lv, node_type: ModularNodeType::Leaf(v), parent: Some(0) };
            proof {
                assert(!has_leaf(before, v)) by {
                    if all_vertices@.take(k as int).contains(v) {
                        let tk = all_vertices@.take(k as int);
                        let w = choose|w: int| 0 <= w < tk.len() && tk[w] == v;
                        assert(all_vertices@[w] == all_vertices@[k as int]);
                    }
                }
                lemma_push_leaf(before, nd, v);
                lemma_take_one_more(all_vertices@, k as int);
            }
            nodes.push(nd);
            proof {
                assert(nodes@ == before.push(nd));
                assert(nodes@[0] == before[0]);
                assert forall|j: int| 1 <= j < nodes@.len() implies (#[trigger] nodes@[j]).parent == Some(0usize) && children_of(nodes@[j]) == Seq::<usize>::empty() by {
                    if j < before.len() {
                        assert(nodes@[j] == before[j]);
                    }
                }
                assert forall|x: i32| has_leaf(nodes@, x) <==> all_vertices@.take(k + 1).contains(x) by {
                    assert(has_leaf(before.push(nd), x) <==> has_leaf(before, x) || x == v);
                }
                assert forall|i: int| 0 <= i < nodes@.len() implies node_ok(*g, nodes@, i) by {
                    if i < nodes@.len() - 1 {
                        assert(nodes@[i] == before[i]);
                        assert(node_ok(*g, before, i));
                    } else {
                        assert(nodes@[i].id == i);
                        assert(node_ok_at(*g, nodes@[i], i));
                    }
                }
            }
            k = k + 1;
        }
        proof {
            assert(all_vertices@.take(n as int) == all_vertices@);
            assert forall|j: int| 1 <= j < nodes@.len() implies ((#[trigger] nodes@[j]).parent matches Some(p) && p < j && children_of(
                nodes@[p as int],
            ).contains(j as usize)) by {
                assert(cs[j - 1] == j);
            }
            assert forall|p: int, c: usize| 0 <= p < nodes@.len() && #[trigger] children_of(nodes@[p]).contains(c) implies p < c < nodes@.len()
                && nodes@[c as int].parent == Some(p as usize) by {
                if p == 0 {
                    let w = choose|w: int| 0 <= w < cs.len() && cs[w] == c;
                } else {
                    assert(children_of(nodes@[p]) == Seq::<usize>::empty());
                }
            }
        }
        Self { root: 0, nodes }
    }
}

/// Adds `b` to the set stored at `a`.
fn add_to_set_map(m: &mut HashMap<usize, HashSet<usize>>, a: usize, b: usize)
    ensures
        final(m)@.contains_key(a),
        final(m)@[a]@.contains(b),
        forall|x: usize| #![auto] x != a ==> (final(m)@.contains_key(x) == old(m)@.contains_key(x)) && (old(m)@.contains_key(x) ==> final(m)@[x] == old(m)@[x]),
        old(m)@.contains_key(a) ==> final(m)@[a]@ == old(m)@[a]@.insert(b),
        !old(m)@.contains_key(a) ==> final(m)@[a]@ == set![b],
{
    let mut s = match m.remove(&a) {
        Some(s) => s,
        None => HashSet::new(),
    };
    s.insert(b);
    m.insert(a, s);
}

/// Groups the vertices not yet visited by signature: the sorted open
/// neighbourhood, or the sorted closed neighbourhood when `closed`. Groups
/// appear in order of their first member, members in the order of `verts`.
fn group_by_signature(g: &Graph, verts: &Vec<i32>, visited: &HashSet<i32>, closed: bool) -> (groups: Vec<Vec<i32>>)
    requires
        g.wf(),
        forall|v: i32| verts@.contains(v) ==> g.adj().contains_key(v),
        verts@.no_duplicates(),
    ensures
        forall|q: int| 0 <= q < groups@.len() ==> (#[trigger] groups@[q])@.no_duplicates(),
        forall|q: int| 0 <= q < groups@.len() ==> twin_class(*g, #[trigger] groups@[q]@),
        total_len(groups@) <= verts@.len(),
        forall|q: int| 0 <= q < groups@.len() ==> (#[trigger] groups@[q])@.len() >= 1,
        forall|q: int, t: int| 0 <= q < groups@.len() && 0 <= t < groups@[q]@.len() ==> verts@.contains(
            #[trigger] groups@[q]@[t],
        ) && !visited@.contains(groups@[q]@[t]),
        forall|u: i32| verts@.contains(u) && !visited@.contains(u) ==> exists|q: int| 0 <= q < groups@.len() && (
        #[trigger] groups@[q])@.contains(u),
        forall|q1: int, q2: int, t1: int, t2: int|
            0 <= q1 < groups@.len() && 0 <= q2 < groups@.len() && q1 != q2 && 0 <= t1 < groups@[q1]@.len() && 0 <= t2
                < groups@[q2]@.len() ==> sig_ms(*g, #[trigger] groups@[q1]@[t1], closed) != sig_ms(
                *g,
                #[trigger] groups@[q2]@[t2],
                closed,
            ),
        forall|q: int, t1: int, t2: int|
            0 <= q < groups@.len() && 0 <= t1 < groups@[q]@.len() && 0 <= t2 < groups@[q]@.len() ==> sig_ms(
                *g,
                #[trigger] groups@[q]@[t1],
                closed,
            ) == sig_ms(*g, #[trigger] groups@[q]@[t2], closed),
{
    let mut sigs: Vec<Vec<i32>> = Vec::new();
    let mut groups: Vec<Vec<i32>> = Vec::new();
    let mut k: usize = 0;
    while k < verts.len()
        invariant
            forall|v: i32| verts@.contains(v) ==> g.adj().contains_key(v),
            sigs@.len() == groups@.len(),
            0 <= k <= verts@.len(),
            total_len(groups@) <= k,
            forall|q: int, t: int| 0 <= q < groups@.len() && 0 <= t < groups@[q]@.len() ==> g.adj().contains_key(
                #[trigger] groups@[q]@[t],
            ) && sig_ms(*g, groups@[q]@[t], closed) == sigs@[q]@.to_multiset(),
            forall|q: int| 0 <= q < groups@.len() ==> (#[trigger] groups@[q])@.len() >= 1,
            forall|q: int| 0 <= q < sigs@.len() ==> sorted_asc(#[trigger] sigs@[q]@),
            forall|q1: int, q2: int| 0 <= q1 < q2 < sigs@.len() ==> (#[trigger] sigs@[q1])@.to_multiset() != (#[trigger] sigs@[q2])@.to_multiset(),
            forall|q: int, t: int| 0 <= q < groups@.len() && 0 <= t < groups@[q]@.len() ==> verts@.contains(
                #[trigger] groups@[q]@[t],
            ) && !visited@.contains(groups@[q]@[t]),
            forall|u: i32| verts@.take(k as int).contains(u) && !visited@.contains(u) ==> exists|q: int| 0 <= q < groups@.len() && (
            #[trigger] groups@[q])@.contains(u),
            verts@.no_duplicates(),
            forall|q: int| 0 <= q < groups@.len() ==> (#[trigger] groups@[q])@.no_duplicates(),
            forall|q: int, t: int, j: int|
                0 <= q < groups@.len() && 0 <= t < groups@[q]@.len() && k <= j < verts@.len() ==> #[trigger] groups@[q]@[t]
                    != #[trigger] verts@[j],
        decreases verts@.len() - k,
    {
        let u = verts[k];
        assert(verts@.contains(u));
        proof {
            assert forall|x: i32| verts@.take(k + 1).contains(x) implies verts@.take(k as int).contains(x) || x == u by {
                let t1 = verts@.take(k + 1);
                let w = choose|w: int| 0 <= w < t1.len() && t1[w] == x;
                if w < k {
                    assert(verts@.take(k as int)[w] == x);
                }
            }
        }
        if !visited.contains(&u) {
            let nb = g.neighbors(u).unwrap();
            let mut sig = nb.clone();
            assert(sig@ == g.adj()[u]);
            if closed {
                sig.push(u);
            }
            sort_i32(&mut sig);
            let mut found: Option<usize> = None;
            let mut q: usize = 0;
            while q < sigs.len()
                invariant
                    0 <= q <= sigs@.len(),
                    found matches Some(f) ==> f < sigs@.len() && sigs@[f as int]@ == sig@,
                    found is None ==> forall|p: int| 0 <= p < q ==> (#[trigger] sigs@[p])@ != sig@,
                decreases sigs@.len() - q,
            {
                if found.is_none() && vec_eq(&sigs[q], &sig) {
                    found = Some(q);
                }
                q = q + 1;
            }
            match found {
                Some(f) => {
                    let mut grp = groups[f].clone();
                    assert(grp@ == groups@[f as int]@);
                    let ghost g0 = grp@;
                    grp.push(u);
                    let ghost before = groups@;
                    groups.set(f, grp);
                    proof {
                        lemma_total_len_update(before, f as int, grp@.len() as int);
                        assert(groups@ == before.update(f as int, grp));
                        assert(grp@[g0.len() as int] == u);
                        assert forall|t: int| 0 <= t < g0.len() implies g0[t] != u by {
                            assert(g0[t] == before[f as int]@[t]);
                            assert(verts@[k as int] == u);
                        }
                        assert(grp@.no_duplicates()) by {
                            assert forall|x: int, y: int| 0 <= x < y < grp@.len() implies grp@[x] != grp@[y] by {
                                if y < g0.len() {
                                    assert(grp@[x] == g0[x] && grp@[y] == g0[y]);
                                } else {
                                    assert(grp@[x] == g0[x]);
                                }
                            }
                        }
                        assert forall|q: int| 0 <= q < groups@.len() implies (#[trigger] groups@[q])@.no_duplicates() by {
                            if q != f {
                                assert(groups@[q] == before[q]);
                            }
                        }
                        assert forall|q: int, t: int, j: int|
                            0 <= q < groups@.len() && 0 <= t < groups@[q]@.len() && k + 1 <= j < verts@.len() implies #[trigger] groups@[q]@[t]
                                != #[trigger] verts@[j] by {
                            if q != f {
                                assert(groups@[q] == before[q]);
                            } else if t < g0.len() {
                                assert(groups@[q]@[t] == before[q]@[t]);
                            } else {
                                assert(groups@[q]@[t] == verts@[k as int]);
                            }
                        }
                        assert forall|x: i32| verts@.take(k + 1).contains(x) && !visited@.contains(x) implies exists|q: int| 0 <= q < groups@.len() && (
                        #[trigger] groups@[q])@.contains(x) by {
                            if x == u {
                                assert(groups@[f as int]@.contains(u));
                            } else {
                                assert(verts@.take(k as int).contains(x));
                                let q = choose|q: int| 0 <= q < before.len() && (#[trigger] before[q])@.contains(x);
                                let w = choose|w: int| 0 <= w < before[q]@.len() && before[q]@[w] == x;
                                assert(groups@[q]@[w] == x);
                            }
                        }
                        assert forall|q: int, t: int| 0 <= q < groups@.len() && 0 <= t < groups@[q]@.len() implies verts@.contains(
                            #[trigger] groups@[q]@[t],
                        ) && !visited@.contains(groups@[q]@[t]) by {
                            if q != f {
                                assert(groups@[q] == before[q]);
                            } else if t < before[q]@.len() {
                                assert(groups@[q]@[t] == before[q]@[t]);
                            }
                        }
                        assert forall|q: int, t: int| 0 <= q < groups@.len() && 0 <= t < groups@[q]@.len() implies g.adj().contains_key(
                            #[trigger] groups@[q]@[t],
                        ) && sig_ms(*g, groups@[q]@[t], closed) == sigs@[q]@.to_multiset() by {
                            if q != f {
                                assert(groups@[q] == before[q]);
                            } else if t < before[q]@.len() {
                                assert(groups@[q]@[t] == before[q]@[t]);
                            }
                        }
                    }
                },
                None => {
                    let ghost before = groups@;
                    let ghost sbefore = sigs@;
                    sigs.push(sig);
                    let one = vec![u];
                    assert(one@.len() == 1);
                    groups.push(one);
                    proof {
                        lemma_total_len_push(before, one);
                        assert(one@[0] == u);
                        assert forall|q: int| 0 <= q < groups@.len() implies (#[trigger] groups@[q])@.no_duplicates() by {
                            if q < before.len() {
                                assert(groups@[q] == before[q]);
                            }
                        }
                        assert forall|q: int, t: int, j: int|
                            0 <= q < groups@.len() && 0 <= t < groups@[q]@.len() && k + 1 <= j < verts@.len() implies #[trigger] groups@[q]@[t]
                                != #[trigger] verts@[j] by {
                            if q < before.len() {
                                assert(groups@[q] == before[q]);
                            } else {
                                assert(groups@[q]@[t] == verts@[k as int]);
                            }
                        }
                        assert forall|q1: int, q2: int| 0 <= q1 < q2 < sigs@.len() implies (#[trigger] sigs@[q1])@.to_multiset() != (#[trigger] sigs@[q2])@.to_multiset() by {
                            if q2 == sbefore.len() {
                                assert(sigs@[q1] == sbefore[q1]);
                                assert(sbefore[q1]@ != sig@);
                                if sbefore[q1]@.to_multiset() == sig@.to_multiset() {
                                    lemma_sorted_same_ms(sbefore[q1]@, sig@);
                                }
                            } else {
                                assert(sigs@[q1] == sbefore[q1]);
                                assert(sigs@[q2] == sbefore[q2]);
                            }
                        }
                        assert forall|x: i32| verts@.take(k + 1).contains(x) && !visited@.contains(x) implies exists|q: int| 0 <= q < groups@.len() && (
                        #[trigger] groups@[q])@.contains(x) by {
                            if x == u {
                                assert(groups@[before.len() as int]@.contains(u));
                            } else {
                                assert(verts@.take(k as int).contains(x));
                                let q = choose|q: int| 0 <= q < before.len() && (#[trigger] before[q])@.contains(x);
                                assert(groups@[q] == before[q]);
                            }
                        }
                        assert forall|q: int, t: int| 0 <= q < groups@.len() && 0 <= t < groups@[q]@.len() implies verts@.contains(
                            #[trigger] groups@[q]@[t],
                        ) && !visited@.contains(groups@[q]@[t]) by {
                            if q < before.len() {
                                assert(groups@[q] == before[q]);
                            }
                        }
                        assert forall|q: int, t: int| 0 <= q < groups@.len() && 0 <= t < groups@[q]@.len() implies g.adj().contains_key(
                            #[trigger] groups@[q]@[t],
                        ) && sig_ms(*g, groups@[q]@[t], closed) == sigs@[q]@.to_multiset() by {
                            if q < before.len() {
                                assert(groups@[q] == before[q]);
                                assert(sigs@[q] == sbefore[q]);
                            }
                        }
                    }
                },
            }
        }
        k = k + 1;
    }
    proof {
        assert(verts@.take(verts@.len() as int) == verts@);
        assert forall|q1: int, q2: int, t1: int, t2: int|
            0 <= q1 < groups@.len() && 0 <= q2 < groups@.len() && q1 != q2 && 0 <= t1 < groups@[q1]@.len() && 0 <= t2
                < groups@[q2]@.len() implies sig_ms(*g, #[trigger] groups@[q1]@[t1], closed) != sig_ms(
                *g,
                #[trigger] groups@[q2]@[t2],
                closed,
            ) by {
            if q1 < q2 {
                assert(sigs@[q1]@.to_multiset() != sigs@[q2]@.to_multiset());
            } else {
                assert(sigs@[q2]@.to_multiset() != sigs@[q1]@.to_multiset());
            }
        }
        assert forall|q: int| 0 <= q < groups@.len() implies twin_class(*g, #[trigger] groups@[q]@) by {
            let m = groups@[q]@;
            if closed {
                assert forall|a: int, b: int| 0 <= a < m.len() && 0 <= b < m.len() implies closed_ms(*g, m[a]) == closed_ms(*g, m[b]) by {
                    assert(sig_ms(*g, m[a], closed) == sig_ms(*g, m[b], closed));
                }
            } else {
                assert forall|a: int, b: int| 0 <= a < m.len() && 0 <= b < m.len() implies open_ms(*g, m[a]) == open_ms(*g, m[b]) by {
                    assert(sig_ms(*g, m[a], closed) == sig_ms(*g, m[b], closed));
                }
            }
        }
    }
    groups
}

/// A prefix one longer holds exactly one more entry.
proof fn lemma_take_one_more(s: Seq<i32>, k: int)
    requires
        0 <= k < s.len(),
    ensures
        forall|x: i32| s.take(k + 1).contains(x) <==> s.take(k).contains(x) || x == s[k],
{
    let a = s.take(k);
    let b = s.take(k + 1);
    assert forall|x: i32| b.contains(x) <==> a.contains(x) || x == s[k] by {
        if b.contains(x) {
            let w = choose|w: int| 0 <= w < b.len() && b[w] == x;
            if w < k {
                assert(a[w] == x);
            }
        }
        if a.contains(x) {
            let w = choose|w: int| 0 <= w < a.len() && a[w] == x;
            assert(b[w] == x);
        }
        if x == s[k] {
            assert(b[k] == x);
        }
    }
}

/// The vertex of a leaf node.
pub open spec fn leaf_of(nd: ModularNode) -> Option<i32> {
    match nd.node_type {
        ModularNodeType::Leaf(v) => Some(v),
        _ => None,
    }
}

/// Some node of `nodes` is a leaf of `x`.
pub open spec fn has_leaf(nodes: Seq<ModularNode>, x: i32) -> bool {
    exists|i: int| 0 <= i < nodes.len() && #[trigger] leaf_of(nodes[i]) == Some(x)
}

/// No two nodes are leaves of the same vertex.
pub open spec fn leaves_unique(nodes: Seq<ModularNode>) -> bool {
    forall|i: int, j: int|
        #![trigger leaf_of(nodes[i]), leaf_of(nodes[j])]
        0 <= i < j < nodes.len() && leaf_of(nodes[i]) is Some ==> leaf_of(nodes[i]) != leaf_of(nodes[j])
}

/// Pushing a leaf of a vertex without one keeps the leaves unique and adds it.
proof fn lemma_push_leaf(nodes: Seq<ModularNode>, nd: ModularNode, v: i32)
    requires
        leaves_unique(nodes),
        !has_leaf(nodes, v),
        leaf_of(nd) == Some(v),
    ensures
        leaves_unique(nodes.push(nd)),
        forall|x: i32| has_leaf(nodes.push(nd), x) <==> has_leaf(nodes, x) || x == v,
{
    let q = nodes.push(nd);
    assert forall|i: int, j: int| 0 <= i < j < q.len() && leaf_of(q[i]) is Some implies leaf_of(q[i]) != leaf_of(q[j]) by {
        assert(q[i] == nodes[i]);
        if j < nodes.len() {
            assert(q[j] == nodes[j]);
        } else {
            assert(leaf_of(nodes[i]) != Some(v));
        }
    }
    assert forall|x: i32| has_leaf(q, x) <==> has_leaf(nodes, x) || x == v by {
        if has_leaf(q, x) {
            let i = choose|i: int| 0 <= i < q.len() && #[trigger] leaf_of(q[i]) == Some(x);
            if i < nodes.len() {
                assert(q[i] == nodes[i]);
            }
        }
        if has_leaf(nodes, x) {
            let i = choose|i: int| 0 <= i < nodes.len() && #[trigger] leaf_of(nodes[i]) == Some(x);
            assert(q[i] == nodes[i]);
        }
        if x == v {
            assert(leaf_of(q[nodes.len() as int]) == Some(x));
        }
    }
}

/// Pushing a node that is not a leaf changes no leaf.
proof fn lemma_push_inner(nodes: Seq<ModularNode>, nd: ModularNode)
    requires
        leaves_unique(nodes),
        leaf_of(nd) is None,
    ensures
        leaves_unique(nodes.push(nd)),
        forall|x: i32| has_leaf(nodes.push(nd), x) <==> has_leaf(nodes, x),
{
    let q = nodes.push(nd);
    assert forall|i: int, j: int| 0 <= i < j < q.len() && leaf_of(q[i]) is Some implies leaf_of(q[i]) != leaf_of(q[j]) by {
        assert(q[i] == nodes[i]);
        if j < nodes.len() {
            assert(q[j] == nodes[j]);
        }
    }
    assert forall|x: i32| has_leaf(q, x) <==> has_leaf(nodes, x) by {
        if has_leaf(q, x) {
            let i = choose|i: int| 0 <= i < q.len() && #[trigger] leaf_of(q[i]) == Some(x);
            assert(i < nodes.len());
            assert(q[i] == nodes[i]);
        }
        if has_leaf(nodes, x) {
            let i = choose|i: int| 0 <= i < nodes.len() && #[trigger] leaf_of(nodes[i]) == Some(x);
            assert(q[i] == nodes[i]);
        }
    }
}

/// Appending a duplicate-free list that avoids every listed value keeps the
/// lists disjoint and adds its values.
proof fn lemma_push_disjoint(s: Seq<Vec<i32>>, m: Vec<i32>, listed: Set<i32>)
    requires
        disjoint_lists(s),
        m@.no_duplicates(),
        forall|x: i32| listed_in(s, x) ==> listed.contains(x),
        forall|x: i32| m@.contains(x) ==> !listed.contains(x),
    ensures
        disjoint_lists(s.push(m)),
        forall|x: i32| listed_in(s.push(m), x) <==> listed_in(s, x) || m@.contains(x),
{
    let q = s.push(m);
    assert forall|i: int| 0 <= i < q.len() implies (#[trigger] q[i])@.no_duplicates() by {
        if i < s.len() {
            assert(q[i] == s[i]);
        }
    }
    assert forall|a: int, b: int, x: i32| 0 <= a < q.len() && 0 <= b < q.len() && a != b && #[trigger] q[a]@.contains(x) implies !#[trigger] q[b]@.contains(x) by {
        if a < s.len() && b < s.len() {
            assert(q[a] == s[a] && q[b] == s[b]);
        } else if a < s.len() {
            assert(q[a] == s[a]);
            assert(listed_in(s, x));
        } else {
            assert(q[b] == s[b]);
            if q[b]@.contains(x) {
                assert(listed_in(s, x));
            }
        }
    }
    assert forall|x: i32| listed_in(q, x) <==> listed_in(s, x) || m@.contains(x) by {
        if listed_in(q, x) {
            let i = choose|i: int| 0 <= i < q.len() && (#[trigger] q[i])@.contains(x);
            if i < s.len() {
                assert(q[i] == s[i]);
            }
        }
        if listed_in(s, x) {
            let i = choose|i: int| 0 <= i < s.len() && (#[trigger] s[i])@.contains(x);
            assert(q[i] == s[i]);
        }
        if m@.contains(x) {
            assert(q[s.len() as int] == m);
        }
    }
}

/// One list more in the prefix adds its values.
proof fn lemma_listed_take_one_more(s: Seq<Vec<i32>>, q: int)
    requires
        0 <= q < s.len(),
    ensures
        forall|x: i32| listed_in(s.take(q + 1), x) <==> listed_in(s.take(q), x) || s[q]@.contains(x),
{
    let a = s.take(q);
    let b = s.take(q + 1);
    assert forall|x: i32| listed_in(b, x) <==> listed_in(a, x) || s[q]@.contains(x) by {
        if listed_in(b, x) {
            let i = choose|i: int| 0 <= i < b.len() && (#[trigger] b[i])@.contains(x);
            if i < q {
                assert(a[i] == b[i]);
            }
        }
        if listed_in(a, x) {
            let i = choose|i: int| 0 <= i < a.len() && (#[trigger] a[i])@.contains(x);
            assert(b[i] == a[i]);
        }
        if s[q]@.contains(x) {
            assert(b[q] == s[q]);
        }
    }
}

/// A root that is no leaf, put before `rest`, keeps the leaves of `rest`.
proof fn lemma_prepend_root(root: ModularNode, rest: Seq<ModularNode>)
    requires
        leaf_of(root) is None,
        leaves_unique(rest),
    ensures
        leaves_unique(seq![root] + rest),
        forall|x: i32| has_leaf(seq![root] + rest, x) <==> has_leaf(rest, x),
{
    let q = seq![root] + rest;
    assert forall|i: int, j: int| 0 <= i < j < q.len() && leaf_of(q[i]) is Some implies leaf_of(q[i]) != leaf_of(q[j]) by {
        assert(i > 0);
        assert(q[i] == rest[i - 1] && q[j] == rest[j - 1]);
    }
    assert forall|x: i32| has_leaf(q, x) <==> has_leaf(rest, x) by {
        if has_leaf(q, x) {
            let i = choose|i: int| 0 <= i < q.len() && #[trigger] leaf_of(q[i]) == Some(x);
            assert(i > 0);
            assert(q[i] == rest[i - 1]);
        }
        if has_leaf(rest, x) {
            let i = choose|i: int| 0 <= i < rest.len() && #[trigger] leaf_of(rest[i]) == Some(x);
            assert(q[i + 1] == rest[i]);
        }
    }
}

/// The children listed by a node.
pub open spec fn children_of(nd: ModularNode) -> Seq<usize> {
    match nd.node_type {
        ModularNodeType::Leaf(_) => Seq::empty(),
        ModularNodeType::Parallel(ch) => ch@,
        ModularNodeType::Series(ch) => ch@,
        ModularNodeType::Prime { children, .. } => children@,
    }
}

/// Parent and children agree: every node but the root has a parent before it
/// that lists it, and every listed child comes later and names that parent.
pub open spec fn tree_links(nodes: Seq<ModularNode>) -> bool {
    &&& forall|j: int|
        1 <= j < nodes.len() ==> ((#[trigger] nodes[j]).parent matches Some(p) && p < j && children_of(nodes[p as int]).contains(
            j as usize,
        ))
    &&& forall|p: int, c: usize|
        0 <= p < nodes.len() && #[trigger] children_of(nodes[p]).contains(c) ==> p < c < nodes.len() && nodes[c as int].parent == Some(
            p as usize,
        )
}

/// The links among the non-root nodes `rest` (node `w + 1` at position `w`)
/// and the root's children `rc`; the node at position `pend` may list
/// children not yet built.
pub open spec fn links_ok(rest: Seq<ModularNode>, rc: Seq<usize>, pend: int) -> bool {
    &&& forall|w: int|
        0 <= w < rest.len() ==> match (#[trigger] rest[w]).parent {
            Some(p) => (p == 0 && rc.contains((w + 1) as usize)) || (1 <= p <= w && children_of(rest[p - 1]).contains(
                (w + 1) as usize,
            )),
            None => false,
        }
    &&& forall|w: int, c: usize|
        0 <= w < rest.len() && #[trigger] children_of(rest[w]).contains(c) ==> w + 1 < c && (c <= rest.len() ==> rest[c - 1].parent
            == Some((w + 1) as usize)) && (w != pend ==> c <= rest.len())
    &&& forall|c: usize| #[trigger] rc.contains(c) ==> 1 <= c <= rest.len() && rest[c - 1].parent == Some(0usize)
}

/// A series node under the root, listing the next positions as children.
proof fn lemma_links_push_series(rest: Seq<ModularNode>, rc: Seq<usize>, nd: ModularNode)
    requires
        rest.len() + 2 <= usize::MAX,
        links_ok(rest, rc, -1),
        !rc.contains((rest.len() + 1) as usize),
        nd.parent == Some(0usize),
        forall|c: usize| #[trigger] children_of(nd).contains(c) ==> rest.len() + 1 < c,
    ensures
        links_ok(rest.push(nd), rc.push((rest.len() + 1) as usize), rest.len() as int),
{
    let r2 = rest.push(nd);
    let c2 = rc.push((rest.len() + 1) as usize);
    assert forall|c: usize| #[trigger] c2.contains(c) implies 1 <= c <= r2.len() && r2[c - 1].parent == Some(0usize) by {
        if c != rest.len() + 1 {
            let i = choose|i: int| 0 <= i < c2.len() && c2[i] == c;
            if i == rc.len() {
                assert(c2[i] == (rest.len() + 1) as usize);
            }
            assert(c2[i] == rc[i]);
            assert(rc[i] == c);
            assert(rc.contains(c));
            assert(r2[c - 1] == rest[c - 1]);
        }
    }
    assert forall|w: int| 0 <= w < r2.len() implies match (#[trigger] r2[w]).parent {
        Some(p) => (p == 0 && c2.contains((w + 1) as usize)) || (1 <= p <= w && children_of(r2[p - 1]).contains((w + 1) as usize)),
        None => false,
    } by {
        if w < rest.len() {
            assert(r2[w] == rest[w]);
            if rc.contains((w + 1) as usize) {
                let i = choose|i: int| 0 <= i < rc.len() && rc[i] == (w + 1) as usize;
                assert(c2[i] == (w + 1) as usize);
            }
            match rest[w].parent {
                Some(p) => {
                    if p >= 1 {
                        assert(r2[p - 1] == rest[p - 1]);
                    }
                },
                None => {},
            }
        } else {
            assert(c2[rc.len() as int] == (w + 1) as usize);
        }
    }
    assert forall|w: int, c: usize| 0 <= w < r2.len() && #[trigger] children_of(r2[w]).contains(c) implies w + 1 < c && (c <= r2.len()
        ==> r2[c - 1].parent == Some((w + 1) as usize)) && (w != rest.len() ==> c <= r2.len()) by {
        if w < rest.len() {
            assert(r2[w] == rest[w]);
            assert(c <= rest.len());
            assert(r2[c - 1] == rest[c - 1]);
        }
    }
}

/// A leaf listed by the pending node, at the next position.
proof fn lemma_links_push_child(rest: Seq<ModularNode>, rc: Seq<usize>, pend: int, nd: ModularNode)
    requires
        rest.len() + 2 <= usize::MAX,
        links_ok(rest, rc, pend),
        0 <= pend < rest.len(),
        children_of(rest[pend]).contains((rest.len() + 1) as usize),
        nd.parent == Some((pend + 1) as usize),
        children_of(nd) == Seq::<usize>::empty(),
    ensures
        links_ok(rest.push(nd), rc, pend),
{
    let r2 = rest.push(nd);
    assert forall|c: usize| #[trigger] rc.contains(c) implies 1 <= c <= r2.len() && r2[c - 1].parent == Some(0usize) by {
        assert(r2[c - 1] == rest[c - 1]);
    }
    assert forall|w: int| 0 <= w < r2.len() implies match (#[trigger] r2[w]).parent {
        Some(p) => (p == 0 && rc.contains((w + 1) as usize)) || (1 <= p <= w && children_of(r2[p - 1]).contains((w + 1) as usize)),
        None => false,
    } by {
        if w < rest.len() {
            assert(r2[w] == rest[w]);
            match rest[w].parent {
                Some(p) => {
                    if p >= 1 {
                        assert(r2[p - 1] == rest[p - 1]);
                    }
                },
                None => {},
            }
        } else {
            assert(r2[pend] == rest[pend]);
        }
    }
    assert forall|w: int, c: usize| 0 <= w < r2.len() && #[trigger] children_of(r2[w]).contains(c) implies w + 1 < c && (c <= r2.len()
        ==> r2[c - 1].parent == Some((w + 1) as usize)) && (w != pend ==> c <= r2.len()) by {
        if w < rest.len() {
            assert(r2[w] == rest[w]);
            if c <= rest.len() {
                assert(r2[c - 1] == rest[c - 1]);
            } else if c == rest.len() + 1 {
                if w != pend {
                    assert(c <= rest.len());
                }
            }
        }
    }
}

/// A leaf under the root, at the next position.
proof fn lemma_links_push_root_leaf(rest: Seq<ModularNode>, rc: Seq<usize>, nd: ModularNode)
    requires
        rest.len() + 2 <= usize::MAX,
        links_ok(rest, rc, -1),
        !rc.contains((rest.len() + 1) as usize),
        nd.parent == Some(0usize),
        children_of(nd) == Seq::<usize>::empty(),
    ensures
        links_ok(rest.push(nd), rc.push((rest.len() + 1) as usize), -1),
{
    lemma_links_push_series(rest, rc, nd);
    let r2 = rest.push(nd);
    let c2 = rc.push((rest.len() + 1) as usize);
    assert forall|w: int, c: usize| 0 <= w < r2.len() && #[trigger] children_of(r2[w]).contains(c) implies w + 1 < c && (c <= r2.len()
        ==> r2[c - 1].parent == Some((w + 1) as usize)) && (w != -1 ==> c <= r2.len()) by {
        if w < rest.len() {
            assert(r2[w] == rest[w]);
        }
    }
}

/// Once the pending node's children are all built, nothing is pending.
proof fn lemma_links_close(rest: Seq<ModularNode>, rc: Seq<usize>, pend: int)
    requires
        links_ok(rest, rc, pend),
        0 <= pend < rest.len(),
        forall|c: usize| #[trigger] children_of(rest[pend]).contains(c) ==> c <= rest.len(),
    ensures
        links_ok(rest, rc, -1),
{
}

/// The root with children `rc`, before `rest`, gives consistent links.
proof fn lemma_links_root(root: ModularNode, rest: Seq<ModularNode>, rc: Seq<usize>)
    requires
        links_ok(rest, rc, -1),
        children_of(root) == rc,
    ensures
        tree_links(seq![root] + rest),
{
    let nodes = seq![root] + rest;
    assert forall|j: int| 1 <= j < nodes.len() implies ((#[trigger] nodes[j]).parent matches Some(p) && p < j && children_of(
        nodes[p as int],
    ).contains(j as usize)) by {
        assert(nodes[j] == rest[j - 1]);
        match rest[j - 1].parent {
            Some(p) => {
                if p >= 1 {
                    assert(nodes[p as int] == rest[p - 1]);
                } else {
                    assert(nodes[0] == root);
                }
            },
            None => {},
        }
    }
    assert forall|p: int, c: usize| 0 <= p < nodes.len() && #[trigger] children_of(nodes[p]).contains(c) implies p < c < nodes.len()
        && nodes[c as int].parent == Some(p as usize) by {
        if p == 0 {
            assert(nodes[0] == root);
            assert(rc.contains(c));
            assert(nodes[c as int] == rest[c - 1]);
        } else {
            assert(nodes[p] == rest[p - 1]);
            assert(nodes[c as int] == rest[c - 1]);
        }
    }
}

/// Each list is duplicate-free and no value lies in two lists.
pub open spec fn disjoint_lists(s: Seq<Vec<i32>>) -> bool {
    &&& forall|q: int| 0 <= q < s.len() ==> (#[trigger] s[q])@.no_duplicates()
    &&& forall|a: int, b: int, x: i32|
        0 <= a < s.len() && 0 <= b < s.len() && a != b && #[trigger] s[a]@.contains(x) ==> !#[trigger] s[b]@.contains(x)
}

/// Some list of `s` holds both `x` and `y`.
pub open spec fn together(s: Seq<Vec<i32>>, x: i32, y: i32) -> bool {
    exists|q: int| 0 <= q < s.len() && (#[trigger] s[q])@.contains(x) && s[q]@.contains(y)
}

/// `x` and `y` are distinct vertices with the same open neighbourhood.
pub open spec fn false_twins(g: Graph, x: i32, y: i32) -> bool {
    &&& x != y
    &&& g.adj().contains_key(x)
    &&& g.adj().contains_key(y)
    &&& open_ms(g, x) == open_ms(g, y)
}

/// Some node of `nodes` is a series node with the vertex list `m`.
pub open spec fn series_for(nodes: Seq<ModularNode>, m: Seq<i32>) -> bool {
    exists|i: int| 0 <= i < nodes.len() && (#[trigger] nodes[i]).node_type is Series && nodes[i].vertices@ == m
}

/// Adding a node keeps the series nodes there are.
proof fn lemma_series_for_push(nodes: Seq<ModularNode>, x: ModularNode, m: Seq<i32>)
    requires
        series_for(nodes, m),
    ensures
        series_for(nodes.push(x), m),
{
    let i = choose|i: int| 0 <= i < nodes.len() && (#[trigger] nodes[i]).node_type is Series && nodes[i].vertices@ == m;
    assert(nodes.push(x)[i] == nodes[i]);
}

/// `x` and `y` are distinct vertices with the same closed neighbourhood,
/// neither of which has a false twin.
pub open spec fn lone_true_twins(g: Graph, x: i32, y: i32) -> bool {
    &&& x != y
    &&& g.adj().contains_key(x)
    &&& g.adj().contains_key(y)
    &&& closed_ms(g, x) == closed_ms(g, y)
    &&& forall|z: i32| !#[trigger] false_twins(g, x, z)
    &&& forall|z: i32| !#[trigger] false_twins(g, y, z)
}

/// Pairs of twins that the decomposition keeps in one series node: false
/// twins, and true twins that have no false twin.
pub open spec fn joined_twins(g: Graph, x: i32, y: i32) -> bool {
    false_twins(g, x, y) || lone_true_twins(g, x, y)
}

/// Adding a list keeps the pairs already together.
proof fn lemma_together_push(s: Seq<Vec<i32>>, m: Vec<i32>, x: i32, y: i32)
    requires
        together(s, x, y),
    ensures
        together(s.push(m), x, y),
{
    let q = choose|q: int| 0 <= q < s.len() && (#[trigger] s[q])@.contains(x) && s[q]@.contains(y);
    assert(s.push(m)[q] == s[q]);
}

/// Reordering disjoint lists (each new list one of the old, the same
/// vertices listed, still disjoint) keeps the pairs together.
proof fn lemma_together_reorder(s: Seq<Vec<i32>>, t: Seq<Vec<i32>>, x: i32, y: i32)
    requires
        disjoint_lists(s),
        disjoint_lists(t),
        forall|q: int| 0 <= q < t.len() ==> is_member(s, #[trigger] t[q]@),
        forall|v: i32| listed_in(t, v) <==> listed_in(s, v),
        together(s, x, y),
    ensures
        together(t, x, y),
{
    let q = choose|q: int| 0 <= q < s.len() && (#[trigger] s[q])@.contains(x) && s[q]@.contains(y);
    assert(listed_in(s, x));
    let a = choose|a: int| 0 <= a < t.len() && (#[trigger] t[a])@.contains(x);
    assert(is_member(s, t[a]@));
    let r = choose|r: int| #![trigger s[r]] 0 <= r < s.len() && s[r]@ == t[a]@;
    assert(s[r]@.contains(x));
    if r != q {
        assert(!s[q]@.contains(x));
    }
    assert(t[a]@.contains(y));
}

/// Some list of `s` holds `x`.
pub open spec fn listed_in(s: Seq<Vec<i32>>, x: i32) -> bool {
    exists|q: int| 0 <= q < s.len() && (#[trigger] s[q])@.contains(x)
}

/// Two sorted lists with the same elements are equal.
proof fn lemma_sorted_same_ms(a: Seq<i32>, b: Seq<i32>)
    requires
        sorted_asc(a),
        sorted_asc(b),
        a.to_multiset() == b.to_multiset(),
    ensures
        a == b,
{
    let leq = |x: i32, y: i32| x <= y;
    assert(vstd::relations::sorted_by(a, leq));
    assert(vstd::relations::sorted_by(b, leq));
    assert(vstd::relations::total_ordering(leq));
    vstd::seq_lib::lemma_sorted_unique(a, b, leq);
}

/// `x` is the view of some member of `s`.
pub open spec fn is_member(s: Seq<Vec<i32>>, x: Seq<i32>) -> bool {
    exists|r: int| #![trigger s[r]] 0 <= r < s.len() && s[r]@ == x
}

/// The total length of a family of vertex lists.
pub open spec fn total_len(s: Seq<Vec<i32>>) -> int
    decreases s.len(),
{
    if s.len() == 0 {
        0
    } else {
        total_len(s.drop_last()) + s.last()@.len()
    }
}

proof fn lemma_total_len_push(s: Seq<Vec<i32>>, x: Vec<i32>)
    ensures
        total_len(s.push(x)) == total_len(s) + x@.len(),
{
    assert(s.push(x).drop_last() == s);
}

proof fn lemma_total_len_nonneg(s: Seq<Vec<i32>>)
    ensures
        total_len(s) >= 0,
    decreases s.len(),
{
    if s.len() > 0 {
        lemma_total_len_nonneg(s.drop_last());
    }
}

proof fn lemma_total_len_prefix(s: Seq<Vec<i32>>, k: int)
    requires
        0 <= k <= s.len(),
    ensures
        total_len(s.subrange(0, k)) <= total_len(s),
    decreases s.len() - k,
{
    if k < s.len() {
        lemma_total_len_prefix(s, k + 1);
        lemma_total_len_push(s.subrange(0, k), s[k]);
        assert(s.subrange(0, k + 1) == s.subrange(0, k).push(s[k]));
    } else {
        assert(s.subrange(0, k) == s);
    }
}

proof fn lemma_total_len_remove(s: Seq<Vec<i32>>, i: int)
    requires
        0 <= i < s.len(),
    ensures
        total_len(s) == total_len(s.remove(i)) + s[i]@.len(),
    decreases s.len(),
{
    if i == s.len() - 1 {
        assert(s.remove(i) == s.drop_last());
    } else {
        lemma_total_len_remove(s.drop_last(), i);
        assert(s.remove(i).drop_last() == s.drop_last().remove(i));
        assert(s.remove(i).last() == s.last());
    }
}

proof fn lemma_total_len_update(s: Seq<Vec<i32>>, i: int, l: int)
    requires
        0 <= i < s.len(),
    ensures
        forall|x: Vec<i32>| x@.len() == l ==> #[trigger] total_len(s.update(i, x)) == total_len(s) - s[i]@.len() + l,
{
    assert forall|x: Vec<i32>| x@.len() == l implies #[trigger] total_len(s.update(i, x)) == total_len(s) - s[i]@.len() + l by {
        lemma_total_len_remove(s, i);
        lemma_total_len_remove(s.update(i, x), i);
        assert(s.update(i, x).remove(i) == s.remove(i));
    }
}

spec fn sig_ms(g: Graph, u: i32, closed: bool) -> Multiset<i32> {
    if closed {
        closed_ms(g, u)
    } else {
        open_ms(g, u)
    }
}

/// Orders modules by their first vertex (insertion sort).
fn sort_modules_by_first(v: &mut Vec<Vec<i32>>)
    requires
        forall|q: int| 0 <= q < old(v)@.len() ==> old(v)@[q]@.len() >= 1,
    ensures
        final(v)@.len() == old(v)@.len(),
        forall|q: int| 0 <= q < final(v)@.len() ==> is_member(old(v)@, #[trigger] final(v)@[q]@),
        total_len(final(v)@) == total_len(old(v)@),
        forall|a: int, b: int| 0 <= a < b < final(v)@.len() ==> (#[trigger] final(v)@[a])@[0] <= (#[trigger] final(v)@[b])@[0],
        disjoint_lists(old(v)@) ==> disjoint_lists(final(v)@),
        forall|x: i32| listed_in(final(v)@, x) <==> listed_in(old(v)@, x),
{
    let n = v.len();
    if n == 0 {
        return;
    }
    let mut i: usize = 1;
    proof {
        assert forall|q: int| 0 <= q < v@.len() implies is_member(old(v)@, #[trigger] v@[q]@) by {
            assert(old(v)@[q]@ == v@[q]@);
        }
    }
    while i < n
        invariant
            n == v@.len(),
            1 <= i <= n,
            forall|q: int| 0 <= q < v@.len() ==> v@[q]@.len() >= 1,
            forall|q: int| 0 <= q < v@.len() ==> is_member(old(v)@, #[trigger] v@[q]@),
            total_len(v@) == total_len(old(v)@),
            forall|a: int, b: int| 0 <= a < b < i ==> (#[trigger] v@[a])@[0] <= (#[trigger] v@[b])@[0],
            disjoint_lists(old(v)@) ==> disjoint_lists(v@),
            forall|x: i32| listed_in(v@, x) <==> listed_in(old(v)@, x),
        decreases n - i,
    {
        let mut j: usize = i;
        while j > 0 && v[j - 1][0] > v[j][0]
            invariant
                n == v@.len(),
                0 <= j <= i < n,
                forall|q: int| 0 <= q < v@.len() ==> v@[q]@.len() >= 1,
                forall|q: int| 0 <= q < v@.len() ==> is_member(old(v)@, #[trigger] v@[q]@),
                total_len(v@) == total_len(old(v)@),
                forall|a: int, b: int| 0 <= a < b <= i && a != j && b != j ==> (#[trigger] v@[a])@[0] <= (#[trigger] v@[b])@[0],
                forall|b: int| j < b <= i ==> v@[j as int]@[0] < (#[trigger] v@[b])@[0],
                disjoint_lists(old(v)@) ==> disjoint_lists(v@),
                forall|x: i32| listed_in(v@, x) <==> listed_in(old(v)@, x),
            decreases j,
        {
            let ghost before = v@;
            let x = v.remove(j - 1);
            let ghost mid = v@;
            v.insert(j, x);
            proof {
                lemma_total_len_remove(before, j - 1);
                assert(mid == before.remove(j - 1));
                lemma_total_len_remove(v@, j as int);
                assert(v@.remove(j as int) == mid);
                assert forall|q: int| 0 <= q < v@.len() implies is_member(old(v)@, #[trigger] v@[q]@) by {
                    if q == j as int {
                        assert(v@[q] == before[j - 1]);
                        assert(is_member(old(v)@, before[j - 1]@));
                    } else if q == j - 1 {
                        assert(v@[q] == before[j as int]);
                        assert(is_member(old(v)@, before[j as int]@));
                    } else {
                        assert(v@[q] == before[q]);
                        assert(is_member(old(v)@, before[q]@));
                    }
                }
                let kk = j as int;
                assert forall|z: int| 0 <= z < n implies v@[z] == before[swapped(kk, z)] by {
                    if z == kk {
                        assert(v@[z] == before[kk - 1]);
                    } else if z == kk - 1 {
                        assert(v@[z] == before[kk]);
                    } else {
                        assert(v@[z] == before[z]);
                    }
                }
                assert forall|x: i32| listed_in(v@, x) <==> listed_in(before, x) by {
                    if listed_in(v@, x) {
                        let q = choose|q: int| 0 <= q < v@.len() && (#[trigger] v@[q])@.contains(x);
                        assert(before[swapped(kk, q)]@.contains(x));
                    }
                    if listed_in(before, x) {
                        let q = choose|q: int| 0 <= q < before.len() && (#[trigger] before[q])@.contains(x);
                        assert(v@[swapped(kk, q)] == before[q]);
                    }
                }
                if disjoint_lists(before) {
                    assert forall|q: int| 0 <= q < v@.len() implies (#[trigger] v@[q])@.no_duplicates() by {
                        assert(v@[q] == before[swapped(kk, q)]);
                    }
                    assert forall|a: int, b: int, x: i32| 0 <= a < v@.len() && 0 <= b < v@.len() && a != b && #[trigger] v@[a]@.contains(x)
                        implies !#[trigger] v@[b]@.contains(x) by {
                        assert(v@[a] == before[swapped(kk, a)]);
                        assert(v@[b] == before[swapped(kk, b)]);
                    }
                }
                assert forall|a: int, b: int| 0 <= a < b <= i && a != kk - 1 && b != kk - 1 implies (#[trigger] v@[a])@[0] <= (#[trigger] v@[b])@[0] by {
                    assert(v@[a] == before[swapped(kk, a)]);
                    assert(v@[b] == before[swapped(kk, b)]);
                    if b == kk {
                        assert(before[a]@[0] <= before[kk - 1]@[0]);
                    } else if a == kk {
                        assert(before[kk - 1]@[0] <= before[b]@[0]);
                    } else {
                        assert(before[a]@[0] <= before[b]@[0]);
                    }
                }
                assert forall|b: int| kk - 1 < b <= i implies v@[kk - 1]@[0] < (#[trigger] v@[b])@[0] by {
                    assert(v@[kk - 1] == before[kk]);
                    assert(v@[b] == before[swapped(kk, b)]);
                    if b > kk {
                        assert(before[kk]@[0] < before[b]@[0]);
                    }
                }
            }
            j = j - 1;
        }
        proof {
            let kk = j as int;
            assert forall|a: int, b: int| 0 <= a < b < i + 1 implies (#[trigger] v@[a])@[0] <= (#[trigger] v@[b])@[0] by {
                if a == kk {
                } else if b == kk {
                    if a < kk - 1 {
                        assert(v@[a]@[0] <= v@[kk - 1]@[0]);
                    }
                }
            }
        }
        i = i + 1;
    }
}

} // verus!
