//! The propositional encoding of the directed pair graph of the alternating
//! pair solver, and the decoding of a satisfying assignment into the cycles it
//! selects. Nodes are numbered `0..n`; arc `i` of the arc list is the
//! propositional variable `i + 1`; clauses are lists of nonzero literals
//! (a negative literal is the negation of its variable). The satisfiability
//! search itself runs outside this library, between an encoding and a step.
use crate::cycle_family::views;
use crate::graph::Graph;
use vstd::prelude::*;

verus! {

/// Literal `l` holds under the assignment `m`, where variable `v` has value `m[v]`.
pub open spec fn lit_holds(m: Seq<bool>, l: i32) -> bool {
    if l > 0 {
        m[l as int]
    } else {
        !m[-(l as int)]
    }
}

/// Some literal of the clause `c` holds under `m`.
pub open spec fn clause_holds(m: Seq<bool>, c: Seq<i32>) -> bool {
    exists|k: int| 0 <= k < c.len() && #[trigger] lit_holds(m, c[k])
}

/// Every clause of `cnf` holds under `m`.
pub open spec fn cnf_holds(m: Seq<bool>, cnf: Seq<Seq<i32>>) -> bool {
    forall|i: int| 0 <= i < cnf.len() ==> #[trigger] clause_holds(m, cnf[i])
}

/// Arc `i` is selected by `m`.
pub open spec fn chosen(m: Seq<bool>, i: int) -> bool {
    m[i + 1]
}

/// Exactly one arc leaving node `u` is selected.
pub open spec fn one_out(arcs: Seq<(usize, usize)>, m: Seq<bool>, u: usize) -> bool {
    &&& exists|i: int| 0 <= i < arcs.len() && arcs[i].0 == u && #[trigger] chosen(m, i)
    &&& forall|i: int, j: int|
        0 <= i < arcs.len() && 0 <= j < arcs.len() && i != j && arcs[i].0 == u && arcs[j].0 == u ==> !(#[trigger] chosen(m, i)
            && #[trigger] chosen(m, j))
}

/// Exactly one arc entering node `v` is selected.
pub open spec fn one_in(arcs: Seq<(usize, usize)>, m: Seq<bool>, v: usize) -> bool {
    &&& exists|i: int| 0 <= i < arcs.len() && arcs[i].1 == v && #[trigger] chosen(m, i)
    &&& forall|i: int, j: int|
        0 <= i < arcs.len() && 0 <= j < arcs.len() && i != j && arcs[i].1 == v && arcs[j].1 == v ==> !(#[trigger] chosen(m, i)
            && #[trigger] chosen(m, j))
}

/// No two selected arcs run in opposite directions between the same nodes.
pub open spec fn no_two_cycle(arcs: Seq<(usize, usize)>, m: Seq<bool>) -> bool {
    forall|i: int, j: int|
        0 <= i < arcs.len() && 0 <= j < arcs.len() && arcs[i].0 < arcs[i].1 && arcs[j].0 == arcs[i].1 && arcs[j].1
            == arcs[i].0 ==> !(#[trigger] chosen(m, i) && #[trigger] chosen(m, j))
}

/// The selection of `m` gives each of the `n` nodes exactly one selected
/// outgoing and one selected incoming arc, with no selected two-cycle.
pub open spec fn pair_choice_ok(n: usize, arcs: Seq<(usize, usize)>, m: Seq<bool>) -> bool {
    &&& forall|u: usize| u < n ==> #[trigger] one_out(arcs, m, u)
    &&& forall|v: usize| v < n ==> #[trigger] one_in(arcs, m, v)
    &&& no_two_cycle(arcs, m)
}

/// Adding a clause adds its condition.
proof fn lemma_push_clause(m: Seq<bool>, cnf: Seq<Seq<i32>>, c: Seq<i32>)
    ensures
        cnf_holds(m, cnf.push(c)) <==> cnf_holds(m, cnf) && clause_holds(m, c),
{
    let p = cnf.push(c);
    if cnf_holds(m, p) {
        assert(clause_holds(m, p[cnf.len() as int]));
        assert forall|i: int| 0 <= i < cnf.len() implies #[trigger] clause_holds(m, cnf[i]) by {
            assert(clause_holds(m, p[i]));
        }
    }
    if cnf_holds(m, cnf) && clause_holds(m, c) {
        assert forall|i: int| 0 <= i < p.len() implies #[trigger] clause_holds(m, p[i]) by {
            if i < cnf.len() {
                assert(p[i] == cnf[i]);
            }
        }
    }
}

/// The clause "at least one of the arcs `ids` is selected".
fn some_selected_clause(ids: &Vec<usize>) -> (c: Vec<i32>)
    requires
        forall|k: int| 0 <= k < ids@.len() ==> #[trigger] ids@[k] < 0x7fff_fff0,
    ensures
        forall|m: Seq<bool>| #[trigger] clause_holds(m, c@) <==> exists|k: int| 0 <= k < ids@.len() && #[trigger] chosen(m, ids@[k] as int),
        c@.len() == ids@.len(),
{
    let mut c: Vec<i32> = Vec::new();
    let mut k: usize = 0;
    while k < ids.len()
        invariant
            forall|q: int| 0 <= q < ids@.len() ==> #[trigger] ids@[q] < 0x7fff_fff0,
            0 <= k <= ids@.len(),
            c@.len() == k,
            forall|q: int| 0 <= q < k ==> #[trigger] c@[q] == ids@[q] + 1,
        decreases ids@.len() - k,
    {
        let x = ids[k];
        assert(x < 0x7fff_fff0);
        c.push((x + 1) as i32);
        k = k + 1;
    }
    proof {
        assert forall|m: Seq<bool>| #[trigger] clause_holds(m, c@) <==> exists|q: int| 0 <= q < ids@.len() && #[trigger] chosen(m, ids@[q] as int) by {
            if clause_holds(m, c@) {
                let q = choose|q: int| 0 <= q < c@.len() && #[trigger] lit_holds(m, c@[q]);
                assert(chosen(m, ids@[q] as int));
            }
            if exists|q: int| 0 <= q < ids@.len() && #[trigger] chosen(m, ids@[q] as int) {
                let q = choose|q: int| 0 <= q < ids@.len() && #[trigger] chosen(m, ids@[q] as int);
                assert(lit_holds(m, c@[q]));
            }
        }
    }
    c
}

/// The clause "not both arcs `a` and `b` are selected".
fn not_both_clause(a: usize, b: usize) -> (c: Vec<i32>)
    requires
        a < 0x7fff_fff0,
        b < 0x7fff_fff0,
    ensures
        forall|m: Seq<bool>| #[trigger] clause_holds(m, c@) <==> !(chosen(m, a as int) && chosen(m, b as int)),
{
    let mut c: Vec<i32> = Vec::new();
    c.push(-((a + 1) as i32));
    c.push(-((b + 1) as i32));
    proof {
        assert forall|m: Seq<bool>| #[trigger] clause_holds(m, c@) <==> !(chosen(m, a as int) && chosen(m, b as int)) by {
            assert(lit_holds(m, c@[0]) == !chosen(m, a as int));
            assert(lit_holds(m, c@[1]) == !chosen(m, b as int));
            if !(chosen(m, a as int) && chosen(m, b as int)) {
                if !chosen(m, a as int) {
                    assert(lit_holds(m, c@[0]));
                } else {
                    assert(lit_holds(m, c@[1]));
                }
            }
        }
    }
    c
}

/// Exactly one of the arcs `ids` is selected.
pub open spec fn exactly_one(m: Seq<bool>, ids: Seq<usize>) -> bool {
    &&& exists|k: int| 0 <= k < ids.len() && #[trigger] chosen(m, ids[k] as int)
    &&& forall|a: int, b: int| 0 <= a < b < ids.len() ==> !(#[trigger] chosen(m, ids[a] as int) && #[trigger] chosen(m, ids[b] as int))
}

/// Appends the clauses "exactly one of the arcs `ids` is selected": one
/// clause naming them all, and one per pair forbidding both.
fn push_exactly_one(cnf: &mut Vec<Vec<i32>>, ids: &Vec<usize>)
    requires
        forall|k: int| 0 <= k < ids@.len() ==> #[trigger] ids@[k] < 0x7fff_fff0,
    ensures
        forall|m: Seq<bool>|
            #[trigger] cnf_holds(m, views(final(cnf)@)) <==> cnf_holds(m, views(old(cnf)@)) && exactly_one(m, ids@),
{
    let ghost c0 = views(cnf@);
    let alo = some_selected_clause(ids);
    cnf.push(alo);
    proof {
        assert(views(cnf@) == c0.push(alo@));
        assert forall|m: Seq<bool>| #[trigger] cnf_holds(m, views(cnf@)) <==> cnf_holds(m, c0) && clause_holds(m, alo@) by {
            lemma_push_clause(m, c0, alo@);
        }
    }
    let ghost c1 = views(cnf@);
    let mut a: usize = 0;
    while a < ids.len()
        invariant
            forall|k: int| 0 <= k < ids@.len() ==> #[trigger] ids@[k] < 0x7fff_fff0,
            0 <= a <= ids@.len(),
            forall|m: Seq<bool>|
                #[trigger] cnf_holds(m, views(cnf@)) <==> cnf_holds(m, c1) && forall|x: int, y: int|
                    0 <= x < a && x < y < ids@.len() ==> !(#[trigger] chosen(m, ids@[x] as int) && #[trigger] chosen(
                        m,
                        ids@[y] as int,
                    )),
        decreases ids@.len() - a,
    {
        let ghost ca = views(cnf@);
        let mut b: usize = a + 1;
        while b < ids.len()
            invariant
                forall|k: int| 0 <= k < ids@.len() ==> #[trigger] ids@[k] < 0x7fff_fff0,
                0 <= a < ids@.len(),
                a + 1 <= b <= ids@.len(),
                forall|m: Seq<bool>|
                    #[trigger] cnf_holds(m, ca) <==> cnf_holds(m, c1) && forall|x: int, y: int|
                        0 <= x < a && x < y < ids@.len() ==> !(#[trigger] chosen(m, ids@[x] as int) && #[trigger] chosen(
                            m,
                            ids@[y] as int,
                        )),
                forall|m: Seq<bool>|
                    #[trigger] cnf_holds(m, views(cnf@)) <==> cnf_holds(m, ca) && forall|y: int|
                        a < y < b ==> !(chosen(m, ids@[a as int] as int) && #[trigger] chosen(m, ids@[y] as int)),
            decreases ids@.len() - b,
        {
            let ghost cb = views(cnf@);
            let cl = not_both_clause(ids[a], ids[b]);
            cnf.push(cl);
            proof {
                assert(views(cnf@) == cb.push(cl@));
                assert forall|m: Seq<bool>|
                    #[trigger] cnf_holds(m, views(cnf@)) <==> cnf_holds(m, ca) && forall|y: int|
                        a < y < b + 1 ==> !(chosen(m, ids@[a as int] as int) && #[trigger] chosen(m, ids@[y] as int)) by {
                    lemma_push_clause(m, cb, cl@);
                    if cnf_holds(m, views(cnf@)) {
                        assert forall|y: int| a < y < b + 1 implies !(chosen(m, ids@[a as int] as int) && #[trigger] chosen(
                            m,
                            ids@[y] as int,
                        )) by {
                            if y == b {
                                assert(clause_holds(m, cl@));
                            }
                        }
                    }
                    if cnf_holds(m, ca) && forall|y: int|
                        a < y < b + 1 ==> !(chosen(m, ids@[a as int] as int) && #[trigger] chosen(m, ids@[y] as int)) {
                        assert(!(chosen(m, ids@[a as int] as int) && chosen(m, ids@[b as int] as int)));
                        assert(clause_holds(m, cl@));
                    }
                }
            }
            b = b + 1;
        }
        proof {
            assert forall|m: Seq<bool>|
                #[trigger] cnf_holds(m, views(cnf@)) <==> cnf_holds(m, c1) && forall|x: int, y: int|
                    0 <= x < a + 1 && x < y < ids@.len() ==> !(#[trigger] chosen(m, ids@[x] as int) && #[trigger] chosen(
                        m,
                        ids@[y] as int,
                    )) by {
                if cnf_holds(m, views(cnf@)) {
                    assert forall|x: int, y: int| 0 <= x < a + 1 && x < y < ids@.len() implies !(#[trigger] chosen(
                        m,
                        ids@[x] as int,
                    ) && #[trigger] chosen(m, ids@[y] as int)) by {
                        if x == a {
                            assert(a < y < b);
                        }
                    }
                }
            }
        }
        a = a + 1;
    }
    proof {
        assert forall|m: Seq<bool>| #[trigger] cnf_holds(m, views(cnf@)) <==> cnf_holds(m, c0) && exactly_one(m, ids@) by {
        }
    }
}

/// The tail (`tail`) or the head of an arc.
pub open spec fn arc_end(a: (usize, usize), tail: bool) -> usize {
    if tail {
        a.0
    } else {
        a.1
    }
}

/// `ids` lists, in increasing order, exactly the arcs whose tail (`tail`) or
/// head is `u`.
pub open spec fn arcs_at_listed(arcs: Seq<(usize, usize)>, u: usize, tail: bool, ids: Seq<usize>) -> bool {
    &&& forall|a: int, b: int| 0 <= a < b < ids.len() ==> ids[a] < ids[b]
    &&& forall|k: int| 0 <= k < ids.len() ==> #[trigger] ids[k] < arcs.len() && arc_end(arcs[ids[k] as int], tail) == u
    &&& forall|i: int| 0 <= i < arcs.len() && arc_end(arcs[i], tail) == u ==> #[trigger] ids.contains(i as usize)
}

/// The arcs whose tail (`tail`) or head is `u`, in increasing order.
fn arcs_at(arcs: &Vec<(usize, usize)>, u: usize, tail: bool) -> (ids: Vec<usize>)
    ensures
        arcs_at_listed(arcs@, u, tail, ids@),
{
    let mut ids: Vec<usize> = Vec::new();
    let mut i: usize = 0;
    while i < arcs.len()
        invariant
            0 <= i <= arcs@.len(),
            forall|a: int, b: int| 0 <= a < b < ids@.len() ==> ids@[a] < ids@[b],
            forall|k: int| 0 <= k < ids@.len() ==> #[trigger] ids@[k] < i && arc_end(arcs@[ids@[k] as int], tail) == u,
            forall|j: int| 0 <= j < i && arc_end(arcs@[j], tail) == u ==> #[trigger] ids@.contains(j as usize),
        decreases arcs@.len() - i,
    {
        let e = if tail {
            arcs[i].0
        } else {
            arcs[i].1
        };
        if e == u {
            let ghost i0 = ids@;
            ids.push(i);
            proof {
                assert forall|j: int| 0 <= j < i + 1 && arc_end(arcs@[j], tail) == u implies #[trigger] ids@.contains(j as usize) by {
                    if j < i {
                        assert(i0.contains(j as usize));
                        let k = choose|k: int| 0 <= k < i0.len() && i0[k] == j as usize;
                        assert(ids@[k] == j as usize);
                    } else {
                        assert(ids@[i0.len() as int] == i);
                    }
                }
            }
        }
        i = i + 1;
    }
    ids
}

/// Exactly one listed arc is selected just when exactly one arc at `u` is.
proof fn lemma_exactly_one_at(arcs: Seq<(usize, usize)>, m: Seq<bool>, u: usize, tail: bool, ids: Seq<usize>)
    requires
        arcs_at_listed(arcs, u, tail, ids),
        arcs.len() <= usize::MAX,
    ensures
        exactly_one(m, ids) <==> if tail {
            one_out(arcs, m, u)
        } else {
            one_in(arcs, m, u)
        },
{
    let ex_l = exists|k: int| 0 <= k < ids.len() && #[trigger] chosen(m, ids[k] as int);
    let ex_a = exists|i: int| 0 <= i < arcs.len() && arc_end(arcs[i], tail) == u && #[trigger] chosen(m, i);
    let am_l = forall|a: int, b: int| 0 <= a < b < ids.len() ==> !(#[trigger] chosen(m, ids[a] as int) && #[trigger] chosen(m, ids[b] as int));
    let am_a = forall|i: int, j: int|
        0 <= i < arcs.len() && 0 <= j < arcs.len() && i != j && arc_end(arcs[i], tail) == u && arc_end(arcs[j], tail) == u ==> !(
        #[trigger] chosen(m, i) && #[trigger] chosen(m, j));
    assert(ex_l <==> ex_a) by {
        if ex_l {
            let k = choose|k: int| 0 <= k < ids.len() && #[trigger] chosen(m, ids[k] as int);
            assert(ids[k] < arcs.len());
            assert(arc_end(arcs[ids[k] as int], tail) == u);
        }
        if ex_a {
            let i = choose|i: int| 0 <= i < arcs.len() && arc_end(arcs[i], tail) == u && #[trigger] chosen(m, i);
            assert(ids.contains(i as usize));
            let k = choose|k: int| 0 <= k < ids.len() && ids[k] == i as usize;
            assert(chosen(m, ids[k] as int));
        }
    }
    assert(am_l <==> am_a) by {
        if am_l {
            assert forall|i: int, j: int|
                0 <= i < arcs.len() && 0 <= j < arcs.len() && i != j && arc_end(arcs[i], tail) == u && arc_end(arcs[j], tail)
                    == u implies !(#[trigger] chosen(m, i) && #[trigger] chosen(m, j)) by {
                assert(ids.contains(i as usize));
                assert(ids.contains(j as usize));
                let ki = choose|k: int| 0 <= k < ids.len() && ids[k] == i as usize;
                let kj = choose|k: int| 0 <= k < ids.len() && ids[k] == j as usize;
                if ki < kj {
                    assert(!(chosen(m, ids[ki] as int) && chosen(m, ids[kj] as int)));
                } else {
                    assert(ki != kj);
                    assert(!(chosen(m, ids[kj] as int) && chosen(m, ids[ki] as int)));
                }
            }
        }
        if am_a {
            assert forall|a: int, b: int| 0 <= a < b < ids.len() implies !(#[trigger] chosen(m, ids[a] as int) && #[trigger] chosen(
                m,
                ids[b] as int,
            )) by {
                assert(ids[a] < ids[b]);
                assert(ids[a] < arcs.len() && ids[b] < arcs.len());
                assert(arc_end(arcs[ids[a] as int], tail) == u && arc_end(arcs[ids[b] as int], tail) == u);
            }
        }
    }
    if tail {
        assert(ex_a == exists|i: int| 0 <= i < arcs.len() && arcs[i].0 == u && #[trigger] chosen(m, i));
    } else {
        assert(ex_a == exists|i: int| 0 <= i < arcs.len() && arcs[i].1 == u && #[trigger] chosen(m, i));
    }
}

/// Appends, for every node below `n`, the clauses "exactly one outgoing arc
/// is selected", then, for every node, "exactly one incoming arc is selected".
fn push_degree_clauses(cnf: &mut Vec<Vec<i32>>, n: usize, arcs: &Vec<(usize, usize)>)
    requires
        arcs@.len() < 0x7fff_fff0,
    ensures
        forall|m: Seq<bool>|
            #[trigger] cnf_holds(m, views(final(cnf)@)) <==> cnf_holds(m, views(old(cnf)@)) && (forall|u: usize|
                u < n ==> #[trigger] one_out(arcs@, m, u)) && (forall|v: usize| v < n ==> #[trigger] one_in(arcs@, m, v)),
{
    let ghost c0 = views(cnf@);
    let mut u: usize = 0;
    while u < n
        invariant
            arcs@.len() < 0x7fff_fff0,
            0 <= u <= n,
            forall|m: Seq<bool>|
                #[trigger] cnf_holds(m, views(cnf@)) <==> cnf_holds(m, c0) && forall|x: usize| x < u ==> #[trigger] one_out(
                    arcs@,
                    m,
                    x,
                ),
        decreases n - u,
    {
        let ids = arcs_at(arcs, u, true);
        let ghost cu = views(cnf@);
        push_exactly_one(cnf, &ids);
        proof {
            assert forall|m: Seq<bool>|
                #[trigger] cnf_holds(m, views(cnf@)) <==> cnf_holds(m, c0) && forall|x: usize| x < u + 1 ==> #[trigger] one_out(
                    arcs@,
                    m,
                    x,
                ) by {
                lemma_exactly_one_at(arcs@, m, u, true, ids@);
                assert(cnf_holds(m, views(cnf@)) <==> cnf_holds(m, cu) && exactly_one(m, ids@));
                if cnf_holds(m, views(cnf@)) {
                    assert forall|x: usize| x < u + 1 implies #[trigger] one_out(arcs@, m, x) by {
                        if x < u {
                            assert(cnf_holds(m, cu));
                        }
                    }
                }
            }
        }
        u = u + 1;
    }
    let ghost c1 = views(cnf@);
    let mut v: usize = 0;
    while v < n
        invariant
            arcs@.len() < 0x7fff_fff0,
            0 <= v <= n,
            forall|m: Seq<bool>|
                #[trigger] cnf_holds(m, c1) <==> cnf_holds(m, c0) && forall|x: usize| x < n ==> #[trigger] one_out(arcs@, m, x),
            forall|m: Seq<bool>|
                #[trigger] cnf_holds(m, views(cnf@)) <==> cnf_holds(m, c1) && forall|x: usize| x < v ==> #[trigger] one_in(
                    arcs@,
                    m,
                    x,
                ),
        decreases n - v,
    {
        let ids = arcs_at(arcs, v, false);
        let ghost cv = views(cnf@);
        push_exactly_one(cnf, &ids);
        proof {
            assert forall|m: Seq<bool>|
                #[trigger] cnf_holds(m, views(cnf@)) <==> cnf_holds(m, c1) && forall|x: usize| x < v + 1 ==> #[trigger] one_in(
                    arcs@,
                    m,
                    x,
                ) by {
                lemma_exactly_one_at(arcs@, m, v, false, ids@);
                assert(cnf_holds(m, views(cnf@)) <==> cnf_holds(m, cv) && exactly_one(m, ids@));
                if cnf_holds(m, views(cnf@)) {
                    assert forall|x: usize| x < v + 1 implies #[trigger] one_in(arcs@, m, x) by {
                        if x < v {
                            assert(cnf_holds(m, cv));
                        }
                    }
                }
            }
        }
        v = v + 1;
    }
}

/// Appends, for every arc `(u, v)` with `u < v` and every arc `(v, u)`, the
/// clause "not both are selected".
fn push_two_cycle_clauses(cnf: &mut Vec<Vec<i32>>, arcs: &Vec<(usize, usize)>)
    requires
        arcs@.len() < 0x7fff_fff0,
    ensures
        forall|m: Seq<bool>|
            #[trigger] cnf_holds(m, views(final(cnf)@)) <==> cnf_holds(m, views(old(cnf)@)) && no_two_cycle(arcs@, m),
{
    let ghost c0 = views(cnf@);
    let mut i: usize = 0;
    while i < arcs.len()
        invariant
            arcs@.len() < 0x7fff_fff0,
            0 <= i <= arcs@.len(),
            forall|m: Seq<bool>|
                #[trigger] cnf_holds(m, views(cnf@)) <==> cnf_holds(m, c0) && forall|x: int, y: int|
                    0 <= x < i && 0 <= y < arcs@.len() && arcs@[x].0 < arcs@[x].1 && arcs@[y].0 == arcs@[x].1 && arcs@[y].1
                        == arcs@[x].0 ==> !(#[trigger] chosen(m, x) && #[trigger] chosen(m, y)),
        decreases arcs@.len() - i,
    {
        let (a, b) = arcs[i];
        let ghost ci = views(cnf@);
        if a < b {
            let mut j: usize = 0;
            while j < arcs.len()
                invariant
                    arcs@.len() < 0x7fff_fff0,
                    0 <= i < arcs@.len(),
                    (a, b) == arcs@[i as int],
                    a < b,
                    0 <= j <= arcs@.len(),
                    forall|m: Seq<bool>|
                        #[trigger] cnf_holds(m, ci) <==> cnf_holds(m, c0) && forall|x: int, y: int|
                            0 <= x < i && 0 <= y < arcs@.len() && arcs@[x].0 < arcs@[x].1 && arcs@[y].0 == arcs@[x].1
                                && arcs@[y].1 == arcs@[x].0 ==> !(#[trigger] chosen(m, x) && #[trigger] chosen(m, y)),
                    forall|m: Seq<bool>|
                        #[trigger] cnf_holds(m, views(cnf@)) <==> cnf_holds(m, ci) && forall|y: int|
                            0 <= y < j && arcs@[y].0 == b && arcs@[y].1 == a ==> !(chosen(m, i as int) && #[trigger] chosen(
                                m,
                                y,
                            )),
                decreases arcs@.len() - j,
            {
                let (c, d) = arcs[j];
                let ghost cj = views(cnf@);
                if c == b && d == a {
                    let cl = not_both_clause(i, j);
                    cnf.push(cl);
                    proof {
                        assert(views(cnf@) == cj.push(cl@));
                        assert forall|m: Seq<bool>|
                            #[trigger] cnf_holds(m, views(cnf@)) <==> cnf_holds(m, ci) && forall|y: int|
                                0 <= y < j + 1 && arcs@[y].0 == b && arcs@[y].1 == a ==> !(chosen(m, i as int)
                                    && #[trigger] chosen(m, y)) by {
                            lemma_push_clause(m, cj, cl@);
                            if cnf_holds(m, views(cnf@)) {
                                assert forall|y: int| 0 <= y < j + 1 && arcs@[y].0 == b && arcs@[y].1 == a implies !(chosen(
                                    m,
                                    i as int,
                                ) && #[trigger] chosen(m, y)) by {
                                    if y == j {
                                        assert(clause_holds(m, cl@));
                                    }
                                }
                            }
                        }
                    }
                } else {
                    proof {
                        assert forall|m: Seq<bool>|
                            #[trigger] cnf_holds(m, views(cnf@)) <==> cnf_holds(m, ci) && forall|y: int|
                                0 <= y < j + 1 && arcs@[y].0 == b && arcs@[y].1 == a ==> !(chosen(m, i as int)
                                    && #[trigger] chosen(m, y)) by {
                            if cnf_holds(m, views(cnf@)) {
                                assert forall|y: int| 0 <= y < j + 1 && arcs@[y].0 == b && arcs@[y].1 == a implies !(chosen(
                                    m,
                                    i as int,
                                ) && #[trigger] chosen(m, y)) by {
                                    if y == j {
                                        assert(arcs@[y] == (c, d));
                                    }
                                }
                            }
                        }
                    }
                }
                j = j + 1;
            }
            proof {
                assert forall|m: Seq<bool>|
                    #[trigger] cnf_holds(m, views(cnf@)) <==> cnf_holds(m, c0) && forall|x: int, y: int|
                        0 <= x < i + 1 && 0 <= y < arcs@.len() && arcs@[x].0 < arcs@[x].1 && arcs@[y].0 == arcs@[x].1
                            && arcs@[y].1 == arcs@[x].0 ==> !(#[trigger] chosen(m, x) && #[trigger] chosen(m, y)) by {
                    if cnf_holds(m, views(cnf@)) {
                        assert forall|x: int, y: int|
                            0 <= x < i + 1 && 0 <= y < arcs@.len() && arcs@[x].0 < arcs@[x].1 && arcs@[y].0 == arcs@[x].1
                                && arcs@[y].1 == arcs@[x].0 implies !(#[trigger] chosen(m, x) && #[trigger] chosen(m, y)) by {
                            if x == i {
                                assert(arcs@[x] == (a, b));
                            }
                        }
                    }
                }
            }
        } else {
            proof {
                assert forall|m: Seq<bool>|
                    #[trigger] cnf_holds(m, views(cnf@)) <==> cnf_holds(m, c0) && forall|x: int, y: int|
                        0 <= x < i + 1 && 0 <= y < arcs@.len() && arcs@[x].0 < arcs@[x].1 && arcs@[y].0 == arcs@[x].1
                            && arcs@[y].1 == arcs@[x].0 ==> !(#[trigger] chosen(m, x) && #[trigger] chosen(m, y)) by {
                    if cnf_holds(m, views(cnf@)) {
                        assert forall|x: int, y: int|
                            0 <= x < i + 1 && 0 <= y < arcs@.len() && arcs@[x].0 < arcs@[x].1 && arcs@[y].0 == arcs@[x].1
                                && arcs@[y].1 == arcs@[x].0 implies !(#[trigger] chosen(m, x) && #[trigger] chosen(m, y)) by {
                            if x == i {
                                assert(arcs@[x] == (a, b));
                            }
                        }
                    }
                }
            }
        }
        i = i + 1;
    }
}

/// Arcs `i`, `j`, `k` close the directed triangle `u -> v -> w -> u` with
/// `u` the least of the three and `w != u`.
pub open spec fn triangle(arcs: Seq<(usize, usize)>, i: int, j: int, k: int) -> bool {
    &&& 0 <= i < arcs.len()
    &&& 0 <= j < arcs.len()
    &&& 0 <= k < arcs.len()
    &&& arcs[j].0 == arcs[i].1
    &&& arcs[k].0 == arcs[j].1
    &&& arcs[k].1 == arcs[i].0
    &&& arcs[j].1 != arcs[i].0
    &&& arcs[i].0 < arcs[i].1
    &&& arcs[i].0 < arcs[j].1
}

/// No directed triangle has all three arcs selected.
pub open spec fn no_triangle(arcs: Seq<(usize, usize)>, m: Seq<bool>) -> bool {
    forall|i: int, j: int, k: int| #[trigger] triangle(arcs, i, j, k) ==> !(chosen(m, i) && chosen(m, j) && chosen(m, k))
}

/// The outgoing arc lists of the nodes below `n`.
pub open spec fn out_lists(arcs: Seq<(usize, usize)>, n: usize, outs: Seq<Vec<usize>>) -> bool {
    &&& outs.len() == n
    &&& forall|u: int| 0 <= u < n ==> #[trigger] arcs_at_listed(arcs, u as usize, true, outs[u]@)
}

/// The arcs of every node below `n` are listed by their tails.
fn out_arc_lists(arcs: &Vec<(usize, usize)>, n: usize) -> (outs: Vec<Vec<usize>>)
    ensures
        out_lists(arcs@, n, outs@),
{
    let mut outs: Vec<Vec<usize>> = Vec::new();
    let mut u: usize = 0;
    while u < n
        invariant
            0 <= u <= n,
            outs@.len() == u,
            forall|x: int| 0 <= x < u ==> #[trigger] arcs_at_listed(arcs@, x as usize, true, outs@[x]@),
        decreases n - u,
    {
        let ids = arcs_at(arcs, u, true);
        outs.push(ids);
        u = u + 1;
    }
    outs
}

/// Appends "not all three of `i`, `j` and each arc `k` closing the triangle"
/// for the arcs `k` listed in `ks`.
fn push_triangle_closers(cnf: &mut Vec<Vec<i32>>, arcs: &Vec<(usize, usize)>, ks: &Vec<usize>, i: usize, j: usize)
    requires
        arcs@.len() < 0x7fff_fff0,
        i < arcs@.len(),
        j < arcs@.len(),
        arcs_at_listed(arcs@, arcs@[j as int].1, true, ks@),
    ensures
        forall|m: Seq<bool>|
            #[trigger] cnf_holds(m, views(final(cnf)@)) <==> cnf_holds(m, views(old(cnf)@)) && forall|k: int|
                #[trigger] triangle(arcs@, i as int, j as int, k) ==> !(chosen(m, i as int) && chosen(m, j as int) && chosen(m, k)),
{
    let ghost c0 = views(cnf@);
    let mut p: usize = 0;
    while p < ks.len()
        invariant
            arcs@.len() < 0x7fff_fff0,
            i < arcs@.len(),
            j < arcs@.len(),
            arcs_at_listed(arcs@, arcs@[j as int].1, true, ks@),
            0 <= p <= ks@.len(),
            forall|m: Seq<bool>|
                #[trigger] cnf_holds(m, views(cnf@)) <==> cnf_holds(m, c0) && forall|q: int|
                    0 <= q < p && triangle(arcs@, i as int, j as int, ks@[q] as int) ==> !(chosen(m, i as int) && chosen(
                        m,
                        j as int,
                    ) && #[trigger] chosen(m, ks@[q] as int)),
        decreases ks@.len() - p,
    {
        let k = ks[p];
        let ghost cp = views(cnf@);
        assert(k < arcs@.len());
        if arcs[k].1 == arcs[i].0 && arcs[j].1 != arcs[i].0 && arcs[i].0 < arcs[i].1 && arcs[i].0 < arcs[j].1
            && arcs[j].0 == arcs[i].1 {
            let mut cl: Vec<i32> = Vec::new();
            cl.push(-((i + 1) as i32));
            cl.push(-((j + 1) as i32));
            cl.push(-((k + 1) as i32));
            cnf.push(cl);
            proof {
                assert(views(cnf@) == cp.push(cl@));
                assert forall|m: Seq<bool>|
                    #[trigger] cnf_holds(m, views(cnf@)) <==> cnf_holds(m, c0) && forall|q: int|
                        0 <= q < p + 1 && triangle(arcs@, i as int, j as int, ks@[q] as int) ==> !(chosen(m, i as int)
                            && chosen(m, j as int) && #[trigger] chosen(m, ks@[q] as int)) by {
                    lemma_push_clause(m, cp, cl@);
                    assert(lit_holds(m, cl@[0]) == !chosen(m, i as int));
                    assert(lit_holds(m, cl@[1]) == !chosen(m, j as int));
                    assert(lit_holds(m, cl@[2]) == !chosen(m, k as int));
                    assert(clause_holds(m, cl@) <==> !(chosen(m, i as int) && chosen(m, j as int) && chosen(m, k as int))) by {
                        if !(chosen(m, i as int) && chosen(m, j as int) && chosen(m, k as int)) {
                            if !chosen(m, i as int) {
                                assert(lit_holds(m, cl@[0]));
                            } else if !chosen(m, j as int) {
                                assert(lit_holds(m, cl@[1]));
                            } else {
                                assert(lit_holds(m, cl@[2]));
                            }
                        }
                    }
                }
            }
        } else {
            proof {
                assert(!triangle(arcs@, i as int, j as int, k as int));
            }
        }
        p = p + 1;
    }
    proof {
        assert forall|m: Seq<bool>|
            #[trigger] cnf_holds(m, views(cnf@)) <==> cnf_holds(m, c0) && forall|k: int|
                #[trigger] triangle(arcs@, i as int, j as int, k) ==> !(chosen(m, i as int) && chosen(m, j as int) && chosen(m, k)) by {
            if cnf_holds(m, views(cnf@)) {
                assert forall|k: int| #[trigger] triangle(arcs@, i as int, j as int, k) implies !(chosen(m, i as int) && chosen(
                    m,
                    j as int,
                ) && chosen(m, k)) by {
                    assert(ks@.contains(k as usize));
                    let q = choose|q: int| 0 <= q < ks@.len() && ks@[q] == k as usize;
                    assert(ks@[q] as int == k);
                }
            }
        }
    }
}

/// The arcs of `arcs` join nodes below `n`.
pub open spec fn arcs_within(arcs: Seq<(usize, usize)>, n: usize) -> bool {
    forall|i: int| 0 <= i < arcs.len() ==> (#[trigger] arcs[i]).0 < n && arcs[i].1 < n
}

/// Appends, for every directed triangle, the clause "not all three arcs selected".
fn push_triangle_clauses(cnf: &mut Vec<Vec<i32>>, arcs: &Vec<(usize, usize)>, n: usize, outs: &Vec<Vec<usize>>)
    requires
        arcs@.len() < 0x7fff_fff0,
        arcs_within(arcs@, n),
        out_lists(arcs@, n, outs@),
    ensures
        forall|m: Seq<bool>|
            #[trigger] cnf_holds(m, views(final(cnf)@)) <==> cnf_holds(m, views(old(cnf)@)) && no_triangle(arcs@, m),
{
    let ghost c0 = views(cnf@);
    let mut i: usize = 0;
    while i < arcs.len()
        invariant
            arcs@.len() < 0x7fff_fff0,
            arcs_within(arcs@, n),
            out_lists(arcs@, n, outs@),
            0 <= i <= arcs@.len(),
            forall|m: Seq<bool>|
                #[trigger] cnf_holds(m, views(cnf@)) <==> cnf_holds(m, c0) && forall|x: int, y: int, z: int|
                    0 <= x < i && #[trigger] triangle(arcs@, x, y, z) ==> !(chosen(m, x) && chosen(m, y) && chosen(m, z)),
        decreases arcs@.len() - i,
    {
        let ghost ci = views(cnf@);
        assert(arcs@[i as int].1 < n);
        let js = &outs[arcs[i].1];
        proof {
            let v = arcs@[i as int].1 as int;
            assert(arcs_at_listed(arcs@, v as usize, true, outs@[v]@));
        }
        let mut p: usize = 0;
        while p < js.len()
            invariant
                arcs@.len() < 0x7fff_fff0,
                arcs_within(arcs@, n),
                out_lists(arcs@, n, outs@),
                0 <= i < arcs@.len(),
                arcs_at_listed(arcs@, arcs@[i as int].1, true, js@),
                0 <= p <= js@.len(),
                forall|m: Seq<bool>|
                    #[trigger] cnf_holds(m, ci) <==> cnf_holds(m, c0) && forall|x: int, y: int, z: int|
                        0 <= x < i && #[trigger] triangle(arcs@, x, y, z) ==> !(chosen(m, x) && chosen(m, y) && chosen(m, z)),
                forall|m: Seq<bool>|
                    #[trigger] cnf_holds(m, views(cnf@)) <==> cnf_holds(m, ci) && forall|q: int, z: int|
                        0 <= q < p && #[trigger] triangle(arcs@, i as int, js@[q] as int, z) ==> !(chosen(m, i as int) && chosen(
                            m,
                            js@[q] as int,
                        ) && chosen(m, z)),
            decreases js@.len() - p,
        {
            let j = js[p];
            assert(j < arcs@.len());
            assert(arcs@[j as int].1 < n);
            let ks = &outs[arcs[j].1];
            proof {
                let w = arcs@[j as int].1 as int;
                assert(arcs_at_listed(arcs@, w as usize, true, outs@[w]@));
            }
            let ghost cp = views(cnf@);
            push_triangle_closers(cnf, arcs, ks, i, j);
            proof {
                assert forall|m: Seq<bool>|
                    #[trigger] cnf_holds(m, views(cnf@)) <==> cnf_holds(m, ci) && forall|q: int, z: int|
                        0 <= q < p + 1 && #[trigger] triangle(arcs@, i as int, js@[q] as int, z) ==> !(chosen(m, i as int)
                            && chosen(m, js@[q] as int) && chosen(m, z)) by {
                    assert(cnf_holds(m, views(cnf@)) <==> cnf_holds(m, cp) && forall|k: int|
                        #[trigger] triangle(arcs@, i as int, j as int, k) ==> !(chosen(m, i as int) && chosen(m, j as int) && chosen(m, k)));
                    if cnf_holds(m, views(cnf@)) {
                        assert forall|q: int, z: int| 0 <= q < p + 1 && #[trigger] triangle(arcs@, i as int, js@[q] as int, z) implies !(
                        chosen(m, i as int) && chosen(m, js@[q] as int) && chosen(m, z)) by {
                            if q == p {
                                assert(js@[q] == j);
                            }
                        }
                    }
                    if cnf_holds(m, ci) && forall|q: int, z: int|
                        0 <= q < p + 1 && #[trigger] triangle(arcs@, i as int, js@[q] as int, z) ==> !(chosen(m, i as int)
                            && chosen(m, js@[q] as int) && chosen(m, z)) {
                        assert forall|k: int| #[trigger] triangle(arcs@, i as int, j as int, k) implies !(chosen(m, i as int)
                            && chosen(m, j as int) && chosen(m, k)) by {
                            assert(js@[p as int] == j);
                            assert(triangle(arcs@, i as int, js@[p as int] as int, k));
                        }
                    }
                }
            }
            p = p + 1;
        }
        proof {
            assert forall|m: Seq<bool>|
                #[trigger] cnf_holds(m, views(cnf@)) <==> cnf_holds(m, c0) && forall|x: int, y: int, z: int|
                    0 <= x < i + 1 && #[trigger] triangle(arcs@, x, y, z) ==> !(chosen(m, x) && chosen(m, y) && chosen(m, z)) by {
                if cnf_holds(m, views(cnf@)) {
                    assert forall|x: int, y: int, z: int| 0 <= x < i + 1 && #[trigger] triangle(arcs@, x, y, z) implies !(chosen(
                        m,
                        x,
                    ) && chosen(m, y) && chosen(m, z)) by {
                        if x == i {
                            assert(js@.contains(y as usize));
                            let q = choose|q: int| 0 <= q < js@.len() && js@[q] == y as usize;
                            assert(triangle(arcs@, i as int, js@[q] as int, z));
                        }
                    }
                }
                if cnf_holds(m, c0) && forall|x: int, y: int, z: int|
                    0 <= x < i + 1 && #[trigger] triangle(arcs@, x, y, z) ==> !(chosen(m, x) && chosen(m, y) && chosen(m, z)) {
                    assert forall|q: int, z: int| 0 <= q < js@.len() && #[trigger] triangle(arcs@, i as int, js@[q] as int, z) implies !(
                    chosen(m, i as int) && chosen(m, js@[q] as int) && chosen(m, z)) by {
                    }
                }
            }
        }
        i = i + 1;
    }
}

/// Arcs `i`, `j`, `k`, `l` close the directed quadrangle
/// `u -> v -> w -> x -> u` with `u` the least of the four, `w != u`, `x != u`
/// and `x != v`.
pub open spec fn quadrangle(arcs: Seq<(usize, usize)>, i: int, j: int, k: int, l: int) -> bool {
    &&& 0 <= i < arcs.len()
    &&& 0 <= j < arcs.len()
    &&& 0 <= k < arcs.len()
    &&& 0 <= l < arcs.len()
    &&& arcs[j].0 == arcs[i].1
    &&& arcs[k].0 == arcs[j].1
    &&& arcs[l].0 == arcs[k].1
    &&& arcs[l].1 == arcs[i].0
    &&& arcs[j].1 != arcs[i].0
    &&& arcs[k].1 != arcs[i].0
    &&& arcs[k].1 != arcs[i].1
    &&& arcs[i].0 < arcs[i].1
    &&& arcs[i].0 < arcs[j].1
    &&& arcs[i].0 < arcs[k].1
}

/// No directed quadrangle has all four arcs selected.
pub open spec fn no_quadrangle(arcs: Seq<(usize, usize)>, m: Seq<bool>) -> bool {
    forall|i: int, j: int, k: int, l: int| #[trigger] quadrangle(arcs, i, j, k, l) ==> !(chosen(m, i) && chosen(m, j) && chosen(m, k) && chosen(m, l))
}

/// The clause "not all four arcs selected".
fn not_all_four_clause(i: usize, j: usize, k: usize, l: usize) -> (c: Vec<i32>)
    requires
        i < 0x7fff_fff0,
        j < 0x7fff_fff0,
        k < 0x7fff_fff0,
        l < 0x7fff_fff0,
    ensures
        forall|m: Seq<bool>|
            #[trigger] clause_holds(m, c@) <==> !(chosen(m, i as int) && chosen(m, j as int) && chosen(m, k as int) && chosen(
                m,
                l as int,
            )),
{
    let mut c: Vec<i32> = Vec::new();
    c.push(-((i + 1) as i32));
    c.push(-((j + 1) as i32));
    c.push(-((k + 1) as i32));
    c.push(-((l + 1) as i32));
    proof {
        assert forall|m: Seq<bool>|
            #[trigger] clause_holds(m, c@) <==> !(chosen(m, i as int) && chosen(m, j as int) && chosen(m, k as int) && chosen(
                m,
                l as int,
            )) by {
            assert(lit_holds(m, c@[0]) == !chosen(m, i as int));
            assert(lit_holds(m, c@[1]) == !chosen(m, j as int));
            assert(lit_holds(m, c@[2]) == !chosen(m, k as int));
            assert(lit_holds(m, c@[3]) == !chosen(m, l as int));
            if !(chosen(m, i as int) && chosen(m, j as int) && chosen(m, k as int) && chosen(m, l as int)) {
                if !chosen(m, i as int) {
                    assert(lit_holds(m, c@[0]));
                } else if !chosen(m, j as int) {
                    assert(lit_holds(m, c@[1]));
                } else if !chosen(m, k as int) {
                    assert(lit_holds(m, c@[2]));
                } else {
                    assert(lit_holds(m, c@[3]));
                }
            }
        }
    }
    c
}

/// Appends the quadrangle clauses for the arcs `l` listed in `ls` closing
/// `i`, `j`, `k`.
fn push_quadrangle_closers(
    cnf: &mut Vec<Vec<i32>>,
    arcs: &Vec<(usize, usize)>,
    ls: &Vec<usize>,
    i: usize,
    j: usize,
    k: usize,
)
    requires
        arcs@.len() < 0x7fff_fff0,
        i < arcs@.len(),
        j < arcs@.len(),
        k < arcs@.len(),
        arcs_at_listed(arcs@, arcs@[k as int].1, true, ls@),
    ensures
        forall|m: Seq<bool>|
            #[trigger] cnf_holds(m, views(final(cnf)@)) <==> cnf_holds(m, views(old(cnf)@)) && forall|l: int|
                #[trigger] quadrangle(arcs@, i as int, j as int, k as int, l) ==> !(chosen(m, i as int) && chosen(m, j as int)
                    && chosen(m, k as int) && chosen(m, l)),
{
    let ghost c0 = views(cnf@);
    let mut p: usize = 0;
    while p < ls.len()
        invariant
            arcs@.len() < 0x7fff_fff0,
            i < arcs@.len(),
            j < arcs@.len(),
            k < arcs@.len(),
            arcs_at_listed(arcs@, arcs@[k as int].1, true, ls@),
            0 <= p <= ls@.len(),
            forall|m: Seq<bool>|
                #[trigger] cnf_holds(m, views(cnf@)) <==> cnf_holds(m, c0) && forall|q: int|
                    0 <= q < p && quadrangle(arcs@, i as int, j as int, k as int, ls@[q] as int) ==> !(chosen(m, i as int)
                        && chosen(m, j as int) && chosen(m, k as int) && #[trigger] chosen(m, ls@[q] as int)),
        decreases ls@.len() - p,
    {
        let l = ls[p];
        let ghost cp = views(cnf@);
        assert(l < arcs@.len());
        if arcs[l].1 == arcs[i].0 && arcs[j].0 == arcs[i].1 && arcs[k].0 == arcs[j].1 && arcs[j].1 != arcs[i].0
            && arcs[k].1 != arcs[i].0 && arcs[k].1 != arcs[i].1 && arcs[i].0 < arcs[i].1 && arcs[i].0 < arcs[j].1
            && arcs[i].0 < arcs[k].1 {
            let cl = not_all_four_clause(i, j, k, l);
            cnf.push(cl);
            proof {
                assert(views(cnf@) == cp.push(cl@));
                assert forall|m: Seq<bool>|
                    #[trigger] cnf_holds(m, views(cnf@)) <==> cnf_holds(m, c0) && forall|q: int|
                        0 <= q < p + 1 && quadrangle(arcs@, i as int, j as int, k as int, ls@[q] as int) ==> !(chosen(
                            m,
                            i as int,
                        ) && chosen(m, j as int) && chosen(m, k as int) && #[trigger] chosen(m, ls@[q] as int)) by {
                    lemma_push_clause(m, cp, cl@);
                }
            }
        } else {
            proof {
                assert(!quadrangle(arcs@, i as int, j as int, k as int, l as int));
            }
        }
        p = p + 1;
    }
    proof {
        assert forall|m: Seq<bool>|
            #[trigger] cnf_holds(m, views(cnf@)) <==> cnf_holds(m, c0) && forall|l: int|
                #[trigger] quadrangle(arcs@, i as int, j as int, k as int, l) ==> !(chosen(m, i as int) && chosen(m, j as int)
                    && chosen(m, k as int) && chosen(m, l)) by {
            if cnf_holds(m, views(cnf@)) {
                assert forall|l: int| #[trigger] quadrangle(arcs@, i as int, j as int, k as int, l) implies !(chosen(m, i as int)
                    && chosen(m, j as int) && chosen(m, k as int) && chosen(m, l)) by {
                    assert(ls@.contains(l as usize));
                    let q = choose|q: int| 0 <= q < ls@.len() && ls@[q] == l as usize;
                    assert(ls@[q] as int == l);
                }
            }
        }
    }
}

/// Appends the quadrangle clauses for the arcs `k` listed in `ks` following
/// `i`, `j`.
fn push_quadrangle_thirds(
    cnf: &mut Vec<Vec<i32>>,
    arcs: &Vec<(usize, usize)>,
    n: usize,
    outs: &Vec<Vec<usize>>,
    ks: &Vec<usize>,
    i: usize,
    j: usize,
)
    requires
        arcs@.len() < 0x7fff_fff0,
        arcs_within(arcs@, n),
        out_lists(arcs@, n, outs@),
        i < arcs@.len(),
        j < arcs@.len(),
        arcs_at_listed(arcs@, arcs@[j as int].1, true, ks@),
    ensures
        forall|m: Seq<bool>|
            #[trigger] cnf_holds(m, views(final(cnf)@)) <==> cnf_holds(m, views(old(cnf)@)) && forall|k: int, l: int|
                #[trigger] quadrangle(arcs@, i as int, j as int, k, l) ==> !(chosen(m, i as int) && chosen(m, j as int) && chosen(
                    m,
                    k,
                ) && chosen(m, l)),
{
    let ghost c0 = views(cnf@);
    let mut p: usize = 0;
    while p < ks.len()
        invariant
            arcs@.len() < 0x7fff_fff0,
            arcs_within(arcs@, n),
            out_lists(arcs@, n, outs@),
            i < arcs@.len(),
            j < arcs@.len(),
            arcs_at_listed(arcs@, arcs@[j as int].1, true, ks@),
            0 <= p <= ks@.len(),
            forall|m: Seq<bool>|
                #[trigger] cnf_holds(m, views(cnf@)) <==> cnf_holds(m, c0) && forall|q: int, l: int|
                    0 <= q < p && #[trigger] quadrangle(arcs@, i as int, j as int, ks@[q] as int, l) ==> !(chosen(m, i as int)
                        && chosen(m, j as int) && chosen(m, ks@[q] as int) && chosen(m, l)),
        decreases ks@.len() - p,
    {
        let k = ks[p];
        assert(k < arcs@.len());
        assert(arcs@[k as int].1 < n);
        let ls = &outs[arcs[k].1];
        proof {
            let x = arcs@[k as int].1 as int;
            assert(arcs_at_listed(arcs@, x as usize, true, outs@[x]@));
        }
        let ghost cp = views(cnf@);
        push_quadrangle_closers(cnf, arcs, ls, i, j, k);
        proof {
            assert forall|m: Seq<bool>|
                #[trigger] cnf_holds(m, views(cnf@)) <==> cnf_holds(m, c0) && forall|q: int, l: int|
                    0 <= q < p + 1 && #[trigger] quadrangle(arcs@, i as int, j as int, ks@[q] as int, l) ==> !(chosen(
                        m,
                        i as int,
                    ) && chosen(m, j as int) && chosen(m, ks@[q] as int) && chosen(m, l)) by {
                if cnf_holds(m, views(cnf@)) {
                    assert forall|q: int, l: int| 0 <= q < p + 1 && #[trigger] quadrangle(arcs@, i as int, j as int, ks@[q] as int, l) implies !(
                    chosen(m, i as int) && chosen(m, j as int) && chosen(m, ks@[q] as int) && chosen(m, l)) by {
                        if q == p {
                            assert(ks@[q] == k);
                        }
                    }
                }
                if cnf_holds(m, c0) && forall|q: int, l: int|
                    0 <= q < p + 1 && #[trigger] quadrangle(arcs@, i as int, j as int, ks@[q] as int, l) ==> !(chosen(
                        m,
                        i as int,
                    ) && chosen(m, j as int) && chosen(m, ks@[q] as int) && chosen(m, l)) {
                    assert forall|l: int| #[trigger] quadrangle(arcs@, i as int, j as int, k as int, l) implies !(chosen(
                        m,
                        i as int,
                    ) && chosen(m, j as int) && chosen(m, k as int) && chosen(m, l)) by {
                        assert(ks@[p as int] == k);
                        assert(quadrangle(arcs@, i as int, j as int, ks@[p as int] as int, l));
                    }
                }
            }
        }
        p = p + 1;
    }
    proof {
        assert forall|m: Seq<bool>|
            #[trigger] cnf_holds(m, views(cnf@)) <==> cnf_holds(m, c0) && forall|k: int, l: int|
                #[trigger] quadrangle(arcs@, i as int, j as int, k, l) ==> !(chosen(m, i as int) && chosen(m, j as int) && chosen(
                    m,
                    k,
                ) && chosen(m, l)) by {
            if cnf_holds(m, views(cnf@)) {
                assert forall|k: int, l: int| #[trigger] quadrangle(arcs@, i as int, j as int, k, l) implies !(chosen(m, i as int)
                    && chosen(m, j as int) && chosen(m, k) && chosen(m, l)) by {
                    assert(ks@.contains(k as usize));
                    let q = choose|q: int| 0 <= q < ks@.len() && ks@[q] == k as usize;
                    assert(quadrangle(arcs@, i as int, j as int, ks@[q] as int, l));
                }
            }
        }
    }
}

/// Appends, for every directed quadrangle, the clause "not all four arcs selected".
fn push_quadrangle_clauses(cnf: &mut Vec<Vec<i32>>, arcs: &Vec<(usize, usize)>, n: usize, outs: &Vec<Vec<usize>>)
    requires
        arcs@.len() < 0x7fff_fff0,
        arcs_within(arcs@, n),
        out_lists(arcs@, n, outs@),
    ensures
        forall|m: Seq<bool>|
            #[trigger] cnf_holds(m, views(final(cnf)@)) <==> cnf_holds(m, views(old(cnf)@)) && no_quadrangle(arcs@, m),
{
    let ghost c0 = views(cnf@);
    let mut i: usize = 0;
    while i < arcs.len()
        invariant
            arcs@.len() < 0x7fff_fff0,
            arcs_within(arcs@, n),
            out_lists(arcs@, n, outs@),
            0 <= i <= arcs@.len(),
            forall|m: Seq<bool>|
                #[trigger] cnf_holds(m, views(cnf@)) <==> cnf_holds(m, c0) && forall|x: int, y: int, z: int, w: int|
                    0 <= x < i && #[trigger] quadrangle(arcs@, x, y, z, w) ==> !(chosen(m, x) && chosen(m, y) && chosen(m, z)
                        && chosen(m, w)),
        decreases arcs@.len() - i,
    {
        let ghost ci = views(cnf@);
        assert(arcs@[i as int].1 < n);
        let js = &outs[arcs[i].1];
        proof {
            let v = arcs@[i as int].1 as int;
            assert(arcs_at_listed(arcs@, v as usize, true, outs@[v]@));
        }
        let mut p: usize = 0;
        while p < js.len()
            invariant
                arcs@.len() < 0x7fff_fff0,
                arcs_within(arcs@, n),
                out_lists(arcs@, n, outs@),
                0 <= i < arcs@.len(),
                arcs_at_listed(arcs@, arcs@[i as int].1, true, js@),
                0 <= p <= js@.len(),
                forall|m: Seq<bool>|
                    #[trigger] cnf_holds(m, ci) <==> cnf_holds(m, c0) && forall|x: int, y: int, z: int, w: int|
                        0 <= x < i && #[trigger] quadrangle(arcs@, x, y, z, w) ==> !(chosen(m, x) && chosen(m, y) && chosen(
                            m,
                            z,
                        ) && chosen(m, w)),
                forall|m: Seq<bool>|
                    #[trigger] cnf_holds(m, views(cnf@)) <==> cnf_holds(m, ci) && forall|q: int, z: int, w: int|
                        0 <= q < p && #[trigger] quadrangle(arcs@, i as int, js@[q] as int, z, w) ==> !(chosen(m, i as int)
                            && chosen(m, js@[q] as int) && chosen(m, z) && chosen(m, w)),
            decreases js@.len() - p,
        {
            let j = js[p];
            assert(j < arcs@.len());
            assert(arcs@[j as int].1 < n);
            let ks = &outs[arcs[j].1];
            proof {
                let w = arcs@[j as int].1 as int;
                assert(arcs_at_listed(arcs@, w as usize, true, outs@[w]@));
            }
            let ghost cp = views(cnf@);
            push_quadrangle_thirds(cnf, arcs, n, outs, ks, i, j);
            proof {
                assert forall|m: Seq<bool>|
                    #[trigger] cnf_holds(m, views(cnf@)) <==> cnf_holds(m, ci) && forall|q: int, z: int, w: int|
                        0 <= q < p + 1 && #[trigger] quadrangle(arcs@, i as int, js@[q] as int, z, w) ==> !(chosen(m, i as int)
                            && chosen(m, js@[q] as int) && chosen(m, z) && chosen(m, w)) by {
                    if cnf_holds(m, views(cnf@)) {
                        assert forall|q: int, z: int, w: int| 0 <= q < p + 1 && #[trigger] quadrangle(arcs@, i as int, js@[q] as int, z, w) implies !(
                        chosen(m, i as int) && chosen(m, js@[q] as int) && chosen(m, z) && chosen(m, w)) by {
                            if q == p {
                                assert(js@[q] == j);
                            }
                        }
                    }
                    if cnf_holds(m, ci) && forall|q: int, z: int, w: int|
                        0 <= q < p + 1 && #[trigger] quadrangle(arcs@, i as int, js@[q] as int, z, w) ==> !(chosen(m, i as int)
                            && chosen(m, js@[q] as int) && chosen(m, z) && chosen(m, w)) {
                        assert forall|z: int, w: int| #[trigger] quadrangle(arcs@, i as int, j as int, z, w) implies !(chosen(
                            m,
                            i as int,
                        ) && chosen(m, j as int) && chosen(m, z) && chosen(m, w)) by {
                            assert(js@[p as int] == j);
                            assert(quadrangle(arcs@, i as int, js@[p as int] as int, z, w));
                        }
                    }
                }
            }
            p = p + 1;
        }
        proof {
            assert forall|m: Seq<bool>|
                #[trigger] cnf_holds(m, views(cnf@)) <==> cnf_holds(m, c0) && forall|x: int, y: int, z: int, w: int|
                    0 <= x < i + 1 && #[trigger] quadrangle(arcs@, x, y, z, w) ==> !(chosen(m, x) && chosen(m, y) && chosen(m, z)
                        && chosen(m, w)) by {
                if cnf_holds(m, views(cnf@)) {
                    assert forall|x: int, y: int, z: int, w: int| 0 <= x < i + 1 && #[trigger] quadrangle(arcs@, x, y, z, w) implies !(
                    chosen(m, x) && chosen(m, y) && chosen(m, z) && chosen(m, w)) by {
                        if x == i {
                            assert(js@.contains(y as usize));
                            let q = choose|q: int| 0 <= q < js@.len() && js@[q] == y as usize;
                            assert(quadrangle(arcs@, i as int, js@[q] as int, z, w));
                        }
                    }
                }
            }
        }
        i = i + 1;
    }
}

/// What the encoding of the pair graph asks of a selection: exactly one
/// selected arc out of and into each node, and no selected two-cycle,
/// triangle or quadrangle.
pub open spec fn pair_model_ok(n: usize, arcs: Seq<(usize, usize)>, m: Seq<bool>) -> bool {
    &&& pair_choice_ok(n, arcs, m)
    &&& no_triangle(arcs, m)
    &&& no_quadrangle(arcs, m)
}

/// The clauses of the pair graph with nodes `0..n` and arcs `arcs` (arc `i`
/// is variable `i + 1`): exactly one selected arc out of and into each node,
/// no selected two-cycle, and the static cuts against directed triangles and
/// quadrangles whose least node comes first. An assignment satisfies them
/// exactly when its selection meets `pair_model_ok`.
pub fn pair_cnf(n: usize, arcs: &Vec<(usize, usize)>) -> (cnf: Vec<Vec<i32>>)
    requires
        arcs@.len() < 0x7fff_fff0,
        arcs_within(arcs@, n),
    ensures
        forall|m: Seq<bool>| #[trigger] cnf_holds(m, views(cnf@)) <==> pair_model_ok(n, arcs@, m),
{
    let mut cnf: Vec<Vec<i32>> = Vec::new();
    proof {
        assert forall|m: Seq<bool>| #[trigger] cnf_holds(m, views(cnf@)) by {
        }
    }
    push_degree_clauses(&mut cnf, n, arcs);
    push_two_cycle_clauses(&mut cnf, arcs);
    let outs = out_arc_lists(arcs, n);
    push_triangle_clauses(&mut cnf, arcs, n, &outs);
    push_quadrangle_clauses(&mut cnf, arcs, n, &outs);
    cnf
}

/// Node `q` holds the vertex `v` as one of its two ends.
pub open spec fn holds_end(nodes: Seq<(i32, i32)>, q: int, v: i32) -> bool {
    0 <= q < nodes.len() && (nodes[q].0 == v || nodes[q].1 == v)
}

/// The pair graph has the arc `p -> q`: the out end of node `p` (its second
/// vertex) has a neighbour in `g`, other than the in end of `p`, that is an
/// end of node `q`.
pub open spec fn pair_arc(g: Graph, nodes: Seq<(i32, i32)>, p: int, q: int) -> bool {
    &&& 0 <= p < nodes.len()
    &&& exists|v: i32| #[trigger] g.has_edge(nodes[p].1, v) && v != nodes[p].0 && holds_end(nodes, q, v)
}

/// The first node holding `v` as an end, if any.
fn node_of(nodes: &Vec<(i32, i32)>, v: i32) -> (r: Option<usize>)
    ensures
        match r {
            Some(q) => holds_end(nodes@, q as int, v),
            None => forall|q: int| !#[trigger] holds_end(nodes@, q, v),
        },
{
    let mut q: usize = 0;
    while q < nodes.len()
        invariant
            0 <= q <= nodes@.len(),
            forall|x: int| 0 <= x < q ==> !#[trigger] holds_end(nodes@, x, v),
        decreases nodes@.len() - q,
    {
        if nodes[q].0 == v || nodes[q].1 == v {
            return Some(q);
        }
        q = q + 1;
    }
    None
}

/// The ends of the nodes are pairwise distinct vertices.
pub open spec fn distinct_ends(nodes: Seq<(i32, i32)>) -> bool {
    forall|p: int, q: int, v: i32| holds_end(nodes, p, v) && holds_end(nodes, q, v) ==> p == q
}

/// Whether `(p, q)` is among `arcs`.
fn arc_listed(arcs: &Vec<(usize, usize)>, p: usize, q: usize) -> (b: bool)
    ensures
        b == arcs@.contains((p, q)),
{
    let mut i: usize = 0;
    while i < arcs.len()
        invariant
            0 <= i <= arcs@.len(),
            forall|x: int| 0 <= x < i ==> arcs@[x] != (p, q),
        decreases arcs@.len() - i,
    {
        if arcs[i].0 == p && arcs[i].1 == q {
            assert(arcs@[i as int] == (p, q));
            return true;
        }
        i = i + 1;
    }
    false
}

/// The arcs of the pair graph of `g` on the nodes `nodes` (each an
/// (in end, out end) pair of vertices): each arc `p -> q` once, grouped by
/// `p` in increasing order.
pub fn pair_arcs(g: &Graph, nodes: &Vec<(i32, i32)>) -> (arcs: Vec<(usize, usize)>)
    requires
        g.wf(),
        distinct_ends(nodes@),
    ensures
        arcs@.no_duplicates(),
        arcs_within(arcs@, nodes@.len() as usize),
        forall|i: int| 0 <= i < arcs@.len() ==> #[trigger] pair_arc(*g, nodes@, arcs@[i].0 as int, arcs@[i].1 as int),
        forall|p: int, q: int| #[trigger] pair_arc(*g, nodes@, p, q) ==> arcs@.contains((p as usize, q as usize)),
{
    let n = nodes.len();
    let mut arcs: Vec<(usize, usize)> = Vec::new();
    let mut p: usize = 0;
    while p < n
        invariant
            g.wf(),
            distinct_ends(nodes@),
            n == nodes@.len(),
            0 <= p <= n,
            arcs@.no_duplicates(),
            arcs_within(arcs@, n),
            forall|i: int| 0 <= i < arcs@.len() ==> #[trigger] pair_arc(*g, nodes@, arcs@[i].0 as int, arcs@[i].1 as int),
            forall|x: int, q: int| 0 <= x < p && #[trigger] pair_arc(*g, nodes@, x, q) ==> arcs@.contains((x as usize, q as usize)),
        decreases n - p,
    {
        let (inv, outv) = nodes[p];
        match g.neighbors(outv) {
            Some(nbrs) => {
                let mut k: usize = 0;
                while k < nbrs.len()
                    invariant
                        g.wf(),
                        distinct_ends(nodes@),
                        n == nodes@.len(),
                        0 <= p < n,
                        (inv, outv) == nodes@[p as int],
                        g.adj().contains_key(outv),
                        nbrs@ == g.adj()[outv],
                        0 <= k <= nbrs@.len(),
                        arcs@.no_duplicates(),
                        arcs_within(arcs@, n),
                        forall|i: int| 0 <= i < arcs@.len() ==> #[trigger] pair_arc(*g, nodes@, arcs@[i].0 as int, arcs@[i].1 as int),
                        forall|x: int, q: int| 0 <= x < p && #[trigger] pair_arc(*g, nodes@, x, q) ==> arcs@.contains((x as usize, q as usize)),
                        forall|t: int, q: int|
                            0 <= t < k && nbrs@[t] != inv && #[trigger] holds_end(nodes@, q, nbrs@[t]) ==> arcs@.contains(
                                (p, q as usize),
                            ),
                    decreases nbrs@.len() - k,
                {
                    let v = nbrs[k];
                    proof {
                        assert(g.has_edge(outv, v)) by {
                            assert(nbrs@[k as int] == v);
                        }
                    }
                    if v != inv {
                        match node_of(nodes, v) {
                            Some(q) => {
                                if !arc_listed(&arcs, p, q) {
                                    let ghost a0 = arcs@;
                                    arcs.push((p, q));
                                    proof {
                                        assert(g.has_edge(nodes@[p as int].1, v));
                                        assert(holds_end(nodes@, q as int, v));
                                        assert(pair_arc(*g, nodes@, p as int, q as int));
                                        assert forall|i: int| 0 <= i < arcs@.len() implies #[trigger] pair_arc(
                                            *g,
                                            nodes@,
                                            arcs@[i].0 as int,
                                            arcs@[i].1 as int,
                                        ) by {
                                            if i < a0.len() {
                                                assert(arcs@[i] == a0[i]);
                                            }
                                        }
                                        assert(arcs@.no_duplicates()) by {
                                            assert forall|x: int, y: int| 0 <= x < y < arcs@.len() implies arcs@[x] != arcs@[y] by {
                                                if y == a0.len() {
                                                    assert(a0.contains(a0[x]));
                                                }
                                            }
                                        }
                                        assert forall|x: int| 0 <= x < arcs@.len() implies (#[trigger] arcs@[x]).0 < n && arcs@[x].1 < n by {
                                            if x < a0.len() {
                                                assert(arcs@[x] == a0[x]);
                                            }
                                        }
                                        assert forall|y: (usize, usize)| a0.contains(y) implies arcs@.contains(y) by {
                                            let z = choose|z: int| 0 <= z < a0.len() && a0[z] == y;
                                            assert(arcs@[z] == y);
                                        }
                                        assert(arcs@[a0.len() as int] == (p, q));
                                        assert forall|t: int, q2: int|
                                            0 <= t < k + 1 && nbrs@[t] != inv && #[trigger] holds_end(nodes@, q2, nbrs@[t]) implies arcs@.contains(
                                            (p, q2 as usize)) by {
                                            if t == k {
                                                assert(q2 == q as int);
                                            }
                                        }
                                    }
                                } else {
                                    proof {
                                        assert forall|t: int, q2: int|
                                            0 <= t < k + 1 && nbrs@[t] != inv && #[trigger] holds_end(nodes@, q2, nbrs@[t]) implies arcs@.contains(
                                            (p, q2 as usize)) by {
                                            if t == k {
                                                assert(q2 == q as int);
                                            }
                                        }
                                    }
                                }
                            },
                            None => {},
                        }
                    }
                    k = k + 1;
                }
                proof {
                    assert forall|x: int, q: int| 0 <= x < p + 1 && #[trigger] pair_arc(*g, nodes@, x, q) implies arcs@.contains(
                        (x as usize, q as usize),
                    ) by {
                        if x == p {
                            let v = choose|v: i32| #[trigger] g.has_edge(nodes@[x].1, v) && v != nodes@[x].0 && holds_end(nodes@, q, v);
                            assert(nbrs@.contains(v));
                            let t = choose|t: int| 0 <= t < nbrs@.len() && nbrs@[t] == v;
                            assert(holds_end(nodes@, q, nbrs@[t]));
                        }
                    }
                }
            },
            None => {
                proof {
                    assert forall|x: int, q: int| 0 <= x < p + 1 && #[trigger] pair_arc(*g, nodes@, x, q) implies arcs@.contains(
                        (x as usize, q as usize),
                    ) by {
                        if x == p {
                            let v = choose|v: i32| #[trigger] g.has_edge(nodes@[x].1, v) && v != nodes@[x].0 && holds_end(nodes@, q, v);
                            assert(g.adj().contains_key(outv));
                        }
                    }
                }
            },
        }
        p = p + 1;
    }
    arcs
}

/// Some selected arc runs from `a` to `b`.
pub open spec fn selected(arcs: Seq<(usize, usize)>, m: Seq<bool>, a: usize, b: usize) -> bool {
    exists|i: int| 0 <= i < arcs.len() && arcs[i] == (a, b) && #[trigger] chosen(m, i)
}

/// Each node below `n` has exactly one selected arc out and one in.
pub open spec fn degrees_ok(n: usize, arcs: Seq<(usize, usize)>, m: Seq<bool>) -> bool {
    &&& forall|u: usize| u < n ==> #[trigger] one_out(arcs, m, u)
    &&& forall|v: usize| v < n ==> #[trigger] one_in(arcs, m, v)
}

/// For each node below `n`, the head of a selected arc leaving it, if any
/// (the last such arc of the list).
fn successors(n: usize, arcs: &Vec<(usize, usize)>, model: &Vec<bool>) -> (succ: Vec<Option<usize>>)
    requires
        arcs_within(arcs@, n),
        model@.len() > arcs@.len(),
    ensures
        succ@.len() == n,
        forall|u: int|
            0 <= u < n ==> match #[trigger] succ@[u] {
                Some(v) => v < n && selected(arcs@, model@, u as usize, v),
                None => forall|i: int| 0 <= i < arcs@.len() && arcs@[i].0 == u ==> !#[trigger] chosen(model@, i),
            },
{
    let mut succ: Vec<Option<usize>> = Vec::new();
    let mut u: usize = 0;
    while u < n
        invariant
            0 <= u <= n,
            succ@.len() == u,
            forall|x: int| 0 <= x < u ==> #[trigger] succ@[x] is None,
        decreases n - u,
    {
        succ.push(None);
        u = u + 1;
    }
    let mut i: usize = 0;
    while i < arcs.len()
        invariant
            arcs_within(arcs@, n),
            model@.len() > arcs@.len(),
            succ@.len() == n,
            0 <= i <= arcs@.len(),
            forall|x: int|
                0 <= x < n ==> match #[trigger] succ@[x] {
                    Some(v) => v < n && selected(arcs@, model@, x as usize, v),
                    None => forall|j: int| 0 <= j < i && arcs@[j].0 == x ==> !#[trigger] chosen(model@, j),
                },
        decreases arcs@.len() - i,
    {
        let (a, b) = arcs[i];
        assert(arcs@[i as int] == (a, b));
        assert(a < n && b < n);
        let ghost s0 = succ@;
        if model[i + 1] {
            succ.set(a, Some(b));
            proof {
                assert(chosen(model@, i as int));
                assert forall|x: int|
                    0 <= x < n implies match #[trigger] succ@[x] {
                        Some(v) => v < n && selected(arcs@, model@, x as usize, v),
                        None => forall|j: int| 0 <= j < i + 1 && arcs@[j].0 == x ==> !#[trigger] chosen(model@, j),
                    } by {
                    if x == a {
                        assert(selected(arcs@, model@, a, b));
                    } else {
                        assert(succ@[x] == s0[x]);
                    }
                }
            }
        } else {
            proof {
                assert forall|x: int|
                    0 <= x < n implies match #[trigger] succ@[x] {
                        Some(v) => v < n && selected(arcs@, model@, x as usize, v),
                        None => forall|j: int| 0 <= j < i + 1 && arcs@[j].0 == x ==> !#[trigger] chosen(model@, j),
                    } by {
                    assert(succ@[x] == s0[x]);
                }
            }
        }
        i = i + 1;
    }
    succ
}

/// Two selected arcs into a node with exactly one selected incoming arc
/// leave the same node.
proof fn lemma_one_in_unique(arcs: Seq<(usize, usize)>, m: Seq<bool>, a1: usize, a2: usize, b: usize)
    requires
        one_in(arcs, m, b),
        selected(arcs, m, a1, b),
        selected(arcs, m, a2, b),
    ensures
        a1 == a2,
{
    let i1 = choose|i: int| 0 <= i < arcs.len() && arcs[i] == (a1, b) && #[trigger] chosen(m, i);
    let i2 = choose|i: int| 0 <= i < arcs.len() && arcs[i] == (a2, b) && #[trigger] chosen(m, i);
    if i1 != i2 {
        assert(!(chosen(m, i1) && chosen(m, i2)));
    }
}

/// The sequences of a list of node lists.
pub open spec fn node_lists(cs: Seq<Vec<usize>>) -> Seq<Seq<usize>> {
    cs.map_values(|c: Vec<usize>| c@)
}

/// Node `v` occurs in one of the lists `cs`.
pub open spec fn occurs(cs: Seq<Seq<usize>>, v: usize) -> bool {
    exists|c: int, k: int| 0 <= c < cs.len() && 0 <= k < cs[c].len() && #[trigger] cs[c][k] == v
}

/// No node occurs twice in the lists `cs`.
pub open spec fn occur_once(cs: Seq<Seq<usize>>) -> bool {
    forall|c1: int, k1: int, c2: int, k2: int|
        0 <= c1 < cs.len() && 0 <= k1 < cs[c1].len() && 0 <= c2 < cs.len() && 0 <= k2 < cs[c2].len() && #[trigger] cs[c1][k1]
            == #[trigger] cs[c2][k2] ==> c1 == c2 && k1 == k2
}

/// Consecutive nodes of `c` are joined by selected arcs.
pub open spec fn follows_selection(arcs: Seq<(usize, usize)>, m: Seq<bool>, c: Seq<usize>) -> bool {
    forall|k: int| 0 <= k < c.len() - 1 ==> #[trigger] selected(arcs, m, c[k], c[k + 1])
}

/// `c` is a nonempty cycle of the selection: consecutive nodes and the last
/// and the first are joined by selected arcs.
pub open spec fn selected_cycle(arcs: Seq<(usize, usize)>, m: Seq<bool>, c: Seq<usize>) -> bool {
    &&& c.len() > 0
    &&& follows_selection(arcs, m, c)
    &&& selected(arcs, m, c.last(), c[0])
}

/// The walks of the selection of `model`: from each node not yet visited, in
/// increasing order, the walk along selected arcs until it meets a visited
/// node or a node with no selected outgoing arc. The walks cover each node
/// once; when every node has exactly one selected arc out and one in, each
/// walk is a cycle of the selection.
pub fn selection_cycles(n: usize, arcs: &Vec<(usize, usize)>, model: &Vec<bool>) -> (cycles: Vec<Vec<usize>>)
    requires
        arcs_within(arcs@, n),
        model@.len() > arcs@.len(),
    ensures
        forall|v: usize| v < n <==> #[trigger] occurs(node_lists(cycles@), v),
        occur_once(node_lists(cycles@)),
        forall|c: int| 0 <= c < cycles@.len() ==> (#[trigger] cycles@[c])@.len() > 0 && follows_selection(arcs@, model@, cycles@[c]@),
        degrees_ok(n, arcs@, model@) ==> forall|c: int| 0 <= c < cycles@.len() ==> #[trigger] selected_cycle(arcs@, model@, cycles@[c]@),
{
    let succ = successors(n, arcs, model);
    let mut visited: Vec<bool> = Vec::new();
    let mut z: usize = 0;
    while z < n
        invariant
            0 <= z <= n,
            visited@.len() == z,
            forall|x: int| 0 <= x < z ==> !#[trigger] visited@[x],
        decreases n - z,
    {
        visited.push(false);
        z = z + 1;
    }
    let ghost h = degrees_ok(n, arcs@, model@);
    let mut cycles: Vec<Vec<usize>> = Vec::new();
    proof {
        assert forall|v: usize| #[trigger] occurs(node_lists(cycles@), v) implies false by {
        }
    }
    let mut start: usize = 0;
    while start < n
        invariant
            arcs_within(arcs@, n),
            model@.len() > arcs@.len(),
            succ@.len() == n,
            forall|u: int|
                0 <= u < n ==> match #[trigger] succ@[u] {
                    Some(v) => v < n && selected(arcs@, model@, u as usize, v),
                    None => forall|i: int| 0 <= i < arcs@.len() && arcs@[i].0 == u ==> !#[trigger] chosen(model@, i),
                },
            h == degrees_ok(n, arcs@, model@),
            visited@.len() == n,
            0 <= start <= n,
            forall|v: usize| v < n ==> (visited@[v as int] <==> #[trigger] occurs(node_lists(cycles@), v)),
            forall|v: usize| #[trigger] occurs(node_lists(cycles@), v) ==> v < n,
            forall|v: usize| v < start ==> #[trigger] visited@[v as int],
            occur_once(node_lists(cycles@)),
            forall|c: int| 0 <= c < cycles@.len() ==> (#[trigger] cycles@[c])@.len() > 0 && follows_selection(arcs@, model@, cycles@[c]@),
            h ==> forall|c: int| 0 <= c < cycles@.len() ==> #[trigger] selected_cycle(arcs@, model@, cycles@[c]@),
        decreases n - start,
    {
        if !visited[start] {
            let ghost cs0 = node_lists(cycles@);
            let ghost vis0 = visited@;
            let mut c: Vec<usize> = Vec::new();
            visited.set(start, true);
            c.push(start);
            proof {
                assert forall|v: usize| v < n implies (visited@[v as int] <==> #[trigger] occurs(cs0, v) || c@.contains(v)) by {
                    assert(vis0[v as int] <==> occurs(cs0, v));
                    if v == start {
                        assert(c@[0] == start);
                    }
                    if c@.contains(v) {
                        let k = choose|k: int| 0 <= k < c@.len() && c@[k] == v;
                    }
                }
            }
            let mut go = true;
            let mut curr: usize = start;
            match succ[start] {
                Some(nx) => {
                    curr = nx;
                },
                None => {
                    go = false;
                },
            }
            proof {
                assert(c@ == seq![start]);
                assert(!occurs(cs0, start));
            }
            while go && !visited[curr]
                invariant
                    arcs_within(arcs@, n),
                    model@.len() > arcs@.len(),
                    succ@.len() == n,
                    forall|u: int|
                        0 <= u < n ==> match #[trigger] succ@[u] {
                            Some(v) => v < n && selected(arcs@, model@, u as usize, v),
                            None => forall|i: int| 0 <= i < arcs@.len() && arcs@[i].0 == u ==> !#[trigger] chosen(model@, i),
                        },
                    visited@.len() == n,
                    start < n,
                    c@.len() >= 1,
                    c@[0] == start,
                    c@.no_duplicates(),
                    forall|k: int| 0 <= k < c@.len() ==> (#[trigger] c@[k]) < n && !occurs(cs0, c@[k]),
                    forall|v: usize| v < n ==> (visited@[v as int] <==> #[trigger] occurs(cs0, v) || c@.contains(v)),
                    follows_selection(arcs@, model@, c@),
                    go ==> curr < n && selected(arcs@, model@, c@.last(), curr),
                    !go ==> forall|i: int| 0 <= i < arcs@.len() && arcs@[i].0 == c@.last() ==> !#[trigger] chosen(model@, i),
                decreases n - c@.len(),
            {
                let ghost c0 = c@;
                proof {
                    assert(!c0.contains(curr));
                    assert(!occurs(cs0, curr));
                    crate::multi_opt_sat_splicer::lemma_distinct_below(c0.push(curr), n as int);
                }
                visited.set(curr, true);
                c.push(curr);
                proof {
                    assert(c@ == c0.push(curr));
                    assert(c@.no_duplicates());
                    assert forall|k: int| 0 <= k < c@.len() - 1 implies #[trigger] selected(arcs@, model@, c@[k], c@[k + 1]) by {
                        if k < c0.len() - 1 {
                            assert(c@[k] == c0[k] && c@[k + 1] == c0[k + 1]);
                            assert(selected(arcs@, model@, c0[k], c0[k + 1]));
                        } else {
                            assert(c@[k] == c0.last());
                        }
                    }
                    assert forall|v: usize| v < n implies (visited@[v as int] <==> #[trigger] occurs(cs0, v) || c@.contains(v)) by {
                        if c0.contains(v) {
                            let k = choose|k: int| 0 <= k < c0.len() && c0[k] == v;
                            assert(c@[k] == v);
                        }
                        if c@.contains(v) && v != curr {
                            let k = choose|k: int| 0 <= k < c@.len() && c@[k] == v;
                            assert(c0[k] == v);
                        }
                        if v == curr {
                            assert(c@[c0.len() as int] == curr);
                        }
                    }
                }
                match succ[curr] {
                    Some(nx) => {
                        curr = nx;
                    },
                    None => {
                        go = false;
                    },
                }
            }
            let ghost cl = c@;
            proof {
                if h {
                    let last = cl.last();
                    assert(last < n) by {
                        assert(cl[cl.len() - 1] < n);
                    }
                    assert(one_out(arcs@, model@, last));
                    assert(go) by {
                        if !go {
                            let i = choose|i: int| 0 <= i < arcs@.len() && arcs@[i].0 == last && #[trigger] chosen(model@, i);
                        }
                    }
                    assert(visited@[curr as int]);
                    assert(one_in(arcs@, model@, curr));
                    if occurs(cs0, curr) {
                        let (ci, ki) = choose|ci: int, ki: int| 0 <= ci < cs0.len() && 0 <= ki < cs0[ci].len() && #[trigger] cs0[ci][ki] == curr;
                        let d = cs0[ci];
                        assert(d == cycles@[ci]@);
                        assert(selected_cycle(arcs@, model@, d));
                        let pred = if ki == 0 { d.last() } else { d[ki - 1] };
                        assert(selected(arcs@, model@, pred, curr)) by {
                            if ki > 0 {
                                let kk = ki - 1;
                                assert(selected(arcs@, model@, d[kk], d[kk + 1]));
                            }
                        }
                        lemma_one_in_unique(arcs@, model@, pred, last, curr);
                        assert(occurs(cs0, pred)) by {
                            if ki == 0 {
                                assert(cs0[ci][d.len() - 1] == pred);
                            } else {
                                assert(cs0[ci][ki - 1] == pred);
                            }
                        }
                        assert(cl[cl.len() - 1] == last);
                        assert(false);
                    } else {
                        assert(cl.contains(curr));
                        let k = choose|k: int| 0 <= k < cl.len() && cl[k] == curr;
                        if k > 0 {
                            let kk = k - 1;
                            assert(selected(arcs@, model@, cl[kk], cl[kk + 1]));
                            lemma_one_in_unique(arcs@, model@, cl[k - 1], last, curr);
                            assert(cl[cl.len() - 1] == last);
                            assert(k - 1 == cl.len() - 1);
                            assert(false);
                        }
                        assert(curr == cl[0]);
                    }
                    assert(selected_cycle(arcs@, model@, cl));
                }
            }
            let ghost cyc0 = cycles@;
            cycles.push(c);
            proof {
                let cs1 = node_lists(cycles@);
                assert(cs1 == cs0.push(cl));
                assert forall|v: usize| #[trigger] occurs(cs1, v) <==> occurs(cs0, v) || cl.contains(v) by {
                    if occurs(cs1, v) {
                        let (ci, ki) = choose|ci: int, ki: int| 0 <= ci < cs1.len() && 0 <= ki < cs1[ci].len() && #[trigger] cs1[ci][ki] == v;
                        if ci < cs0.len() {
                            assert(cs0[ci][ki] == v);
                        } else {
                            assert(cl[ki] == v);
                        }
                    }
                    if occurs(cs0, v) {
                        let (ci, ki) = choose|ci: int, ki: int| 0 <= ci < cs0.len() && 0 <= ki < cs0[ci].len() && #[trigger] cs0[ci][ki] == v;
                        assert(cs1[ci][ki] == v);
                    }
                    if cl.contains(v) {
                        let ki = choose|ki: int| 0 <= ki < cl.len() && cl[ki] == v;
                        assert(cs1[cs0.len() as int][ki] == v);
                    }
                }
                assert forall|v: usize| v < n implies (visited@[v as int] <==> #[trigger] occurs(cs1, v)) by {
                    assert(occurs(cs1, v) <==> occurs(cs0, v) || cl.contains(v));
                }
                assert forall|v: usize| #[trigger] occurs(cs1, v) implies v < n by {
                    assert(occurs(cs1, v) <==> occurs(cs0, v) || cl.contains(v));
                    if cl.contains(v) {
                        let ki = choose|ki: int| 0 <= ki < cl.len() && cl[ki] == v;
                    }
                }
                assert(occur_once(cs1)) by {
                    assert forall|c1: int, k1: int, c2: int, k2: int|
                        0 <= c1 < cs1.len() && 0 <= k1 < cs1[c1].len() && 0 <= c2 < cs1.len() && 0 <= k2 < cs1[c2].len()
                            && #[trigger] cs1[c1][k1] == #[trigger] cs1[c2][k2] implies c1 == c2 && k1 == k2 by {
                        if c1 < cs0.len() && c2 < cs0.len() {
                            assert(cs0[c1][k1] == cs0[c2][k2]);
                        } else if c1 < cs0.len() {
                            assert(cs0[c1][k1] == cl[k2]);
                            assert(occurs(cs0, cs0[c1][k1]));
                        } else if c2 < cs0.len() {
                            assert(cs0[c2][k2] == cl[k1]);
                            assert(occurs(cs0, cs0[c2][k2]));
                        } else {
                            assert(cl[k1] == cl[k2]);
                        }
                    }
                }
                assert forall|c2: int| 0 <= c2 < cycles@.len() implies (#[trigger] cycles@[c2])@.len() > 0 && follows_selection(
                    arcs@,
                    model@,
                    cycles@[c2]@,
                ) by {
                    if c2 < cyc0.len() {
                        assert(cycles@[c2] == cyc0[c2]);
                    }
                }
                if h {
                    assert forall|c2: int| 0 <= c2 < cycles@.len() implies #[trigger] selected_cycle(arcs@, model@, cycles@[c2]@) by {
                        if c2 < cyc0.len() {
                            assert(cycles@[c2] == cyc0[c2]);
                        }
                    }
                }
                assert forall|v: usize| v < start + 1 implies #[trigger] visited@[v as int] by {
                    if v < start {
                        assert(vis0[v as int]);
                        assert(occurs(cs0, v));
                        assert(occurs(cs1, v));
                    }
                    if v == start {
                        assert(c@[0] == start);
                        assert(cl.contains(start));
                    }
                }
            }
        }
        start = start + 1;
    }
    proof {
        assert forall|v: usize| v < n <==> #[trigger] occurs(node_lists(cycles@), v) by {
            if v < n {
                assert(visited@[v as int]);
            }
        }
    }
    cycles
}

/// The selection of `m` runs once through all `n` nodes along `t`.
pub open spec fn tour_selection(n: usize, arcs: Seq<(usize, usize)>, m: Seq<bool>, t: Seq<usize>) -> bool {
    &&& t.len() == n
    &&& t.no_duplicates()
    &&& forall|k: int| 0 <= k < t.len() ==> #[trigger] t[k] < n
    &&& selected_cycle(arcs, m, t)
}

/// The selection of `m` is a Hamiltonian cycle of the pair graph: each node
/// has exactly one selected arc out and in, and the selected arcs form one
/// cycle through all nodes.
pub open spec fn hamiltonian_selection(n: usize, arcs: Seq<(usize, usize)>, m: Seq<bool>) -> bool {
    &&& degrees_ok(n, arcs, m)
    &&& exists|t: Seq<usize>| #[trigger] tour_selection(n, arcs, m, t)
}

/// Two selected arcs out of a node with exactly one selected outgoing arc
/// enter the same node.
proof fn lemma_one_out_unique(arcs: Seq<(usize, usize)>, m: Seq<bool>, a: usize, b1: usize, b2: usize)
    requires
        one_out(arcs, m, a),
        selected(arcs, m, a, b1),
        selected(arcs, m, a, b2),
    ensures
        b1 == b2,
{
    let i1 = choose|i: int| 0 <= i < arcs.len() && arcs[i] == (a, b1) && #[trigger] chosen(m, i);
    let i2 = choose|i: int| 0 <= i < arcs.len() && arcs[i] == (a, b2) && #[trigger] chosen(m, i);
    if i1 != i2 {
        assert(!(chosen(m, i1) && chosen(m, i2)));
    }
}

/// Following a tour of a selection with one outgoing arc per node: the
/// walk `c` of selected arcs from the tour's node at position `p` visits the
/// tour's nodes in order.
proof fn lemma_walk_follows_tour(n: usize, arcs: Seq<(usize, usize)>, m: Seq<bool>, t: Seq<usize>, c: Seq<usize>, p: int, k: int)
    requires
        degrees_ok(n, arcs, m),
        tour_selection(n, arcs, m, t),
        follows_selection(arcs, m, c),
        0 <= p < n,
        c.len() > 0,
        c[0] == t[p],
        0 <= k < c.len(),
    ensures
        c[k] == t[(p + k) % (n as int)],
    decreases k,
{
    let ni = n as int;
    if k == 0 {
        assert(p % ni == p) by (nonlinear_arith)
            requires 0 <= p < ni;
    } else {
        lemma_walk_follows_tour(n, arcs, m, t, c, p, k - 1);
        let q = (p + k - 1) % ni;
        assert(0 <= q < ni) by (nonlinear_arith)
            requires ni > 0, q == (p + k - 1) % ni;
        let kk = k - 1;
        assert(selected(arcs, m, c[kk], c[kk + 1]));
        let nq = if q + 1 < ni { q + 1 } else { 0 };
        assert(selected(arcs, m, t[q], t[nq])) by {
            if q + 1 < ni {
                assert(selected(arcs, m, t[q], t[q + 1]));
            } else {
                assert(t.last() == t[q]);
            }
        }
        assert(t[q] < n);
        assert(one_out(arcs, m, t[q]));
        lemma_one_out_unique(arcs, m, t[q], c[k], t[nq]);
        assert(nq == (p + k) % ni) by (nonlinear_arith)
            requires ni > 0, q == (p + k - 1) % ni, 0 <= q < ni, nq == (if q + 1 < ni { q + 1 } else { 0 }), p + k >= 1;
    }
}

/// A Hamiltonian selection has no selected cycle shorter than all `n` nodes.
proof fn lemma_no_short_selected_cycle(n: usize, arcs: Seq<(usize, usize)>, m: Seq<bool>, c: Seq<usize>)
    requires
        hamiltonian_selection(n, arcs, m),
        selected_cycle(arcs, m, c),
        c[0] < n,
    ensures
        c.len() >= n,
{
    let t = choose|t: Seq<usize>| #[trigger] tour_selection(n, arcs, m, t);
    let ni = n as int;
    let l = c.len() as int;
    assert(t.to_set().contains(c[0])) by {
        assert(t.len() == n && t.no_duplicates());
        if !t.contains(c[0]) {
            crate::multi_opt_sat_splicer::lemma_distinct_below(t.push(c[0]), ni);
        }
    }
    let p = choose|p: int| 0 <= p < t.len() && t[p] == c[0];
    lemma_walk_follows_tour(n, arcs, m, t, c, p, l - 1);
    let q = (p + l - 1) % ni;
    assert(0 <= q < ni) by (nonlinear_arith)
        requires ni > 0, q == (p + l - 1) % ni;
    let nq = if q + 1 < ni { q + 1 } else { 0 };
    assert(selected(arcs, m, t[q], t[nq])) by {
        if q + 1 < ni {
            assert(selected(arcs, m, t[q], t[q + 1]));
        } else {
            assert(t.last() == t[q]);
        }
    }
    assert(c.last() == t[q]);
    assert(t[q] < n);
    lemma_one_out_unique(arcs, m, t[q], c[0], t[nq]);
    assert(t[nq] == t[p]);
    assert(nq == p) by {
        if nq != p {
            assert(t.no_duplicates());
        }
    }
    if l < ni {
        assert(false) by (nonlinear_arith)
            requires ni > 0, 0 <= p < ni, 1 <= l < ni, q == (p + l - 1) % ni, nq == (if q + 1 < ni { q + 1 } else { 0 }), nq == p;
    }
}

/// The index of a selected arc from `a` to `b`, if any.
fn find_selected(arcs: &Vec<(usize, usize)>, model: &Vec<bool>, a: usize, b: usize) -> (r: Option<usize>)
    requires
        model@.len() > arcs@.len(),
    ensures
        match r {
            Some(i) => i < arcs@.len() && arcs@[i as int] == (a, b) && chosen(model@, i as int),
            None => !selected(arcs@, model@, a, b),
        },
{
    let mut i: usize = 0;
    while i < arcs.len()
        invariant
            model@.len() > arcs@.len(),
            0 <= i <= arcs@.len(),
            forall|j: int| 0 <= j < i && arcs@[j] == (a, b) ==> !#[trigger] chosen(model@, j),
        decreases arcs@.len() - i,
    {
        if arcs[i].0 == a && arcs[i].1 == b && model[i + 1] {
            assert(arcs@[i as int] == (a, b));
            return Some(i);
        }
        i = i + 1;
    }
    None
}

/// The position after `k` in a cycle of length `l`.
pub open spec fn next_pos(k: int, l: int) -> int {
    if k + 1 < l {
        k + 1
    } else {
        0
    }
}

/// The clause "not every arc of the selected cycle `c` is selected", over
/// the arcs that `model` selects along `c`. `model` violates it, and an
/// assignment violates it only if `c` is a cycle of its selection too.
fn subtour_cut(arcs: &Vec<(usize, usize)>, model: &Vec<bool>, c: &Vec<usize>) -> (cut: Vec<i32>)
    requires
        arcs@.len() < 0x7fff_fff0,
        model@.len() > arcs@.len(),
        selected_cycle(arcs@, model@, c@),
    ensures
        !clause_holds(model@, cut@),
        forall|m2: Seq<bool>| !#[trigger] clause_holds(m2, cut@) ==> selected_cycle(arcs@, m2, c@),
{
    let l = c.len();
    let mut cut: Vec<i32> = Vec::new();
    let ghost mut ids: Seq<int> = Seq::empty();
    let mut k: usize = 0;
    while k < l
        invariant
            arcs@.len() < 0x7fff_fff0,
            model@.len() > arcs@.len(),
            selected_cycle(arcs@, model@, c@),
            l == c@.len(),
            0 <= k <= l,
            cut@.len() == k,
            ids.len() == k,
            forall|q: int|
                0 <= q < k ==> 0 <= #[trigger] ids[q] < arcs@.len() && arcs@[ids[q]] == (c@[q], c@[next_pos(q, l as int)])
                    && chosen(model@, ids[q]) && cut@[q] == -(ids[q] + 1),
        decreases l - k,
    {
        let nk = if k + 1 < l {
            k + 1
        } else {
            0
        };
        proof {
            if k + 1 < l {
                let kk = k as int;
                assert(selected(arcs@, model@, c@[kk], c@[kk + 1]));
            } else {
                assert(c@.last() == c@[k as int]);
            }
        }
        match find_selected(arcs, model, c[k], c[nk]) {
            Some(i) => {
                cut.push(-((i + 1) as i32));
                proof {
                    ids = ids.push(i as int);
                }
            },
            None => {
                proof {
                    assert(false);
                }
            },
        }
        k = k + 1;
    }
    proof {
        assert(!clause_holds(model@, cut@)) by {
            if clause_holds(model@, cut@) {
                let q = choose|q: int| 0 <= q < cut@.len() && #[trigger] lit_holds(model@, cut@[q]);
                assert(ids[q] >= 0);
            }
        }
        assert forall|m2: Seq<bool>| !#[trigger] clause_holds(m2, cut@) implies selected_cycle(arcs@, m2, c@) by {
            assert forall|q: int| 0 <= q < l implies chosen(m2, #[trigger] ids[q]) by {
                if !chosen(m2, ids[q]) {
                    assert(lit_holds(m2, cut@[q]));
                }
            }
            assert forall|q: int| 0 <= q < c@.len() - 1 implies #[trigger] selected(arcs@, m2, c@[q], c@[q + 1]) by {
                assert(chosen(m2, ids[q]));
                assert(next_pos(q, l as int) == q + 1);
            }
            let lq = l - 1;
            assert(chosen(m2, ids[lq]));
            assert(next_pos(lq, l as int) == 0);
            assert(c@.last() == c@[lq]);
            assert(selected(arcs@, m2, c@[lq], c@[0]));
        }
    }
    cut
}

/// Position `i` of a cycle of length `l` counted on from anywhere in
/// `(-l, 2l)`, brought back into `0..l`.
pub open spec fn wrap(i: int, l: int) -> int {
    if i < 0 {
        i + l
    } else if i < l {
        i
    } else {
        i - l
    }
}

/// A set holding a node of `t` that, with each node of `t`, holds the next
/// one, holds each node from there on, round to the one before it.
proof fn lemma_forward_closed(t: Seq<usize>, s: Set<usize>, p: int, i: int)
    requires
        t.len() > 0,
        0 <= p < t.len(),
        s.contains(t[p]),
        forall|q: int| 0 <= q < t.len() && #[trigger] s.contains(t[q]) ==> s.contains(t[next_pos(q, t.len() as int)]),
        p <= i < p + t.len(),
    ensures
        s.contains(t[wrap(i, t.len() as int)]),
    decreases i - p,
{
    let l = t.len() as int;
    if i > p {
        lemma_forward_closed(t, s, p, i - 1);
        let q = wrap(i - 1, l);
        assert(0 <= q < l);
        assert(next_pos(q, l) == wrap(i, l));
    }
}

/// A set holding a node of `t` that, with each node of `t`, holds the one
/// before, holds each node from there back, round to the one after it.
proof fn lemma_backward_closed(t: Seq<usize>, s: Set<usize>, p: int, i: int)
    requires
        t.len() > 0,
        0 <= p < t.len(),
        s.contains(t[p]),
        forall|q: int| 0 <= q < t.len() && #[trigger] s.contains(t[next_pos(q, t.len() as int)]) ==> s.contains(t[q]),
        p - t.len() < i <= p,
    ensures
        s.contains(t[wrap(i, t.len() as int)]),
    decreases p - i,
{
    let l = t.len() as int;
    if i < p {
        lemma_backward_closed(t, s, p, i + 1);
        let q = wrap(i, l);
        assert(0 <= q < l);
        assert(next_pos(q, l) == wrap(i + 1, l));
    }
}

/// A duplicate-free list whose entries all occur in `c` is no longer than `c`.
proof fn lemma_within_list(t: Seq<usize>, c: Seq<usize>)
    requires
        t.no_duplicates(),
        forall|j: int| 0 <= j < t.len() ==> c.contains(#[trigger] t[j]),
    ensures
        t.len() <= c.len(),
{
    t.unique_seq_to_set();
    assert(t.to_set().subset_of(c.to_set())) by {
        assert forall|x: usize| t.to_set().contains(x) implies c.to_set().contains(x) by {
            let j = choose|j: int| 0 <= j < t.len() && t[j] == x;
        }
    }
    c.lemma_cardinality_of_set();
    vstd::set_lib::lemma_len_subset(t.to_set(), c.to_set());
}

/// Node `v` is one of the nodes of `c`.
fn in_list(c: &Vec<usize>, v: usize) -> (b: bool)
    ensures
        b == c@.contains(v),
{
    let mut k: usize = 0;
    while k < c.len()
        invariant
            0 <= k <= c@.len(),
            forall|q: int| 0 <= q < k ==> c@[q] != v,
        decreases c@.len() - k,
    {
        if c[k] == v {
            assert(c@[k as int] == v);
            return true;
        }
        k = k + 1;
    }
    false
}

/// Arc `i` leaves (`out`) or enters the node list `c`.
pub open spec fn crosses(arcs: Seq<(usize, usize)>, c: Seq<usize>, i: int, out: bool) -> bool {
    if out {
        c.contains(arcs[i].0) && !c.contains(arcs[i].1)
    } else {
        !c.contains(arcs[i].0) && c.contains(arcs[i].1)
    }
}

/// The clause "some arc leaving (`out`) or entering `c` is selected".
fn crossing_cut(arcs: &Vec<(usize, usize)>, c: &Vec<usize>, out: bool) -> (cut: Vec<i32>)
    requires
        arcs@.len() < 0x7fff_fff0,
    ensures
        forall|m: Seq<bool>|
            #[trigger] clause_holds(m, cut@) <==> exists|i: int| 0 <= i < arcs@.len() && crosses(arcs@, c@, i, out) && #[trigger] chosen(m, i),
        cut@.len() == 0 <==> forall|i: int| 0 <= i < arcs@.len() ==> !#[trigger] crosses(arcs@, c@, i, out),
{
    let mut ids: Vec<usize> = Vec::new();
    let mut i: usize = 0;
    while i < arcs.len()
        invariant
            arcs@.len() < 0x7fff_fff0,
            0 <= i <= arcs@.len(),
            forall|k: int| 0 <= k < ids@.len() ==> #[trigger] ids@[k] < i && crosses(arcs@, c@, ids@[k] as int, out),
            forall|j: int| 0 <= j < i && crosses(arcs@, c@, j, out) ==> #[trigger] ids@.contains(j as usize),
        decreases arcs@.len() - i,
    {
        let (a, b) = arcs[i];
        let ta = in_list(c, a);
        let hb = in_list(c, b);
        let keep = if out {
            ta && !hb
        } else {
            !ta && hb
        };
        let ghost i0 = ids@;
        if keep {
            ids.push(i);
        }
        proof {
            assert(arcs@[i as int] == (a, b));
            assert(keep == crosses(arcs@, c@, i as int, out));
            assert forall|j: int| 0 <= j < i + 1 && crosses(arcs@, c@, j, out) implies #[trigger] ids@.contains(j as usize) by {
                if j < i {
                    assert(i0.contains(j as usize));
                    let k = choose|k: int| 0 <= k < i0.len() && i0[k] == j as usize;
                    assert(ids@[k] == j as usize);
                } else {
                    assert(ids@[i0.len() as int] == i);
                }
            }
        }
        i = i + 1;
    }
    let cut = some_selected_clause(&ids);
    proof {
        assert forall|m: Seq<bool>|
            #[trigger] clause_holds(m, cut@) <==> exists|j: int| 0 <= j < arcs@.len() && crosses(arcs@, c@, j, out) && #[trigger] chosen(m, j) by {
            if clause_holds(m, cut@) {
                let k = choose|k: int| 0 <= k < ids@.len() && #[trigger] chosen(m, ids@[k] as int);
                assert(crosses(arcs@, c@, ids@[k] as int, out));
            }
            if exists|j: int| 0 <= j < arcs@.len() && crosses(arcs@, c@, j, out) && #[trigger] chosen(m, j) {
                let j = choose|j: int| 0 <= j < arcs@.len() && crosses(arcs@, c@, j, out) && #[trigger] chosen(m, j);
                assert(ids@.contains(j as usize));
                let k = choose|k: int| 0 <= k < ids@.len() && ids@[k] == j as usize;
                assert(chosen(m, ids@[k] as int));
            }
        }
        if cut@.len() == 0 {
            assert forall|j: int| 0 <= j < arcs@.len() implies !#[trigger] crosses(arcs@, c@, j, out) by {
                if crosses(arcs@, c@, j, out) {
                    assert(ids@.contains(j as usize));
                }
            }
        }
        if ids@.len() > 0 {
            assert(crosses(arcs@, c@, ids@[0] as int, out));
        }
    }
    cut
}

/// A selected cycle of a selection with one arc out and in per node has no
/// selected arc leaving or entering it.
proof fn lemma_cycle_sealed(n: usize, arcs: Seq<(usize, usize)>, m: Seq<bool>, c: Seq<usize>, out: bool)
    requires
        degrees_ok(n, arcs, m),
        selected_cycle(arcs, m, c),
        forall|k: int| 0 <= k < c.len() ==> #[trigger] c[k] < n,
    ensures
        forall|i: int| 0 <= i < arcs.len() && crosses(arcs, c, i, out) ==> !#[trigger] chosen(m, i),
{
    let l = c.len() as int;
    assert forall|i: int| 0 <= i < arcs.len() && crosses(arcs, c, i, out) implies !#[trigger] chosen(m, i) by {
        if chosen(m, i) {
            if out {
                let k = choose|k: int| 0 <= k < l && c[k] == arcs[i].0;
                let nk = next_pos(k, l);
                assert(selected(arcs, m, c[k], c[nk])) by {
                    if k + 1 < l {
                        assert(selected(arcs, m, c[k], c[k + 1]));
                    } else {
                        assert(c.last() == c[k]);
                    }
                }
                assert(selected(arcs, m, c[k], arcs[i].1));
                assert(one_out(arcs, m, c[k]));
                lemma_one_out_unique(arcs, m, c[k], c[nk], arcs[i].1);
                assert(c.contains(c[nk]));
            } else {
                let k = choose|k: int| 0 <= k < l && c[k] == arcs[i].1;
                let pk = if k == 0 { l - 1 } else { k - 1 };
                assert(selected(arcs, m, c[pk], c[k])) by {
                    if k > 0 {
                        assert(selected(arcs, m, c[pk], c[pk + 1]));
                    } else {
                        assert(c.last() == c[pk]);
                    }
                }
                assert(selected(arcs, m, arcs[i].0, c[k]));
                assert(one_in(arcs, m, c[k]));
                lemma_one_in_unique(arcs, m, c[pk], arcs[i].0, c[k]);
                assert(c.contains(c[pk]));
            }
        }
    }
}

/// A Hamiltonian selection selects an arc leaving, and one entering, any
/// duplicate-free list of fewer than `n` nodes that holds a node.
proof fn lemma_tour_crosses(n: usize, arcs: Seq<(usize, usize)>, m: Seq<bool>, c: Seq<usize>, out: bool)
    requires
        hamiltonian_selection(n, arcs, m),
        c.len() > 0,
        c.len() < n,
        c[0] < n,
    ensures
        exists|i: int| 0 <= i < arcs.len() && crosses(arcs, c, i, out) && #[trigger] chosen(m, i),
{
    let t = choose|t: Seq<usize>| #[trigger] tour_selection(n, arcs, m, t);
    let l = n as int;
    let s = c.to_set();
    if !exists|i: int| 0 <= i < arcs.len() && crosses(arcs, c, i, out) && #[trigger] chosen(m, i) {
        assert(t.contains(c[0])) by {
            if !t.contains(c[0]) {
                crate::multi_opt_sat_splicer::lemma_distinct_below(t.push(c[0]), l);
            }
        }
        let p = choose|p: int| 0 <= p < t.len() && t[p] == c[0];
        assert(s.contains(t[p])) by {
            assert(c.contains(c[0]));
        }
        if out {
            assert forall|q: int| 0 <= q < t.len() && #[trigger] s.contains(t[q]) implies s.contains(t[next_pos(q, t.len() as int)]) by {
                let nq = next_pos(q, l);
                assert(selected(arcs, m, t[q], t[nq])) by {
                    if q + 1 < l {
                        assert(selected(arcs, m, t[q], t[q + 1]));
                    } else {
                        assert(t.last() == t[q]);
                    }
                }
                let i = choose|i: int| 0 <= i < arcs.len() && arcs[i] == (t[q], t[nq]) && #[trigger] chosen(m, i);
                if !s.contains(t[nq]) {
                    assert(crosses(arcs, c, i, out));
                }
            }
            assert forall|j: int| 0 <= j < t.len() implies c.contains(#[trigger] t[j]) by {
                let i = if j >= p { j } else { j + l };
                lemma_forward_closed(t, s, p, i);
                assert(wrap(i, l) == j);
            }
        } else {
            assert forall|q: int| 0 <= q < t.len() && #[trigger] s.contains(t[next_pos(q, t.len() as int)]) implies s.contains(t[q]) by {
                let nq = next_pos(q, l);
                assert(selected(arcs, m, t[q], t[nq])) by {
                    if q + 1 < l {
                        assert(selected(arcs, m, t[q], t[q + 1]));
                    } else {
                        assert(t.last() == t[q]);
                    }
                }
                let i = choose|i: int| 0 <= i < arcs.len() && arcs[i] == (t[q], t[nq]) && #[trigger] chosen(m, i);
                if !s.contains(t[q]) {
                    assert(crosses(arcs, c, i, out));
                }
            }
            assert forall|j: int| 0 <= j < t.len() implies c.contains(#[trigger] t[j]) by {
                let i = if j <= p { j } else { j - l };
                lemma_backward_closed(t, s, p, i);
                assert(wrap(i, l) == j);
            }
        }
        lemma_within_list(t, c);
    }
}

/// What one round of the pair search makes of a satisfying assignment: the
/// tour it selects, or clauses that cut its subcycles off.
pub enum PairStep {
    Tour(Vec<usize>),
    Cuts(Vec<Vec<i32>>),
}

/// Two duplicate-free node lists that share no node hold at most `n` nodes
/// together.
proof fn lemma_two_lists_bound(a: Seq<usize>, b: Seq<usize>, n: usize)
    requires
        a.no_duplicates(),
        b.no_duplicates(),
        forall|k: int| 0 <= k < a.len() ==> #[trigger] a[k] < n,
        forall|k: int| 0 <= k < b.len() ==> #[trigger] b[k] < n,
        forall|x: int, y: int| 0 <= x < a.len() && 0 <= y < b.len() ==> a[x] != b[y],
    ensures
        a.len() + b.len() <= n,
{
    let ab = a + b;
    assert(ab.no_duplicates()) by {
        assert forall|x: int, y: int| 0 <= x < y < ab.len() implies ab[x] != ab[y] by {
            if y < a.len() {
            } else if x >= a.len() {
                assert(ab[x] == b[x - a.len()] && ab[y] == b[y - a.len()]);
            } else {
                assert(ab[y] == b[y - a.len()]);
            }
        }
    }
    assert forall|k: int| 0 <= k < ab.len() implies (#[trigger] ab[k]) < n by {
        if k >= a.len() {
            assert(ab[k] == b[k - a.len()]);
        }
    }
    crate::multi_opt_sat_splicer::lemma_distinct_below(ab, n as int);
}

/// Two different lists of a family in which no node occurs twice hold at
/// most `n` nodes together.
proof fn lemma_disjoint_cycles(cs: Seq<Seq<usize>>, a: int, b: int, n: usize)
    requires
        0 <= a < cs.len(),
        0 <= b < cs.len(),
        a != b,
        occur_once(cs),
        forall|c2: int| 0 <= c2 < cs.len() ==> (#[trigger] cs[c2]).no_duplicates() && forall|k: int|
            0 <= k < cs[c2].len() ==> #[trigger] cs[c2][k] < n,
    ensures
        cs[a].len() + cs[b].len() <= n,
{
    assert forall|x: int, y: int| 0 <= x < cs[a].len() && 0 <= y < cs[b].len() implies cs[a][x] != cs[b][y] by {
        if cs[a][x] == cs[b][y] {
            assert(a == b);
        }
    }
    assert(cs[a].no_duplicates() && cs[b].no_duplicates());
    assert forall|k: int| 0 <= k < cs[a].len() implies #[trigger] cs[a][k] < n by {}
    assert forall|k: int| 0 <= k < cs[b].len() implies #[trigger] cs[b][k] < n by {}
    lemma_two_lists_bound(cs[a], cs[b], n);
}

/// One round of the search over the pair graph with nodes `0..n` and arcs
/// `arcs`, given an assignment `model` that selects exactly one arc out of
/// and into each node (as every model of `pair_cnf` does). The selection is
/// split into its cycles (`selection_cycles`); a single cycle is the tour.
/// Otherwise each cycle shorter than `n` is cut off: by the clause that not
/// all of its selected arcs may be selected again, and, for cycles of at most
/// 16 nodes, by the clauses that some arc leaving it and some arc entering it
/// be selected (each only where such arcs exist).
pub fn pair_model_step(n: usize, arcs: &Vec<(usize, usize)>, model: &Vec<bool>) -> (r: PairStep)
    requires
        n > 0,
        arcs_within(arcs@, n),
        arcs@.len() < 0x7fff_fff0,
        model@.len() > arcs@.len(),
        degrees_ok(n, arcs@, model@),
    ensures
        (r is Tour) <==> hamiltonian_selection(n, arcs@, model@),
        r matches PairStep::Tour(t) ==> tour_selection(n, arcs@, model@, t@),
        r matches PairStep::Cuts(cs) ==> cs@.len() > 0 && forall|k: int|
            0 <= k < cs@.len() ==> !clause_holds(model@, #[trigger] cs@[k]@) && forall|m2: Seq<bool>|
                hamiltonian_selection(n, arcs@, m2) ==> #[trigger] clause_holds(m2, cs@[k]@),
{
    let cycles = selection_cycles(n, arcs, model);
    let ghost cs = node_lists(cycles@);
    proof {
        assert forall|c: int| 0 <= c < cs.len() implies (#[trigger] cs[c]).no_duplicates() && forall|k: int|
            0 <= k < cs[c].len() ==> #[trigger] cs[c][k] < n by {
            assert forall|x: int, y: int| 0 <= x < y < cs[c].len() implies cs[c][x] != cs[c][y] by {
            }
            assert forall|k: int| 0 <= k < cs[c].len() implies #[trigger] cs[c][k] < n by {
                assert(occurs(cs, cs[c][k]));
            }
        }
    }
    if cycles.len() == 1 {
        let t = cycles[0].clone();
        proof {
            assert(t@ == cs[0]);
            assert(selected_cycle(arcs@, model@, cycles@[0]@));
            assert(t@.len() == n) by {
                crate::multi_opt_sat_splicer::lemma_distinct_below(t@, n as int);
                assert forall|v: usize| v < n implies t@.contains(v) by {
                    assert(occurs(cs, v));
                    let (c, k) = choose|c: int, k: int| 0 <= c < cs.len() && 0 <= k < cs[c].len() && #[trigger] cs[c][k] == v;
                    assert(c == 0);
                }
                let r = vstd::set_lib::set_int_range(0, n as int);
                let q = t@.map_values(|x: usize| x as int);
                assert(q.no_duplicates()) by {
                    assert forall|a: int, b: int| 0 <= a < q.len() && 0 <= b < q.len() && a != b implies q[a] != q[b] by {
                        assert(t@[a] != t@[b]);
                    }
                }
                q.unique_seq_to_set();
                vstd::set_lib::lemma_int_range(0, n as int);
                assert(r.subset_of(q.to_set())) by {
                    assert forall|x: int| r.contains(x) implies q.to_set().contains(x) by {
                        assert(t@.contains(x as usize));
                        let k = choose|k: int| 0 <= k < t@.len() && t@[k] == x as usize;
                        assert(q[k] == x);
                    }
                }
                vstd::set_lib::lemma_len_subset(r, q.to_set());
            }
            assert(tour_selection(n, arcs@, model@, t@));
        }
        return PairStep::Tour(t);
    }
    let mut cuts: Vec<Vec<i32>> = Vec::new();
    let mut c: usize = 0;
    while c < cycles.len()
        invariant
            arcs_within(arcs@, n),
            arcs@.len() < 0x7fff_fff0,
            model@.len() > arcs@.len(),
            degrees_ok(n, arcs@, model@),
            cs == node_lists(cycles@),
            cycles@.len() != 1,
            forall|c2: int| 0 <= c2 < cs.len() ==> #[trigger] selected_cycle(arcs@, model@, cs[c2]),
            forall|c2: int| 0 <= c2 < cs.len() ==> (#[trigger] cs[c2]).no_duplicates() && forall|k: int|
                0 <= k < cs[c2].len() ==> #[trigger] cs[c2][k] < n,
            occur_once(cs),
            forall|v: usize| v < n <==> #[trigger] occurs(cs, v),
            0 <= c <= cycles@.len(),
            c > 0 ==> cuts@.len() > 0,
            forall|k: int|
                0 <= k < cuts@.len() ==> !clause_holds(model@, #[trigger] cuts@[k]@) && forall|m2: Seq<bool>|
                    hamiltonian_selection(n, arcs@, m2) ==> #[trigger] clause_holds(m2, cuts@[k]@),
        decreases cycles@.len() - c,
    {
        let cyc = &cycles[c];
        proof {
            assert(cyc@ == cs[c as int]);
            assert(selected_cycle(arcs@, model@, cs[c as int]));
            assert(cyc@.len() > 0);
        }
        if cyc.len() < n {
            let ghost k0 = cuts@;
            let sub = subtour_cut(arcs, model, cyc);
            proof {
                assert forall|m2: Seq<bool>| hamiltonian_selection(n, arcs@, m2) implies #[trigger] clause_holds(m2, sub@) by {
                    if !clause_holds(m2, sub@) {
                        assert(selected_cycle(arcs@, m2, cyc@));
                        assert(cyc@[0] < n);
                        lemma_no_short_selected_cycle(n, arcs@, m2, cyc@);
                    }
                }
            }
            cuts.push(sub);
            if cyc.len() <= 16 {
                let mut o: usize = 0;
                while o < 2
                    invariant
                        arcs_within(arcs@, n),
                        arcs@.len() < 0x7fff_fff0,
                        model@.len() > arcs@.len(),
                        degrees_ok(n, arcs@, model@),
                        selected_cycle(arcs@, model@, cyc@),
                        cyc@.no_duplicates(),
                        forall|k: int| 0 <= k < cyc@.len() ==> #[trigger] cyc@[k] < n,
                        0 < cyc@.len() < n,
                        cuts@.len() > 0,
                        forall|k: int|
                            0 <= k < cuts@.len() ==> !clause_holds(model@, #[trigger] cuts@[k]@) && forall|m2: Seq<bool>|
                                hamiltonian_selection(n, arcs@, m2) ==> #[trigger] clause_holds(m2, cuts@[k]@),
                    decreases 2 - o,
                {
                    let out = o == 0;
                    let cr = crossing_cut(arcs, cyc, out);
                    if cr.len() > 0 {
                        proof {
                            lemma_cycle_sealed(n, arcs@, model@, cyc@, out);
                            assert(!clause_holds(model@, cr@));
                            assert forall|m2: Seq<bool>| hamiltonian_selection(n, arcs@, m2) implies #[trigger] clause_holds(m2, cr@) by {
                                lemma_tour_crosses(n, arcs@, m2, cyc@, out);
                            }
                        }
                        cuts.push(cr);
                    }
                    o = o + 1;
                }
            }
            proof {
                assert(cuts@.len() > 0);
            }
        } else {
            proof {
                let other = if c == 0 { 1int } else { 0int };
                assert(cycles@.len() > 1);
                assert(cs[other].len() > 0) by {
                    assert(selected_cycle(arcs@, model@, cs[other]));
                }
                lemma_disjoint_cycles(cs, c as int, other, n);
                assert(false);
            }
        }
        c = c + 1;
    }
    proof {
        assert(occurs(cs, 0usize));
        assert(cycles@.len() > 1);
        assert(cs[0].len() > 0 && cs[1].len() > 0) by {
            assert(selected_cycle(arcs@, model@, cs[0]));
            assert(selected_cycle(arcs@, model@, cs[1]));
        }
        if hamiltonian_selection(n, arcs@, model@) {
            assert(cs[0][0] < n);
            lemma_no_short_selected_cycle(n, arcs@, model@, cs[0]);
            lemma_disjoint_cycles(cs, 0, 1, n);
        }
    }
    PairStep::Cuts(cuts)
}

/// The tour of the contracted graph that a tour `t` of the pair graph stands
/// for: the in end and then the out end of each node of `t`, in order.
pub fn pair_tour_vertices(nodes: &Vec<(i32, i32)>, t: &Vec<usize>) -> (tour: Vec<i32>)
    requires
        forall|k: int| 0 <= k < t@.len() ==> #[trigger] t@[k] < nodes@.len(),
        2 * t@.len() <= usize::MAX,
    ensures
        tour@.len() == 2 * t@.len(),
        forall|k: int|
            0 <= k < t@.len() ==> tour@[2 * k] == nodes@[#[trigger] t@[k] as int].0 && tour@[2 * k + 1] == nodes@[t@[k] as int].1,
{
    let mut tour: Vec<i32> = Vec::new();
    let mut k: usize = 0;
    while k < t.len()
        invariant
            forall|q: int| 0 <= q < t@.len() ==> #[trigger] t@[q] < nodes@.len(),
            0 <= k <= t@.len(),
            tour@.len() == 2 * k,
            forall|q: int|
                0 <= q < k ==> tour@[2 * q] == nodes@[#[trigger] t@[q] as int].0 && tour@[2 * q + 1] == nodes@[t@[q] as int].1,
        decreases t@.len() - k,
    {
        let (a, b) = nodes[t[k]];
        tour.push(a);
        tour.push(b);
        k = k + 1;
    }
    tour
}

} // verus!
