//! Global matching patcher: merges disjoint pairs of subcycles by 2-opt
//! reconnections, many pairs per round, until no pair can be merged.
use crate::contraction::{is_safe_to_break, Degree2Contractor};
use crate::cycle_family::{views, ms_all, all_closed_walks, flagged_ms, negate, lemma_ms_all_push, lemma_ms_all_concat, lemma_flagged_flip, lemma_flagged_split, lemma_rev_from, lemma_rot_split, lemma_splice_ms, rev_from, rot, splice_after};
use crate::graph::Graph;
use crate::hub_registry::HubRegistry;
use crate::splice::{rev_from_vec, rot_vec, splice_vec};
use crate::tour::{closed_walk, is_closed_walk};
use vstd::multiset::Multiset;
use vstd::prelude::*;

verus! {

broadcast use vstd::seq_lib::group_to_multiset_ensures;

/// Global maximum matching patcher for disjoint simultaneous 2-opt cycle merges.
pub struct MatchingPatcher;

/// The 2-opt reconnection of `c1` and `c2` that breaks the edge after
/// position `i` of `c1` and the edge after position `j` of `c2`, if both
/// edges are safe to break and one of the two orientations yields a closed
/// walk of `g`. The first orientation joins `c1[i]` to `c2[j]`, the second
/// joins `c1[i]` to `c2[j + 1]`.
pub open spec fn merge_at(
    c1: Seq<i32>,
    c2: Seq<i32>,
    g: Graph,
    ct: Degree2Contractor,
    i: int,
    j: int,
) -> Option<Seq<i32>> {
    let k1 = c1.len() as int;
    let k2 = c2.len() as int;
    let u = c1[i];
    let up = c1[(i + 1) % k1];
    let w = c2[j];
    let wp = c2[(j + 1) % k2];
    let m0 = splice_after(c1, i, rev_from(c2, j));
    let m1 = splice_after(c1, i, rot(c2, j + 1));
    if ct.guarded(u, up) || ct.guarded(w, wp) {
        None
    } else if g.has_edge(u, w) && g.has_edge(up, wp) && closed_walk(g, m0) {
        Some(m0)
    } else if g.has_edge(u, wp) && g.has_edge(up, w) && closed_walk(g, m1) {
        Some(m1)
    } else {
        None
    }
}

/// The first reconnection at edge `i` of `c1` and an edge `j' >= j` of `c2`.
pub open spec fn scan_j(
    c1: Seq<i32>,
    c2: Seq<i32>,
    g: Graph,
    ct: Degree2Contractor,
    i: int,
    j: int,
) -> Option<Seq<i32>>
    decreases c2.len() - j,
{
    if j < 0 || j >= c2.len() {
        None
    } else {
        match merge_at(c1, c2, g, ct, i, j) {
            Some(m) => Some(m),
            None => scan_j(c1, c2, g, ct, i, j + 1),
        }
    }
}

/// The first reconnection at an edge `i' >= i` of `c1`, scanning `c2` fully for each.
pub open spec fn scan_i(c1: Seq<i32>, c2: Seq<i32>, g: Graph, ct: Degree2Contractor, i: int) -> Option<
    Seq<i32>,
>
    decreases c1.len() - i,
{
    if i < 0 || i >= c1.len() {
        None
    } else {
        match scan_j(c1, c2, g, ct, i, 0) {
            Some(m) => Some(m),
            None => scan_i(c1, c2, g, ct, i + 1),
        }
    }
}

/// The merge that `try_find_2opt_merge` returns: the first valid 2-opt
/// reconnection in the order of the edges of `c1`, then of `c2`, then of the
/// two orientations; none when either cycle is shorter than three.
pub open spec fn merge_spec(c1: Seq<i32>, c2: Seq<i32>, g: Graph, ct: Degree2Contractor) -> Option<
    Seq<i32>,
> {
    if c1.len() < 3 || c2.len() < 3 {
        None
    } else {
        scan_i(c1, c2, g, ct, 0)
    }
}

/// Every merge found at one pair of edges is a closed walk of `g` over exactly
/// the vertices of both cycles.
pub proof fn lemma_merge_at_sound(
    c1: Seq<i32>,
    c2: Seq<i32>,
    g: Graph,
    ct: Degree2Contractor,
    i: int,
    j: int,
)
    requires
        0 <= i < c1.len(),
        0 <= j < c2.len(),
    ensures
        merge_at(c1, c2, g, ct, i, j) matches Some(m) ==> closed_walk(g, m) && m.to_multiset()
            == c1.to_multiset().add(c2.to_multiset()) && m.len() == c1.len() + c2.len(),
{
    lemma_rev_from(c2, j);
    lemma_rot_split(c2, j + 1);
    lemma_splice_ms(c1, i, rev_from(c2, j));
    lemma_splice_ms(c1, i, rot(c2, j + 1));
}

proof fn lemma_scan_j_sound(c1: Seq<i32>, c2: Seq<i32>, g: Graph, ct: Degree2Contractor, i: int, j: int)
    requires
        0 <= i < c1.len(),
    ensures
        scan_j(c1, c2, g, ct, i, j) matches Some(m) ==> closed_walk(g, m) && m.to_multiset()
            == c1.to_multiset().add(c2.to_multiset()) && m.len() == c1.len() + c2.len(),
    decreases c2.len() - j,
{
    if 0 <= j < c2.len() {
        lemma_merge_at_sound(c1, c2, g, ct, i, j);
        lemma_scan_j_sound(c1, c2, g, ct, i, j + 1);
    }
}

proof fn lemma_scan_i_sound(c1: Seq<i32>, c2: Seq<i32>, g: Graph, ct: Degree2Contractor, i: int)
    ensures
        scan_i(c1, c2, g, ct, i) matches Some(m) ==> closed_walk(g, m) && m.to_multiset()
            == c1.to_multiset().add(c2.to_multiset()) && m.len() == c1.len() + c2.len(),
    decreases c1.len() - i,
{
    if 0 <= i < c1.len() {
        lemma_scan_j_sound(c1, c2, g, ct, i, 0);
        lemma_scan_i_sound(c1, c2, g, ct, i + 1);
    }
}

/// A 2-opt merge of two cycles is a closed walk of `g` that uses every vertex
/// occurrence of both cycles exactly once.
pub proof fn lemma_merge_sound(c1: Seq<i32>, c2: Seq<i32>, g: Graph, ct: Degree2Contractor)
    ensures
        merge_spec(c1, c2, g, ct) matches Some(m) ==> closed_walk(g, m) && m.to_multiset()
            == c1.to_multiset().add(c2.to_multiset()) && m.len() == c1.len() + c2.len(),
{
    lemma_scan_i_sound(c1, c2, g, ct, 0);
}


/// A mergeable pair: positions `i < j` of two cycles and their merge.
pub type Candidate = (int, int, Seq<i32>);

/// The mergeable pairs `(i, j')` for `j' >= j`, in order of `j'`.
pub open spec fn cands_row(cs: Seq<Seq<i32>>, g: Graph, ct: Degree2Contractor, i: int, j: int) -> Seq<
    Candidate,
>
    decreases cs.len() - j,
{
    if j < 0 || j >= cs.len() {
        Seq::empty()
    } else {
        let rest = cands_row(cs, g, ct, i, j + 1);
        match merge_spec(cs[i], cs[j], g, ct) {
            Some(m) => seq![(i, j, m)] + rest,
            None => rest,
        }
    }
}

/// All mergeable pairs `(i', j)` with `i <= i' < j`, in lexicographic order.
pub open spec fn cands_from(cs: Seq<Seq<i32>>, g: Graph, ct: Degree2Contractor, i: int) -> Seq<Candidate>
    decreases cs.len() - i,
{
    if i < 0 || i >= cs.len() {
        Seq::empty()
    } else {
        cands_row(cs, g, ct, i, i + 1) + cands_from(cs, g, ct, i + 1)
    }
}

/// Takes, in order, the candidates of weight `w` (merged length) whose two
/// cycles are both still free.
pub open spec fn level(
    cands: Seq<Candidate>,
    w: int,
    p: int,
    used: Set<int>,
    acc: Seq<Candidate>,
) -> (Set<int>, Seq<Candidate>)
    decreases cands.len() - p,
{
    if p < 0 || p >= cands.len() {
        (used, acc)
    } else {
        let c = cands[p];
        if c.2.len() == w && !used.contains(c.0) && !used.contains(c.1) {
            level(cands, w, p + 1, used.insert(c.0).insert(c.1), acc.push(c))
        } else {
            level(cands, w, p + 1, used, acc)
        }
    }
}

/// Greedy selection by non-increasing weight, ties in candidate order,
/// for all weights from `w` down to 0.
pub open spec fn greedy(cands: Seq<Candidate>, w: int, used: Set<int>, acc: Seq<Candidate>) -> (
    Set<int>,
    Seq<Candidate>,
)
    decreases w + 1,
{
    if w < 0 {
        (used, acc)
    } else {
        let r = level(cands, w, 0, used, acc);
        greedy(cands, w - 1, r.0, r.1)
    }
}

/// The largest weight among the first `p` candidates (0 for none).
pub open spec fn max_weight(cands: Seq<Candidate>, p: int) -> int
    decreases p,
{
    if p <= 0 || p > cands.len() {
        0
    } else {
        let w = cands[p - 1].2.len() as int;
        let m = max_weight(cands, p - 1);
        if w > m {
            w
        } else {
            m
        }
    }
}

/// The matching `find_max_weight_matching` returns: all mergeable pairs,
/// visited by non-increasing merged length (ties in discovery order), each
/// taken when neither of its cycles is already taken.
pub open spec fn matching_spec(cs: Seq<Seq<i32>>, g: Graph, ct: Degree2Contractor) -> Seq<Candidate> {
    if cs.len() < 2 {
        Seq::empty()
    } else {
        let cands = cands_from(cs, g, ct, 0);
        greedy(cands, max_weight(cands, cands.len() as int), Set::empty(), Seq::empty()).1
    }
}

/// The view of an executable matching.
pub open spec fn triples_view(s: Seq<(usize, usize, Vec<i32>)>) -> Seq<Candidate> {
    s.map_values(|t: (usize, usize, Vec<i32>)| (t.0 as int, t.1 as int, t.2@))
}

proof fn lemma_level_absent(cands: Seq<Candidate>, w: int, p: int, used: Set<int>, acc: Seq<Candidate>)
    requires
        forall|q: int| p <= q < cands.len() ==> cands[q].2.len() != w,
    ensures
        level(cands, w, p, used, acc) == (used, acc),
    decreases cands.len() - p,
{
    if 0 <= p < cands.len() {
        lemma_level_absent(cands, w, p + 1, used, acc);
    }
}

/// Weights strictly between `lo` and `hi` that no candidate has are skipped.
proof fn lemma_greedy_skip(cands: Seq<Candidate>, hi: int, lo: int, used: Set<int>, acc: Seq<Candidate>)
    requires
        lo <= hi,
        forall|q: int| 0 <= q < cands.len() ==> !(lo < #[trigger] cands[q].2.len() <= hi),
    ensures
        greedy(cands, hi, used, acc) == greedy(cands, lo, used, acc),
    decreases hi - lo,
{
    if lo < hi {
        lemma_level_absent(cands, hi, 0, used, acc);
        lemma_greedy_skip(cands, hi - 1, lo, used, acc);
    }
}

proof fn lemma_max_weight(cands: Seq<Candidate>, p: int)
    requires
        0 <= p <= cands.len(),
    ensures
        forall|q: int| 0 <= q < p ==> cands[q].2.len() <= max_weight(cands, p),
        max_weight(cands, p) >= 0,
    decreases p,
{
    if p > 0 {
        lemma_max_weight(cands, p - 1);
    }
}

/// Flags the two cycles of each of the first `p` pairs of a matching.
pub open spec fn mark(mt: Seq<Candidate>, n: int, p: int) -> Seq<bool>
    decreases p,
{
    if p <= 0 || p > mt.len() {
        Seq::new(n as nat, |k: int| false)
    } else {
        mark(mt, n, p - 1).update(mt[p - 1].0, true).update(mt[p - 1].1, true)
    }
}

/// The members of `cs` among the first `n` whose flag is not set, in order.
pub open spec fn keep(cs: Seq<Seq<i32>>, f: Seq<bool>, n: int) -> Seq<Seq<i32>>
    decreases n,
{
    if n <= 0 {
        Seq::empty()
    } else if f[n - 1] {
        keep(cs, f, n - 1)
    } else {
        keep(cs, f, n - 1).push(cs[n - 1])
    }
}

/// One round of matching: the merged cycles in matching order, then the
/// untouched cycles in their original order.
pub open spec fn round(cs: Seq<Seq<i32>>, mt: Seq<Candidate>) -> Seq<Seq<i32>> {
    mt.map_values(|c: Candidate| c.2) + keep(cs, mark(mt, cs.len() as int, mt.len() as int), cs.len() as int)
}

/// At most `k` rounds, stopping at a single cycle or when nothing merges.
pub open spec fn iterate_rounds(cs: Seq<Seq<i32>>, g: Graph, ct: Degree2Contractor, k: int) -> Seq<Seq<i32>>
    decreases k,
{
    if k <= 0 || cs.len() <= 1 {
        cs
    } else {
        let mt = matching_spec(cs, g, ct);
        if mt.len() == 0 {
            cs
        } else {
            iterate_rounds(round(cs, mt), g, ct, k - 1)
        }
    }
}

/// What `patch_cycles_via_matching` returns: the input when it has at most one
/// cycle, else at most twice as many rounds as there are cycles.
pub open spec fn patch_matching_spec(cs: Seq<Seq<i32>>, g: Graph, ct: Degree2Contractor) -> Seq<Seq<i32>> {
    if cs.len() <= 1 {
        cs
    } else {
        iterate_rounds(cs, g, ct, 2 * cs.len() as int)
    }
}

impl MatchingPatcher {
    /// All mergeable pairs `(i, j)`, `i < j`, in lexicographic order, with their merges.
    fn collect_candidates(
        cycles: &[Vec<i32>],
        g: &Graph,
        contractor: &Degree2Contractor,
    ) -> (r: Vec<(usize, usize, Vec<i32>)>)
        requires
            contractor.wf(),
        ensures
            triples_view(r@) == cands_from(views(cycles@), *g, *contractor, 0),
            forall|q: int| 0 <= q < r@.len() ==> (#[trigger] r@[q]).0 < r@[q].1 < cycles@.len(),
    {
        let ghost cs = views(cycles@);
        let n = cycles.len();
        let mut cands: Vec<(usize, usize, Vec<i32>)> = Vec::new();
        let mut i: usize = 0;
        while i < n
            invariant
                n == cycles@.len(),
                cs == views(cycles@),
                contractor.wf(),
                0 <= i <= n,
                triples_view(cands@) + cands_from(cs, *g, *contractor, i as int) == cands_from(cs, *g, *contractor, 0),
                forall|q: int| 0 <= q < cands@.len() ==> (#[trigger] cands@[q]).0 < cands@[q].1 < n,
            decreases n - i,
        {
            let mut j: usize = i + 1;
            while j < n
                invariant
                    n == cycles@.len(),
                    cs == views(cycles@),
                    contractor.wf(),
                    0 <= i < n,
                    i + 1 <= j <= n,
                    triples_view(cands@) + cands_row(cs, *g, *contractor, i as int, j as int) + cands_from(
                        cs,
                        *g,
                        *contractor,
                        i + 1,
                    ) == cands_from(cs, *g, *contractor, 0),
                    forall|q: int| 0 <= q < cands@.len() ==> (#[trigger] cands@[q]).0 < cands@[q].1 < n,
                decreases n - j,
            {
                let ghost before = triples_view(cands@);
                let res = Self::try_find_2opt_merge(&cycles[i], &cycles[j], g, contractor);
                proof {
                    assert(cs[i as int] == cycles@[i as int]@);
                    assert(cs[j as int] == cycles@[j as int]@);
                }
                match res {
                    Some(merged) => {
                        let ghost mv = merged@;
                        cands.push((i, j, merged));
                        proof {
                            assert(triples_view(cands@) =~= before.push((i as int, j as int, mv)));
                            assert(cands_row(cs, *g, *contractor, i as int, j as int) == seq![(i as int, j as int, mv)]
                                + cands_row(cs, *g, *contractor, i as int, j + 1));
                            assert(before.push((i as int, j as int, mv)) + cands_row(cs, *g, *contractor, i as int, j + 1)
                                =~= before + (seq![(i as int, j as int, mv)] + cands_row(cs, *g, *contractor, i as int, j + 1)));
                        }
                    },
                    None => {},
                }
                j = j + 1;
            }
            proof {
                assert(cands_row(cs, *g, *contractor, i as int, n as int) =~= Seq::<Candidate>::empty());
                assert(triples_view(cands@) + Seq::<Candidate>::empty() =~= triples_view(cands@));
                assert(cands_from(cs, *g, *contractor, i as int) == cands_row(cs, *g, *contractor, i as int, i + 1)
                    + cands_from(cs, *g, *contractor, i + 1));
            }
            i = i + 1;
        }
        proof {
            assert(cands_from(cs, *g, *contractor, n as int) =~= Seq::<Candidate>::empty());
            assert(triples_view(cands@) + Seq::<Candidate>::empty() =~= triples_view(cands@));
        }
        cands
    }

    /// Evaluates all mergeable candidate pairs among `cycles`, assigns weights $W(i, j) = |C_i| + |C_j|$,
    /// sorts by descending weight, and greedily extracts a maximum-weight disjoint matching.
    pub fn find_max_weight_matching(
        cycles: &[Vec<i32>],
        g: &Graph,
        contractor: &Degree2Contractor,
        _hub_registry: &HubRegistry,
    ) -> (r: Vec<(usize, usize, Vec<i32>)>)
        requires
            contractor.wf(),
        ensures
            triples_view(r@) == matching_spec(views(cycles@), *g, *contractor),
    {
        let n = cycles.len();
        if n < 2 {
            return Vec::new();
        }
        let ghost cs = views(cycles@);
        let cands = Self::collect_candidates(cycles, g, contractor);
        let ghost cv = triples_view(cands@);
        let nc = cands.len();
        // the largest weight
        let mut w: usize = 0;
        let mut p: usize = 0;
        while p < nc
            invariant
                nc == cands@.len(),
                cv == triples_view(cands@),
                0 <= p <= nc,
                w == max_weight(cv, p as int),
            decreases nc - p,
        {
            if cands[p].2.len() > w {
                w = cands[p].2.len();
            }
            p = p + 1;
        }
        proof {
            lemma_max_weight(cv, nc as int);
        }
        let ghost top = w as int;
        let mut used: Vec<bool> = vec![false; n];
        let mut matching: Vec<(usize, usize, Vec<i32>)> = Vec::new();
        let ghost mut uset: Set<int> = Set::empty();
        proof {
            assert(triples_view(matching@) =~= Seq::<Candidate>::empty());
        }
        loop
            invariant
                n == cycles@.len(),
                nc == cands@.len(),
                cv == triples_view(cands@),
                used@.len() == n,
                forall|k: int| 0 <= k < n ==> used@[k] == uset.contains(k),
                forall|q: int| 0 <= q < nc ==> (#[trigger] cands@[q]).0 < cands@[q].1 < n,
                forall|q: int| 0 <= q < nc ==> (#[trigger] cv[q]).2.len() <= w || cv[q].2.len() <= top,
                greedy(cv, top, Set::empty(), Seq::empty()) == greedy(cv, w as int, uset, triples_view(matching@)),
                w <= top,
                n >= 2,
                cs == views(cycles@),
                cv == cands_from(cs, *g, *contractor, 0),
                top == max_weight(cv, cv.len() as int),
            decreases w,
        {
            // one weight level
            let ghost u0 = uset;
            let ghost a0 = triples_view(matching@);
            let mut p: usize = 0;
            while p < nc
                invariant
                    n == cycles@.len(),
                    nc == cands@.len(),
                    cv == triples_view(cands@),
                    used@.len() == n,
                    forall|k: int| 0 <= k < n ==> used@[k] == uset.contains(k),
                    forall|q: int| 0 <= q < nc ==> (#[trigger] cands@[q]).0 < cands@[q].1 < n,
                    0 <= p <= nc,
                    level(cv, w as int, 0, u0, a0) == level(cv, w as int, p as int, uset, triples_view(matching@)),
                decreases nc - p,
            {
                let ci = cands[p].0;
                let cj = cands[p].1;
                if cands[p].2.len() == w && !used[ci] && !used[cj] {
                    let ghost mb = matching@;
                    used.set(ci, true);
                    used.set(cj, true);
                    let m = cands[p].2.clone();
                    matching.push((ci, cj, m));
                    proof {
                        uset = uset.insert(ci as int).insert(cj as int);
                        assert(triples_view(matching@) =~= triples_view(mb).push(cv[p as int]));
                    }
                }
                p = p + 1;
            }
            proof {
                assert(greedy(cv, w as int, u0, a0) == greedy(cv, w - 1, uset, triples_view(matching@)));
            }
            // the next lower weight present
            let mut next: usize = 0;
            let mut found = false;
            let mut q: usize = 0;
            while q < nc
                invariant
                    nc == cands@.len(),
                    cv == triples_view(cands@),
                    0 <= q <= nc,
                    found ==> next < w,
                    forall|t: int| 0 <= t < q && (#[trigger] cv[t]).2.len() < w ==> found && cv[t].2.len() <= next,
                    found ==> exists|t: int| 0 <= t < q && cv[t].2.len() == next,
                decreases nc - q,
            {
                let l = cands[q].2.len();
                if l < w && (!found || l > next) {
                    next = l;
                    found = true;
                    assert(cv[q as int].2.len() == next);
                }
                q = q + 1;
            }
            if !found {
                proof {
                    if w > 0 {
                        lemma_greedy_skip(cv, w - 1, -1, uset, triples_view(matching@));
                    }
                    assert(greedy(cv, -1, uset, triples_view(matching@)) == (uset, triples_view(matching@)));
                    assert(matching_spec(cs, *g, *contractor) == greedy(cv, top, Set::empty(), Seq::empty()).1);
                }
                return matching;
            }
            proof {
                lemma_greedy_skip(cv, w - 1, next as int, uset, triples_view(matching@));
            }
            w = next;
        }
    }

    /// Iteratively applies Maximum Matching Global Patching across all subcycles.
    ///
    /// In each round:
    /// 1. Finds a maximal disjoint matching of mergeable subcycle pairs.
    /// 2. Performs batch merges for all matched pairs simultaneously.
    /// 3. Retains untouched subcycles.
    /// 4. Repeats until convergence or until a single cycle is formed.
    pub fn patch_cycles_via_matching(
        cycles: &[Vec<i32>],
        g: &Graph,
        contractor: &Degree2Contractor,
        hub_registry: &HubRegistry,
    ) -> (r: Vec<Vec<i32>>)
        requires
            contractor.wf(),
            cycles@.len() <= usize::MAX / 2,
        ensures
            views(r@) == patch_matching_spec(views(cycles@), *g, *contractor),
    {
        let mut current = clone_cycles(cycles);
        if cycles.len() <= 1 {
            return current;
        }
        let max_iterations = current.len() * 2;
        let ghost cs0 = views(cycles@);
        let mut it: usize = 0;
        let mut stop = false;
        while it < max_iterations && !stop
            invariant
                contractor.wf(),
                0 <= it <= max_iterations,
                max_iterations == 2 * cs0.len(),
                cs0.len() > 1,
                cs0 == views(cycles@),
                iterate_rounds(cs0, *g, *contractor, max_iterations as int) == iterate_rounds(
                    views(current@),
                    *g,
                    *contractor,
                    max_iterations - it,
                ),
                stop ==> iterate_rounds(views(current@), *g, *contractor, max_iterations - it) == views(
                    current@,
                ),
            decreases max_iterations - it + (if stop { 0int } else { 1int }),
        {
            if current.len() <= 1 {
                stop = true;
            } else {
                let matching = Self::find_max_weight_matching(&current, g, contractor, hub_registry);
                if matching.len() == 0 {
                    stop = true;
                } else {
                    proof {
                        lemma_matching_valid(views(current@), *g, *contractor);
                    }
                    let next = apply_round(&current, &matching);
                    current = next;
                    it = it + 1;
                }
            }
        }
        proof {
            assert(patch_matching_spec(cs0, *g, *contractor) == iterate_rounds(cs0, *g, *contractor, max_iterations as int));
        }
        current
    }

    /// Attempts to find a valid 2-opt reconnection between subcycle `c1` and `c2`.
    ///
    /// Evaluates all pairs of break edges `(c1[i], c1[i+1])` and `(c2[j], c2[j+1])`,
    /// enforcing degree-2 contraction safety on both edges. Checks both reconnection
    /// orientations and verifies full edge adjacency in `g`.
    /// Returns `Some(merged_cycle)` on the first valid reconnection found, or `None`.
    pub fn try_find_2opt_merge(
        c1: &[i32],
        c2: &[i32],
        g: &Graph,
        contractor: &Degree2Contractor,
    ) -> (r: Option<Vec<i32>>)
        requires
            contractor.wf(),
        ensures
            r matches Some(m) ==> merge_spec(c1@, c2@, *g, *contractor) == Some(m@),
            r is None ==> merge_spec(c1@, c2@, *g, *contractor) is None,
    {
        let k1 = c1.len();
        let k2 = c2.len();
        if k1 < 3 || k2 < 3 {
            return None;
        }
        let ghost s1 = c1@;
        let ghost s2 = c2@;
        let mut i: usize = 0;
        while i < k1
            invariant
                k1 == s1.len(),
                k2 == s2.len(),
                s1 == c1@,
                s2 == c2@,
                k1 >= 3,
                k2 >= 3,
                contractor.wf(),
                0 <= i <= k1,
                scan_i(s1, s2, *g, *contractor, 0) == scan_i(s1, s2, *g, *contractor, i as int),
            decreases k1 - i,
        {
            let u_i = c1[i];
            let u_ip1 = c1[(i + 1) % k1];
            if !is_safe_to_break(u_i, u_ip1, contractor) {
                proof {
                    assert forall|j: int| 0 <= j <= k2 implies scan_j(s1, s2, *g, *contractor, i as int, j)
                        is None by {
                        lemma_scan_j_blocked(s1, s2, *g, *contractor, i as int, j);
                    }
                }
                i = i + 1;
                continue;
            }
            let mut j: usize = 0;
            while j < k2
                invariant
                    k1 == s1.len(),
                    k2 == s2.len(),
                    s1 == c1@,
                    s2 == c2@,
                    k1 >= 3,
                    k2 >= 3,
                    contractor.wf(),
                    0 <= i < k1,
                    0 <= j <= k2,
                    u_i == s1[i as int],
                    u_ip1 == s1[(i + 1) % (k1 as int)],
                    !contractor.guarded(u_i, u_ip1),
                    scan_i(s1, s2, *g, *contractor, 0) == scan_i(s1, s2, *g, *contractor, i as int),
                    scan_j(s1, s2, *g, *contractor, i as int, 0) == scan_j(
                        s1,
                        s2,
                        *g,
                        *contractor,
                        i as int,
                        j as int,
                    ),
                decreases k2 - j,
            {
                let w_j = c2[j];
                let w_jp1 = c2[(j + 1) % k2];
                if is_safe_to_break(w_j, w_jp1, contractor) {
                    if g.contains_edge(u_i, w_j) && g.contains_edge(u_ip1, w_jp1) {
                        let mid = rev_from_vec(c2, j);
                        let merged = splice_vec(c1, i, &mid);
                        if is_closed_walk(&merged, g) {
                            proof {
                                assert(merge_at(s1, s2, *g, *contractor, i as int, j as int) == Some(merged@));
                                assert(scan_j(s1, s2, *g, *contractor, i as int, j as int) == Some(merged@));
                                assert(scan_i(s1, s2, *g, *contractor, i as int) == Some(merged@));
                            }
                            return Some(merged);
                        }
                    }
                    if g.contains_edge(u_i, w_jp1) && g.contains_edge(u_ip1, w_j) {
                        let mid = rot_vec(c2, j + 1);
                        let merged = splice_vec(c1, i, &mid);
                        if is_closed_walk(&merged, g) {
                            proof {
                                assert(merge_at(s1, s2, *g, *contractor, i as int, j as int) == Some(merged@));
                                assert(scan_j(s1, s2, *g, *contractor, i as int, j as int) == Some(merged@));
                                assert(scan_i(s1, s2, *g, *contractor, i as int) == Some(merged@));
                            }
                            return Some(merged);
                        }
                    }
                }
                j = j + 1;
            }
            i = i + 1;
        }
        None
    }
}

proof fn lemma_scan_j_blocked(c1: Seq<i32>, c2: Seq<i32>, g: Graph, ct: Degree2Contractor, i: int, j: int)
    requires
        0 <= i < c1.len(),
        ct.guarded(c1[i], c1[(i + 1) % (c1.len() as int)]),
    ensures
        scan_j(c1, c2, g, ct, i, j) is None,
    decreases c2.len() - j,
{
    if 0 <= j < c2.len() {
        lemma_scan_j_blocked(c1, c2, g, ct, i, j + 1);
    }
}

/// A copy of a family of cycles.
pub fn clone_cycles(cycles: &[Vec<i32>]) -> (r: Vec<Vec<i32>>)
    ensures
        views(r@) == views(cycles@),
        r@.len() == cycles@.len(),
{
    let mut r: Vec<Vec<i32>> = Vec::new();
    let mut k: usize = 0;
    while k < cycles.len()
        invariant
            0 <= k <= cycles@.len(),
            views(r@) == views(cycles@).subrange(0, k as int),
            r@.len() == k,
        decreases cycles@.len() - k,
    {
        let c = cycles[k].clone();
        assert(c@ == cycles@[k as int]@);
        let ghost r0 = r@;
        r.push(c);
        proof {
            assert(r@ == r0.push(c));
            assert forall|t: int| 0 <= t < k + 1 implies #[trigger] views(r@)[t] == views(cycles@)[t] by {
                if t < k {
                    assert(views(r0)[t] == views(cycles@).subrange(0, k as int)[t]);
                    assert(r@[t] == r0[t]);
                }
            }
        }
        k = k + 1;
        assert(views(r@) =~= views(cycles@).subrange(0, k as int));
    }
    assert(views(cycles@).subrange(0, k as int) =~= views(cycles@));
    r
}

/// Every pair of a matching names two distinct cycles `i < j < n`, and no
/// cycle occurs in two pairs.
pub open spec fn valid_matching(mt: Seq<Candidate>, n: int) -> bool {
    &&& forall|p: int| 0 <= p < mt.len() ==> 0 <= (#[trigger] mt[p]).0 < mt[p].1 < n
    &&& forall|p: int, q: int|
        0 <= p < q < mt.len() ==> (#[trigger] mt[p]).0 != (#[trigger] mt[q]).0 && mt[p].0 != mt[q].1
            && mt[p].1 != mt[q].0 && mt[p].1 != mt[q].1
}

/// Builds the next family of one matching round.
fn apply_round(current: &Vec<Vec<i32>>, matching: &Vec<(usize, usize, Vec<i32>)>) -> (r: Vec<Vec<i32>>)
    requires
        valid_matching(triples_view(matching@), current@.len() as int),
    ensures
        views(r@) == round(views(current@), triples_view(matching@)),
{
    let n = current.len();
    let ghost cs = views(current@);
    let ghost mt = triples_view(matching@);
    let mut matched: Vec<bool> = vec![false; n];
    let mut next: Vec<Vec<i32>> = Vec::new();
    let mut p: usize = 0;
    proof {
        assert(matched@ =~= mark(mt, n as int, 0));
    }
    while p < matching.len()
        invariant
            n == current@.len(),
            cs == views(current@),
            mt == triples_view(matching@),
            valid_matching(mt, n as int),
            0 <= p <= matching@.len(),
            matched@ == mark(mt, n as int, p as int),
            matched@.len() == n,
            views(next@) == mt.subrange(0, p as int).map_values(|c: Candidate| c.2),
            next@.len() == p,
        decreases matching@.len() - p,
    {
        let i = matching[p].0;
        let j = matching[p].1;
        assert(mt[p as int].0 == i && mt[p as int].1 == j);
        matched.set(i, true);
        matched.set(j, true);
        let m = matching[p].2.clone();
        assert(m@ == mt[p as int].2);
        let ghost n0 = next@;
        next.push(m);
        p = p + 1;
        proof {
            assert(next@ == n0.push(m));
            assert forall|t: int| 0 <= t < p implies #[trigger] views(next@)[t] == mt.subrange(0, p as int).map_values(|c: Candidate| c.2)[t] by {
                if t < p - 1 {
                    assert(views(n0)[t] == mt.subrange(0, p - 1).map_values(|c: Candidate| c.2)[t]);
                    assert(next@[t] == n0[t]);
                }
            }
            assert(views(next@) =~= mt.subrange(0, p as int).map_values(|c: Candidate| c.2));
        }
    }
    proof {
        assert(mt.subrange(0, p as int) =~= mt);
    }
    let ghost head = views(next@);
    let mut idx: usize = 0;
    while idx < n
        invariant
            n == current@.len(),
            cs == views(current@),
            matched@.len() == n,
            0 <= idx <= n,
            views(next@) == head + keep(cs, matched@, idx as int),
        decreases n - idx,
    {
        if !matched[idx] {
            let c = current[idx].clone();
            assert(c@ == cs[idx as int]);
            let ghost n0 = next@;
            next.push(c);
            proof {
                assert(next@ == n0.push(c));
                assert(views(next@) =~= views(n0).push(cs[idx as int]));
                assert(views(next@) =~= head + keep(cs, matched@, idx + 1));
            }
        }
        idx = idx + 1;
    }
    next
}

/// `c` names two cycles `i < j` of `cs` whose merge is `c.2`.
pub open spec fn cand_ok(cs: Seq<Seq<i32>>, g: Graph, ct: Degree2Contractor, c: Candidate) -> bool {
    0 <= c.0 < c.1 < cs.len() && merge_spec(cs[c.0], cs[c.1], g, ct) == Some(c.2)
}

proof fn lemma_cands_row_sound(cs: Seq<Seq<i32>>, g: Graph, ct: Degree2Contractor, i: int, j: int)
    requires
        0 <= i < j,
    ensures
        forall|q: int| 0 <= q < cands_row(cs, g, ct, i, j).len() ==> cand_ok(cs, g, ct, #[trigger] cands_row(cs, g, ct, i, j)[q]),
    decreases cs.len() - j,
{
    if j < cs.len() {
        lemma_cands_row_sound(cs, g, ct, i, j + 1);
        let rest = cands_row(cs, g, ct, i, j + 1);
        match merge_spec(cs[i], cs[j], g, ct) {
            Some(m) => {
                assert forall|q: int| 0 <= q < cands_row(cs, g, ct, i, j).len() implies cand_ok(cs, g, ct, #[trigger] cands_row(cs, g, ct, i, j)[q]) by {
                    if q > 0 {
                        assert(cands_row(cs, g, ct, i, j)[q] == rest[q - 1]);
                    }
                }
            },
            None => {},
        }
    }
}

proof fn lemma_cands_from_sound(cs: Seq<Seq<i32>>, g: Graph, ct: Degree2Contractor, i: int)
    requires
        0 <= i,
    ensures
        forall|q: int| 0 <= q < cands_from(cs, g, ct, i).len() ==> cand_ok(cs, g, ct, #[trigger] cands_from(cs, g, ct, i)[q]),
    decreases cs.len() - i,
{
    if i < cs.len() {
        lemma_cands_row_sound(cs, g, ct, i, i + 1);
        lemma_cands_from_sound(cs, g, ct, i + 1);
        let a = cands_row(cs, g, ct, i, i + 1);
        let b = cands_from(cs, g, ct, i + 1);
        assert forall|q: int| 0 <= q < cands_from(cs, g, ct, i).len() implies cand_ok(cs, g, ct, #[trigger] cands_from(cs, g, ct, i)[q]) by {
            if q < a.len() {
                assert(cands_from(cs, g, ct, i)[q] == a[q]);
            } else {
                assert(cands_from(cs, g, ct, i)[q] == b[q - a.len()]);
            }
        }
    }
}

/// The selection state is consistent: a valid matching of candidates whose
/// cycles are all recorded as used.
pub open spec fn sel_ok(cs: Seq<Seq<i32>>, g: Graph, ct: Degree2Contractor, used: Set<int>, acc: Seq<Candidate>) -> bool {
    &&& valid_matching(acc, cs.len() as int)
    &&& forall|p: int| 0 <= p < acc.len() ==> cand_ok(cs, g, ct, #[trigger] acc[p])
    &&& forall|p: int| 0 <= p < acc.len() ==> used.contains((#[trigger] acc[p]).0) && used.contains(acc[p].1)
}

proof fn lemma_level_ok(
    cs: Seq<Seq<i32>>,
    g: Graph,
    ct: Degree2Contractor,
    cands: Seq<Candidate>,
    w: int,
    p: int,
    used: Set<int>,
    acc: Seq<Candidate>,
)
    requires
        forall|q: int| 0 <= q < cands.len() ==> cand_ok(cs, g, ct, #[trigger] cands[q]),
        sel_ok(cs, g, ct, used, acc),
    ensures
        sel_ok(cs, g, ct, level(cands, w, p, used, acc).0, level(cands, w, p, used, acc).1),
    decreases cands.len() - p,
{
    if 0 <= p < cands.len() {
        let c = cands[p];
        if c.2.len() == w && !used.contains(c.0) && !used.contains(c.1) {
            let u2 = used.insert(c.0).insert(c.1);
            let a2 = acc.push(c);
            assert(cand_ok(cs, g, ct, c));
            assert forall|x: int, y: int| 0 <= x < y < a2.len() implies (#[trigger] a2[x]).0 != (#[trigger] a2[y]).0
                && a2[x].0 != a2[y].1 && a2[x].1 != a2[y].0 && a2[x].1 != a2[y].1 by {
                if y == acc.len() {
                    assert(used.contains(acc[x].0) && used.contains(acc[x].1));
                } else {
                    assert(a2[x] == acc[x] && a2[y] == acc[y]);
                }
            }
            assert forall|q: int| 0 <= q < a2.len() implies cand_ok(cs, g, ct, #[trigger] a2[q]) by {
                if q < acc.len() {
                    assert(a2[q] == acc[q]);
                }
            }
            assert forall|q: int| 0 <= q < a2.len() implies u2.contains((#[trigger] a2[q]).0) && u2.contains(a2[q].1) by {
                if q < acc.len() {
                    assert(a2[q] == acc[q]);
                }
            }
            lemma_level_ok(cs, g, ct, cands, w, p + 1, u2, a2);
        } else {
            lemma_level_ok(cs, g, ct, cands, w, p + 1, used, acc);
        }
    }
}

proof fn lemma_greedy_ok(
    cs: Seq<Seq<i32>>,
    g: Graph,
    ct: Degree2Contractor,
    cands: Seq<Candidate>,
    w: int,
    used: Set<int>,
    acc: Seq<Candidate>,
)
    requires
        forall|q: int| 0 <= q < cands.len() ==> cand_ok(cs, g, ct, #[trigger] cands[q]),
        sel_ok(cs, g, ct, used, acc),
    ensures
        sel_ok(cs, g, ct, greedy(cands, w, used, acc).0, greedy(cands, w, used, acc).1),
    decreases w + 1,
{
    if w >= 0 {
        lemma_level_ok(cs, g, ct, cands, w, 0, used, acc);
        let r = level(cands, w, 0, used, acc);
        lemma_greedy_ok(cs, g, ct, cands, w - 1, r.0, r.1);
    }
}

/// The greedy matching pairs distinct cycles, uses each cycle at most once,
/// and records for each pair the 2-opt merge of its two cycles.
pub proof fn lemma_matching_valid(cs: Seq<Seq<i32>>, g: Graph, ct: Degree2Contractor)
    ensures
        valid_matching(matching_spec(cs, g, ct), cs.len() as int),
        forall|p: int| 0 <= p < matching_spec(cs, g, ct).len() ==> cand_ok(cs, g, ct, #[trigger] matching_spec(cs, g, ct)[p]),
{
    if cs.len() >= 2 {
        let cands = cands_from(cs, g, ct, 0);
        lemma_cands_from_sound(cs, g, ct, 0);
        lemma_greedy_ok(cs, g, ct, cands, max_weight(cands, cands.len() as int), Set::empty(), Seq::empty());
    }
}

/// Cycle `x` is one of the two cycles of some pair of `acc`.
pub open spec fn index_used(acc: Seq<Candidate>, x: int) -> bool {
    exists|k: int| 0 <= k < acc.len() && ((#[trigger] acc[k]).0 == x || acc[k].1 == x)
}

/// The merged lengths of `acc` never increase along it.
pub open spec fn lengths_nonincreasing(acc: Seq<Candidate>) -> bool {
    forall|a: int, b: int| 0 <= a < b < acc.len() ==> (#[trigger] acc[a]).2.len() >= (#[trigger] acc[b]).2.len()
}

/// The bookkeeping of the greedy selection: the used cycles are exactly
/// those of the chosen pairs, and the chosen lengths never increase and are
/// at least `w`.
pub open spec fn greedy_state(used: Set<int>, acc: Seq<Candidate>, w: int) -> bool {
    &&& forall|x: int| #[trigger] used.contains(x) <==> index_used(acc, x)
    &&& lengths_nonincreasing(acc)
    &&& forall|k: int| 0 <= k < acc.len() ==> (#[trigger] acc[k]).2.len() >= w
}

proof fn lemma_level_order(cands: Seq<Candidate>, w: int, p: int, used: Set<int>, acc: Seq<Candidate>)
    requires
        p >= 0,
        greedy_state(used, acc, w),
    ensures
        greedy_state(level(cands, w, p, used, acc).0, level(cands, w, p, used, acc).1, w),
        used.subset_of(level(cands, w, p, used, acc).0),
        forall|q: int|
            p <= q < cands.len() && (#[trigger] cands[q]).2.len() == w ==> level(cands, w, p, used, acc).0.contains(cands[q].0)
                || level(cands, w, p, used, acc).0.contains(cands[q].1),
    decreases cands.len() - p,
{
    if 0 <= p < cands.len() {
        let c = cands[p];
        if c.2.len() == w && !used.contains(c.0) && !used.contains(c.1) {
            let u2 = used.insert(c.0).insert(c.1);
            let a2 = acc.push(c);
            assert forall|x: int| #[trigger] u2.contains(x) <==> index_used(a2, x) by {
                if u2.contains(x) {
                    if used.contains(x) {
                        let k = choose|k: int| 0 <= k < acc.len() && ((#[trigger] acc[k]).0 == x || acc[k].1 == x);
                        assert(a2[k] == acc[k]);
                    } else {
                        assert(a2[acc.len() as int] == c);
                    }
                }
                if index_used(a2, x) {
                    let k = choose|k: int| 0 <= k < a2.len() && ((#[trigger] a2[k]).0 == x || a2[k].1 == x);
                    if k < acc.len() {
                        assert(a2[k] == acc[k]);
                        assert(index_used(acc, x));
                    }
                }
            }
            assert forall|a: int, b: int| 0 <= a < b < a2.len() implies (#[trigger] a2[a]).2.len() >= (#[trigger] a2[b]).2.len() by {
                assert(a2[a] == acc[a]);
                if b < acc.len() {
                    assert(a2[b] == acc[b]);
                }
            }
            assert forall|k: int| 0 <= k < a2.len() implies (#[trigger] a2[k]).2.len() >= w by {
                if k < acc.len() {
                    assert(a2[k] == acc[k]);
                }
            }
            lemma_level_order(cands, w, p + 1, u2, a2);
            assert(level(cands, w, p, used, acc) == level(cands, w, p + 1, u2, a2));
            assert(u2.contains(c.0));
        } else {
            lemma_level_order(cands, w, p + 1, used, acc);
            assert(level(cands, w, p, used, acc) == level(cands, w, p + 1, used, acc));
        }
        let r = level(cands, w, p, used, acc);
        assert forall|q: int|
            p <= q < cands.len() && (#[trigger] cands[q]).2.len() == w implies r.0.contains(cands[q].0) || r.0.contains(cands[q].1) by {
            if q == p {
                assert(cands[q] == c);
            }
        }
    }
}

proof fn lemma_greedy_order(cands: Seq<Candidate>, w: int, used: Set<int>, acc: Seq<Candidate>)
    requires
        greedy_state(used, acc, w + 1),
    ensures
        greedy_state(greedy(cands, w, used, acc).0, greedy(cands, w, used, acc).1, 0),
        forall|q: int|
            0 <= q < cands.len() && (#[trigger] cands[q]).2.len() <= w ==> greedy(cands, w, used, acc).0.contains(cands[q].0)
                || greedy(cands, w, used, acc).0.contains(cands[q].1),
    decreases w + 1,
{
    if w >= 0 {
        lemma_level_order(cands, w, 0, used, acc);
        let r = level(cands, w, 0, used, acc);
        lemma_greedy_order(cands, w - 1, r.0, r.1);
        lemma_greedy_mono(cands, w - 1, r.0, r.1);
    } else {
        assert forall|k: int| 0 <= k < acc.len() implies (#[trigger] acc[k]).2.len() >= 0 by {}
    }
}

/// The used set only grows.
proof fn lemma_greedy_mono(cands: Seq<Candidate>, w: int, used: Set<int>, acc: Seq<Candidate>)
    requires
        greedy_state(used, acc, w + 1),
    ensures
        used.subset_of(greedy(cands, w, used, acc).0),
    decreases w + 1,
{
    if w >= 0 {
        lemma_level_order(cands, w, 0, used, acc);
        let r = level(cands, w, 0, used, acc);
        lemma_greedy_mono(cands, w - 1, r.0, r.1);
    }
}

proof fn lemma_cands_row_complete(cs: Seq<Seq<i32>>, g: Graph, ct: Degree2Contractor, i: int, j: int, j2: int)
    requires
        0 <= i < j <= j2 < cs.len(),
        merge_spec(cs[i], cs[j2], g, ct) is Some,
    ensures
        cands_row(cs, g, ct, i, j).contains((i, j2, merge_spec(cs[i], cs[j2], g, ct)->0)),
    decreases j2 - j,
{
    let rest = cands_row(cs, g, ct, i, j + 1);
    if j == j2 {
        assert(cands_row(cs, g, ct, i, j)[0] == (i, j2, merge_spec(cs[i], cs[j2], g, ct)->0));
    } else {
        lemma_cands_row_complete(cs, g, ct, i, j + 1, j2);
        let c = (i, j2, merge_spec(cs[i], cs[j2], g, ct)->0);
        let k = choose|k: int| 0 <= k < rest.len() && rest[k] == c;
        match merge_spec(cs[i], cs[j], g, ct) {
            Some(m) => {
                assert(cands_row(cs, g, ct, i, j)[k + 1] == c);
            },
            None => {
                assert(cands_row(cs, g, ct, i, j)[k] == c);
            },
        }
    }
}

proof fn lemma_cands_from_complete(cs: Seq<Seq<i32>>, g: Graph, ct: Degree2Contractor, i: int, i2: int, j2: int)
    requires
        0 <= i <= i2 < j2 < cs.len(),
        merge_spec(cs[i2], cs[j2], g, ct) is Some,
    ensures
        cands_from(cs, g, ct, i).contains((i2, j2, merge_spec(cs[i2], cs[j2], g, ct)->0)),
    decreases i2 - i,
{
    let a = cands_row(cs, g, ct, i, i + 1);
    let b = cands_from(cs, g, ct, i + 1);
    let c = (i2, j2, merge_spec(cs[i2], cs[j2], g, ct)->0);
    assert(cands_from(cs, g, ct, i) == a + b);
    if i == i2 {
        lemma_cands_row_complete(cs, g, ct, i, i + 1, j2);
        let k = choose|k: int| 0 <= k < a.len() && a[k] == c;
        assert((a + b)[k] == c);
    } else {
        lemma_cands_from_complete(cs, g, ct, i + 1, i2, j2);
        let k = choose|k: int| 0 <= k < b.len() && b[k] == c;
        assert((a + b)[a.len() + k] == c);
    }
}

/// The matching is greedy by merged length: its pairs come in order of
/// non-increasing merged length, and it is maximal: of every two cycles
/// `i < j` that can be merged, at least one is matched.
pub proof fn lemma_matching_greedy(cs: Seq<Seq<i32>>, g: Graph, ct: Degree2Contractor)
    ensures
        lengths_nonincreasing(matching_spec(cs, g, ct)),
        forall|i: int, j: int|
            0 <= i < j < cs.len() && #[trigger] merge_spec(cs[i], cs[j], g, ct) is Some ==> index_used(matching_spec(cs, g, ct), i)
                || index_used(matching_spec(cs, g, ct), j),
{
    if cs.len() >= 2 {
        let cands = cands_from(cs, g, ct, 0);
        let top = max_weight(cands, cands.len() as int);
        lemma_max_weight(cands, cands.len() as int);
        assert(greedy_state(Set::empty(), Seq::empty(), top + 1)) by {
            assert forall|x: int| #[trigger] Set::<int>::empty().contains(x) <==> index_used(Seq::<Candidate>::empty(), x) by {}
        }
        lemma_greedy_order(cands, top, Set::empty(), Seq::empty());
        let r = greedy(cands, top, Set::empty(), Seq::empty());
        assert forall|i: int, j: int|
            0 <= i < j < cs.len() && #[trigger] merge_spec(cs[i], cs[j], g, ct) is Some implies index_used(r.1, i) || index_used(r.1, j) by {
            lemma_cands_from_complete(cs, g, ct, 0, i, j);
            let c = (i, j, merge_spec(cs[i], cs[j], g, ct)->0);
            let q = choose|q: int| 0 <= q < cands.len() && cands[q] == c;
            assert(cands[q].2.len() <= top);
            assert(r.0.contains(i) || r.0.contains(j));
        }
    } else {
        assert(matching_spec(cs, g, ct) == Seq::<Candidate>::empty());
    }
}

proof fn lemma_mark(mt: Seq<Candidate>, n: int, p: int)
    requires
        valid_matching(mt, n),
        0 <= p <= mt.len(),
        n >= 0,
    ensures
        mark(mt, n, p).len() == n,
        forall|k: int| 0 <= k < n ==> (#[trigger] mark(mt, n, p)[k] <==> exists|q: int| 0 <= q < p && (mt[q].0 == k || mt[q].1 == k)),
    decreases p,
{
    if p > 0 {
        lemma_mark(mt, n, p - 1);
        let c = mt[p - 1];
        assert forall|k: int| 0 <= k < n implies (#[trigger] mark(mt, n, p)[k] <==> exists|q: int| 0 <= q < p && (mt[q].0 == k || mt[q].1 == k)) by {
            if mark(mt, n, p - 1)[k] {
                let q = choose|q: int| 0 <= q < p - 1 && (mt[q].0 == k || mt[q].1 == k);
                assert(0 <= q < p && (mt[q].0 == k || mt[q].1 == k));
            }
            if k == c.0 || k == c.1 {
                assert(0 <= p - 1 < p && (mt[p - 1].0 == k || mt[p - 1].1 == k));
            }
            if exists|q: int| 0 <= q < p && (mt[q].0 == k || mt[q].1 == k) {
                let q = choose|q: int| 0 <= q < p && (mt[q].0 == k || mt[q].1 == k);
                if q < p - 1 {
                    assert(exists|q2: int| 0 <= q2 < p - 1 && (mt[q2].0 == k || mt[q2].1 == k));
                }
            }
        }
    } else {
        assert forall|k: int| 0 <= k < n implies !(#[trigger] mark(mt, n, p)[k]) by {}
    }
}

proof fn lemma_merged_ms(cs: Seq<Seq<i32>>, g: Graph, ct: Degree2Contractor, mt: Seq<Candidate>, p: int)
    requires
        valid_matching(mt, cs.len() as int),
        forall|q: int| 0 <= q < mt.len() ==> cand_ok(cs, g, ct, #[trigger] mt[q]),
        0 <= p <= mt.len(),
    ensures
        ms_all(mt.subrange(0, p).map_values(|c: Candidate| c.2)) == flagged_ms(cs, mark(mt, cs.len() as int, p), cs.len() as int),
    decreases p,
{
    let n = cs.len() as int;
    if p == 0 {
        assert(mt.subrange(0, 0).map_values(|c: Candidate| c.2) =~= Seq::<Seq<i32>>::empty());
        lemma_flagged_none(cs, mark(mt, n, 0), n);
    } else {
        lemma_merged_ms(cs, g, ct, mt, p - 1);
        lemma_mark(mt, n, p - 1);
        let c = mt[p - 1];
        assert(cand_ok(cs, g, ct, c));
        lemma_merge_sound(cs[c.0], cs[c.1], g, ct);
        let f = mark(mt, n, p - 1);
        assert(!f[c.0]) by {
            if f[c.0] {
                let q = choose|q: int| 0 <= q < p - 1 && (mt[q].0 == c.0 || mt[q].1 == c.0);
                assert(mt[q].0 != mt[p - 1].0 && mt[q].1 != mt[p - 1].0);
            }
        }
        assert(!f[c.1]) by {
            if f[c.1] {
                let q = choose|q: int| 0 <= q < p - 1 && (mt[q].0 == c.1 || mt[q].1 == c.1);
                assert(mt[q].0 != mt[p - 1].1 && mt[q].1 != mt[p - 1].1);
            }
        }
        lemma_flagged_flip(cs, f, c.0, n);
        lemma_flagged_flip(cs, f.update(c.0, true), c.1, n);
        assert(mt.subrange(0, p).map_values(|c: Candidate| c.2) =~= mt.subrange(0, p - 1).map_values(|c: Candidate| c.2).push(c.2));
        lemma_ms_all_push(mt.subrange(0, p - 1).map_values(|c: Candidate| c.2), c.2);
        assert(ms_all(mt.subrange(0, p).map_values(|c: Candidate| c.2)) =~= flagged_ms(cs, mark(mt, n, p), n));
    }
}

proof fn lemma_flagged_none(cs: Seq<Seq<i32>>, f: Seq<bool>, n: int)
    requires
        n <= f.len(),
        forall|k: int| 0 <= k < n ==> !f[k],
    ensures
        flagged_ms(cs, f, n) == Multiset::<i32>::empty(),
    decreases n,
{
    if n > 0 {
        lemma_flagged_none(cs, f, n - 1);
    }
    assert(ms_all(Seq::<Seq<i32>>::empty()) == Multiset::<i32>::empty());
}

proof fn lemma_keep_ms(cs: Seq<Seq<i32>>, f: Seq<bool>, n: int)
    requires
        0 <= n <= f.len(),
        n <= cs.len(),
    ensures
        ms_all(keep(cs, f, n)) == flagged_ms(cs, negate(f), n),
        forall|x: int| 0 <= x < keep(cs, f, n).len() ==> exists|k: int| 0 <= k < n && #[trigger] keep(cs, f, n)[x] == cs[k],
    decreases n,
{
    if n == 0 {
        assert(ms_all(Seq::<Seq<i32>>::empty()) == Multiset::<i32>::empty());
    } else {
        lemma_keep_ms(cs, f, n - 1);
        let prev = keep(cs, f, n - 1);
        if !f[n - 1] {
            lemma_ms_all_push(prev, cs[n - 1]);
            assert forall|x: int| 0 <= x < keep(cs, f, n).len() implies exists|k: int| 0 <= k < n && #[trigger] keep(cs, f, n)[x] == cs[k] by {
                if x < prev.len() {
                    assert(keep(cs, f, n)[x] == prev[x]);
                    let k = choose|k: int| 0 <= k < n - 1 && prev[x] == cs[k];
                    assert(0 <= k < n && keep(cs, f, n)[x] == cs[k]);
                } else {
                    assert(keep(cs, f, n)[x] == cs[n - 1]);
                }
            }
        } else {
            assert forall|x: int| 0 <= x < keep(cs, f, n).len() implies exists|k: int| 0 <= k < n && #[trigger] keep(cs, f, n)[x] == cs[k] by {
                let k = choose|k: int| 0 <= k < n - 1 && prev[x] == cs[k];
                assert(0 <= k < n && keep(cs, f, n)[x] == cs[k]);
            }
        }
    }
}

/// One matching round keeps the multiset of all vertex occurrences, and every
/// member of the new family is a merged closed walk or an old member.
pub proof fn lemma_round_sound(cs: Seq<Seq<i32>>, g: Graph, ct: Degree2Contractor)
    ensures
        ms_all(round(cs, matching_spec(cs, g, ct))) == ms_all(cs),
        all_closed_walks(g, cs) ==> all_closed_walks(g, round(cs, matching_spec(cs, g, ct))),
{
    let n = cs.len() as int;
    let mt = matching_spec(cs, g, ct);
    lemma_matching_valid(cs, g, ct);
    lemma_mark(mt, n, mt.len() as int);
    let f = mark(mt, n, mt.len() as int);
    lemma_merged_ms(cs, g, ct, mt, mt.len() as int);
    assert(mt.subrange(0, mt.len() as int) =~= mt);
    lemma_keep_ms(cs, f, n);
    let merged = mt.map_values(|c: Candidate| c.2);
    lemma_ms_all_concat(merged, keep(cs, f, n));
    lemma_flagged_split(cs, f, n);
    assert(cs.subrange(0, n) =~= cs);
    if all_closed_walks(g, cs) {
        let r = round(cs, mt);
        assert forall|k: int| 0 <= k < r.len() implies crate::tour::closed_walk(g, #[trigger] r[k]) by {
            if k < merged.len() {
                let c = mt[k];
                assert(cand_ok(cs, g, ct, c));
                lemma_merge_sound(cs[c.0], cs[c.1], g, ct);
                assert(r[k] == c.2);
            } else {
                assert(r[k] == keep(cs, f, n)[k - merged.len()]);
                let j = choose|j: int| 0 <= j < n && keep(cs, f, n)[k - merged.len()] == cs[j];
            }
        }
    }
}

proof fn lemma_iterate_sound(cs: Seq<Seq<i32>>, g: Graph, ct: Degree2Contractor, k: int)
    ensures
        ms_all(iterate_rounds(cs, g, ct, k)) == ms_all(cs),
        all_closed_walks(g, cs) ==> all_closed_walks(g, iterate_rounds(cs, g, ct, k)),
    decreases k,
{
    if k > 0 && cs.len() > 1 && matching_spec(cs, g, ct).len() != 0 {
        lemma_round_sound(cs, g, ct);
        lemma_iterate_sound(round(cs, matching_spec(cs, g, ct)), g, ct, k - 1);
    }
}

/// Matching-based patching neither loses nor duplicates a vertex occurrence,
/// and turns a family of closed walks into a family of closed walks.
pub proof fn lemma_patch_matching_sound(cs: Seq<Seq<i32>>, g: Graph, ct: Degree2Contractor)
    ensures
        ms_all(patch_matching_spec(cs, g, ct)) == ms_all(cs),
        all_closed_walks(g, cs) ==> all_closed_walks(g, patch_matching_spec(cs, g, ct)),
{
    if cs.len() > 1 {
        lemma_iterate_sound(cs, g, ct, 2 * cs.len() as int);
    }
}

} // verus!
