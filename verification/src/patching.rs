//! Hub patching: satellite subcycles are spliced into the main cycle next to a
//! hub vertex that the main cycle visits.
use crate::contraction::{is_safe_to_break, Degree2Contractor};
use crate::cycle_family::{
    all_closed_walks, lemma_ms_all_concat, lemma_ms_all_remove, lemma_ms_all_single, lemma_rev_from,
    lemma_rot_split, lemma_splice_ms, ms_all, rev_from, rot, splice_after, views,
};
use crate::graph::{vec_contains, Graph};
use crate::hub_registry::HubRegistry;
use crate::matching_patcher::clone_cycles;
use crate::splice::{rev_from_vec, rot_vec, splice_vec};
use crate::tour::{closed_walk, is_closed_walk};
use vstd::prelude::*;

verus! {

broadcast use vstd::seq_lib::group_to_multiset_ensures;

pub struct HubPatcher;

/// The first position of `x` in `s`.
pub open spec fn first_pos(s: Seq<i32>, x: i32) -> int
    decreases s.len(),
{
    if s.len() == 0 || s[0] == x {
        0
    } else {
        first_pos(s.drop_first(), x) + 1
    }
}

/// The satellite read from the break after position `j`, in the two
/// orientations: backwards from `j` (`rev == true`) or forwards from `j + 1`.
pub open spec fn sat_seq(sat: Seq<i32>, j: int, rev: bool) -> Seq<i32> {
    if rev {
        rev_from(sat, j)
    } else {
        rot(sat, j + 1)
    }
}

/// The satellite inserted between the hub (at `p`) and its successor.
pub open spec fn side1(main: Seq<i32>, p: int, s: Seq<i32>) -> Seq<i32> {
    splice_after(main, p, s)
}

/// The satellite inserted between the predecessor of the hub and the hub.
pub open spec fn side2(main: Seq<i32>, p: int, s: Seq<i32>) -> Seq<i32> {
    if p > 0 {
        splice_after(main, p - 1, s)
    } else {
        splice_after(main, main.len() - 1, s)
    }
}

/// The splice of the satellite at the hub that breaks satellite edge `j`:
/// the four attempts in order (after the hub, two orientations; before the
/// hub, two orientations); each needs its break edges to be safe, its two
/// connecting edges in `g`, and the result to be a closed walk.
pub open spec fn hub_splice_at(
    main: Seq<i32>,
    sat: Seq<i32>,
    hub: i32,
    g: Graph,
    ct: Degree2Contractor,
    p: int,
    j: int,
) -> Option<Seq<i32>> {
    let k = main.len() as int;
    let r = sat.len() as int;
    let pred = main[(p + k - 1) % k];
    let succ = main[(p + 1) % k];
    let w = sat[j];
    let w1 = sat[(j + 1) % r];
    let a1 = side1(main, p, sat_seq(sat, j, true));
    let b1 = side1(main, p, sat_seq(sat, j, false));
    let a2 = side2(main, p, sat_seq(sat, j, true));
    let b2 = side2(main, p, sat_seq(sat, j, false));
    if ct.guarded(w, w1) {
        None
    } else if !ct.guarded(hub, succ) && g.has_edge(hub, w) && g.has_edge(w1, succ) && closed_walk(g, a1) {
        Some(a1)
    } else if !ct.guarded(hub, succ) && g.has_edge(hub, w1) && g.has_edge(w, succ) && closed_walk(g, b1) {
        Some(b1)
    } else if !ct.guarded(pred, hub) && g.has_edge(pred, w) && g.has_edge(w1, hub) && closed_walk(g, a2) {
        Some(a2)
    } else if !ct.guarded(pred, hub) && g.has_edge(pred, w1) && g.has_edge(w, hub) && closed_walk(g, b2) {
        Some(b2)
    } else {
        None
    }
}

/// The first splice over satellite edges `j' >= j`.
pub open spec fn hub_splice_scan(
    main: Seq<i32>,
    sat: Seq<i32>,
    hub: i32,
    g: Graph,
    ct: Degree2Contractor,
    p: int,
    j: int,
) -> Option<Seq<i32>>
    decreases sat.len() - j,
{
    if j < 0 || j >= sat.len() {
        None
    } else {
        match hub_splice_at(main, sat, hub, g, ct, p, j) {
            Some(m) => Some(m),
            None => hub_splice_scan(main, sat, hub, g, ct, p, j + 1),
        }
    }
}

/// What `try_splice_subcycle_at_hub` does to the main cycle: the first valid
/// splice at the first occurrence of the hub, or nothing (main shorter than
/// three, satellite shorter than two, or hub absent).
pub open spec fn hub_splice_spec(main: Seq<i32>, sat: Seq<i32>, hub: i32, g: Graph, ct: Degree2Contractor) -> Option<
    Seq<i32>,
> {
    if main.len() < 3 || sat.len() < 2 || !main.contains(hub) {
        None
    } else {
        hub_splice_scan(main, sat, hub, g, ct, first_pos(main, hub), 0)
    }
}

/// Tries the remaining satellites from position `i` on at hub `h`; spliced
/// satellites leave the list. The flag says whether any splice happened.
pub open spec fn hub_inner(
    main: Seq<i32>,
    rem: Seq<Seq<i32>>,
    h: i32,
    g: Graph,
    ct: Degree2Contractor,
    i: int,
) -> (Seq<i32>, Seq<Seq<i32>>, bool)
    decreases rem.len() - i,
{
    if i < 0 || i >= rem.len() {
        (main, rem, false)
    } else {
        match hub_splice_spec(main, rem[i], h, g, ct) {
            Some(m) => {
                let r = hub_inner(m, rem.remove(i), h, g, ct, i);
                (r.0, r.1, true)
            },
            None => hub_inner(main, rem, h, g, ct, i + 1),
        }
    }
}

/// One pass over the hubs from position `t`, stopping once no satellite remains.
pub open spec fn hub_pass(
    main: Seq<i32>,
    rem: Seq<Seq<i32>>,
    hubs: Seq<i32>,
    g: Graph,
    ct: Degree2Contractor,
    t: int,
) -> (Seq<i32>, Seq<Seq<i32>>, bool)
    decreases hubs.len() - t,
{
    if t < 0 || t >= hubs.len() {
        (main, rem, false)
    } else if !main.contains(hubs[t]) {
        hub_pass(main, rem, hubs, g, ct, t + 1)
    } else {
        let r = hub_inner(main, rem, hubs[t], g, ct, 0);
        if r.1.len() == 0 {
            r
        } else {
            let r2 = hub_pass(r.0, r.1, hubs, g, ct, t + 1);
            (r2.0, r2.1, r.2 || r2.2)
        }
    }
}

pub proof fn lemma_inner_shrinks(main: Seq<i32>, rem: Seq<Seq<i32>>, h: i32, g: Graph, ct: Degree2Contractor, i: int)
    ensures
        hub_inner(main, rem, h, g, ct, i).1.len() <= rem.len(),
        hub_inner(main, rem, h, g, ct, i).2 ==> hub_inner(main, rem, h, g, ct, i).1.len() < rem.len(),
    decreases rem.len() - i,
{
    if 0 <= i < rem.len() {
        match hub_splice_spec(main, rem[i], h, g, ct) {
            Some(m) => lemma_inner_shrinks(m, rem.remove(i), h, g, ct, i),
            None => lemma_inner_shrinks(main, rem, h, g, ct, i + 1),
        }
    }
}

pub proof fn lemma_pass_shrinks(main: Seq<i32>, rem: Seq<Seq<i32>>, hubs: Seq<i32>, g: Graph, ct: Degree2Contractor, t: int)
    ensures
        hub_pass(main, rem, hubs, g, ct, t).1.len() <= rem.len(),
        hub_pass(main, rem, hubs, g, ct, t).2 ==> hub_pass(main, rem, hubs, g, ct, t).1.len() < rem.len(),
    decreases hubs.len() - t,
{
    if 0 <= t < hubs.len() {
        if !main.contains(hubs[t]) {
            lemma_pass_shrinks(main, rem, hubs, g, ct, t + 1);
        } else {
            lemma_inner_shrinks(main, rem, hubs[t], g, ct, 0);
            let r = hub_inner(main, rem, hubs[t], g, ct, 0);
            if r.1.len() != 0 {
                lemma_pass_shrinks(r.0, r.1, hubs, g, ct, t + 1);
            }
        }
    }
}

/// Passes over the hubs until a pass splices nothing or no satellite remains.
pub open spec fn hub_rounds(main: Seq<i32>, rem: Seq<Seq<i32>>, hubs: Seq<i32>, g: Graph, ct: Degree2Contractor) -> (
    Seq<i32>,
    Seq<Seq<i32>>,
)
    decreases rem.len(),
{
    if rem.len() == 0 {
        (main, rem)
    } else {
        let r = hub_pass(main, rem, hubs, g, ct, 0);
        if !r.2 {
            (r.0, r.1)
        } else {
            proof {
                lemma_pass_shrinks(main, rem, hubs, g, ct, 0);
            }
            hub_rounds(r.0, r.1, hubs, g, ct)
        }
    }
}

/// The position of a longest cycle; the last one among equally long cycles.
pub open spec fn last_longest(cs: Seq<Seq<i32>>, k: int) -> int
    decreases k,
{
    if k <= 1 {
        0
    } else {
        let b = last_longest(cs, k - 1);
        if cs[k - 1].len() >= cs[b].len() {
            k - 1
        } else {
            b
        }
    }
}

proof fn lemma_last_longest(cs: Seq<Seq<i32>>, k: int)
    requires
        1 <= k <= cs.len(),
    ensures
        0 <= last_longest(cs, k) < k,
    decreases k,
{
    if k > 1 {
        lemma_last_longest(cs, k - 1);
    }
}

/// What `patch_cycles_via_hubs` returns: the input when it has at most one
/// cycle or there is no hub; otherwise the main cycle (a longest input cycle)
/// after all splices, followed by the satellites left over in input order.
pub open spec fn patch_hubs_spec(cs: Seq<Seq<i32>>, hubs: Seq<i32>, g: Graph, ct: Degree2Contractor) -> Seq<Seq<i32>> {
    if cs.len() <= 1 || hubs.len() == 0 {
        cs
    } else {
        let mi = last_longest(cs, cs.len() as int);
        let r = hub_rounds(cs[mi], cs.remove(mi), hubs, g, ct);
        seq![r.0] + r.1
    }
}

/// The first `k` members of `cs`, without member `mi`.
pub open spec fn prefix_without(cs: Seq<Seq<i32>>, mi: int, k: int) -> Seq<Seq<i32>> {
    if k <= mi {
        cs.subrange(0, k)
    } else {
        cs.subrange(0, k).remove(mi)
    }
}

/// The first position of `x` in `s`, if any.
pub fn position_of(s: &[i32], x: i32) -> (r: Option<usize>)
    ensures
        match r {
            Some(p) => p < s@.len() && s@[p as int] == x && forall|q: int| 0 <= q < p ==> s@[q] != x,
            None => !s@.contains(x),
        },
{
    let mut i: usize = 0;
    while i < s.len()
        invariant
            0 <= i <= s@.len(),
            forall|q: int| 0 <= q < i ==> s@[q] != x,
        decreases s@.len() - i,
    {
        if s[i] == x {
            return Some(i);
        }
        i = i + 1;
    }
    None
}

proof fn lemma_first_pos(s: Seq<i32>, x: i32, p: int)
    requires
        0 <= p < s.len(),
        s[p] == x,
        forall|q: int| 0 <= q < p ==> s[q] != x,
    ensures
        first_pos(s, x) == p,
    decreases p,
{
    if p > 0 {
        let t = s.drop_first();
        assert forall|q: int| 0 <= q < p - 1 implies t[q] != x by {
            assert(t[q] == s[q + 1]);
        }
        lemma_first_pos(t, x, p - 1);
    }
}

fn build_spliced_cycle_side1(main_cycle: &[i32], p: usize, sat_seq: &[i32]) -> (r: Vec<i32>)
    requires
        p < main_cycle@.len(),
    ensures
        r@ == side1(main_cycle@, p as int, sat_seq@),
{
    splice_vec(main_cycle, p, sat_seq)
}

fn build_spliced_cycle_side2(main_cycle: &[i32], p: usize, sat_seq: &[i32]) -> (r: Vec<i32>)
    requires
        p < main_cycle@.len(),
    ensures
        r@ == side2(main_cycle@, p as int, sat_seq@),
{
    if p > 0 {
        splice_vec(main_cycle, p - 1, sat_seq)
    } else {
        splice_vec(main_cycle, main_cycle.len() - 1, sat_seq)
    }
}

impl HubPatcher {
    /// Splicing multiple satellite subcycles into a primary cycle visiting super-hubs.
    ///
    /// If all subcycles are successfully merged into one, returns `vec![main_cycle]`.
    /// Otherwise, returns `[main_cycle, remaining_cycles...]`.
    pub fn patch_cycles_via_hubs(
        cycles: &[Vec<i32>],
        g: &Graph,
        contractor: &Degree2Contractor,
        hub_registry: &HubRegistry,
    ) -> (r: Vec<Vec<i32>>)
        requires
            contractor.wf(),
        ensures
            views(r@) == patch_hubs_spec(views(cycles@), hub_registry.hub_vertices@, *g, *contractor),
    {
        let n = cycles.len();
        let hubs = &hub_registry.hub_vertices;
        if n <= 1 || hubs.len() == 0 {
            return clone_cycles(cycles);
        }
        let ghost cs = views(cycles@);
        let mut max_idx: usize = 0;
        let mut k: usize = 1;
        while k < n
            invariant
                n == cycles@.len(),
                cs == views(cycles@),
                1 <= k <= n,
                max_idx < k,
                max_idx == last_longest(cs, k as int),
            decreases n - k,
        {
            if cycles[k].len() >= cycles[max_idx].len() {
                max_idx = k;
            }
            k = k + 1;
        }
        proof {
            lemma_last_longest(cs, n as int);
        }
        let mut main_cycle = cycles[max_idx].clone();
        let mut remaining: Vec<Vec<i32>> = Vec::new();
        let mut k: usize = 0;
        while k < n
            invariant
                n == cycles@.len(),
                cs == views(cycles@),
                max_idx < n,
                0 <= k <= n,
                views(remaining@) == prefix_without(cs, max_idx as int, k as int),
            decreases n - k,
        {
            if k != max_idx {
                let c = cycles[k].clone();
                let ghost r0 = remaining@;
                remaining.push(c);
                proof {
                    assert(remaining@ == r0.push(c));
                    assert(views(remaining@) =~= views(r0).push(cs[k as int]));
                    assert(prefix_without(cs, max_idx as int, k + 1) =~= prefix_without(cs, max_idx as int, k as int).push(cs[k as int]));
                }
            } else {
                proof {
                    assert(prefix_without(cs, max_idx as int, k + 1) =~= prefix_without(cs, max_idx as int, k as int));
                }
            }
            k = k + 1;
        }
        proof {
            assert(views(remaining@) =~= cs.remove(max_idx as int));
        }
        let ghost m0 = main_cycle@;
        let ghost r0 = views(remaining@);
        let mut progress = true;
        while progress && remaining.len() > 0
            invariant
                contractor.wf(),
                hubs@ == hub_registry.hub_vertices@,
                progress ==> hub_rounds(m0, r0, hubs@, *g, *contractor) == hub_rounds(
                    main_cycle@,
                    views(remaining@),
                    hubs@,
                    *g,
                    *contractor,
                ),
                !progress ==> hub_rounds(m0, r0, hubs@, *g, *contractor) == (main_cycle@, views(remaining@)),
            decreases remaining@.len() + (if progress { 1int } else { 0int }),
        {
            let ghost ms = main_cycle@;
            let ghost rs = views(remaining@);
            progress = false;
            let mut t: usize = 0;
            let mut done = false;
            while t < hubs.len() && !done
                invariant
                    contractor.wf(),
                    rs.len() > 0,
                    0 <= t <= hubs@.len(),
                    remaining@.len() <= rs.len(),
                    progress ==> remaining@.len() < rs.len(),
                    ({
                        let pp = hub_pass(ms, rs, hubs@, *g, *contractor, 0);
                        let q = hub_pass(main_cycle@, views(remaining@), hubs@, *g, *contractor, t as int);
                        if done {
                            pp == (main_cycle@, views(remaining@), progress)
                        } else {
                            pp.0 == q.0 && pp.1 == q.1 && pp.2 == (progress || q.2) && remaining@.len() > 0
                        }
                    }),
                decreases hubs@.len() - t + (if done { 0int } else { 1int }),
            {
                let h = hubs[t];
                if !vec_contains(&main_cycle, h) {
                    t = t + 1;
                } else {
                    let ghost mt = main_cycle@;
                    let ghost rt = views(remaining@);
                    let ghost p0 = progress;
                    let mut i: usize = 0;
                    while i < remaining.len()
                        invariant
                            contractor.wf(),
                            0 <= i <= remaining@.len(),
                            remaining@.len() <= rt.len(),
                            rt.len() <= rs.len(),
                            p0 ==> rt.len() < rs.len(),
                            progress ==> remaining@.len() < rs.len(),
                            ({
                                let ii = hub_inner(mt, rt, h, *g, *contractor, 0);
                                let q = hub_inner(main_cycle@, views(remaining@), h, *g, *contractor, i as int);
                                ii.0 == q.0 && ii.1 == q.1 && (p0 || ii.2) == (progress || q.2)
                            }),
                        decreases remaining@.len() - i,
                    {
                        let ghost before = views(remaining@);
                        let ghost mb = main_cycle@;
                        proof {
                            assert(before[i as int] == remaining@[i as int]@);
                        }
                        if Self::try_splice_subcycle_at_hub(&mut main_cycle, &remaining[i], h, g, contractor) {
                            remaining.remove(i);
                            proof {
                                assert(views(remaining@) =~= before.remove(i as int));
                            }
                            progress = true;
                        } else {
                            i = i + 1;
                        }
                    }
                    if remaining.len() == 0 {
                        done = true;
                    } else {
                        t = t + 1;
                    }
                }
            }
        }
        let mut result: Vec<Vec<i32>> = Vec::new();
        result.push(main_cycle);
        let ghost head = views(result@);
        let mut k: usize = 0;
        while k < remaining.len()
            invariant
                0 <= k <= remaining@.len(),
                head.len() == 1,
                result@.len() == k + 1,
                views(result@) == head + views(remaining@).subrange(0, k as int),
            decreases remaining@.len() - k,
        {
            let c = remaining[k].clone();
            let ghost b = result@;
            result.push(c);
            proof {
                assert(result@ == b.push(c));
                assert(c@ == views(remaining@)[k as int]);
                assert forall|t: int| 0 <= t < k + 2 implies #[trigger] views(result@)[t] == (head + views(remaining@).subrange(0, k + 1))[t] by {
                    if t < k + 1 {
                        assert(views(b)[t] == (head + views(remaining@).subrange(0, k as int))[t]);
                        assert(result@[t] == b[t]);
                    }
                }
                assert(views(result@) =~= head + views(remaining@).subrange(0, k + 1));
            }
            k = k + 1;
        }
        proof {
            assert(views(remaining@).subrange(0, k as int) =~= views(remaining@));
        }
        result
    }

    /// Attempts to splice a satellite subcycle into `main_cycle` at a specified `hub` vertex.
    ///
    /// Returns `true` if spliced successfully, modifying `main_cycle` in place;
    /// a splice is made whenever one is possible on either side of the hub.
    pub fn try_splice_subcycle_at_hub(
        main_cycle: &mut Vec<i32>,
        satellite_cycle: &[i32],
        hub: i32,
        g: &Graph,
        contractor: &Degree2Contractor,
    ) -> (b: bool)
        requires
            contractor.wf(),
        ensures
            match hub_splice_spec(old(main_cycle)@, satellite_cycle@, hub, *g, *contractor) {
                Some(m) => b && final(main_cycle)@ == m,
                None => !b && final(main_cycle)@ == old(main_cycle)@,
            },
            forall|j: int| #[trigger] hub_splice_possible(old(main_cycle)@, satellite_cycle@, hub, *g, *contractor, j) ==> b,
            b ==> hub_spliced_somewhere(old(main_cycle)@, satellite_cycle@, hub, *g, *contractor, final(main_cycle)@),
    {
        let k = main_cycle.len();
        let r = satellite_cycle.len();
        if k < 3 || r < 2 {
            return false;
        }
        let p = match position_of(main_cycle, hub) {
            Some(pos) => pos,
            None => return false,
        };
        proof {
            lemma_first_pos(main_cycle@, hub, p as int);
        }
        let ghost m0 = main_cycle@;
        let ghost s0 = satellite_cycle@;
        let pred = main_cycle[crate::splice::wrap_sub(p, 1, k)];
        let succ = main_cycle[(p + 1) % k];
        let mut j: usize = 0;
        while j < r
            invariant
                m0 == main_cycle@,
                m0 == old(main_cycle)@,
                s0 == satellite_cycle@,
                k == m0.len(),
                r == s0.len(),
                k >= 3,
                r >= 2,
                p < k,
                m0[p as int] == hub,
                first_pos(m0, hub) == p,
                pred == m0[(p + k - 1) % (k as int)],
                succ == m0[(p + 1) % (k as int)],
                contractor.wf(),
                0 <= j <= r,
                hub_splice_scan(m0, s0, hub, *g, *contractor, p as int, 0) == hub_splice_scan(
                    m0,
                    s0,
                    hub,
                    *g,
                    *contractor,
                    p as int,
                    j as int,
                ),
            decreases r - j,
        {
            let w_j = satellite_cycle[j];
            let w_j_plus_1 = satellite_cycle[(j + 1) % r];
            if is_safe_to_break(w_j, w_j_plus_1, contractor) {
                if is_safe_to_break(hub, succ, contractor) {
                    if g.contains_edge(hub, w_j) && g.contains_edge(w_j_plus_1, succ) {
                        let sat_seq = rev_from_vec(satellite_cycle, j);
                        let candidate = build_spliced_cycle_side1(main_cycle, p, &sat_seq);
                        if is_closed_walk(&candidate, g) {
                            proof {
                                assert(hub_splice_at(m0, s0, hub, *g, *contractor, p as int, j as int) == Some(candidate@));
                                assert(hub_splice_scan(m0, s0, hub, *g, *contractor, p as int, j as int) == Some(candidate@));
                                assert(m0.contains(hub));
                                assert(hub_splice_spec(m0, s0, hub, *g, *contractor) == Some(candidate@));
                                lemma_hub_splice_shape(m0, s0, hub, *g, *contractor);
                            }
                            let ghost cv = candidate@;
                            *main_cycle = candidate;
                            assert(main_cycle@ == cv);
                            assert(hub_splice_spec(m0, s0, hub, *g, *contractor) == Some(cv));
                            return true;
                        }
                    }
                    if g.contains_edge(hub, w_j_plus_1) && g.contains_edge(w_j, succ) {
                        let sat_seq = rot_vec(satellite_cycle, j + 1);
                        let candidate = build_spliced_cycle_side1(main_cycle, p, &sat_seq);
                        if is_closed_walk(&candidate, g) {
                            proof {
                                assert(hub_splice_at(m0, s0, hub, *g, *contractor, p as int, j as int) == Some(candidate@));
                                assert(hub_splice_scan(m0, s0, hub, *g, *contractor, p as int, j as int) == Some(candidate@));
                                assert(m0.contains(hub));
                                assert(hub_splice_spec(m0, s0, hub, *g, *contractor) == Some(candidate@));
                                lemma_hub_splice_shape(m0, s0, hub, *g, *contractor);
                            }
                            let ghost cv = candidate@;
                            *main_cycle = candidate;
                            assert(main_cycle@ == cv);
                            assert(hub_splice_spec(m0, s0, hub, *g, *contractor) == Some(cv));
                            return true;
                        }
                    }
                }
                if is_safe_to_break(pred, hub, contractor) {
                    if g.contains_edge(pred, w_j) && g.contains_edge(w_j_plus_1, hub) {
                        let sat_seq = rev_from_vec(satellite_cycle, j);
                        let candidate = build_spliced_cycle_side2(main_cycle, p, &sat_seq);
                        if is_closed_walk(&candidate, g) {
                            proof {
                                assert(hub_splice_at(m0, s0, hub, *g, *contractor, p as int, j as int) == Some(candidate@));
                                assert(hub_splice_scan(m0, s0, hub, *g, *contractor, p as int, j as int) == Some(candidate@));
                                assert(m0.contains(hub));
                                assert(hub_splice_spec(m0, s0, hub, *g, *contractor) == Some(candidate@));
                                lemma_hub_splice_shape(m0, s0, hub, *g, *contractor);
                            }
                            let ghost cv = candidate@;
                            *main_cycle = candidate;
                            assert(main_cycle@ == cv);
                            assert(hub_splice_spec(m0, s0, hub, *g, *contractor) == Some(cv));
                            return true;
                        }
                    }
                    if g.contains_edge(pred, w_j_plus_1) && g.contains_edge(w_j, hub) {
                        let sat_seq = rot_vec(satellite_cycle, j + 1);
                        let candidate = build_spliced_cycle_side2(main_cycle, p, &sat_seq);
                        if is_closed_walk(&candidate, g) {
                            proof {
                                assert(hub_splice_at(m0, s0, hub, *g, *contractor, p as int, j as int) == Some(candidate@));
                                assert(hub_splice_scan(m0, s0, hub, *g, *contractor, p as int, j as int) == Some(candidate@));
                                assert(m0.contains(hub));
                                assert(hub_splice_spec(m0, s0, hub, *g, *contractor) == Some(candidate@));
                                lemma_hub_splice_shape(m0, s0, hub, *g, *contractor);
                            }
                            let ghost cv = candidate@;
                            *main_cycle = candidate;
                            assert(main_cycle@ == cv);
                            assert(hub_splice_spec(m0, s0, hub, *g, *contractor) == Some(cv));
                            return true;
                        }
                    }
                }
            }
            j = j + 1;
        }
        proof {
            assert(m0.contains(hub));
            assert(hub_splice_spec(m0, s0, hub, *g, *contractor) == hub_splice_scan(m0, s0, hub, *g, *contractor, p as int, r as int));
            assert forall|jj: int| !#[trigger] hub_splice_possible(m0, s0, hub, *g, *contractor, jj) by {
                if hub_splice_possible(m0, s0, hub, *g, *contractor, jj) {
                    lemma_hub_splice_complete(m0, s0, hub, *g, *contractor, jj);
                }
            }
        }
        false
    }
}

proof fn lemma_first_pos_exists(s: Seq<i32>, x: i32)
    requires
        s.contains(x),
    ensures
        0 <= first_pos(s, x) < s.len(),
        s[first_pos(s, x)] == x,
    decreases s.len(),
{
    if s[0] != x {
        let t = s.drop_first();
        let k = choose|k: int| 0 <= k < s.len() && s[k] == x;
        assert(t[k - 1] == x);
        lemma_first_pos_exists(t, x);
    }
}

proof fn lemma_hub_splice_at_sound(main: Seq<i32>, sat: Seq<i32>, hub: i32, g: Graph, ct: Degree2Contractor, p: int, j: int)
    requires
        0 <= p < main.len(),
        0 <= j < sat.len(),
    ensures
        hub_splice_at(main, sat, hub, g, ct, p, j) matches Some(m) ==> closed_walk(g, m) && m.to_multiset()
            == main.to_multiset().add(sat.to_multiset()),
{
    lemma_rev_from(sat, j);
    lemma_rot_split(sat, j + 1);
    lemma_splice_ms(main, p, rev_from(sat, j));
    lemma_splice_ms(main, p, rot(sat, j + 1));
    if p > 0 {
        lemma_splice_ms(main, p - 1, rev_from(sat, j));
        lemma_splice_ms(main, p - 1, rot(sat, j + 1));
    } else {
        lemma_splice_ms(main, main.len() - 1, rev_from(sat, j));
        lemma_splice_ms(main, main.len() - 1, rot(sat, j + 1));
    }
}

proof fn lemma_hub_scan_sound(main: Seq<i32>, sat: Seq<i32>, hub: i32, g: Graph, ct: Degree2Contractor, p: int, j: int)
    requires
        0 <= p < main.len(),
    ensures
        hub_splice_scan(main, sat, hub, g, ct, p, j) matches Some(m) ==> closed_walk(g, m) && m.to_multiset()
            == main.to_multiset().add(sat.to_multiset()),
    decreases sat.len() - j,
{
    if 0 <= j < sat.len() {
        lemma_hub_splice_at_sound(main, sat, hub, g, ct, p, j);
        lemma_hub_scan_sound(main, sat, hub, g, ct, p, j + 1);
    }
}

/// A splice at a hub yields a closed walk of `g` over exactly the vertex
/// occurrences of the main cycle and the satellite.
pub proof fn lemma_hub_splice_sound(main: Seq<i32>, sat: Seq<i32>, hub: i32, g: Graph, ct: Degree2Contractor)
    ensures
        hub_splice_spec(main, sat, hub, g, ct) matches Some(m) ==> closed_walk(g, m) && m.to_multiset()
            == main.to_multiset().add(sat.to_multiset()),
{
    if main.len() >= 3 && sat.len() >= 2 && main.contains(hub) {
        lemma_first_pos_exists(main, hub);
        lemma_hub_scan_sound(main, sat, hub, g, ct, first_pos(main, hub), 0);
    }
}

/// The satellite `sat` can be spliced in next to the first occurrence `p` of
/// the hub in `main`, breaking the satellite edge from `sat[j]` to the entry
/// after it: that edge is not guarded, and on one side of the hub (between
/// the hub and its successor, or between its predecessor and the hub), the
/// main edge there is not guarded, `g` joins its two ends to the two ends of
/// the broken satellite edge, and the main cycle with the satellite read in
/// the matching direction inserted there is a closed walk of `g`.
pub open spec fn hub_splice_possible(main: Seq<i32>, sat: Seq<i32>, hub: i32, g: Graph, ct: Degree2Contractor, j: int) -> bool {
    let k = main.len() as int;
    let p = first_pos(main, hub);
    let pred = main[(p + k - 1) % k];
    let succ = main[(p + 1) % k];
    let w = sat[j];
    let w1 = sat[(j + 1) % (sat.len() as int)];
    let back = rev_from(sat, j);
    let fwd = rot(sat, j + 1);
    &&& k >= 3
    &&& sat.len() >= 2
    &&& main.contains(hub)
    &&& 0 <= j < sat.len()
    &&& !ct.guarded(w, w1)
    &&& {
        ||| (!ct.guarded(hub, succ) && g.has_edge(hub, w) && g.has_edge(w1, succ) && closed_walk(g, splice_after(main, p, back)))
        ||| (!ct.guarded(hub, succ) && g.has_edge(hub, w1) && g.has_edge(w, succ) && closed_walk(g, splice_after(main, p, fwd)))
        ||| (!ct.guarded(pred, hub) && g.has_edge(pred, w) && g.has_edge(w1, hub) && closed_walk(
            g,
            splice_after(main, (p + k - 1) % k, back),
        ))
        ||| (!ct.guarded(pred, hub) && g.has_edge(pred, w1) && g.has_edge(w, hub) && closed_walk(
            g,
            splice_after(main, (p + k - 1) % k, fwd),
        ))
    }
}

/// `m` is `main` with the satellite spliced in next to the first occurrence
/// `p` of the hub, breaking the unguarded satellite edge from `sat[j]` to the
/// entry after it: between the hub and its successor or between its
/// predecessor and the hub, with that main edge unguarded, the satellite read
/// in the direction whose ends `g` joins to the two main vertices; and `m` is
/// a closed walk of `g`.
pub open spec fn hub_spliced_at(main: Seq<i32>, sat: Seq<i32>, hub: i32, g: Graph, ct: Degree2Contractor, j: int, m: Seq<i32>) -> bool {
    let k = main.len() as int;
    let p = first_pos(main, hub);
    let pred = main[(p + k - 1) % k];
    let succ = main[(p + 1) % k];
    let w = sat[j];
    let w1 = sat[(j + 1) % (sat.len() as int)];
    let back = rev_from(sat, j);
    let fwd = rot(sat, j + 1);
    &&& k >= 3
    &&& sat.len() >= 2
    &&& main.contains(hub)
    &&& 0 <= j < sat.len()
    &&& !ct.guarded(w, w1)
    &&& closed_walk(g, m)
    &&& {
        ||| (!ct.guarded(hub, succ) && g.has_edge(hub, w) && g.has_edge(w1, succ) && m == splice_after(main, p, back))
        ||| (!ct.guarded(hub, succ) && g.has_edge(hub, w1) && g.has_edge(w, succ) && m == splice_after(main, p, fwd))
        ||| (!ct.guarded(pred, hub) && g.has_edge(pred, w) && g.has_edge(w1, hub) && m == splice_after(main, (p + k - 1) % k, back))
        ||| (!ct.guarded(pred, hub) && g.has_edge(pred, w1) && g.has_edge(w, hub) && m == splice_after(main, (p + k - 1) % k, fwd))
    }
}

/// `m` is a splice of the satellite at the hub at some satellite edge.
pub open spec fn hub_spliced_somewhere(main: Seq<i32>, sat: Seq<i32>, hub: i32, g: Graph, ct: Degree2Contractor, m: Seq<i32>) -> bool {
    exists|j: int| #[trigger] hub_spliced_at(main, sat, hub, g, ct, j, m)
}

/// The position before `p` on a cycle of length `k`.
proof fn lemma_pred_pos(p: int, k: int)
    requires
        0 <= p < k,
    ensures
        (p + k - 1) % k == (if p > 0 { p - 1 } else { k - 1 }),
{
    if p > 0 {
        vstd::arithmetic::div_mod::lemma_small_mod((p - 1) as nat, k as nat);
        vstd::arithmetic::div_mod::lemma_mod_add_multiples_vanish(p - 1, k);
    } else {
        vstd::arithmetic::div_mod::lemma_small_mod((k - 1) as nat, k as nat);
    }
}

proof fn lemma_hub_at_shape(main: Seq<i32>, sat: Seq<i32>, hub: i32, g: Graph, ct: Degree2Contractor, j: int)
    requires
        main.len() >= 3,
        sat.len() >= 2,
        main.contains(hub),
        0 <= j < sat.len(),
    ensures
        hub_splice_at(main, sat, hub, g, ct, first_pos(main, hub), j) matches Some(m) ==> hub_spliced_at(main, sat, hub, g, ct, j, m),
{
    lemma_first_pos_exists(main, hub);
    lemma_pred_pos(first_pos(main, hub), main.len() as int);
}

proof fn lemma_hub_scan_shape(main: Seq<i32>, sat: Seq<i32>, hub: i32, g: Graph, ct: Degree2Contractor, j: int)
    requires
        main.len() >= 3,
        sat.len() >= 2,
        main.contains(hub),
    ensures
        hub_splice_scan(main, sat, hub, g, ct, first_pos(main, hub), j) matches Some(m) ==> hub_spliced_somewhere(main, sat, hub, g, ct, m),
    decreases sat.len() - j,
{
    if 0 <= j < sat.len() {
        lemma_hub_at_shape(main, sat, hub, g, ct, j);
        lemma_hub_scan_shape(main, sat, hub, g, ct, j + 1);
        if let Some(m) = hub_splice_at(main, sat, hub, g, ct, first_pos(main, hub), j) {
            assert(hub_spliced_at(main, sat, hub, g, ct, j, m));
        }
    }
}

/// A splice at the hub breaks one unguarded satellite edge and one unguarded
/// main edge next to the hub, joins their ends along edges of `g`, and gives a
/// closed walk of `g`.
pub proof fn lemma_hub_splice_shape(main: Seq<i32>, sat: Seq<i32>, hub: i32, g: Graph, ct: Degree2Contractor)
    ensures
        hub_splice_spec(main, sat, hub, g, ct) matches Some(m) ==> hub_spliced_somewhere(main, sat, hub, g, ct, m),
{
    if main.len() >= 3 && sat.len() >= 2 && main.contains(hub) {
        lemma_hub_scan_shape(main, sat, hub, g, ct, 0);
    }
}

proof fn lemma_hub_scan_complete(main: Seq<i32>, sat: Seq<i32>, hub: i32, g: Graph, ct: Degree2Contractor, j0: int, j: int)
    requires
        0 <= j0 <= j,
        hub_splice_possible(main, sat, hub, g, ct, j),
    ensures
        hub_splice_scan(main, sat, hub, g, ct, first_pos(main, hub), j0) is Some,
    decreases j - j0,
{
    if j0 < j {
        lemma_hub_scan_complete(main, sat, hub, g, ct, j0 + 1, j);
    } else {
        lemma_first_pos_exists(main, hub);
        lemma_pred_pos(first_pos(main, hub), main.len() as int);
    }
}

/// A satellite is spliced in at the hub whenever a splice is possible at
/// some satellite edge, on either side of the hub.
pub proof fn lemma_hub_splice_complete(main: Seq<i32>, sat: Seq<i32>, hub: i32, g: Graph, ct: Degree2Contractor, j: int)
    requires
        hub_splice_possible(main, sat, hub, g, ct, j),
    ensures
        hub_splice_spec(main, sat, hub, g, ct) is Some,
{
    lemma_hub_scan_complete(main, sat, hub, g, ct, 0, j);
}

proof fn lemma_closed_remove(g: Graph, rem: Seq<Seq<i32>>, i: int)
    requires
        0 <= i < rem.len(),
        all_closed_walks(g, rem),
    ensures
        all_closed_walks(g, rem.remove(i)),
{
    assert forall|k: int| 0 <= k < rem.remove(i).len() implies closed_walk(g, #[trigger] rem.remove(i)[k]) by {
        if k < i {
            assert(rem.remove(i)[k] == rem[k]);
        } else {
            assert(rem.remove(i)[k] == rem[k + 1]);
        }
    }
}

proof fn lemma_inner_sound(main: Seq<i32>, rem: Seq<Seq<i32>>, h: i32, g: Graph, ct: Degree2Contractor, i: int)
    ensures
        ({
            let r = hub_inner(main, rem, h, g, ct, i);
            &&& r.0.to_multiset().add(ms_all(r.1)) == main.to_multiset().add(ms_all(rem))
            &&& (closed_walk(g, main) && all_closed_walks(g, rem)) ==> (closed_walk(g, r.0) && all_closed_walks(g, r.1))
        }),
    decreases rem.len() - i,
{
    if 0 <= i < rem.len() {
        match hub_splice_spec(main, rem[i], h, g, ct) {
            Some(m) => {
                lemma_hub_splice_sound(main, rem[i], h, g, ct);
                lemma_ms_all_remove(rem, i);
                lemma_inner_sound(m, rem.remove(i), h, g, ct, i);
                assert(m.to_multiset().add(ms_all(rem.remove(i))) =~= main.to_multiset().add(ms_all(rem)));
                if closed_walk(g, main) && all_closed_walks(g, rem) {
                    lemma_closed_remove(g, rem, i);
                }
            },
            None => lemma_inner_sound(main, rem, h, g, ct, i + 1),
        }
    }
}

proof fn lemma_pass_sound(main: Seq<i32>, rem: Seq<Seq<i32>>, hubs: Seq<i32>, g: Graph, ct: Degree2Contractor, t: int)
    ensures
        ({
            let r = hub_pass(main, rem, hubs, g, ct, t);
            &&& r.0.to_multiset().add(ms_all(r.1)) == main.to_multiset().add(ms_all(rem))
            &&& (closed_walk(g, main) && all_closed_walks(g, rem)) ==> (closed_walk(g, r.0) && all_closed_walks(g, r.1))
        }),
    decreases hubs.len() - t,
{
    if 0 <= t < hubs.len() {
        if !main.contains(hubs[t]) {
            lemma_pass_sound(main, rem, hubs, g, ct, t + 1);
        } else {
            lemma_inner_sound(main, rem, hubs[t], g, ct, 0);
            let r = hub_inner(main, rem, hubs[t], g, ct, 0);
            if r.1.len() != 0 {
                lemma_pass_sound(r.0, r.1, hubs, g, ct, t + 1);
            }
        }
    }
}

proof fn lemma_rounds_sound(main: Seq<i32>, rem: Seq<Seq<i32>>, hubs: Seq<i32>, g: Graph, ct: Degree2Contractor)
    ensures
        ({
            let r = hub_rounds(main, rem, hubs, g, ct);
            &&& r.0.to_multiset().add(ms_all(r.1)) == main.to_multiset().add(ms_all(rem))
            &&& (closed_walk(g, main) && all_closed_walks(g, rem)) ==> (closed_walk(g, r.0) && all_closed_walks(g, r.1))
        }),
    decreases rem.len(),
{
    if rem.len() != 0 {
        lemma_pass_sound(main, rem, hubs, g, ct, 0);
        let r = hub_pass(main, rem, hubs, g, ct, 0);
        if r.2 {
            lemma_pass_shrinks(main, rem, hubs, g, ct, 0);
            lemma_rounds_sound(r.0, r.1, hubs, g, ct);
        }
    }
}

/// Hub patching neither loses nor duplicates a vertex occurrence, and turns a
/// family of closed walks into a family of closed walks.
pub proof fn lemma_patch_hubs_sound(cs: Seq<Seq<i32>>, hubs: Seq<i32>, g: Graph, ct: Degree2Contractor)
    ensures
        ms_all(patch_hubs_spec(cs, hubs, g, ct)) == ms_all(cs),
        all_closed_walks(g, cs) ==> all_closed_walks(g, patch_hubs_spec(cs, hubs, g, ct)),
{
    if cs.len() > 1 && hubs.len() != 0 {
        let mi = last_longest(cs, cs.len() as int);
        lemma_last_longest(cs, cs.len() as int);
        let rem = cs.remove(mi);
        lemma_rounds_sound(cs[mi], rem, hubs, g, ct);
        let r = hub_rounds(cs[mi], rem, hubs, g, ct);
        lemma_ms_all_concat(seq![r.0], r.1);
        lemma_ms_all_single(r.0);
        lemma_ms_all_remove(cs, mi);
        assert(ms_all(seq![r.0] + r.1) =~= ms_all(cs));
        if all_closed_walks(g, cs) {
            lemma_closed_remove(g, cs, mi);
            let out = seq![r.0] + r.1;
            assert forall|k: int| 0 <= k < out.len() implies closed_walk(g, #[trigger] out[k]) by {
                if k > 0 {
                    assert(out[k] == r.1[k - 1]);
                }
            }
        }
    }
}

proof fn lemma_rounds_len(main: Seq<i32>, rem: Seq<Seq<i32>>, hubs: Seq<i32>, g: Graph, ct: Degree2Contractor)
    ensures
        hub_rounds(main, rem, hubs, g, ct).1.len() <= rem.len(),
    decreases rem.len(),
{
    if rem.len() != 0 {
        lemma_pass_shrinks(main, rem, hubs, g, ct, 0);
        let r = hub_pass(main, rem, hubs, g, ct, 0);
        if r.2 {
            lemma_rounds_len(r.0, r.1, hubs, g, ct);
        }
    }
}

/// Hub patching never produces more cycles than it was given.
pub proof fn lemma_patch_hubs_len(cs: Seq<Seq<i32>>, hubs: Seq<i32>, g: Graph, ct: Degree2Contractor)
    ensures
        patch_hubs_spec(cs, hubs, g, ct).len() <= cs.len(),
{
    if cs.len() > 1 && hubs.len() != 0 {
        let mi = last_longest(cs, cs.len() as int);
        lemma_last_longest(cs, cs.len() as int);
        lemma_rounds_len(cs[mi], cs.remove(mi), hubs, g, ct);
    }
}

} // verus!
