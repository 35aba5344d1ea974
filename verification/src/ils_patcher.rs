//! Iterated local search: when the local patchers are stuck, a cycle is
//! perturbed by a double-bridge 4-opt move or a non-improving 2-opt move and
//! the patching cascade is run again.
use crate::contraction::{is_safe_to_break, Degree2Contractor};
use crate::cycle_family::{all_closed_walks, lemma_ms_all_update, ms_all, views};
use crate::graph::Graph;
use crate::hub_registry::HubRegistry;
use crate::matching_patcher::{clone_cycles, lemma_patch_matching_sound, patch_matching_spec, MatchingPatcher};
use crate::patching::{lemma_patch_hubs_len, lemma_patch_hubs_sound, patch_hubs_spec, HubPatcher};
use crate::splice::{append_all, segment};
use crate::tour::{closed_walk, is_closed_walk};
use vstd::prelude::*;

verus! {

broadcast use vstd::seq_lib::group_to_multiset_ensures;

/// The xorshift step of the generator.
pub open spec fn xorshift(x: u64) -> u64 {
    let a = x ^ (x >> 12u64);
    let b = a ^ (a << 25u64);
    b ^ (b >> 27u64)
}

/// Fast pseudo-random number generator for deterministic ILS perturbations.
struct SimpleRng {
    state: u64,
}

impl SimpleRng {
    fn new(seed: u64) -> (r: Self)
        ensures
            r.state == (if seed == 0 { 0x853c49e6748fea9bu64 } else { seed }),
    {
        Self { state: if seed == 0 { 0x853c49e6748fea9b } else { seed } }
    }

    fn next_u64(&mut self) -> (r: u64)
        ensures
            final(self).state == xorshift(old(self).state),
            r == xorshift(old(self).state).wrapping_mul(0x2545F4914F6CDD1Du64),
    {
        let mut x = self.state;
        x ^= x >> 12;
        x ^= x << 25;
        x ^= x >> 27;
        self.state = x;
        x.wrapping_mul(0x2545F4914F6CDD1D)
    }

    fn gen_range(&mut self, low: usize, high: usize) -> (r: usize)
        ensures
            low < high ==> low <= r < high,
            low < high ==> r == low + xorshift(old(self).state).wrapping_mul(0x2545F4914F6CDD1Du64) % ((high - low) as u64),
            low < high ==> final(self).state == xorshift(old(self).state),
            low >= high ==> r == low && final(self).state == old(self).state,
    {
        if low >= high {
            return low;
        }
        let range = (high - low) as u64;
        let x = self.next_u64();
        let off = (x % range) as usize;
        low + off
    }
}

/// The double-bridge rearrangement with cut positions `i1 < i2 < i3 < i4`:
/// segments A B C D E become A D C B E.
pub open spec fn double_bridge(c: Seq<i32>, i1: int, i2: int, i3: int, i4: int) -> Seq<i32> {
    c.subrange(0, i1 + 1) + c.subrange(i3 + 1, i4 + 1) + c.subrange(i2 + 1, i3 + 1) + c.subrange(i1 + 1, i2 + 1)
        + c.subrange(i4 + 1, c.len() as int)
}

/// A double-bridge move is allowed: the four broken edges are safe, the four
/// new edges are in `g`, and the result is a closed walk of `g`.
pub open spec fn db_ok(c: Seq<i32>, g: Graph, ct: Degree2Contractor, i1: int, i2: int, i3: int, i4: int) -> bool {
    let n = c.len() as int;
    &&& 0 <= i1 < i2 < i3 < i4 < n
    &&& !ct.guarded(c[i1], c[i1 + 1])
    &&& !ct.guarded(c[i2], c[i2 + 1])
    &&& !ct.guarded(c[i3], c[i3 + 1])
    &&& !ct.guarded(c[i4], c[(i4 + 1) % n])
    &&& g.has_edge(c[i1], c[i3 + 1])
    &&& g.has_edge(c[i4], c[i2 + 1])
    &&& g.has_edge(c[i3], c[i1 + 1])
    &&& g.has_edge(c[i2], c[(i4 + 1) % n])
    &&& closed_walk(g, double_bridge(c, i1, i2, i3, i4))
}

/// The 2-opt rearrangement reversing the segment `c[i+1..=j]`.
pub open spec fn two_opt(c: Seq<i32>, i: int, j: int) -> Seq<i32> {
    c.subrange(0, i + 1) + c.subrange(i + 1, j + 1).reverse() + c.subrange(j + 1, c.len() as int)
}

/// A 2-opt chord move is allowed: non-adjacent break edges, both safe, both
/// new edges in `g`, and the result a closed walk of `g`.
pub open spec fn two_opt_ok(c: Seq<i32>, g: Graph, ct: Degree2Contractor, i: int, j: int) -> bool {
    let n = c.len() as int;
    &&& 0 <= i
    &&& i + 1 < j < n
    &&& !(i == 0 && j == n - 1)
    &&& !ct.guarded(c[i], c[i + 1])
    &&& !ct.guarded(c[j], c[(j + 1) % n])
    &&& g.has_edge(c[i], c[j])
    &&& g.has_edge(c[i + 1], c[(j + 1) % n])
    &&& closed_walk(g, two_opt(c, i, j))
}

/// A double-bridge move permutes the vertex occurrences.
pub proof fn lemma_double_bridge_ms(c: Seq<i32>, i1: int, i2: int, i3: int, i4: int)
    requires
        0 <= i1 < i2 < i3 < i4 < c.len(),
    ensures
        double_bridge(c, i1, i2, i3, i4).to_multiset() == c.to_multiset(),
        double_bridge(c, i1, i2, i3, i4).len() == c.len(),
{
    let n = c.len() as int;
    let a = c.subrange(0, i1 + 1);
    let b = c.subrange(i1 + 1, i2 + 1);
    let cc = c.subrange(i2 + 1, i3 + 1);
    let d = c.subrange(i3 + 1, i4 + 1);
    let e = c.subrange(i4 + 1, n);
    assert(c =~= a + b + cc + d + e);
    vstd::seq_lib::lemma_multiset_commutative(a + b + cc + d, e);
    vstd::seq_lib::lemma_multiset_commutative(a + b + cc, d);
    vstd::seq_lib::lemma_multiset_commutative(a + b, cc);
    vstd::seq_lib::lemma_multiset_commutative(a, b);
    vstd::seq_lib::lemma_multiset_commutative(a + d + cc + b, e);
    vstd::seq_lib::lemma_multiset_commutative(a + d + cc, b);
    vstd::seq_lib::lemma_multiset_commutative(a + d, cc);
    vstd::seq_lib::lemma_multiset_commutative(a, d);
    assert(double_bridge(c, i1, i2, i3, i4).to_multiset() =~= c.to_multiset());
}

/// A 2-opt move permutes the vertex occurrences.
pub proof fn lemma_two_opt_ms(c: Seq<i32>, i: int, j: int)
    requires
        0 <= i < j < c.len(),
    ensures
        two_opt(c, i, j).to_multiset() == c.to_multiset(),
        two_opt(c, i, j).len() == c.len(),
{
    let n = c.len() as int;
    let a = c.subrange(0, i + 1);
    let b = c.subrange(i + 1, j + 1);
    let e = c.subrange(j + 1, n);
    assert(c =~= a + b + e);
    b.lemma_reverse_to_multiset();
    vstd::seq_lib::lemma_multiset_commutative(a + b, e);
    vstd::seq_lib::lemma_multiset_commutative(a, b);
    vstd::seq_lib::lemma_multiset_commutative(a + b.reverse(), e);
    vstd::seq_lib::lemma_multiset_commutative(a, b.reverse());
}

/// What any perturbation returned by `perturb_cycle` is: an allowed
/// double-bridge move or an allowed 2-opt move of `c`.
pub open spec fn is_allowed_kick(c: Seq<i32>, g: Graph, ct: Degree2Contractor, p: Seq<i32>) -> bool {
    ||| exists|i1: int, i2: int, i3: int, i4: int|
        #[trigger] db_ok(c, g, ct, i1, i2, i3, i4) && p == double_bridge(c, i1, i2, i3, i4)
    ||| exists|i: int, j: int| #[trigger] two_opt_ok(c, g, ct, i, j) && p == two_opt(c, i, j)
}

/// A kick is a closed walk of `g` over the same vertex occurrences as `c`.
pub proof fn lemma_kick_sound(c: Seq<i32>, g: Graph, ct: Degree2Contractor, p: Seq<i32>)
    requires
        is_allowed_kick(c, g, ct, p),
    ensures
        closed_walk(g, p),
        p.to_multiset() == c.to_multiset(),
        p.len() == c.len(),
{
    if exists|i1: int, i2: int, i3: int, i4: int|
        #[trigger] db_ok(c, g, ct, i1, i2, i3, i4) && p == double_bridge(c, i1, i2, i3, i4) {
        let (i1, i2, i3, i4) = choose|i1: int, i2: int, i3: int, i4: int|
            #[trigger] db_ok(c, g, ct, i1, i2, i3, i4) && p == double_bridge(c, i1, i2, i3, i4);
        lemma_double_bridge_ms(c, i1, i2, i3, i4);
    } else {
        let (i, j) = choose|i: int, j: int| #[trigger] two_opt_ok(c, g, ct, i, j) && p == two_opt(c, i, j);
        lemma_two_opt_ms(c, i, j);
    }
}

/// Builds the double-bridge rearrangement.
fn build_double_bridge(cycle: &[i32], i1: usize, i2: usize, i3: usize, i4: usize) -> (r: Vec<i32>)
    requires
        i1 < i2 < i3 < i4 < cycle@.len(),
    ensures
        r@ == double_bridge(cycle@, i1 as int, i2 as int, i3 as int, i4 as int),
{
    let n = cycle.len();
    let mut candidate = segment(cycle, 0, i1 + 1);
    let s2 = segment(cycle, i3 + 1, i4 + 1);
    append_all(&mut candidate, &s2);
    let s3 = segment(cycle, i2 + 1, i3 + 1);
    append_all(&mut candidate, &s3);
    let s4 = segment(cycle, i1 + 1, i2 + 1);
    append_all(&mut candidate, &s4);
    let s5 = segment(cycle, i4 + 1, cycle.len());
    append_all(&mut candidate, &s5);
    candidate
}

/// Builds the 2-opt rearrangement.
fn build_two_opt(cycle: &[i32], i: usize, j: usize) -> (r: Vec<i32>)
    requires
        i < j < cycle@.len(),
    ensures
        r@ == two_opt(cycle@, i as int, j as int),
{
    let n = cycle.len();
    let mut candidate = segment(cycle, 0, i + 1);
    let ghost head = candidate@;
    let mut k: usize = j;
    while k > i
        invariant
            i <= k <= j,
            j < cycle@.len(),
            candidate@ == head + cycle@.subrange(k + 1, j + 1).reverse(),
        decreases k,
    {
        candidate.push(cycle[k]);
        proof {
            assert(cycle@.subrange(k as int, j + 1).reverse() =~= cycle@.subrange(k + 1, j + 1).reverse().push(cycle@[k as int]));
        }
        k = k - 1;
    }
    let tail = segment(cycle, j + 1, cycle.len());
    append_all(&mut candidate, &tail);
    candidate
}

/// Checks the double-bridge move at the given cut positions and builds it.
fn try_double_bridge(
    cycle: &[i32],
    g: &Graph,
    contractor: &Degree2Contractor,
    i1: usize,
    i2: usize,
    i3: usize,
    i4: usize,
) -> (r: Option<Vec<i32>>)
    requires
        contractor.wf(),
        i1 < i2 < i3 < i4 < cycle@.len(),
    ensures
        match r {
            Some(p) => db_ok(cycle@, *g, *contractor, i1 as int, i2 as int, i3 as int, i4 as int) && p@
                == double_bridge(cycle@, i1 as int, i2 as int, i3 as int, i4 as int),
            None => !db_ok(cycle@, *g, *contractor, i1 as int, i2 as int, i3 as int, i4 as int),
        },
{
    let n = cycle.len();
    let u1 = cycle[i1];
    let v1 = cycle[i1 + 1];
    let u2 = cycle[i2];
    let v2 = cycle[i2 + 1];
    let u3 = cycle[i3];
    let v3 = cycle[i3 + 1];
    let u4 = cycle[i4];
    let v4 = cycle[(i4 + 1) % n];
    if !is_safe_to_break(u1, v1, contractor) || !is_safe_to_break(u2, v2, contractor)
        || !is_safe_to_break(u3, v3, contractor) || !is_safe_to_break(u4, v4, contractor) {
        return None;
    }
    if !g.contains_edge(u1, v3) || !g.contains_edge(u4, v2) || !g.contains_edge(u3, v1)
        || !g.contains_edge(u2, v4) {
        return None;
    }
    let candidate = build_double_bridge(cycle, i1, i2, i3, i4);
    if is_closed_walk(&candidate, g) {
        Some(candidate)
    } else {
        None
    }
}

/// Checks the 2-opt move at the given positions and builds it.
fn try_two_opt(cycle: &[i32], g: &Graph, contractor: &Degree2Contractor, i: usize, j: usize) -> (r: Option<Vec<i32>>)
    requires
        contractor.wf(),
        i + 1 < j < cycle@.len(),
        !(i == 0 && j == cycle@.len() - 1),
    ensures
        match r {
            Some(p) => two_opt_ok(cycle@, *g, *contractor, i as int, j as int) && p@ == two_opt(cycle@, i as int, j as int),
            None => !two_opt_ok(cycle@, *g, *contractor, i as int, j as int),
        },
{
    let n = cycle.len();
    let u_i = cycle[i];
    let u_ip1 = cycle[i + 1];
    let u_j = cycle[j];
    let u_jp1 = cycle[(j + 1) % n];
    if !is_safe_to_break(u_i, u_ip1, contractor) || !is_safe_to_break(u_j, u_jp1, contractor) {
        return None;
    }
    if !g.contains_edge(u_i, u_j) || !g.contains_edge(u_ip1, u_jp1) {
        return None;
    }
    let candidate = build_two_opt(cycle, i, j);
    if is_closed_walk(&candidate, g) {
        Some(candidate)
    } else {
        None
    }
}

/// Sorts four numbers.
fn sort4(a: usize, b: usize, c: usize, d: usize) -> (r: (usize, usize, usize, usize))
    ensures
        r.0 <= r.1 <= r.2 <= r.3,
        r.3 == a || r.3 == b || r.3 == c || r.3 == d,
{
    let (a, b) = if a <= b { (a, b) } else { (b, a) };
    let (c, d) = if c <= d { (c, d) } else { (d, c) };
    let (a, c) = if a <= c { (a, c) } else { (c, a) };
    let (b, d) = if b <= d { (b, d) } else { (d, b) };
    let (b, c) = if b <= c { (b, c) } else { (c, b) };
    (a, b, c, d)
}

/// The patching cascade: hub patching, then matching when more than one
/// cycle is left.
pub open spec fn cascade_spec(cs: Seq<Seq<i32>>, hubs: Seq<i32>, g: Graph, ct: Degree2Contractor) -> Seq<Seq<i32>> {
    let h = patch_hubs_spec(cs, hubs, g, ct);
    if h.len() > 1 {
        patch_matching_spec(h, g, ct)
    } else {
        h
    }
}

/// Iterated Local Search (ILS) Patcher using Double-Bridge 4-opt and non-improving 2-opt kicks.
pub struct IteratedLocalSearchPatcher;

impl IteratedLocalSearchPatcher {
    /// Attempts to escape local minima and merge subcycles into a single Hamiltonian cycle
    /// using Iterated Local Search (ILS) with randomized double-bridge perturbation kicks.
    ///
    /// Each candidate family goes through the patching cascade: hub patching,
    /// then matching when more than one cycle is left.
    pub fn solve_via_ils(
        cycles: &[Vec<i32>],
        g: &Graph,
        contractor: &Degree2Contractor,
        hub_registry: &HubRegistry,
        max_kicks: usize,
    ) -> (r: Vec<Vec<i32>>)
        requires
            contractor.wf(),
            g.wf(),
            cycles@.len() <= usize::MAX / 2,
        ensures
            cycles@.len() <= 1 ==> views(r@) == views(cycles@),
            r@.len() <= cycles@.len(),
            views(r@) == views(cycles@) || r@.len() < cycles@.len(),
            cycles@.len() > 1 ==> r@.len() == 1 || r@.len() <= cascade_spec(
                views(cycles@),
                hub_registry.hub_vertices@,
                *g,
                *contractor,
            ).len(),
            ms_all(views(r@)) == ms_all(views(cycles@)),
            all_closed_walks(*g, views(cycles@)) ==> all_closed_walks(*g, views(r@)),
    {
        let ghost cs0 = views(cycles@);
        if cycles.len() <= 1 {
            return clone_cycles(cycles);
        }
        let mut best_cycles = clone_cycles(cycles);
        let total_nodes = g.num_vertices();
        let init_candidate = Self::patch_cascade(&best_cycles, g, contractor, hub_registry);
        let ghost init_len = init_candidate@.len();
        proof {
            assert(views(best_cycles@) == cs0);
        }
        if init_candidate.len() == 1 && init_candidate[0].len() == total_nodes {
            return init_candidate;
        }
        if init_candidate.len() < best_cycles.len() {
            best_cycles = init_candidate;
        }
        let mut kick: usize = 0;
        while kick < max_kicks
            invariant
                contractor.wf(),
                g.wf(),
                cs0 == views(cycles@),
                cs0.len() > 1,
                cs0.len() <= usize::MAX / 2,
                best_cycles@.len() <= cs0.len(),
                views(best_cycles@) == cs0 || best_cycles@.len() < cs0.len(),
                ms_all(views(best_cycles@)) == ms_all(cs0),
                all_closed_walks(*g, cs0) ==> all_closed_walks(*g, views(best_cycles@)),
                init_len == cascade_spec(cs0, hub_registry.hub_vertices@, *g, *contractor).len(),
                best_cycles@.len() <= init_len,
            decreases max_kicks - kick,
        {
            if best_cycles.len() <= 1 {
                break;
            }
            let mut eligible: Vec<usize> = Vec::new();
            let mut idx: usize = 0;
            while idx < best_cycles.len()
                invariant
                    0 <= idx <= best_cycles@.len(),
                    forall|t: int| 0 <= t < eligible@.len() ==> eligible@[t] < best_cycles@.len(),
                decreases best_cycles@.len() - idx,
            {
                if best_cycles[idx].len() >= 4 {
                    eligible.push(idx);
                }
                idx = idx + 1;
            }
            if eligible.len() == 0 {
                break;
            }
            sort_indices_by_len_desc(&mut eligible, &best_cycles);
            let target_idx = eligible[kick % eligible.len()];
            let seed = ((kick as u64) + 1).wrapping_mul(0x9e3779b97f4a7c15);
            let perturbed = Self::perturb_cycle(&best_cycles[target_idx], g, contractor, seed);
            match perturbed {
                Some(p) => {
                    let ghost old_c = best_cycles@[target_idx as int]@;
                    proof {
                        lemma_kick_sound(old_c, *g, *contractor, p@);
                        lemma_ms_all_update(views(best_cycles@), target_idx as int, p@);
                    }
                    let mut candidate_cycles = clone_cycles(&best_cycles);
                    let ghost pv = p@;
                    candidate_cycles.set(target_idx, p);
                    proof {
                        assert(views(candidate_cycles@) =~= views(best_cycles@).update(target_idx as int, pv));
                        assert(views(best_cycles@)[target_idx as int] == old_c);
                        let ma = ms_all(views(candidate_cycles@));
                        let mb = ms_all(views(best_cycles@));
                        assert(ma.add(old_c.to_multiset()) == mb.add(pv.to_multiset()));
                        assert(pv.to_multiset() == old_c.to_multiset());
                        assert forall|e: i32| ma.count(e) == mb.count(e) by {
                            assert(ma.add(old_c.to_multiset()).count(e) == mb.add(old_c.to_multiset()).count(e));
                        }
                        assert(ma =~= mb);
                        if all_closed_walks(*g, cs0) {
                            assert forall|k: int| 0 <= k < views(candidate_cycles@).len() implies closed_walk(*g, #[trigger] views(candidate_cycles@)[k]) by {
                                if k != target_idx {
                                    assert(views(candidate_cycles@)[k] == views(best_cycles@)[k]);
                                }
                            }
                        }
                    }
                    let candidate = Self::patch_cascade(&candidate_cycles, g, contractor, hub_registry);
                    if candidate.len() == 1 && candidate[0].len() == total_nodes {
                        return candidate;
                    }
                    if candidate.len() < best_cycles.len() {
                        best_cycles = candidate;
                    }
                },
                None => {},
            }
            kick = kick + 1;
        }
        best_cycles
    }

    /// Hub patching, then matching when more than one cycle is left.
    fn patch_cascade(
        cycles: &Vec<Vec<i32>>,
        g: &Graph,
        contractor: &Degree2Contractor,
        hub_registry: &HubRegistry,
    ) -> (r: Vec<Vec<i32>>)
        requires
            contractor.wf(),
            cycles@.len() <= usize::MAX / 2,
        ensures
            ms_all(views(r@)) == ms_all(views(cycles@)),
            all_closed_walks(*g, views(cycles@)) ==> all_closed_walks(*g, views(r@)),
            views(r@) == cascade_spec(views(cycles@), hub_registry.hub_vertices@, *g, *contractor),
    {
        let c1 = HubPatcher::patch_cycles_via_hubs(cycles, g, contractor, hub_registry);
        proof {
            lemma_patch_hubs_sound(views(cycles@), hub_registry.hub_vertices@, *g, *contractor);
            lemma_patch_hubs_len(views(cycles@), hub_registry.hub_vertices@, *g, *contractor);
        }
        if c1.len() > 1 {
            let c2 = MatchingPatcher::patch_cycles_via_matching(&c1, g, contractor, hub_registry);
            proof {
                lemma_patch_matching_sound(views(c1@), *g, *contractor);
            }
            c2
        } else {
            c1
        }
    }

    /// Perturbs a single cycle using either a randomized Double-Bridge 4-opt swap
    /// or a randomized non-improving 2-opt chord reconnection.
    ///
    /// Preserves degree-2 contracted edges in `contractor.chain_map` and validates
    /// that all new connecting edges exist in `g`.
    pub fn perturb_cycle(cycle: &[i32], g: &Graph, contractor: &Degree2Contractor, seed: u64) -> (r: Option<
        Vec<i32>,
    >)
        requires
            contractor.wf(),
        ensures
            cycle@.len() < 4 ==> r is None,
            r matches Some(p) ==> is_allowed_kick(cycle@, *g, *contractor, p@),
            r is None && cycle@.len() <= 30 ==> forall|i1: int, i2: int, i3: int, i4: int|
                !#[trigger] db_ok(cycle@, *g, *contractor, i1, i2, i3, i4),
            r is None && cycle@.len() <= 50 ==> forall|i: int, j: int| !#[trigger] two_opt_ok(cycle@, *g, *contractor, i, j),
    {
        let n = cycle.len();
        if n < 4 {
            return None;
        }
        let mut rng = SimpleRng::new(seed);
        let max_4opt_attempts: usize = if n >= 100 {
            1000
        } else if n * 10 < 100 {
            100
        } else {
            n * 10
        };
        let mut attempt: usize = 0;
        while attempt < max_4opt_attempts
            invariant
                n == cycle@.len(),
                n >= 4,
                contractor.wf(),
            decreases max_4opt_attempts - attempt,
        {
            attempt = attempt + 1;
            let a = rng.gen_range(0, n);
            let b = rng.gen_range(0, n);
            let c = rng.gen_range(0, n);
            let d = rng.gen_range(0, n);
            let (i1, i2, i3, i4) = sort4(a, b, c, d);
            if i1 == i2 || i2 == i3 || i3 == i4 {
                continue;
            }
            if let Some(candidate) = try_double_bridge(cycle, g, contractor, i1, i2, i3, i4) {
                proof {
                    assert(db_ok(cycle@, *g, *contractor, i1 as int, i2 as int, i3 as int, i4 as int));
                }
                return Some(candidate);
            }
        }
        // exhaustive scan for small cycles
        if n <= 30 {
            let mut i1: usize = 0;
            while i1 < n
                invariant
                    n == cycle@.len(),
                    4 <= n <= 30,
                    contractor.wf(),
                    0 <= i1 <= n,
                    forall|a1: int, a2: int, a3: int, a4: int|
                        a1 < i1 ==> !#[trigger] db_ok(cycle@, *g, *contractor, a1, a2, a3, a4),
                decreases n - i1,
            {
                let mut i2: usize = i1 + 1;
                while i2 < n
                    invariant
                        n == cycle@.len(),
                        4 <= n <= 30,
                        contractor.wf(),
                        i1 < n,
                        i1 + 1 <= i2 <= n,
                        forall|a1: int, a2: int, a3: int, a4: int|
                            a1 < i1 ==> !#[trigger] db_ok(cycle@, *g, *contractor, a1, a2, a3, a4),
                        forall|a2: int, a3: int, a4: int|
                            a2 < i2 ==> !#[trigger] db_ok(cycle@, *g, *contractor, i1 as int, a2, a3, a4),
                    decreases n - i2,
                {
                    let mut i3: usize = i2 + 1;
                    while i3 < n
                        invariant
                            n == cycle@.len(),
                            4 <= n <= 30,
                            contractor.wf(),
                            i1 < i2 < n,
                            i2 + 1 <= i3 <= n,
                            forall|a1: int, a2: int, a3: int, a4: int|
                                a1 < i1 ==> !#[trigger] db_ok(cycle@, *g, *contractor, a1, a2, a3, a4),
                            forall|a2: int, a3: int, a4: int|
                                a2 < i2 ==> !#[trigger] db_ok(cycle@, *g, *contractor, i1 as int, a2, a3, a4),
                            forall|a3: int, a4: int|
                                a3 < i3 ==> !#[trigger] db_ok(cycle@, *g, *contractor, i1 as int, i2 as int, a3, a4),
                        decreases n - i3,
                    {
                        let mut i4: usize = i3 + 1;
                        while i4 < n
                            invariant
                                n == cycle@.len(),
                                4 <= n <= 30,
                                contractor.wf(),
                                i1 < i2 < i3 < n,
                                i3 + 1 <= i4 <= n,
                                forall|a1: int, a2: int, a3: int, a4: int|
                                    a1 < i1 ==> !#[trigger] db_ok(cycle@, *g, *contractor, a1, a2, a3, a4),
                                forall|a2: int, a3: int, a4: int|
                                    a2 < i2 ==> !#[trigger] db_ok(cycle@, *g, *contractor, i1 as int, a2, a3, a4),
                                forall|a3: int, a4: int|
                                    a3 < i3 ==> !#[trigger] db_ok(cycle@, *g, *contractor, i1 as int, i2 as int, a3, a4),
                                forall|a4: int|
                                    a4 < i4 ==> !#[trigger] db_ok(cycle@, *g, *contractor, i1 as int, i2 as int, i3 as int, a4),
                            decreases n - i4,
                        {
                            if let Some(candidate) = try_double_bridge(cycle, g, contractor, i1, i2, i3, i4) {
                                proof {
                                    assert(db_ok(cycle@, *g, *contractor, i1 as int, i2 as int, i3 as int, i4 as int));
                                }
                                return Some(candidate);
                            }
                            i4 = i4 + 1;
                        }
                        i3 = i3 + 1;
                    }
                    i2 = i2 + 1;
                }
                i1 = i1 + 1;
            }
        }
        // randomized 2-opt chord swaps
        let max_2opt_attempts: usize = if n >= 50 {
            500
        } else if n * 10 < 50 {
            50
        } else {
            n * 10
        };
        let mut attempt: usize = 0;
        while attempt < max_2opt_attempts
            invariant
                n == cycle@.len(),
                n >= 4,
                contractor.wf(),
                n <= 30 ==> forall|i1: int, i2: int, i3: int, i4: int|
                    !#[trigger] db_ok(cycle@, *g, *contractor, i1, i2, i3, i4),
            decreases max_2opt_attempts - attempt,
        {
            attempt = attempt + 1;
            let a = rng.gen_range(0, n);
            let b = rng.gen_range(0, n);
            let (i, j) = if a < b { (a, b) } else { (b, a) };
            if j <= i + 1 || (i == 0 && j == n - 1) {
                continue;
            }
            if let Some(candidate) = try_two_opt(cycle, g, contractor, i, j) {
                proof {
                    assert(two_opt_ok(cycle@, *g, *contractor, i as int, j as int));
                }
                return Some(candidate);
            }
        }
        // deterministic 2-opt scan for small and medium cycles
        if n <= 50 {
            let mut i: usize = 0;
            while i < n
                invariant
                    n == cycle@.len(),
                    4 <= n <= 50,
                    contractor.wf(),
                    0 <= i <= n,
                    n <= 30 ==> forall|i1: int, i2: int, i3: int, i4: int|
                        !#[trigger] db_ok(cycle@, *g, *contractor, i1, i2, i3, i4),
                    forall|a: int, b: int| a < i ==> !#[trigger] two_opt_ok(cycle@, *g, *contractor, a, b),
                decreases n - i,
            {
                let mut j: usize = i + 2;
                while j < n
                    invariant
                        n == cycle@.len(),
                        4 <= n <= 50,
                        contractor.wf(),
                        i < n,
                        i + 2 <= j,
                        n <= 30 ==> forall|i1: int, i2: int, i3: int, i4: int|
                            !#[trigger] db_ok(cycle@, *g, *contractor, i1, i2, i3, i4),
                        forall|a: int, b: int| a < i ==> !#[trigger] two_opt_ok(cycle@, *g, *contractor, a, b),
                        forall|b: int| b < j ==> !#[trigger] two_opt_ok(cycle@, *g, *contractor, i as int, b),
                    decreases n - j,
                {
                    if !(i == 0 && j == n - 1) {
                        if let Some(candidate) = try_two_opt(cycle, g, contractor, i, j) {
                            proof {
                                assert(two_opt_ok(cycle@, *g, *contractor, i as int, j as int));
                            }
                            return Some(candidate);
                        }
                    }
                    j = j + 1;
                }
                i = i + 1;
            }
        }
        None
    }
}

/// Sorts cycle positions by non-increasing cycle length; equal lengths keep
/// their relative order.
fn sort_indices_by_len_desc(v: &mut Vec<usize>, cycles: &Vec<Vec<i32>>)
    requires
        forall|t: int| 0 <= t < old(v)@.len() ==> old(v)@[t] < cycles@.len(),
    ensures
        final(v)@.len() == old(v)@.len(),
        forall|t: int| 0 <= t < final(v)@.len() ==> final(v)@[t] < cycles@.len(),
        forall|a: int, b: int|
            0 <= a < b < final(v)@.len() ==> cycles@[final(v)@[a] as int]@.len() >= cycles@[final(v)@[b] as int]@.len(),
{
    let n = v.len();
    if n == 0 {
        return;
    }
    let mut i: usize = 1;
    while i < n
        invariant
            n == v@.len(),
            1 <= i <= n,
            forall|t: int| 0 <= t < v@.len() ==> v@[t] < cycles@.len(),
            forall|a: int, b: int|
                0 <= a < b < i ==> cycles@[v@[a] as int]@.len() >= cycles@[v@[b] as int]@.len(),
        decreases n - i,
    {
        let mut j: usize = i;
        while j > 0 && cycles[v[j - 1]].len() < cycles[v[j]].len()
            invariant
                n == v@.len(),
                1 <= i < n,
                0 <= j <= i,
                forall|t: int| 0 <= t < v@.len() ==> v@[t] < cycles@.len(),
                forall|a: int, b: int|
                    0 <= a < b <= i && a != j && b != j ==> cycles@[v@[a] as int]@.len() >= cycles@[v@[b] as int]@.len(),
                forall|a: int| j < a <= i ==> cycles@[v@[j as int] as int]@.len() > cycles@[v@[a] as int]@.len(),
            decreases j,
        {
            let x = v[j - 1];
            let y = v[j];
            v.set(j - 1, y);
            v.set(j, x);
            j = j - 1;
        }
        i = i + 1;
    }
}

} // verus!
