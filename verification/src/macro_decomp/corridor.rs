//! Two-vertex separators found by articulation-point search: for a candidate
//! vertex `u`, a depth-first search of the graph without `u` finds the
//! vertices whose removal (together with `u`) cuts off a subtree; each such
//! pair is confirmed by counting the connected pieces it leaves.
use crate::graph::{symmetric, Graph};
use crate::macro_corridor::{big_count, components_of, linked, split_counts};
use crate::sorting::{sorted_distinct, strictly_sorted};
use std::collections::HashMap;
use std::time::Instant;
use vstd::prelude::*;

verus! {

broadcast use vstd::std_specs::hash::group_hash_axioms;

/// `std::time::Instant`, a point in time, carried through opaquely.
#[verifier::external_type_specification]
#[verifier::external_body]
pub struct ExInstant(Instant);

/// The current time (`Instant::now`). It depends on when it is called, so
/// nothing is stated of it.
#[verifier::external_body]
fn clock_now() -> (t: Instant) {
    Instant::now()
}

/// Whether `a` is not earlier than `b` (`Instant`'s `>=`). Instants are opaque
/// here, so nothing is stated of the answer.
#[verifier::external_body]
fn instant_not_before(a: &Instant, b: &Instant) -> (r: bool) {
    *a >= *b
}

/// Whether the clock has reached `deadline`.
fn deadline_reached(deadline: &Instant) -> (b: bool) {
    let now = clock_now();
    instant_not_before(&now, deadline)
}

/// Every piece has at least one vertex, so all of them count at size 1.
proof fn lemma_big_count_one(comps: Seq<Set<i32>>)
    requires
        forall|i: int| 0 <= i < comps.len() ==> (#[trigger] comps[i]).finite() && comps[i].len() > 0,
    ensures
        big_count(comps, 1) == comps.len(),
    decreases comps.len(),
{
    if comps.len() > 0 {
        let c2 = comps.drop_last();
        assert forall|i: int| 0 <= i < c2.len() implies (#[trigger] c2[i]).finite() && c2[i].len() > 0 by {
            assert(c2[i] == comps[i]);
        }
        lemma_big_count_one(c2);
        assert(comps.last() == comps[comps.len() - 1]);
    }
}

/// Removing `port_u` and `port_v` leaves exactly two pieces.
pub open spec fn splits_in_two(g: Graph, port_u: i32, port_v: i32) -> bool {
    exists|comps: Seq<Set<i32>>| #[trigger] components_of(g, port_u, port_v, comps) && comps.len() == 2
}

/// Whether removing `port_u` and `port_v` leaves exactly two non-empty
/// connected pieces.
fn check_2cut_split(g: &Graph, port_u: i32, port_v: i32) -> (r: bool)
    requires
        g.wf(),
    ensures
        symmetric(*g) ==> exists|comps: Seq<Set<i32>>|
            #[trigger] components_of(*g, port_u, port_v, comps) && (r <==> comps.len() == 2),
{
    let (n_comps, n_big) = split_counts(g, port_u, port_v, 1);
    proof {
        if symmetric(*g) {
            let comps = choose|comps: Seq<Set<i32>>|
                #[trigger] components_of(*g, port_u, port_v, comps) && n_comps == comps.len() && n_big == big_count(comps, 1);
            lemma_big_count_one(comps);
        }
    }
    n_comps == 2 && n_big == 2
}

/// The vertices in increasing order, and each one's adjacency list as
/// positions in that order.
fn index_tables(g: &Graph) -> (r: (Vec<i32>, Vec<Vec<usize>>))
    requires
        g.wf(),
    ensures
        strictly_sorted(r.0@),
        forall|x: i32| r.0@.contains(x) <==> g.adj().contains_key(x),
        r.0@.len() <= g.adj().dom().len(),
        r.1@.len() == r.0@.len(),
        forall|i: int, k: int| 0 <= i < r.1@.len() && 0 <= k < r.1@[i]@.len() ==> #[trigger] r.1@[i]@[k] < r.0@.len(),
{
    proof {
        g.lemma_wf();
    }
    let nodes = sorted_distinct(g.vertex_list());
    let n = nodes.len();
    proof {
        assert(nodes@.no_duplicates()) by {
            assert forall|a: int, b: int| 0 <= a < nodes@.len() && 0 <= b < nodes@.len() && a != b implies nodes@[a] != nodes@[b] by {
                if a < b {
                    assert(nodes@[a] < nodes@[b]);
                } else {
                    assert(nodes@[b] < nodes@[a]);
                }
            }
        }
        crate::graph::lemma_distinct_vertices_bound(*g, nodes@);
    }
    let mut idx: HashMap<i32, usize> = HashMap::new();
    let mut i: usize = 0;
    while i < n
        invariant
            n == nodes@.len(),
            0 <= i <= n,
            forall|x: i32| #[trigger] idx@.contains_key(x) ==> idx@[x] < n,
        decreases n - i,
    {
        idx.insert(nodes[i], i);
        i = i + 1;
    }
    let mut adj: Vec<Vec<usize>> = Vec::new();
    let mut a: usize = 0;
    while a < n
        invariant
            n == nodes@.len(),
            0 <= a <= n,
            adj@.len() == a,
            forall|x: i32| #[trigger] idx@.contains_key(x) ==> idx@[x] < n,
            forall|i2: int, k: int| 0 <= i2 < adj@.len() && 0 <= k < adj@[i2]@.len() ==> #[trigger] adj@[i2]@[k] < n,
        decreases n - a,
    {
        let mut row: Vec<usize> = Vec::new();
        match g.neighbors(nodes[a]) {
            Some(nbrs) => {
                let mut t: usize = 0;
                while t < nbrs.len()
                    invariant
                        0 <= t <= nbrs@.len(),
                        forall|x: i32| #[trigger] idx@.contains_key(x) ==> idx@[x] < n,
                        forall|k: int| 0 <= k < row@.len() ==> #[trigger] row@[k] < n,
                    decreases nbrs@.len() - t,
                {
                    match idx.get(&nbrs[t]) {
                        Some(j) => {
                            row.push(*j);
                        },
                        None => {},
                    }
                    t = t + 1;
                }
            },
            None => {},
        }
        let ghost adj0 = adj@;
        adj.push(row);
        proof {
            assert forall|i2: int, k: int| 0 <= i2 < adj@.len() && 0 <= k < adj@[i2]@.len() implies #[trigger] adj@[i2]@[k] < n by {
                if i2 < adj0.len() {
                    assert(adj@[i2] == adj0[i2]);
                }
            }
        }
        a = a + 1;
    }
    (nodes, adj)
}

/// Positions `0..n` by increasing adjacency length, ties by position
/// (a stable insertion sort).
fn positions_by_degree(adj: &Vec<Vec<usize>>) -> (c: Vec<usize>)
    ensures
        c@.len() == adj@.len(),
        forall|i: int| 0 <= i < c@.len() ==> #[trigger] c@[i] < adj@.len(),
{
    let n = adj.len();
    let mut c: Vec<usize> = Vec::new();
    let mut k: usize = 0;
    while k < n
        invariant
            n == adj@.len(),
            0 <= k <= n,
            c@.len() == k,
            forall|i: int| 0 <= i < c@.len() ==> #[trigger] c@[i] < n,
        decreases n - k,
    {
        let dk = adj[k].len();
        let mut i: usize = 0;
        while i < c.len() && adj[c[i]].len() <= dk
            invariant
                n == adj@.len(),
                0 <= i <= c@.len(),
                forall|t: int| 0 <= t < c@.len() ==> #[trigger] c@[t] < n,
            decreases c@.len() - i,
        {
            i = i + 1;
        }
        let ghost c0 = c@;
        c.insert(i, k);
        proof {
            assert(c@ == c0.insert(i as int, k));
            assert forall|t: int| 0 <= t < c@.len() implies #[trigger] c@[t] < n by {
                if t < i {
                    assert(c@[t] == c0[t]);
                } else if t > i {
                    assert(c@[t] == c0[t - 1]);
                }
            }
        }
        k = k + 1;
    }
    c
}

/// A pair kept as the best separator so far: `a < b`, both vertices, and on a
/// symmetric graph removing them leaves exactly two pieces.
pub open spec fn best_ok(g: Graph, best: Option<(i32, i32, usize)>) -> bool {
    match best {
        Some((a, b, _)) => a < b && g.adj().contains_key(a) && g.adj().contains_key(b) && (symmetric(g) ==> splits_in_two(
            g,
            a,
            b,
        )),
        None => true,
    }
}

/// The work left on the search stack: per entry, the adjacency entries still
/// to look at, plus one for leaving it.
spec fn stack_work(adj: Seq<Vec<usize>>, st: Seq<(usize, usize, usize)>) -> int
    decreases st.len(),
{
    if st.len() == 0 {
        0
    } else {
        stack_work(adj, st.drop_last()) + (adj[st.last().0 as int]@.len() - st.last().2) + 1
    }
}

/// The positions discovered so far (discovery time at least 1).
spec fn discovered(tin: Seq<i32>, n: int) -> Set<int> {
    Set::new(|x: int| 0 <= x < n && tin[x] >= 1)
}

/// The state of the depth-first search around the removed position `u`:
/// discovery times are -1 (not yet), 0 (only `u`) or between 1 and `timer`,
/// `timer` of them discovered; the stack holds discovered positions other than
/// `u` in increasing discovery order, each with a valid neighbour index; and
/// each subtree size fits below the discovery time of the next entry (of the
/// clock, for the top).
spec fn dfs_inv(
    adj: Seq<Vec<usize>>,
    n: int,
    u: int,
    tin: Seq<i32>,
    sz: Seq<usize>,
    st: Seq<(usize, usize, usize)>,
    timer: int,
) -> bool {
    &&& tin.len() == n
    &&& sz.len() == n
    &&& adj.len() == n
    &&& 0 <= u < n
    &&& tin[u] == 0
    &&& 1 <= timer
    &&& forall|x: int| 0 <= x < n && x != u ==> #[trigger] tin[x] == -1 || 1 <= tin[x] <= timer
    &&& discovered(tin, n).finite()
    &&& discovered(tin, n).len() == timer
    &&& forall|k: int|
        0 <= k < st.len() ==> (#[trigger] st[k]).0 < n && st[k].0 != u && tin[st[k].0 as int] >= 1 && st[k].2
            <= adj[st[k].0 as int]@.len()
    &&& forall|k: int, l: int| 0 <= k < l < st.len() ==> tin[(#[trigger] st[k]).0 as int] < tin[(#[trigger] st[l]).0 as int]
    &&& forall|k: int|
        0 <= k < st.len() - 1 ==> sz[(#[trigger] st[k]).0 as int] + tin[st[k].0 as int] <= tin[st[k + 1].0 as int]
    &&& st.len() > 0 ==> sz[st.last().0 as int] + tin[st.last().0 as int] <= timer + 1
}

/// Removing `a` and `b` is the same as removing `b` and `a`.
proof fn lemma_components_swap(g: Graph, a: i32, b: i32, comps: Seq<Set<i32>>)
    requires
        components_of(g, a, b, comps),
    ensures
        components_of(g, b, a, comps),
{
    assert forall|x: i32, y: i32| linked(g, a, b, x, y) <==> linked(g, b, a, x, y) by {
        if linked(g, a, b, x, y) {
            let w = choose|w: Seq<i32>| #[trigger] crate::macro_corridor::avoid_walk(g, a, b, w) && w[0] == x && w.last() == y;
            assert(crate::macro_corridor::avoid_walk(g, b, a, w));
        }
        if linked(g, b, a, x, y) {
            let w = choose|w: Seq<i32>| #[trigger] crate::macro_corridor::avoid_walk(g, b, a, w) && w[0] == x && w.last() == y;
            assert(crate::macro_corridor::avoid_walk(g, a, b, w));
        }
    }
    assert forall|i: int, x: i32, y: i32|
        0 <= i < comps.len() && #[trigger] comps[i].contains(x) implies (comps[i].contains(y) <==> #[trigger] linked(g, b, a, x, y)) by {
        assert(comps[i].contains(y) <==> linked(g, a, b, x, y));
    }
}

/// The stack work is never negative.
proof fn lemma_stack_work_nonneg(adj: Seq<Vec<usize>>, st: Seq<(usize, usize, usize)>)
    requires
        forall|k: int| 0 <= k < st.len() ==> (#[trigger] st[k]).2 <= adj[st[k].0 as int]@.len(),
    ensures
        stack_work(adj, st) >= 0,
    decreases st.len(),
{
    if st.len() > 0 {
        let s2 = st.drop_last();
        assert forall|k: int| 0 <= k < s2.len() implies (#[trigger] s2[k]).2 <= adj[s2[k].0 as int]@.len() by {
            assert(s2[k] == st[k]);
        }
        lemma_stack_work_nonneg(adj, s2);
        assert(st.last() == st[st.len() - 1]);
    }
}

/// At most `n - 1` positions are discovered, `u` never being one of them; one
/// more can join while an undiscovered position other than `u` remains.
proof fn lemma_discovered_bound(tin: Seq<i32>, n: int, u: int, extra: int)
    requires
        0 <= u < n,
        tin.len() == n,
        tin[u] == 0,
        discovered(tin, n).finite(),
        0 <= extra < n,
        extra != u,
        tin[extra] == -1,
    ensures
        discovered(tin, n).len() + 1 <= n - 1,
{
    let d = discovered(tin, n);
    let r = vstd::set_lib::set_int_range(0, n).remove(u).remove(extra);
    vstd::set_lib::lemma_int_range(0, n);
    assert(d.subset_of(r));
    vstd::set_lib::lemma_len_subset(d, r);
}

/// With `u` undiscovered, at most `n - 1` positions are discovered.
proof fn lemma_discovered_bound0(tin: Seq<i32>, n: int, u: int)
    requires
        0 <= u < n,
        tin.len() == n,
        tin[u] == 0,
        discovered(tin, n).finite(),
    ensures
        discovered(tin, n).len() <= n - 1,
{
    let d = discovered(tin, n);
    let r = vstd::set_lib::set_int_range(0, n).remove(u);
    vstd::set_lib::lemma_int_range(0, n);
    assert(d.subset_of(r));
    vstd::set_lib::lemma_len_subset(d, r);
}

/// Advancing the neighbour index of the stack top keeps the search state and
/// uses up one unit of work.
proof fn lemma_advance_top(
    adj: Seq<Vec<usize>>,
    n: int,
    u: int,
    tin: Seq<i32>,
    sz: Seq<usize>,
    st0: Seq<(usize, usize, usize)>,
    st1: Seq<(usize, usize, usize)>,
    timer: int,
)
    requires
        dfs_inv(adj, n, u, tin, sz, st0, timer),
        st0.len() > 0,
        st0.last().2 < adj[st0.last().0 as int]@.len(),
        adj[st0.last().0 as int]@.len() <= usize::MAX,
        st1 == st0.update(st0.len() - 1, (st0.last().0, st0.last().1, (st0.last().2 + 1) as usize)),
    ensures
        dfs_inv(adj, n, u, tin, sz, st1, timer),
        stack_work(adj, st1) == stack_work(adj, st0) - 1,
{
    let top = st0.len() - 1;
    assert(st1.drop_last() == st0.drop_last());
    assert(st1.last() == st1[top]);
    assert forall|k: int| 0 <= k < st1.len() implies (#[trigger] st1[k]).0 < n && st1[k].0 != u && tin[st1[k].0 as int] >= 1
        && st1[k].2 <= adj[st1[k].0 as int]@.len() by {
        if k < top {
            assert(st1[k] == st0[k]);
        } else {
            assert(st0[k] == st0.last());
        }
    }
    assert forall|k: int, l: int| 0 <= k < l < st1.len() implies tin[(#[trigger] st1[k]).0 as int] < tin[(
    #[trigger] st1[l]).0 as int] by {
        assert(st1[k].0 == st0[k].0);
        assert(st1[l].0 == st0[l].0);
    }
    assert forall|k: int| 0 <= k < st1.len() - 1 implies sz[(#[trigger] st1[k]).0 as int] + tin[st1[k].0 as int] <= tin[st1[k
        + 1].0 as int] by {
        assert(st1[k].0 == st0[k].0);
        assert(st1[k + 1].0 == st0[k + 1].0);
    }
    assert(st1.last().0 == st0.last().0);
    assert(st1.last().2 == st0.last().2 + 1);
    assert(stack_work(adj, st1) == stack_work(adj, st1.drop_last()) + (adj[st1.last().0 as int]@.len() - st1.last().2) + 1);
    assert(stack_work(adj, st0) == stack_work(adj, st0.drop_last()) + (adj[st0.last().0 as int]@.len() - st0.last().2) + 1);
}

/// Discovering the undiscovered position `to` at time `timer + 1` and pushing
/// it above the top keeps the search state.
proof fn lemma_push_new(
    adj: Seq<Vec<usize>>,
    n: int,
    u: int,
    tin0: Seq<i32>,
    sz0: Seq<usize>,
    st: Seq<(usize, usize, usize)>,
    timer: int,
    to: usize,
    curr: usize,
)
    requires
        dfs_inv(adj, n, u, tin0, sz0, st, timer),
        st.len() > 0,
        st.last().0 == curr,
        0 <= to < n,
        to != u,
        tin0[to as int] == -1,
        timer + 1 <= n - 1,
        n < 0x7fff_ffff,
    ensures
        dfs_inv(
            adj,
            n,
            u,
            tin0.update(to as int, (timer + 1) as i32),
            sz0.update(to as int, 1usize),
            st.push((to, curr, 0usize)),
            timer + 1,
        ),
{
    let t = timer + 1;
    let tin = tin0.update(to as int, t as i32);
    let sz = sz0.update(to as int, 1usize);
    let st2 = st.push((to, curr, 0usize));
    let d0 = discovered(tin0, n);
    let d1 = discovered(tin, n);
    assert(d1 =~= d0.insert(to as int));
    assert(!d0.contains(to as int));
    assert forall|x: int| 0 <= x < n && x != u implies #[trigger] tin[x] == -1 || 1 <= tin[x] <= t by {
        if x != to {
            assert(tin[x] == tin0[x]);
        }
    }
    assert forall|k: int| 0 <= k < st.len() implies st[k].0 != to by {
        assert(tin0[st[k].0 as int] >= 1);
    }
    assert forall|k: int| 0 <= k < st2.len() implies (#[trigger] st2[k]).0 < n && st2[k].0 != u && tin[st2[k].0 as int] >= 1
        && st2[k].2 <= adj[st2[k].0 as int]@.len() by {
        if k < st.len() {
            assert(st2[k] == st[k]);
            assert(tin[st[k].0 as int] == tin0[st[k].0 as int]);
        }
    }
    assert forall|k: int, l: int| 0 <= k < l < st2.len() implies tin[(#[trigger] st2[k]).0 as int] < tin[(
    #[trigger] st2[l]).0 as int] by {
        assert(st2[k] == st[k]);
        assert(tin[st[k].0 as int] == tin0[st[k].0 as int]);
        if l < st.len() {
            assert(st2[l] == st[l]);
            assert(tin[st[l].0 as int] == tin0[st[l].0 as int]);
        }
    }
    assert forall|k: int| 0 <= k < st2.len() - 1 implies sz[(#[trigger] st2[k]).0 as int] + tin[st2[k].0 as int] <= tin[st2[k
        + 1].0 as int] by {
        assert(st2[k] == st[k]);
        assert(sz[st[k].0 as int] == sz0[st[k].0 as int]);
        assert(tin[st[k].0 as int] == tin0[st[k].0 as int]);
        if k + 1 < st.len() {
            assert(st2[k + 1] == st[k + 1]);
            assert(tin[st[k + 1].0 as int] == tin0[st[k + 1].0 as int]);
        } else {
            assert(st[k] == st.last());
        }
    }
}

/// Looks at the next neighbour of the stack top: a neighbour not seen yet is
/// discovered and pushed; one seen already lowers the top's low-link.
fn dfs_advance(
    adj: &Vec<Vec<usize>>,
    u: usize,
    tin: &mut Vec<i32>,
    low: &mut Vec<i32>,
    sz: &mut Vec<usize>,
    stack: &mut Vec<(usize, usize, usize)>,
    timer: &mut i32,
)
    requires
        dfs_inv(adj@, adj@.len() as int, u as int, old(tin)@, old(sz)@, old(stack)@, *old(timer) as int),
        old(low)@.len() == adj@.len(),
        adj@.len() < 0x7fff_ffff,
        forall|i: int, k: int| 0 <= i < adj@.len() && 0 <= k < adj@[i]@.len() ==> #[trigger] adj@[i]@[k] < adj@.len(),
        old(stack)@.len() > 0,
        old(stack)@.last().2 < adj@[old(stack)@.last().0 as int]@.len(),
    ensures
        dfs_inv(adj@, adj@.len() as int, u as int, final(tin)@, final(sz)@, final(stack)@, *final(timer) as int),
        final(low)@.len() == adj@.len(),
        *final(timer) >= *old(timer),
        *final(timer) > *old(timer) || stack_work(adj@, final(stack)@) < stack_work(adj@, old(stack)@),
{
    let ghost n = adj@.len() as int;
    let ghost st0 = stack@;
    let top = stack.len() - 1;
    let (curr, p, idx) = stack[top];
    proof {
        assert(st0[top as int] == st0.last());
    }
    let alen = adj[curr].len();
    let to = adj[curr][idx];
    stack.set(top, (curr, p, idx + 1));
    proof {
        lemma_advance_top(adj@, n, u as int, tin@, sz@, st0, stack@, *timer as int);
    }
    if to == p || to == u {
        return;
    }
    if tin[to] != -1 {
        if tin[to] < low[curr] {
            low.set(curr, tin[to]);
        }
        return;
    }
    proof {
        lemma_discovered_bound(tin@, n, u as int, to as int);
        assert(stack@.last().0 == curr);
    }
    let t = *timer + 1;
    proof {
        lemma_push_new(adj@, n, u as int, tin@, sz@, stack@, *timer as int, to, curr);
    }
    tin.set(to, t);
    low.set(to, t);
    sz.set(to, 1);
    stack.push((to, curr, 0));
    *timer = t;
}

/// Popping a finished top keeps the search state once its subtree size is
/// added to its parent, and uses up one unit of work.
proof fn lemma_pop_top(
    adj: Seq<Vec<usize>>,
    n: int,
    u: int,
    tin: Seq<i32>,
    sz0: Seq<usize>,
    st0: Seq<(usize, usize, usize)>,
    timer: int,
)
    requires
        dfs_inv(adj, n, u, tin, sz0, st0, timer),
        st0.len() > 0,
        st0.last().2 == adj[st0.last().0 as int]@.len(),
    ensures
        stack_work(adj, st0.drop_last()) == stack_work(adj, st0) - 1,
        st0.len() == 1 ==> dfs_inv(adj, n, u, tin, sz0, st0.drop_last(), timer),
        st0.len() > 1 ==> {
            let st1 = st0.drop_last();
            let parent = st1.last().0 as int;
            let curr = st0.last().0 as int;
            &&& sz0[parent] + sz0[curr] + tin[parent] <= timer + 1
            &&& sz0[parent] + sz0[curr] <= timer
            &&& parent != u
            &&& parent != curr
            &&& forall|s: usize|
                sz0[parent] + sz0[curr] == s ==> dfs_inv(adj, n, u, tin, sz0.update(parent, s), st1, timer)
        },
{
    let st1 = st0.drop_last();
    assert(stack_work(adj, st0) == stack_work(adj, st1) + (adj[st0.last().0 as int]@.len() - st0.last().2) + 1);
    let top = st0.len() - 1;
    assert(st0.last() == st0[top]);
    assert forall|k: int| 0 <= k < st1.len() implies (#[trigger] st1[k]).0 < n && st1[k].0 != u && tin[st1[k].0 as int] >= 1
        && st1[k].2 <= adj[st1[k].0 as int]@.len() by {
        assert(st1[k] == st0[k]);
    }
    assert forall|k: int, l: int| 0 <= k < l < st1.len() implies tin[(#[trigger] st1[k]).0 as int] < tin[(
    #[trigger] st1[l]).0 as int] by {
        assert(st1[k] == st0[k]);
        assert(st1[l] == st0[l]);
    }
    if st0.len() > 1 {
        let parent = st1.last().0 as int;
        let curr = st0.last().0 as int;
        assert(st1.last() == st0[top - 1]);
        assert(tin[parent] < tin[curr]);
        assert(sz0[parent] + tin[parent] <= tin[curr]);
        assert forall|s: usize| sz0[parent] + sz0[curr] == s implies dfs_inv(adj, n, u, tin, sz0.update(parent, s), st1, timer) by {
            let sz1 = sz0.update(parent, s);
            assert forall|k: int| 0 <= k < st1.len() - 1 implies sz1[(#[trigger] st1[k]).0 as int] + tin[st1[k].0 as int] <= tin[st1[k
                + 1].0 as int] by {
                assert(st1[k] == st0[k]);
                assert(st1[k + 1] == st0[k + 1]);
                assert(tin[st0[k].0 as int] < tin[st0[top - 1].0 as int]);
                assert(st0[k].0 != st0[top - 1].0);
            }
        }
    } else {
        assert forall|k: int| 0 <= k < st1.len() - 1 implies sz0[(#[trigger] st1[k]).0 as int] + tin[st1[k].0 as int] <= tin[st1[k
            + 1].0 as int] by {
        }
    }
}

/// The kept separator is never replaced by one that cuts off less.
pub open spec fn best_grows(before: Option<(i32, i32, usize)>, after: Option<(i32, i32, usize)>) -> bool {
    before matches Some(b) ==> (after matches Some(a) && a.2 >= b.2)
}

/// Leaves the finished stack top: its low-link and subtree size pass to its
/// parent, and when nothing below the top reaches above the parent, the pair
/// (`u`, parent) is tried as a separator and kept when it splits the graph in
/// exactly two and cuts off more than the best so far. Returns whether the
/// kept pair splits the graph evenly, ending the search.
fn dfs_retreat(
    g: &Graph,
    nodes: &Vec<i32>,
    adj: &Vec<Vec<usize>>,
    u: usize,
    tin: &Vec<i32>,
    low: &mut Vec<i32>,
    sz: &mut Vec<usize>,
    stack: &mut Vec<(usize, usize, usize)>,
    timer: i32,
    best: &mut Option<(i32, i32, usize)>,
) -> (done: bool)
    requires
        g.wf(),
        strictly_sorted(nodes@),
        forall|x: i32| nodes@.contains(x) ==> g.adj().contains_key(x),
        nodes@.len() == adj@.len(),
        dfs_inv(adj@, adj@.len() as int, u as int, tin@, old(sz)@, old(stack)@, timer as int),
        old(low)@.len() == adj@.len(),
        old(stack)@.len() > 0,
        old(stack)@.last().2 == adj@[old(stack)@.last().0 as int]@.len(),
        best_ok(*g, *old(best)),
    ensures
        dfs_inv(adj@, adj@.len() as int, u as int, tin@, final(sz)@, final(stack)@, timer as int),
        final(low)@.len() == adj@.len(),
        stack_work(adj@, final(stack)@) < stack_work(adj@, old(stack)@),
        best_ok(*g, *final(best)),
        best_grows(*old(best), *final(best)),
        done ==> (*final(best) matches Some(b) && b.2 >= nodes@.len() / 2),
{
    let ghost n = adj@.len() as int;
    let ghost st0 = stack@;
    proof {
        lemma_pop_top(adj@, n, u as int, tin@, sz@, stack@, timer as int);
    }
    let (curr, _p, _i) = stack.pop().unwrap();
    proof {
        assert(stack@ == st0.drop_last());
    }
    if stack.len() > 0 {
        let parent = stack[stack.len() - 1].0;
        proof {
            assert(stack@.last() == stack@[stack@.len() - 1]);
        }
        if low[curr] < low[parent] {
            low.set(parent, low[curr]);
        }
        let s = sz[parent] + sz[curr];
        sz.set(parent, s);
        if low[curr] >= tin[parent] {
            let comp1 = sz[curr];
            let n_nodes = nodes.len();
            let comp2 = if n_nodes - 1 >= comp1 { n_nodes - 1 - comp1 } else { 0 };
            if comp1 >= 1 && comp2 >= 1 {
                let u_orig = nodes[u];
                let v_orig = nodes[parent];
                if check_2cut_split(g, u_orig, v_orig) {
                    let min_comp = if comp1 < comp2 { comp1 } else { comp2 };
                    let is_better = match best {
                        Some(b) => min_comp > b.2,
                        None => true,
                    };
                    if is_better {
                        proof {
                            assert(nodes@.contains(u_orig));
                            assert(nodes@.contains(v_orig));
                            assert(u_orig != v_orig) by {
                                if (u as int) < (parent as int) {
                                    assert(nodes@[u as int] < nodes@[parent as int]);
                                } else {
                                    assert(nodes@[parent as int] < nodes@[u as int]);
                                }
                            }
                            if symmetric(*g) {
                                let comps = choose|comps: Seq<Set<i32>>|
                                    #[trigger] components_of(*g, u_orig, v_orig, comps) && comps.len() == 2;
                                lemma_components_swap(*g, u_orig, v_orig, comps);
                            }
                        }
                        if u_orig < v_orig {
                            *best = Some((u_orig, v_orig, min_comp));
                        } else {
                            *best = Some((v_orig, u_orig, min_comp));
                        }
                        if min_comp >= n_nodes / 2 {
                            return true;
                        }
                    }
                }
            }
        }
    }
    false
}

/// The depth-first search of the graph without position `u`, from position 0
/// (1 when `u` is 0), trying each articulation found as a separator partner of
/// `u`. Returns whether an even split was found, ending the whole search.
fn probe_candidate(
    g: &Graph,
    nodes: &Vec<i32>,
    adj: &Vec<Vec<usize>>,
    u: usize,
    best: &mut Option<(i32, i32, usize)>,
) -> (done: bool)
    requires
        g.wf(),
        strictly_sorted(nodes@),
        forall|x: i32| nodes@.contains(x) ==> g.adj().contains_key(x),
        4 <= nodes@.len() < 0x7fff_ffff,
        adj@.len() == nodes@.len(),
        forall|i: int, k: int| 0 <= i < adj@.len() && 0 <= k < adj@[i]@.len() ==> #[trigger] adj@[i]@[k] < adj@.len(),
        u < nodes@.len(),
        best_ok(*g, *old(best)),
    ensures
        best_ok(*g, *final(best)),
        best_grows(*old(best), *final(best)),
        done ==> (*final(best) matches Some(b) && b.2 >= nodes@.len() / 2),
{
    let n = nodes.len();
    let ghost ni = n as int;
    let ghost b0 = *best;
    let root: usize = if u != 0 { 0 } else { 1 };
    let mut tin: Vec<i32> = Vec::new();
    let mut low: Vec<i32> = Vec::new();
    let mut sz: Vec<usize> = Vec::new();
    let mut i: usize = 0;
    while i < n
        invariant
            0 <= i <= n,
            tin@.len() == i,
            low@.len() == i,
            sz@.len() == i,
            forall|x: int| 0 <= x < i ==> #[trigger] tin@[x] == -1,
        decreases n - i,
    {
        tin.push(-1);
        low.push(-1);
        sz.push(0);
        i = i + 1;
    }
    tin.set(u, 0);
    let mut timer: i32 = 1;
    tin.set(root, 1);
    low.set(root, 1);
    sz.set(root, 1);
    let mut stack: Vec<(usize, usize, usize)> = Vec::new();
    stack.push((root, usize::MAX, 0));
    proof {
        assert(discovered(tin@, ni) =~= set![root as int]);
        assert(set![root as int].len() == 1) by {
            assert(set![root as int] =~= Set::<int>::empty().insert(root as int));
        }
        assert(stack@[0] == (root, usize::MAX, 0usize));
        assert(dfs_inv(adj@, ni, u as int, tin@, sz@, stack@, 1));
    }
    while stack.len() > 0
        invariant
            g.wf(),
            strictly_sorted(nodes@),
            forall|x: i32| nodes@.contains(x) ==> g.adj().contains_key(x),
            n == nodes@.len(),
            ni == n,
            4 <= n < 0x7fff_ffff,
            adj@.len() == n,
            forall|i2: int, k: int| 0 <= i2 < adj@.len() && 0 <= k < adj@[i2]@.len() ==> #[trigger] adj@[i2]@[k] < adj@.len(),
            u < n,
            dfs_inv(adj@, ni, u as int, tin@, sz@, stack@, timer as int),
            low@.len() == n,
            best_ok(*g, *best),
            best_grows(b0, *best),
            b0 == *old(best),
        decreases ni - timer, stack_work(adj@, stack@),
    {
        proof {
            lemma_discovered_bound0(tin@, ni, u as int);
            lemma_stack_work_nonneg(adj@, stack@);
        }
        let top = stack.len() - 1;
        let (c, _p, idx) = stack[top];
        proof {
            assert(stack@[top as int] == stack@.last());
        }
        if idx < adj[c].len() {
            dfs_advance(adj, u, &mut tin, &mut low, &mut sz, &mut stack, &mut timer);
        } else {
            let done = dfs_retreat(g, nodes, adj, u, &tin, &mut low, &mut sz, &mut stack, timer, best);
            if done {
                return true;
            }
        }
        proof {
            lemma_discovered_bound0(tin@, ni, u as int);
            lemma_stack_work_nonneg(adj@, stack@);
        }
    }
    false
}

/// Searches for two vertices whose removal leaves exactly two connected
/// pieces: candidates `u` in increasing order of degree (ties by label), each
/// of degree at least 2; for each, the articulation points of the graph
/// without `u` are tried as partners. The pair cutting off the largest smaller
/// piece is kept, and the search stops early at an even split or once
/// `deadline` has passed. The answer is the pair kept, smaller label first.
pub fn find_2cut_ports_with_deadline(raw_g: &Graph, deadline: Option<Instant>, _min_profitable: usize) -> (r: Option<(i32, i32)>)
    requires
        raw_g.wf(),
        raw_g.adj().dom().len() < 0x7fff_ffff,
    ensures
        raw_g.adj().dom().len() < 4 ==> r is None,
        match r {
            Some((a, b)) => a < b && raw_g.adj().contains_key(a) && raw_g.adj().contains_key(b) && (symmetric(*raw_g) ==> splits_in_two(
                *raw_g,
                a,
                b,
            )),
            None => true,
        },
{
    proof {
        raw_g.lemma_wf();
    }
    let n = raw_g.num_vertices();
    if n < 4 {
        return None;
    }
    let (nodes, adj) = index_tables(raw_g);
    proof {
        assert forall|x: int| 0 <= x < raw_g.vertices().len() implies nodes@.contains(#[trigger] raw_g.vertices()[x]) by {
            assert(raw_g.vertices().contains(raw_g.vertices()[x]));
        }
        assert(raw_g.vertices().no_duplicates());
        raw_g.vertices().unique_seq_to_set();
        nodes@.unique_seq_to_set();
        assert(nodes@.no_duplicates()) by {
            assert forall|a: int, b: int| 0 <= a < nodes@.len() && 0 <= b < nodes@.len() && a != b implies nodes@[a] != nodes@[b] by {
                if a < b {
                    assert(nodes@[a] < nodes@[b]);
                } else {
                    assert(nodes@[b] < nodes@[a]);
                }
            }
        }
        assert(nodes@.to_set() =~= raw_g.vertices().to_set());
    }
    let candidates = positions_by_degree(&adj);
    let mut best: Option<(i32, i32, usize)> = None;
    let mut k: usize = 0;
    while k < candidates.len()
        invariant
            raw_g.wf(),
            strictly_sorted(nodes@),
            forall|x: i32| nodes@.contains(x) ==> raw_g.adj().contains_key(x),
            4 <= nodes@.len() < 0x7fff_ffff,
            adj@.len() == nodes@.len(),
            forall|i2: int, k2: int| 0 <= i2 < adj@.len() && 0 <= k2 < adj@[i2]@.len() ==> #[trigger] adj@[i2]@[k2] < adj@.len(),
            candidates@.len() == adj@.len(),
            forall|i2: int| 0 <= i2 < candidates@.len() ==> #[trigger] candidates@[i2] < adj@.len(),
            0 <= k <= candidates@.len(),
            raw_g.adj().dom().len() >= 4,
            best_ok(*raw_g, best),
        decreases candidates@.len() - k,
    {
        match &deadline {
            Some(dl) => {
                if deadline_reached(dl) {
                    return match best {
                        Some(b) => Some((b.0, b.1)),
                        None => None,
                    };
                }
            },
            None => {},
        }
        let u = candidates[k];
        if adj[u].len() >= 2 {
            if probe_candidate(raw_g, &nodes, &adj, u, &mut best) {
                return match best {
                    Some(b) => Some((b.0, b.1)),
                    None => None,
                };
            }
        }
        k = k + 1;
    }
    match best {
        Some(b) => Some((b.0, b.1)),
        None => None,
    }
}

/// The separator search without a deadline.
pub fn find_2cut_ports(raw_g: &Graph) -> (r: Option<(i32, i32)>)
    requires
        raw_g.wf(),
        raw_g.adj().dom().len() < 0x7fff_ffff,
    ensures
        raw_g.adj().dom().len() < 4 ==> r is None,
        match r {
            Some((a, b)) => a < b && raw_g.adj().contains_key(a) && raw_g.adj().contains_key(b) && (symmetric(*raw_g) ==> splits_in_two(
                *raw_g,
                a,
                b,
            )),
            None => true,
        },
{
    find_2cut_ports_with_deadline(raw_g, None, 10)
}

/// Whether the graph has a two-vertex separator, and which: the answer of
/// `find_2cut_ports`.
pub fn can_solve_2cut(raw_g: &Graph) -> (r: Option<(i32, i32)>)
    requires
        raw_g.wf(),
        raw_g.adj().dom().len() < 0x7fff_ffff,
    ensures
        raw_g.adj().dom().len() < 4 ==> r is None,
        match r {
            Some((a, b)) => a < b && raw_g.adj().contains_key(a) && raw_g.adj().contains_key(b) && (symmetric(*raw_g) ==> splits_in_two(
                *raw_g,
                a,
                b,
            )),
            None => true,
        },
{
    find_2cut_ports(raw_g)
}

} // verus!
