use cegar_fix::alternating_pairs::can_solve_alternating_pairs;
use cegar_fix::contraction::Degree2Contractor;
use cegar_fix::graph::Graph;

/// Rings of chains: ring `r` holds the chains `start..start + len`; chain `i`
/// runs `u_i - a_i - b_i - w_i` in the raw graph, with `u_i = 1000 + 2i`,
/// `w_i = u_i + 1`, `a_i = 5000 + 2i`, `b_i = a_i + 1`, and `w_i` is joined to
/// the `u` of the next chain of its ring. Returns the raw graph, the
/// contracted graph and the chains.
fn chain_rings(rings: &[(i32, i32)]) -> (Graph, Graph, Degree2Contractor) {
    let mut raw = Graph::new();
    let mut g = Graph::new();
    let mut c = Degree2Contractor::new_empty();
    for &(start, len) in rings {
        for i in start..start + len {
            let (u, w) = (1000 + 2 * i, 1001 + 2 * i);
            let (a, b) = (5000 + 2 * i, 5001 + 2 * i);
            raw.add_edge(u, a);
            raw.add_edge(a, b);
            raw.add_edge(b, w);
            g.add_edge(u, w);
            c.insert_chain(u, w, vec![u, a, b, w]);
            let next = if i + 1 == start + len { start } else { i + 1 };
            raw.add_edge(w, 1000 + 2 * next);
            g.add_edge(w, 1000 + 2 * next);
        }
    }
    (raw, g, c)
}

#[test]
fn alternating_pairs_single_ring_is_covered() {
    let (raw, g, c) = chain_rings(&[(0, 50)]);
    assert!(can_solve_alternating_pairs(&raw, &g, &c));
}

#[test]
fn alternating_pairs_two_rings_are_not_covered() {
    // The walk from the first pair stays in the first ring: 50 of 100 ends.
    let (raw, g, c) = chain_rings(&[(0, 25), (25, 25)]);
    assert!(!can_solve_alternating_pairs(&raw, &g, &c));
}

#[test]
fn alternating_pairs_needs_fifty_pairs() {
    let (raw, g, c) = chain_rings(&[(0, 49)]);
    assert!(!can_solve_alternating_pairs(&raw, &g, &c));
}

#[test]
fn alternating_pairs_needs_enough_degree_two_vertices() {
    // 60 chains, but the raw graph gets a dense block that pushes the share of
    // degree-2 vertices below a third.
    let (mut raw, g, c) = chain_rings(&[(0, 60)]);
    assert!(can_solve_alternating_pairs(&raw, &g, &c));
    for x in 0..40 {
        for y in (x + 1)..40 {
            raw.add_edge(20_000 + x, 20_000 + y);
        }
    }
    for x in 0..600 {
        raw.add_edge(30_000 + x, 30_000 + (x + 1) % 600);
        raw.add_edge(30_000 + x, 30_000 + (x + 2) % 600);
    }
    assert!(!can_solve_alternating_pairs(&raw, &g, &c));
    let small = chain_rings(&[(0, 10)]);
    assert!(!can_solve_alternating_pairs(&small.0, &small.1, &small.2));
}
