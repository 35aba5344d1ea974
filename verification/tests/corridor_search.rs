use cegar_fix::graph::Graph;
use cegar_fix::macro_decomp::corridor::{can_solve_2cut, find_2cut_ports, find_2cut_ports_with_deadline};
use std::time::{Duration, Instant};

/// Two rings of `len` vertices (labels from 1 and from 101), joined only
/// through `s` (next to 1 and 101) and `t` (next to `len / 2` and
/// `100 + len / 2`).
fn joined_rings(len: i32, s: i32, t: i32) -> Graph {
    let mut g = Graph::new();
    for base in [1, 101] {
        for i in 0..len {
            g.add_edge(base + i, base + (i + 1) % len);
        }
    }
    g.add_edge(s, 1);
    g.add_edge(s, 101);
    g.add_edge(t, len / 2);
    g.add_edge(t, 100 + len / 2);
    g
}

#[test]
fn corridor_search_keeps_most_balanced_separator() {
    let g = joined_rings(20, 500, 501);
    assert_eq!(find_2cut_ports(&g), Some((500, 501)));
    assert_eq!(can_solve_2cut(&g), Some((500, 501)));
}

#[test]
fn corridor_search_finds_nothing_without_separator() {
    let mut k5 = Graph::new();
    for a in 0..5 {
        for b in (a + 1)..5 {
            k5.add_edge(a, b);
        }
    }
    assert_eq!(find_2cut_ports(&k5), None);
    let mut tiny = Graph::new();
    tiny.add_edge(1, 2);
    tiny.add_edge(2, 3);
    assert_eq!(find_2cut_ports(&tiny), None);
}

#[test]
fn corridor_search_stops_at_passed_deadline() {
    let g = joined_rings(20, 500, 501);
    let passed = Instant::now();
    assert_eq!(find_2cut_ports_with_deadline(&g, Some(passed), 10), None);
    let later = Instant::now() + Duration::from_secs(3600);
    assert_eq!(find_2cut_ports_with_deadline(&g, Some(later), 10), Some((500, 501)));
}
