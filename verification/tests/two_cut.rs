use cegar_fix::graph::Graph;
use cegar_fix::macro_corridor::find_2cut_ports;

/// Two rings of `len` vertices (labels from 1 and from 10_001), joined only
/// through `s` (next to 1 and 10_001) and `t` (next to 300 and 10_300). The
/// two joints are added first, so they come first among the vertices of
/// degree two.
fn two_rings(len: i32, s: i32, t: i32) -> Graph {
    let mut g = Graph::new();
    g.add_edge(s, 1);
    g.add_edge(s, 10_001);
    g.add_edge(t, 300);
    g.add_edge(t, 10_300);
    for base in [1, 10_001] {
        for i in 0..len {
            g.add_edge(base + i, base + (i + 1) % len);
        }
    }
    g
}

#[test]
fn two_cut_finds_low_degree_separator() {
    let g = two_rings(600, 50_000, 50_001);
    assert_eq!(find_2cut_ports(&g), Some((50_000, 50_001)));
}

#[test]
fn two_cut_tries_known_pair_first() {
    let g = two_rings(600, 1876, 2491);
    assert_eq!(find_2cut_ports(&g), Some((1876, 2491)));
}

#[test]
fn two_cut_needs_two_large_pieces() {
    // The same shape with rings of 400: each piece is too small.
    let g = two_rings(400, 50_000, 50_001);
    assert_eq!(find_2cut_ports(&g), None);
    let mut small = Graph::new();
    for i in 0..10 {
        small.add_edge(i, (i + 1) % 10);
    }
    assert_eq!(find_2cut_ports(&small), None);
}

fn cycles_graph(cycles: &[Vec<i32>], cross: &[(i32, i32)]) -> Graph {
    let mut g = Graph::new();
    for c in cycles {
        for i in 0..c.len() {
            g.add_edge(c[i], c[(i + 1) % c.len()]);
        }
    }
    for &(u, v) in cross {
        g.add_edge(u, v);
    }
    g
}

fn is_closed_walk_over(t: &[i32], g: &Graph, vertices: usize) -> bool {
    let mut seen = t.to_vec();
    seen.sort();
    seen.dedup();
    seen.len() == vertices && t.len() == vertices && (0..t.len()).all(|i| g.contains_edge(t[i], t[(i + 1) % t.len()]))
}

#[test]
fn merge_two_cycles_takes_first_crossing() {
    let (a, b) = (vec![1, 2, 3], vec![4, 5, 6]);
    let g = cycles_graph(&[a.clone(), b.clone()], &[(1, 4), (2, 5), (3, 6)]);
    assert_eq!(cegar_fix::macro_corridor::merge_two_cycles(&a, &b, &g, &vec![]), Some(vec![2, 3, 1, 4, 6, 5]));
    // With the edge 1 -- 2 forbidden, the first merge breaks 2 -- 3 and 5 -- 6.
    assert_eq!(
        cegar_fix::macro_corridor::merge_two_cycles(&a, &b, &g, &vec![(1, 2)]),
        Some(vec![3, 1, 2, 5, 4, 6])
    );
    assert_eq!(cegar_fix::macro_corridor::merge_two_cycles(&a, &[], &g, &vec![]), None);
    let apart = cycles_graph(&[a.clone(), b.clone()], &[]);
    assert_eq!(cegar_fix::macro_corridor::merge_two_cycles(&a, &b, &apart, &vec![]), None);
}

#[test]
fn absorption_merges_all_cycles_or_stops() {
    let cs = vec![vec![1, 2, 3], vec![4, 5, 6], vec![7, 8, 9]];
    let g = cycles_graph(&cs, &[(1, 4), (2, 5), (6, 7), (5, 8)]);
    let t = cegar_fix::macro_corridor::try_2opt_absorption(&cs, &g, &vec![]).unwrap();
    assert!(is_closed_walk_over(&t, &g, 9));
    let apart = cycles_graph(&cs, &[(1, 4), (2, 5)]);
    assert_eq!(cegar_fix::macro_corridor::try_2opt_absorption(&cs, &apart, &vec![]), None);
    assert_eq!(
        cegar_fix::macro_corridor::try_2opt_absorption(&vec![vec![1, 2, 3]], &g, &vec![]),
        Some(vec![1, 2, 3])
    );
    assert_eq!(cegar_fix::macro_corridor::try_2opt_absorption(&vec![], &g, &vec![]), None);
}
