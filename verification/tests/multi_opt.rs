use cegar_fix::graph::Graph;
use cegar_fix::multi_opt_sat_splicer::{CycleSwap, MultiOptSatSplicer};

fn graph_of(edges: &[(i32, i32)]) -> Graph {
    let mut g = Graph::new();
    for &(u, v) in edges {
        g.add_edge(u, v);
    }
    g
}

fn two_squares() -> (Vec<Vec<i32>>, Graph) {
    let g = graph_of(&[(1, 2), (2, 3), (3, 4), (4, 1), (5, 6), (6, 7), (7, 8), (8, 5), (1, 5), (2, 6)]);
    (vec![vec![1, 2, 3, 4], vec![5, 6, 7, 8]], g)
}

fn three_triangles() -> (Vec<Vec<i32>>, Graph) {
    let g = graph_of(&[
        (1, 2),
        (2, 3),
        (3, 1),
        (4, 5),
        (5, 6),
        (6, 4),
        (7, 8),
        (8, 9),
        (9, 7),
        (1, 4),
        (5, 7),
        (8, 2),
    ]);
    (vec![vec![1, 2, 3], vec![4, 5, 6], vec![7, 8, 9]], g)
}

fn is_two_opt(s: &CycleSwap, c: (usize, usize), rem: ((i32, i32), (i32, i32)), add: ((i32, i32), (i32, i32))) -> bool {
    match s {
        CycleSwap::TwoOpt { c1, c2, rem1, rem2, add1, add2 } => {
            (*c1, *c2) == c && (*rem1, *rem2) == rem && (*add1, *add2) == add
        }
        _ => false,
    }
}

#[test]
fn multi_opt_discovers_bridge_between_squares() {
    let (cycles, g) = two_squares();
    let swaps = MultiOptSatSplicer::discover_swaps(&cycles, &g, &Vec::new());
    assert_eq!(swaps.len(), 1);
    assert!(is_two_opt(&swaps[0], (0, 1), ((1, 2), (5, 6)), ((1, 5), (2, 6))));
    assert_eq!(swaps[0].cycles(), vec![0, 1]);
    assert_eq!(swaps[0].removed_edges(), vec![(1, 2), (5, 6)]);
    assert_eq!(swaps[0].added_edges(), vec![(1, 5), (2, 6)]);
}

#[test]
fn multi_opt_protected_edge_blocks_bridge() {
    let (cycles, g) = two_squares();
    // Protected in the reverse orientation still counts.
    let swaps = MultiOptSatSplicer::discover_swaps(&cycles, &g, &vec![(2, 1)]);
    assert!(swaps.is_empty());
}

#[test]
fn multi_opt_components_and_rebuild() {
    let (cycles, g) = two_squares();
    let swaps = MultiOptSatSplicer::discover_swaps(&cycles, &g, &Vec::new());
    let comps = MultiOptSatSplicer::swap_components(&swaps, 2);
    assert_eq!(comps, vec![vec![0, 1]]);
    let merged = MultiOptSatSplicer::reconstruct_spliced_cycles(&cycles, &swaps, &g).expect("one merged cycle");
    assert_eq!(merged, vec![vec![1, 4, 3, 2, 6, 7, 8, 5]]);
    let after = MultiOptSatSplicer::finish_pass(&cycles, &swaps, &g);
    assert_eq!(after, merged);
    // Without a chosen swap the cycles stay as they are.
    assert_eq!(MultiOptSatSplicer::finish_pass(&cycles, &Vec::new(), &g), cycles);
}

#[test]
fn multi_opt_components_without_swaps_are_singletons() {
    let comps = MultiOptSatSplicer::swap_components(&Vec::new(), 3);
    assert_eq!(comps, vec![vec![0], vec![1], vec![2]]);
}

#[test]
fn multi_opt_discovers_triangle() {
    let (cycles, g) = three_triangles();
    let swaps = MultiOptSatSplicer::discover_swaps(&cycles, &g, &Vec::new());
    assert_eq!(swaps.len(), 2);
    match &swaps[0] {
        CycleSwap::ThreeOptTriangle { c1, c2, c3, rem1, rem2, rem3, add1, add2, add3 } => {
            assert_eq!((*c1, *c2, *c3), (0, 1, 2));
            assert_eq!((*rem1, *rem2, *rem3), ((1, 2), (4, 5), (7, 8)));
            assert_eq!((*add1, *add2, *add3), ((1, 4), (5, 7), (2, 8)));
        }
        _ => panic!("expected a triangle"),
    }
    match &swaps[1] {
        CycleSwap::ThreeOptTriangle { c1, c2, c3, .. } => assert_eq!((*c1, *c2, *c3), (0, 2, 1)),
        _ => panic!("expected a triangle"),
    }
    let comps = MultiOptSatSplicer::swap_components(&swaps, 3);
    assert_eq!(comps, vec![vec![0, 1, 2]]);
    let first = vec![CycleSwap::ThreeOptTriangle {
        c1: 0,
        c2: 1,
        c3: 2,
        rem1: (1, 2),
        rem2: (4, 5),
        rem3: (7, 8),
        add1: (1, 4),
        add2: (5, 7),
        add3: (2, 8),
    }];
    let merged = MultiOptSatSplicer::reconstruct_spliced_cycles(&cycles, &first, &g).expect("one merged cycle");
    assert_eq!(merged, vec![vec![1, 3, 2, 8, 9, 7, 5, 6, 4]]);
}

#[test]
fn multi_opt_rebuild_rejects_broken_degree() {
    let (cycles, g) = two_squares();
    // Removing two edges of the first square but adding only one leaves
    // vertices with a single neighbour.
    let bad = vec![CycleSwap::TwoOpt { c1: 0, c2: 1, rem1: (1, 2), rem2: (3, 4), add1: (1, 5), add2: (1, 5) }];
    assert!(MultiOptSatSplicer::reconstruct_spliced_cycles(&cycles, &bad, &g).is_none());
    assert_eq!(MultiOptSatSplicer::finish_pass(&cycles, &bad, &g), cycles);
}

#[test]
fn multi_opt_applicability() {
    let (cycles, _) = two_squares();
    assert!(MultiOptSatSplicer::splice_applicable(&cycles));
    assert!(!MultiOptSatSplicer::splice_applicable(&vec![vec![1, 2, 3]]));
    assert!(!MultiOptSatSplicer::splice_applicable(&vec![vec![1, 2, 3], vec![4, 5]]));
}
