use cegar_fix::contraction::Degree2Contractor;
use cegar_fix::graph::Graph;
use cegar_fix::modular_ring_dp_solver::{ModularRingDecomposer, RingError};

/// Adds a cubic gadget on the 22 labels `base..base + 22`: a cycle through
/// them plus the chords `i -- i + 11`, with the chains `(2k, 2k + 1)`.
fn add_cubic_gadget(g: &mut Graph, c: &mut Degree2Contractor, base: i32) {
    for i in 0..22 {
        g.add_edge(base + i, base + (i + 1) % 22);
    }
    for i in 0..11 {
        g.add_edge(base + i, base + i + 11);
    }
    for k in 0..11 {
        c.insert_chain(base + 2 * k, base + 2 * k + 1, vec![base + 2 * k, 10_000 + base + k, base + 2 * k + 1]);
    }
}

#[test]
fn ring_empty_graph_is_refused() {
    let g = Graph::new();
    let c = Degree2Contractor::new_empty();
    assert!(matches!(ModularRingDecomposer::extract_elementary_gadgets(&g, &c), Err(RingError::EmptyGraph)));
    assert!(matches!(ModularRingDecomposer::decompose(&g, &c), Err(RingError::EmptyGraph)));
}

#[test]
fn ring_partner_coverage_is_checked() {
    let mut g = Graph::new();
    g.add_edge(1, 2);
    g.add_edge(2, 3);
    let c = Degree2Contractor::new_empty();
    match ModularRingDecomposer::extract_elementary_gadgets(&g, &c) {
        Err(RingError::PartnerCoverage { partners, vertices }) => {
            assert_eq!(partners, 0);
            assert_eq!(vertices, 3);
        }
        _ => panic!("expected a partner coverage error"),
    }
}

#[test]
fn ring_small_gadget_is_refused() {
    let mut g = Graph::new();
    g.add_edge(1, 2);
    let mut c = Degree2Contractor::new_empty();
    c.insert_chain(1, 2, vec![1, 50, 2]);
    match ModularRingDecomposer::extract_elementary_gadgets(&g, &c) {
        Err(RingError::GadgetSize { index, size }) => {
            assert_eq!(index, 0);
            assert_eq!(size, 2);
        }
        _ => panic!("expected a gadget size error"),
    }
}

#[test]
fn ring_single_cubic_gadget() {
    let mut g = Graph::new();
    let mut c = Degree2Contractor::new_empty();
    add_cubic_gadget(&mut g, &mut c, 0);
    let gs = ModularRingDecomposer::extract_elementary_gadgets(&g, &c).expect("one gadget");
    assert_eq!(gs.len(), 1);
    assert_eq!(gs[0].id, 0);
    assert_eq!(gs[0].vertices, (0..22).collect::<Vec<i32>>());
    let expected_edges: Vec<(i32, i32)> = (0..11).map(|k| (2 * k, 2 * k + 1)).collect();
    assert_eq!(gs[0].virtual_edges, expected_edges);
    assert!(gs[0].ports.is_empty());
    match ModularRingDecomposer::decompose(&g, &c) {
        Err(RingError::GadgetCount { count }) => assert_eq!(count, 1),
        _ => panic!("one gadget cannot fill the ring"),
    }
}

#[test]
fn ring_of_forty_two_gadgets() {
    let mut g = Graph::new();
    let mut c = Degree2Contractor::new_empty();
    for k in 0..42 {
        add_cubic_gadget(&mut g, &mut c, 22 * k);
    }
    // Gadget k reaches gadget k + 1 (cyclically) through one edge between
    // vertices of degree four, which keeps the gadgets apart.
    for k in 0..42 {
        let next = (k + 1) % 42;
        g.add_edge(22 * k + 5, 22 * next + 7);
    }
    let gs = ModularRingDecomposer::extract_elementary_gadgets(&g, &c).expect("42 gadgets");
    assert_eq!(gs.len(), 42);
    assert_eq!(gs[3].vertices, (66..88).collect::<Vec<i32>>());
    assert_eq!(gs[3].ports, vec![66 + 5, 66 + 7]);

    let ms = ModularRingDecomposer::decompose(&g, &c).expect("a ring of modules");
    assert_eq!(ms.len(), 42);
    for (i, m) in ms.iter().enumerate() {
        let base = 22 * i as i32;
        assert_eq!(m.id, i);
        assert_eq!(m.vertices, (base..base + 22).collect::<Vec<i32>>());
        assert_eq!(m.ports_out, vec![base + 5]);
        assert_eq!(m.ports_in, vec![base + 7]);
        let expected_edges: Vec<(i32, i32)> = (0..11).map(|k| (base + 2 * k, base + 2 * k + 1)).collect();
        assert_eq!(m.virtual_edges, expected_edges);
    }
}

#[test]
fn ring_without_links_is_refused() {
    let mut g = Graph::new();
    let mut c = Degree2Contractor::new_empty();
    for k in 0..42 {
        add_cubic_gadget(&mut g, &mut c, 22 * k);
    }
    assert!(matches!(ModularRingDecomposer::decompose(&g, &c), Err(RingError::NoRing)));
}
