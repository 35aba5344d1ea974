use cegar_fix::contraction::Degree2Contractor;
use cegar_fix::graph::Graph;
use cegar_fix::hub_registry::HubRegistry;
use std::collections::{HashMap, HashSet};

fn build_test_graph(edges: &[(i32, i32)]) -> Graph {
    let mut g = Graph::new();
    for &(u, v) in edges {
        g.add_edge(u, v);
    }
    g
}

#[test]
fn graph_add_edge_is_symmetric_and_deduplicated() {
    let g = build_test_graph(&[(1, 2), (2, 1), (2, 3)]);
    assert_eq!(g.num_vertices(), 3);
    assert_eq!(g.degree(2), 2);
    assert_eq!(g.degree(1), 1);
    assert!(g.contains_edge(1, 2));
    assert!(g.contains_edge(2, 1));
    assert!(!g.contains_edge(1, 3));
    assert_eq!(g.vertex_list(), &vec![1, 2, 3]);
}

#[test]
fn graph_from_adjacency_later_entry_wins() {
    let g = Graph::from_adjacency(vec![(1, vec![2, 2]), (2, vec![1]), (1, vec![2])]);
    assert_eq!(g.num_vertices(), 2);
    assert_eq!(g.neighbors(1), Some(&vec![2]));
    assert!(!g.contains_vertex(3));
}

#[test]
fn contractor_guards_both_directions() {
    let mut c = Degree2Contractor::new_empty();
    c.insert_chain(5, 6, vec![5, 99, 6]);
    assert!(c.contains_chain(5, 6));
    assert!(!c.contains_chain(6, 5));
    assert!(!cegar_fix::contraction::is_safe_to_break(6, 5, &c));
    assert!(cegar_fix::contraction::is_safe_to_break(5, 7, &c));
    c.insert_chain(5, 6, vec![5, 6]);
    assert_eq!(c.chain_ends(), vec![(5, 6)]);
}

#[test]
fn test_hub_detection_star_graph() {
    // Hub 1 connected to 30 nodes (deg=30), nodes 2..31 have deg 2 or 3
    let mut edges = Vec::new();
    for v in 2..=31 {
        edges.push((1, v));
        let next_v = if v == 31 { 2 } else { v + 1 };
        edges.push((v, next_v));
    }
    let g = build_test_graph(&edges);
    let registry = HubRegistry::new(&g);
    assert!(registry.is_hub_vertex(1));
    assert_eq!(registry.hub_vertices, vec![1]);
    assert!(!registry.is_hub_vertex(2));
    assert_eq!(registry.min_hub_degree, 20);
    assert!(registry.hub_neighbors.contains_key(&1));
    assert_eq!(registry.hub_neighbors.get(&1).unwrap().len(), 30);
}

#[test]
fn test_hub_detection_regular_graph() {
    // In a 3-regular graph, no vertex should be classified as a hub
    let mut edges = Vec::new();
    let n = 40;
    for i in 1..=n {
        let next1 = if i == n { 1 } else { i + 1 };
        let next2 = if (i + n / 2) > n { (i + n / 2) - n } else { i + n / 2 };
        edges.push((i, next1));
        if i <= n / 2 {
            edges.push((i, next2));
        }
    }
    let g = build_test_graph(&edges);
    let registry = HubRegistry::new(&g);
    assert!(registry.hub_vertices.is_empty());
    for i in 1..=n {
        assert!(!registry.is_hub_vertex(i));
    }
}

#[test]
fn hub_registry_orders_by_degree_and_flags_in_range() {
    // two stars of different size joined through vertex 0
    let mut edges = Vec::new();
    for v in 100..160 {
        edges.push((1, v));
    }
    for v in 200..230 {
        edges.push((2, v));
    }
    let g = build_test_graph(&edges);
    let registry = HubRegistry::new(&g);
    assert_eq!(registry.hub_vertices, vec![1, 2]);
    assert_eq!(registry.min_hub_degree, 30);
    assert_eq!(registry.is_hub.len(), 230);
    assert!(!registry.is_hub_vertex(-1));
    assert!(!registry.is_hub_vertex(100_000));
    let expected: HashSet<i32> = (200..230).collect();
    assert_eq!(registry.hub_neighbors[&2], expected);
    let _unused: HashMap<i32, HashSet<i32>> = HashMap::new();
}
