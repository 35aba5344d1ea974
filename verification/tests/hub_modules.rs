use cegar_fix::graph::Graph;
use cegar_fix::hub_hierarchical_decomposer::HubHierarchicalDecomposer;

fn build_test_graph(edges: &[(i32, i32)]) -> Graph {
    let mut g = Graph::new();
    for &(u, v) in edges {
        g.add_edge(u, v);
    }
    g
}

/// Two stars, hubs 1 and 10, joined by the path 4 - 5 - 6 - 11.
fn two_stars() -> Graph {
    build_test_graph(&[
        (1, 2),
        (1, 3),
        (1, 4),
        (4, 5),
        (5, 6),
        (6, 11),
        (10, 11),
        (10, 12),
        (10, 13),
    ])
}

#[test]
fn hub_modules_split_at_equal_distance() {
    let g = two_stars();
    let modules = HubHierarchicalDecomposer::extract_hub_modules(&g, 3);
    assert_eq!(modules.len(), 2);
    assert_eq!(modules[0].hub_id, 1);
    assert_eq!(modules[0].vertices, vec![1, 2, 3, 4, 5]);
    assert_eq!(modules[0].interface_ports, vec![5]);
    assert!(modules[0].internal_paths.is_empty());
    assert_eq!(modules[1].hub_id, 10);
    assert_eq!(modules[1].vertices, vec![6, 10, 11, 12, 13]);
    assert_eq!(modules[1].interface_ports, vec![6]);
    assert!(modules[1].internal_paths.is_empty());
}

#[test]
fn hub_modules_tie_goes_to_smaller_hub() {
    // Vertex 3 is two steps from hub 1 and two steps from hub 5.
    let g = build_test_graph(&[(1, 2), (1, 7), (1, 8), (2, 3), (3, 4), (5, 4), (5, 9), (5, 10)]);
    let modules = HubHierarchicalDecomposer::extract_hub_modules(&g, 3);
    assert_eq!(modules.len(), 2);
    assert_eq!(modules[0].vertices, vec![1, 2, 3, 7, 8]);
    assert_eq!(modules[1].vertices, vec![4, 5, 9, 10]);
    assert_eq!(modules[0].interface_ports, vec![3]);
    assert_eq!(modules[1].interface_ports, vec![4]);
}

#[test]
fn hub_modules_single_vertex_modules_carry_trivial_path() {
    // In K4 every vertex has degree 3, so each is a hub of its own.
    let g = build_test_graph(&[(1, 2), (1, 3), (1, 4), (2, 3), (2, 4), (3, 4)]);
    let modules = HubHierarchicalDecomposer::extract_hub_modules(&g, 3);
    assert_eq!(modules.len(), 4);
    for (i, m) in modules.iter().enumerate() {
        let h = i as i32 + 1;
        assert_eq!(m.hub_id, h);
        assert_eq!(m.vertices, vec![h]);
        assert_eq!(m.interface_ports, vec![h]);
        assert_eq!(m.internal_paths, vec![(h, h, vec![h])]);
    }
}

#[test]
fn hub_modules_skip_vertices_no_hub_reaches() {
    let mut g = two_stars();
    g.add_edge(50, 51);
    let modules = HubHierarchicalDecomposer::extract_hub_modules(&g, 3);
    assert_eq!(modules.len(), 2);
    let total: usize = modules.iter().map(|m| m.vertices.len()).sum();
    assert_eq!(total, 10);
    assert!(modules.iter().all(|m| !m.vertices.contains(&50) && !m.vertices.contains(&51)));
}

#[test]
fn hub_modules_empty_without_hubs() {
    let g = two_stars();
    assert!(HubHierarchicalDecomposer::extract_hub_modules(&g, 4).is_empty());
    let one = HubHierarchicalDecomposer::extract_hub_modules(&g, 0);
    // With threshold 0 every vertex is a hub of its own.
    assert_eq!(one.len(), 10);
}

/// Hubs 1 and 20 of degree 5, joined through their leaves 6 and 25.
fn twin_hubs() -> Graph {
    let mut edges = Vec::new();
    for v in 2..=6 {
        edges.push((1, v));
    }
    for v in 21..=25 {
        edges.push((20, v));
    }
    edges.push((6, 25));
    build_test_graph(&edges)
}

#[test]
fn hierarchy_candidate_takes_first_usable_threshold() {
    let g = twin_hubs();
    let (i, ms) = HubHierarchicalDecomposer::next_hierarchy_candidate(&g, 0).unwrap();
    // Thresholds 10, 8 and 6 find no hub; threshold 5 (position 3) finds both.
    assert_eq!(i, 3);
    assert_eq!(ms.len(), 2);
    assert_eq!(ms[0].vertices, vec![1, 2, 3, 4, 5, 6]);
    assert_eq!(ms[1].vertices, vec![20, 21, 22, 23, 24, 25]);
    assert_eq!(ms[0].interface_ports, vec![6]);
    assert_eq!(ms[1].interface_ports, vec![25]);
    assert!(HubHierarchicalDecomposer::next_hierarchy_candidate(&g, 4).is_none());
}

#[test]
fn hierarchy_candidate_refuses_uncovered_or_tiny_graphs() {
    let mut g = twin_hubs();
    g.add_edge(50, 51);
    // Vertices 50 and 51 reach no hub, so the modules do not cover the graph.
    assert!(HubHierarchicalDecomposer::next_hierarchy_candidate(&g, 0).is_none());
    let tiny = build_test_graph(&[(1, 2)]);
    assert!(HubHierarchicalDecomposer::next_hierarchy_candidate(&tiny, 0).is_none());
}
