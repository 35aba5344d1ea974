use cegar_fix::graph::Graph;
use cegar_fix::hub_registry::HubRegistry;
use cegar_fix::modular_solver::ModularSolver;
use cegar_fix::modular_tree::{ModularDecompositionTree, ModularNodeType};

fn build_test_graph(edges: &[(i32, i32)]) -> Graph {
    let mut g = Graph::new();
    for &(u, v) in edges {
        g.add_edge(u, v);
    }
    g
}

#[test]
fn test_modular_decomposition_true_twins() {
    let g = Graph::from_adjacency(vec![
        (0, vec![1, 3, 4]),
        (1, vec![0, 2]),
        (2, vec![1, 3]),
        (3, vec![0, 2]),
        (4, vec![0]),
    ]);
    let tree = ModularDecompositionTree::build(&g);
    assert!(tree.nodes.len() >= 1);
    assert_eq!(tree.root, 0);
}

#[test]
fn test_modular_decomposition_series_join() {
    let g = Graph::from_adjacency(vec![(1, vec![3, 4]), (2, vec![3, 4]), (3, vec![1, 2]), (4, vec![1, 2])]);
    let tree = ModularDecompositionTree::build(&g);
    assert!(tree.nodes.len() >= 1);
    assert_eq!(tree.root, 0);
}

#[test]
fn modular_tree_groups_twins_under_series_nodes() {
    let g = Graph::from_adjacency(vec![(1, vec![3, 4]), (2, vec![3, 4]), (3, vec![1, 2]), (4, vec![1, 2])]);
    let tree = ModularDecompositionTree::build(&g);
    assert_eq!(tree.nodes[0].vertices, vec![1, 2, 3, 4]);
    assert!(matches!(tree.nodes[0].node_type, ModularNodeType::Prime { .. }));
    // {1, 2} share open neighbourhood {3, 4}; {3, 4} share {1, 2}
    let series: Vec<&Vec<i32>> = tree
        .nodes
        .iter()
        .filter(|n| matches!(n.node_type, ModularNodeType::Series(_)))
        .map(|n| &n.vertices)
        .collect();
    assert_eq!(series.len(), 2);
}

#[test]
fn modular_tree_of_empty_graph_is_one_parallel_node() {
    let g = Graph::new();
    let tree = ModularDecompositionTree::build(&g);
    assert_eq!(tree.nodes.len(), 1);
    assert!(matches!(tree.nodes[0].node_type, ModularNodeType::Parallel(_)));
}

#[test]
fn test_satellite_module_extraction() {
    let mut edges = Vec::new();
    for v in 100..130 {
        edges.push((1, v));
        edges.push((2, v));
    }
    edges.push((10, 11));
    edges.push((11, 12));
    edges.push((12, 13));
    edges.push((13, 14));
    edges.push((14, 15));
    edges.push((1, 10));
    edges.push((2, 15));
    edges.push((20, 21));
    edges.push((21, 22));
    edges.push((22, 23));
    edges.push((23, 24));
    edges.push((24, 25));
    edges.push((1, 20));
    edges.push((2, 25));

    let g = build_test_graph(&edges);
    let hub_registry = HubRegistry::new(&g);
    assert!(hub_registry.is_hub_vertex(1));
    assert!(hub_registry.is_hub_vertex(2));

    let modules = ModularSolver::extract_satellite_modules(&g, &hub_registry);
    assert_eq!(modules.len(), 2);

    let mod_a = modules.iter().find(|m| m.vertices.contains(&10)).unwrap();
    assert_eq!(mod_a.vertices.len(), 6);
    assert!(mod_a.hub_connections.contains_key(&1));
    assert!(mod_a.hub_connections.contains_key(&2));
    assert_eq!(mod_a.hub_connections[&1], vec![10]);
    assert_eq!(mod_a.hub_connections[&2], vec![15]);

    let mod_b = modules.iter().find(|m| m.vertices.contains(&20)).unwrap();
    assert_eq!(mod_b.vertices.len(), 6);
    assert!(mod_b.hub_connections.contains_key(&1));
    assert!(mod_b.hub_connections.contains_key(&2));
    assert_eq!(mod_b.hub_connections[&1], vec![20]);
    assert_eq!(mod_b.hub_connections[&2], vec![25]);
}

#[test]
fn satellite_internal_lists_are_sorted_inside_the_module() {
    let mut edges = Vec::new();
    for v in 100..130 {
        edges.push((1, v));
    }
    edges.extend_from_slice(&[(14, 10), (10, 11), (11, 12), (12, 13), (13, 14), (1, 10)]);
    let g = build_test_graph(&edges);
    let hub_registry = HubRegistry::new(&g);
    let modules = ModularSolver::extract_satellite_modules(&g, &hub_registry);
    let m = modules.iter().find(|m| m.vertices.contains(&10)).unwrap();
    assert_eq!(m.internal_adj[&10], vec![11, 14]);
    assert_eq!(m.hub_connections[&1], vec![10]);
    assert_eq!(m.module_id, modules.iter().position(|x| x.vertices.contains(&10)).unwrap());
}

#[test]
fn no_hubs_no_satellites() {
    let g = build_test_graph(&[(1, 2), (2, 3), (3, 1)]);
    let hub_registry = HubRegistry::new(&g);
    assert!(hub_registry.hub_vertices.is_empty());
    assert!(ModularSolver::extract_satellite_modules(&g, &hub_registry).is_empty());
}

#[test]
fn true_twins_without_false_twins_share_a_series_node() {
    // triangle 1-2-3 with a pendant 4 on 3: 1 and 2 have the same closed
    // neighbourhood {1, 2, 3} and no vertex shares the open one of either
    let mut g = Graph::new();
    for &(u, v) in &[(1, 2), (2, 3), (3, 1), (3, 4)] {
        g.add_edge(u, v);
    }
    let tree = ModularDecompositionTree::build(&g);
    let series: Vec<&Vec<i32>> = tree
        .nodes
        .iter()
        .filter(|n| matches!(n.node_type, ModularNodeType::Series(_)))
        .map(|n| &n.vertices)
        .collect();
    assert!(series.iter().any(|vs| vs.contains(&1) && vs.contains(&2)));
}
