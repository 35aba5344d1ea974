use cegar_fix::hub_registry::HubRegistry;
use cegar_fix::hub_sub_hcp::{is_valid_cycle, partition_clusters, HubPartitionedSolver};
use cegar_fix::contraction::Degree2Contractor;
use cegar_fix::graph::Graph;
use cegar_fix::interface_port_synchronizer::InterfacePortSynchronizer;
use cegar_fix::macro_solver::build_macro_graph;
use cegar_fix::metagraph_router::{GadgetModule, MetagraphRouter};
use std::collections::HashSet;

fn build_test_graph(edges: &[(i32, i32)]) -> Graph {
    let mut g = Graph::new();
    for &(u, v) in edges {
        g.add_edge(u, v);
    }
    g
}

#[test]
fn test_macro_graph_construction() {
    let cycles = vec![vec![1, 2, 3], vec![4, 5, 6], vec![7, 8, 9]];
    let mut edges = Vec::new();
    edges.push((1, 2));
    edges.push((2, 3));
    edges.push((3, 1));
    edges.push((4, 5));
    edges.push((5, 6));
    edges.push((6, 4));
    edges.push((7, 8));
    edges.push((8, 9));
    edges.push((9, 7));
    edges.push((2, 4));
    edges.push((5, 7));
    edges.push((8, 1));

    let g = build_test_graph(&edges);
    let contractor = Degree2Contractor::new_empty();

    let mg = build_macro_graph(&cycles, &g, &contractor);

    assert_eq!(mg.num_macro_nodes, 3);
    assert_eq!(mg.vertex_to_cycle.get(&5), Some(&(1, 1)));
    assert_eq!(mg.vertex_to_cycle.get(&9), Some(&(2, 2)));

    assert!(mg.macro_adj[0].contains(&1));
    assert!(mg.macro_adj[1].contains(&2));
    assert!(mg.macro_adj[2].contains(&0));

    assert_eq!(mg.connectors_between(0, 1), Some(&vec![(2, 4)]));
    assert_eq!(mg.connectors_between(1, 2), Some(&vec![(5, 7)]));
    assert_eq!(mg.connectors_between(2, 0), Some(&vec![(8, 1)]));
}

#[test]
fn macro_graph_respects_guarded_ports() {
    // every cycle edge at vertex 2 is a contracted chain: 2 is no port
    let cycles = vec![vec![1, 2, 3], vec![4, 5, 6]];
    let g = build_test_graph(&[(1, 2), (2, 3), (3, 1), (4, 5), (5, 6), (6, 4), (2, 4), (3, 5)]);
    let mut contractor = Degree2Contractor::new_empty();
    contractor.insert_chain(1, 2, vec![1, 50, 2]);
    contractor.insert_chain(2, 3, vec![2, 51, 3]);
    let mg = build_macro_graph(&cycles, &g, &contractor);
    assert_eq!(mg.connectors_between(0, 1), Some(&vec![(3, 5)]));
    assert_eq!(mg.connectors_between(1, 0), Some(&vec![(5, 3)]));
    assert_eq!(mg.connectors_between(0, 0), None);
    assert_eq!(mg.macro_adj, vec![vec![1], vec![0]]);
}

#[test]
fn macro_graph_connectors_sorted_once() {
    let cycles = vec![vec![1, 2, 3, 4], vec![5, 6, 7]];
    let g = build_test_graph(&[(1, 2), (2, 3), (3, 4), (4, 1), (5, 6), (6, 7), (7, 5), (4, 5), (1, 7), (1, 5)]);
    let mg = build_macro_graph(&cycles, &g, &Degree2Contractor::new_empty());
    assert_eq!(mg.connectors_between(0, 1), Some(&vec![(1, 5), (1, 7), (4, 5)]));
    assert_eq!(mg.vertex_to_cycle.len(), 7);
}

fn ring_of_rings(rings: usize, size: i32) -> Graph {
    let mut edges = Vec::new();
    for r in 0..rings as i32 {
        let base = r * size;
        for i in 0..size {
            edges.push((base + i, base + (i + 1) % size));
        }
        let next = ((r + 1) % rings as i32) * size;
        edges.push((base, next + 1));
    }
    build_test_graph(&edges)
}

#[test]
fn gadget_modules_partition_the_vertices() {
    let g = ring_of_rings(6, 10);
    let modules = MetagraphRouter::detect_gadget_modules_with_size(&g, 10);
    let mut seen = HashSet::new();
    for (i, m) in modules.iter().enumerate() {
        assert_eq!(m.id, i);
        assert!(!m.vertices.is_empty());
        assert!(m.vertices.windows(2).all(|w| w[0] < w[1]));
        for &v in &m.vertices {
            assert!(seen.insert(v));
        }
        for &(u, v) in &m.boundary_edges {
            assert!(m.vertices.contains(&u));
            assert!(!m.vertices.contains(&v));
            assert!(g.contains_edge(u, v));
        }
    }
    assert_eq!(seen.len(), 60);
    for w in modules.windows(2) {
        assert!(w[0].vertices[0] < w[1].vertices[0]);
    }
}

#[test]
fn gadget_modules_of_empty_graph() {
    let g = Graph::new();
    assert!(MetagraphRouter::detect_gadget_modules(&g).is_empty());
    assert!(MetagraphRouter::detect_dual_channels(&g).is_empty());
}

#[test]
fn small_path_is_one_module_without_boundary() {
    let g = build_test_graph(&[(1, 2), (2, 3), (3, 4)]);
    let modules = MetagraphRouter::detect_gadget_modules(&g);
    assert_eq!(modules.len(), 1);
    assert_eq!(modules[0].vertices, vec![1, 2, 3, 4]);
    assert!(modules[0].boundary_edges.is_empty());
}

#[test]
fn large_module_splits_into_two_channels() {
    let mut edges = Vec::new();
    for i in 0..20 {
        edges.push((i, (i + 1) % 20));
    }
    let g = build_test_graph(&edges);
    let channels = MetagraphRouter::detect_dual_channels(&g);
    assert_eq!(channels.len(), 2);
    assert_eq!(channels[0].channel_idx, 0);
    assert_eq!(channels[1].channel_idx, 1);
    assert_eq!(channels[0].parent_gadget_id, channels[1].parent_gadget_id);
    assert_eq!(channels[0].vertices.len(), 10);
    assert_eq!(channels[1].vertices.len(), 10);
    let all: HashSet<i32> = channels.iter().flat_map(|c| c.vertices.iter().copied()).collect();
    assert_eq!(all.len(), 20);
    for c in &channels {
        assert!(!c.boundary_edges.is_empty());
        for &(u, v) in &c.boundary_edges {
            assert!(c.vertices.contains(&u) && !c.vertices.contains(&v));
        }
    }
}

#[test]
fn two_port_gadget_yields_dual_paths() {
    // a triangulated 3x3 grid (vertices 0..8) joined to a triangulated strip
    // (100..105) through the edges 0-100 and 8-105 only
    let mut edges = Vec::new();
    for r in 0..3 {
        for c in 0..3 {
            let v = r * 3 + c;
            if c < 2 {
                edges.push((v, v + 1));
            }
            if r < 2 {
                edges.push((v, v + 3));
            }
            if r < 2 && c < 2 {
                edges.push((v, v + 4));
            }
        }
    }
    edges.extend_from_slice(&[
        (100, 101), (101, 102), (100, 102), (102, 103), (101, 103),
        (103, 104), (102, 104), (104, 105), (103, 105),
    ]);
    edges.push((0, 100));
    edges.push((8, 105));
    let g = build_test_graph(&edges);
    let duals = InterfacePortSynchronizer::extract_gadget_dual_paths(&g, 9);
    assert_eq!(duals.len(), 1);
    let d = &duals[0];
    assert_eq!(d.vertices, (0..9).collect::<Vec<i32>>());
    assert_eq!(d.ports, [0, 8]);
    assert_eq!(d.true_path_edges.len(), 8);
    assert_eq!(d.false_path_edges.len(), 8);
    assert_ne!(d.true_path_edges, d.false_path_edges);
    assert_eq!(d.true_path_edges[0].0, 0);
    assert_eq!(d.true_path_edges[7].1, 8);
    for w in d.true_path_edges.windows(2) {
        assert_eq!(w[0].1, w[1].0);
    }
}

#[test]
fn channels_follow_the_given_modules() {
    let mut edges = Vec::new();
    for i in 0..20 {
        edges.push((i, (i + 1) % 20));
    }
    edges.extend_from_slice(&[(30, 31), (31, 32), (32, 30), (0, 30)]);
    let g = build_test_graph(&edges);
    let modules = vec![
        GadgetModule { id: 0, vertices: (0..20).collect(), boundary_edges: vec![(0, 30)] },
        GadgetModule { id: 1, vertices: vec![30, 31, 32], boundary_edges: vec![(30, 0)] },
    ];
    let channels = MetagraphRouter::channels_of_modules(&g, &modules);
    assert_eq!(channels.len(), 3);
    assert_eq!((channels[0].parent_gadget_id, channels[0].channel_idx), (0, 0));
    assert_eq!((channels[1].parent_gadget_id, channels[1].channel_idx), (0, 1));
    assert_eq!((channels[2].parent_gadget_id, channels[2].channel_idx), (1, 0));
    assert_eq!(channels[0].vertices.len(), 10);
    assert_eq!(channels[1].vertices.len(), 10);
    assert!(channels[0].vertices.contains(&0));
    assert_eq!(channels[2].vertices, vec![30, 31, 32]);
    assert_eq!(channels[2].boundary_edges, vec![(30, 0)]);
    for (i, c) in channels.iter().enumerate() {
        assert_eq!(c.id, i);
    }
}

#[test]
fn duals_of_modules_reports_the_two_port_module() {
    let mut edges = Vec::new();
    for r in 0..3 {
        for c in 0..3 {
            let v = r * 3 + c;
            if c < 2 {
                edges.push((v, v + 1));
            }
            if r < 2 {
                edges.push((v, v + 3));
            }
            if r < 2 && c < 2 {
                edges.push((v, v + 4));
            }
        }
    }
    edges.extend_from_slice(&[
        (100, 101), (101, 102), (100, 102), (102, 103), (101, 103),
        (103, 104), (102, 104), (104, 105), (103, 105),
    ]);
    edges.push((0, 100));
    edges.push((8, 105));
    let g = build_test_graph(&edges);
    let modules = vec![
        GadgetModule { id: 0, vertices: (0..9).collect(), boundary_edges: vec![(0, 100), (8, 105)] },
        GadgetModule { id: 1, vertices: (100..106).collect(), boundary_edges: vec![(100, 0), (105, 8)] },
    ];
    let duals = InterfacePortSynchronizer::duals_of_modules(&g, &modules);
    assert_eq!(duals.len(), 1);
    assert_eq!(duals[0].module_id, 0);
    assert_eq!(duals[0].vertices, (0..9).collect::<Vec<i32>>());
    assert_eq!(duals[0].ports, [0, 8]);
    assert_ne!(duals[0].true_path_edges, duals[0].false_path_edges);
}

fn create_synthetic_3hub_graph() -> Graph {
    let mut edges = Vec::new();
    let n_per_cluster = 25;
    for i in 0..n_per_cluster {
        if i + 1 < n_per_cluster {
            edges.push((101 + i, 102 + i));
            edges.push((201 + i, 202 + i));
            edges.push((301 + i, 302 + i));
        }
        if i + 2 < n_per_cluster {
            edges.push((101 + i, 103 + i));
            edges.push((201 + i, 203 + i));
            edges.push((301 + i, 303 + i));
        }
        edges.push((1, 101 + i));
        edges.push((2, 201 + i));
        edges.push((3, 301 + i));
    }
    edges.push((1, 201));
    edges.push((2, 301));
    edges.push((3, 101));
    build_test_graph(&edges)
}

#[test]
fn test_hub_partition_clustering() {
    let g = create_synthetic_3hub_graph();
    let registry = HubRegistry::new(&g);
    assert_eq!(registry.hub_vertices.len(), 3);
    assert!(registry.is_hub_vertex(1));
    assert!(registry.is_hub_vertex(2));
    assert!(registry.is_hub_vertex(3));

    let clusters = partition_clusters(&g, &registry);
    assert_eq!(clusters.len(), 3);

    let mut all_cluster_verts = HashSet::new();
    for (i, cluster) in clusters.iter().enumerate() {
        assert_eq!(cluster.cluster_idx, i);
        assert_eq!(cluster.vertices.len(), 25);
        assert!(!cluster.entry_candidates.is_empty());
        assert!(!cluster.exit_candidates.is_empty());
        for &v in &cluster.vertices {
            assert!(all_cluster_verts.insert(v), "Duplicate vertex across clusters: {}", v);
        }
    }
    let total_v = g.num_vertices();
    assert_eq!(all_cluster_verts.len() + 3, total_v);
}

#[test]
fn hub_partition_follows_hub_order_and_candidates() {
    let g = create_synthetic_3hub_graph();
    let registry = HubRegistry::new(&g);
    let clusters = HubPartitionedSolver::partition_clusters(&g, &registry);
    assert_eq!(clusters.len(), 3);
    let k = clusters.len();
    for m in 0..k {
        let prev_hub = clusters[(m + k - 1) % k].hub_id;
        for &v in &clusters[m].entry_candidates {
            assert!(clusters[m].vertices.contains(&v));
            assert!(g.contains_edge(v, prev_hub));
        }
        for &v in &clusters[m].exit_candidates {
            assert!(g.contains_edge(v, clusters[m].hub_id));
        }
        // every member adjacent to its own hub is an exit candidate
        let exits = clusters[m].vertices.iter().filter(|&&v| g.contains_edge(v, clusters[m].hub_id)).count();
        assert_eq!(exits, clusters[m].exit_candidates.len());
    }
    let mut hubs: Vec<i32> = clusters.iter().map(|c| c.hub_id).collect();
    hubs.sort();
    assert_eq!(hubs, vec![1, 2, 3]);
}

#[test]
fn hub_partition_needs_three_hubs() {
    let g = build_test_graph(&[(1, 2), (2, 3), (3, 1)]);
    let registry = HubRegistry::new(&g);
    assert!(partition_clusters(&g, &registry).is_empty());
    assert!(is_valid_cycle(&[1, 2, 3], &g));
    assert!(!is_valid_cycle(&[1, 2, 1], &g));
    assert!(!is_valid_cycle(&[1, 2], &g));
}

#[test]
fn raw_tour_check_accepts_only_hamiltonian_cycles() {
    let mut g = Graph::new();
    for (u, v) in [(1, 2), (2, 3), (3, 4), (4, 1), (1, 3)] {
        g.add_edge(u, v);
    }
    assert!(cegar_fix::macro_splicer::verify_tour_on_raw_graph(&[1, 2, 3, 4], &g));
    assert!(cegar_fix::macro_splicer::verify_tour_on_raw_graph(&[2, 3, 4, 1], &g));
    // Misses a vertex, repeats a vertex, or uses a missing edge (2 -- 4).
    assert!(!cegar_fix::macro_splicer::verify_tour_on_raw_graph(&[1, 2, 3], &g));
    assert!(!cegar_fix::macro_splicer::verify_tour_on_raw_graph(&[1, 2, 3, 3], &g));
    assert!(!cegar_fix::macro_splicer::verify_tour_on_raw_graph(&[1, 2, 4, 3], &g));
    assert!(!cegar_fix::macro_splicer::verify_tour_on_raw_graph(&[], &Graph::new()));
}

#[test]
fn many_separate_triangles_stay_separate_modules() {
    let mut edges = Vec::new();
    for t in 0..200 {
        let b = 3 * t + 1;
        edges.push((b, b + 1));
        edges.push((b + 1, b + 2));
        edges.push((b + 2, b));
    }
    let g = build_test_graph(&edges);
    let modules = MetagraphRouter::detect_gadget_modules_with_size(&g, 3);
    // more than 120 modules remain only because no edge joins two of them
    assert_eq!(modules.len(), 200);
    for m in &modules {
        assert_eq!(m.vertices.len(), 3);
        assert!(m.boundary_edges.is_empty());
    }
}

#[test]
fn a_long_path_is_merged_down_to_at_most_120_modules() {
    let mut edges = Vec::new();
    for v in 1..400 {
        edges.push((v, v + 1));
    }
    let g = build_test_graph(&edges);
    let modules = MetagraphRouter::detect_gadget_modules_with_size(&g, 2);
    assert!(modules.len() <= 120);
    let total: usize = modules.iter().map(|m| m.vertices.len()).sum();
    assert_eq!(total, 400);
}
