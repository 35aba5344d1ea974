use cegar_fix::macro_splicer::patch_cycles_2opt;
use cegar_fix::contraction::Degree2Contractor;
use cegar_fix::graph::Graph;
use cegar_fix::hub_registry::HubRegistry;
use cegar_fix::ils_patcher::IteratedLocalSearchPatcher;
use cegar_fix::matching_patcher::MatchingPatcher;
use cegar_fix::modular_solver::is_valid_cycle;
use cegar_fix::patching::HubPatcher;
use std::collections::{HashMap, HashSet};

fn build_test_graph(edges: &[(i32, i32)]) -> Graph {
    let mut g = Graph::new();
    for &(u, v) in edges {
        g.add_edge(u, v);
    }
    g
}

fn empty_hub_registry() -> HubRegistry {
    HubRegistry { is_hub: Vec::new(), hub_vertices: Vec::new(), hub_neighbors: HashMap::new(), min_hub_degree: 3 }
}

fn make_test_hub_registry(hubs: &[i32], g: &Graph) -> HubRegistry {
    let max_v = g.vertex_list().iter().copied().max().unwrap_or(0) as usize;
    let mut is_hub = vec![false; max_v + 1];
    let mut hub_neighbors = HashMap::new();
    for &h in hubs {
        if (h as usize) < is_hub.len() {
            is_hub[h as usize] = true;
        }
        if let Some(adj) = g.neighbors(h) {
            hub_neighbors.insert(h, adj.iter().cloned().collect::<HashSet<i32>>());
        }
    }
    HubRegistry { is_hub, hub_vertices: hubs.to_vec(), hub_neighbors, min_hub_degree: 3 }
}

#[test]
fn test_matching_patcher_disjoint_pairs() {
    let edges = vec![
        (1, 2), (2, 3), (3, 1),
        (4, 5), (5, 6), (6, 4),
        (1, 4), (2, 5),
        (7, 8), (8, 9), (9, 7),
        (10, 11), (11, 12), (12, 10),
        (7, 10), (8, 11),
    ];
    let g = build_test_graph(&edges);
    let contractor = Degree2Contractor::new_empty();
    let hub_registry = empty_hub_registry();
    let cycles = vec![vec![1, 2, 3], vec![4, 5, 6], vec![7, 8, 9], vec![10, 11, 12]];

    let matching = MatchingPatcher::find_max_weight_matching(&cycles, &g, &contractor, &hub_registry);
    assert_eq!(matching.len(), 2, "Should find 2 disjoint pairs in 1 matching pass");

    let patched = MatchingPatcher::patch_cycles_via_matching(&cycles, &g, &contractor, &hub_registry);
    assert_eq!(patched.len(), 2, "Should merge 4 subcycles into 2 disjoint cycles");
    assert_eq!(patched[0].len(), 6);
    assert_eq!(patched[1].len(), 6);
    assert!(is_valid_cycle(&patched[0], &g));
    assert!(is_valid_cycle(&patched[1], &g));

    let all_verts: HashSet<i32> = patched.iter().flatten().cloned().collect();
    let expected: HashSet<i32> = (1..=12).collect();
    assert_eq!(all_verts, expected);
}

#[test]
fn test_matching_patcher_full_convergence() {
    let edges = vec![
        (1, 2), (2, 3), (3, 1),
        (4, 5), (5, 6), (6, 4),
        (1, 4), (2, 5),
        (7, 8), (8, 9), (9, 7),
        (10, 11), (11, 12), (12, 10),
        (7, 10), (8, 11),
        (3, 9), (1, 7),
    ];
    let g = build_test_graph(&edges);
    let contractor = Degree2Contractor::new_empty();
    let hub_registry = empty_hub_registry();
    let cycles = vec![vec![1, 2, 3], vec![4, 5, 6], vec![7, 8, 9], vec![10, 11, 12]];

    let patched = MatchingPatcher::patch_cycles_via_matching(&cycles, &g, &contractor, &hub_registry);
    assert_eq!(patched.len(), 1, "Should iteratively merge all 4 subcycles into 1 full cycle");
    assert_eq!(patched[0].len(), 12, "Full cycle should contain all 12 vertices");
    assert!(is_valid_cycle(&patched[0], &g), "Merged cycle must be valid in G");

    let all_verts: HashSet<i32> = patched[0].iter().cloned().collect();
    let expected: HashSet<i32> = (1..=12).collect();
    assert_eq!(all_verts, expected);
}

#[test]
fn test_matching_patcher_degree2_safety() {
    let edges = vec![(1, 2), (2, 3), (3, 1), (4, 5), (5, 6), (6, 4), (1, 4), (2, 5)];
    let g = build_test_graph(&edges);
    let mut contractor = Degree2Contractor::new_empty();
    contractor.insert_chain(1, 2, vec![1, 99, 2]);
    let hub_registry = empty_hub_registry();
    let cycles = vec![vec![1, 2, 3], vec![4, 5, 6]];

    let merge_res = MatchingPatcher::try_find_2opt_merge(&cycles[0], &cycles[1], &g, &contractor);
    assert!(merge_res.is_none(), "Must not break contracted degree-2 edge (1, 2)");

    let patched = MatchingPatcher::patch_cycles_via_matching(&cycles, &g, &contractor, &hub_registry);
    assert_eq!(patched.len(), 2, "Should NOT merge cycles when required break edge is in chain_map");
    assert_eq!(patched[0].len(), 3);
    assert_eq!(patched[1].len(), 3);
}

#[test]
fn two_opt_merge_gives_exact_cycle() {
    let edges = vec![(1, 2), (2, 3), (3, 1), (4, 5), (5, 6), (6, 4), (1, 4), (2, 5)];
    let g = build_test_graph(&edges);
    let contractor = Degree2Contractor::new_empty();
    let merged = MatchingPatcher::try_find_2opt_merge(&[1, 2, 3], &[4, 5, 6], &g, &contractor).unwrap();
    assert_eq!(merged.len(), 6);
    assert!(is_valid_cycle(&merged, &g));
    let set: HashSet<i32> = merged.iter().copied().collect();
    assert_eq!(set, (1..=6).collect::<HashSet<i32>>());
}

#[test]
fn matching_leaves_single_cycle_alone() {
    let g = build_test_graph(&[(1, 2), (2, 3), (3, 1)]);
    let contractor = Degree2Contractor::new_empty();
    let out = MatchingPatcher::patch_cycles_via_matching(&[vec![1, 2, 3]], &g, &contractor, &empty_hub_registry());
    assert_eq!(out, vec![vec![1, 2, 3]]);
    assert!(MatchingPatcher::find_max_weight_matching(&[vec![1, 2, 3]], &g, &contractor, &empty_hub_registry()).is_empty());
}

#[test]
fn test_hub_patcher_single_splice() {
    let edges = vec![(1, 2), (2, 3), (3, 4), (4, 1), (5, 6), (6, 7), (7, 5), (1, 5), (6, 2)];
    let g = build_test_graph(&edges);
    let contractor = Degree2Contractor::new_empty();
    let hub_registry = make_test_hub_registry(&[1], &g);
    let cycles = vec![vec![1, 2, 3, 4], vec![5, 6, 7]];
    let patched = HubPatcher::patch_cycles_via_hubs(&cycles, &g, &contractor, &hub_registry);
    assert_eq!(patched.len(), 1, "Should merge into exactly 1 cycle");
    assert_eq!(patched[0].len(), 7, "Cycle should contain all 7 vertices");
    assert!(is_valid_cycle(&patched[0], &g), "Merged cycle must be valid in G");
}

#[test]
fn test_hub_patcher_multi_satellite() {
    let edges = vec![
        (1, 2), (2, 3), (3, 4), (4, 1),
        (10, 11), (11, 12), (12, 10), (1, 10), (11, 2),
        (20, 21), (21, 22), (22, 20), (1, 20), (21, 10),
        (30, 31), (31, 32), (32, 30), (1, 30), (31, 20),
    ];
    let g = build_test_graph(&edges);
    let contractor = Degree2Contractor::new_empty();
    let hub_registry = make_test_hub_registry(&[1], &g);
    let cycles = vec![vec![1, 2, 3, 4], vec![10, 11, 12], vec![20, 21, 22], vec![30, 31, 32]];
    let patched = HubPatcher::patch_cycles_via_hubs(&cycles, &g, &contractor, &hub_registry);
    assert_eq!(patched.len(), 1, "Should merge all 4 cycles into 1");
    assert_eq!(patched[0].len(), 13, "Cycle should contain all 13 vertices");
    assert!(is_valid_cycle(&patched[0], &g), "Merged cycle must be valid in G");
}

#[test]
fn test_hub_patcher_degree2_guard() {
    let edges = vec![(1, 2), (2, 3), (3, 4), (4, 1), (5, 6), (6, 7), (7, 5), (1, 5), (6, 2)];
    let g = build_test_graph(&edges);
    let mut contractor = Degree2Contractor::new_empty();
    contractor.insert_chain(5, 6, vec![5, 99, 6]);
    let hub_registry = make_test_hub_registry(&[1], &g);
    let cycles = vec![vec![1, 2, 3, 4], vec![5, 6, 7]];
    let patched = HubPatcher::patch_cycles_via_hubs(&cycles, &g, &contractor, &hub_registry);
    assert_eq!(patched.len(), 2, "Should NOT merge because contracted edge (5, 6) is guarded");
    assert_eq!(patched[0].len(), 4);
    assert_eq!(patched[1].len(), 3);
}

#[test]
fn hub_splice_exact_result() {
    let edges = vec![(1, 2), (2, 3), (3, 4), (4, 1), (5, 6), (6, 7), (7, 5), (1, 5), (6, 2)];
    let g = build_test_graph(&edges);
    let contractor = Degree2Contractor::new_empty();
    let mut main = vec![1, 2, 3, 4];
    assert!(HubPatcher::try_splice_subcycle_at_hub(&mut main, &[5, 6, 7], 1, &g, &contractor));
    assert_eq!(main, vec![1, 5, 7, 6, 2, 3, 4]);
    let mut other = vec![1, 2, 3, 4];
    assert!(!HubPatcher::try_splice_subcycle_at_hub(&mut other, &[5, 6, 7], 3, &g, &contractor));
    assert_eq!(other, vec![1, 2, 3, 4]);
}

#[test]
fn test_ils_double_bridge_validity() {
    let edges = vec![(1, 2), (2, 3), (3, 4), (4, 5), (5, 6), (6, 7), (7, 8), (8, 1), (2, 7), (8, 5), (6, 3), (4, 1)];
    let g = build_test_graph(&edges);
    let contractor = Degree2Contractor::new_empty();
    let cycle = vec![1, 2, 3, 4, 5, 6, 7, 8];
    let perturbed_opt = IteratedLocalSearchPatcher::perturb_cycle(&cycle, &g, &contractor, 42);
    assert!(perturbed_opt.is_some(), "Double-bridge perturbation must succeed");
    let perturbed = perturbed_opt.unwrap();
    assert_eq!(perturbed.len(), 8, "Perturbed cycle must have identical length");
    let mut sorted = perturbed.clone();
    sorted.sort_unstable();
    assert_eq!(sorted, vec![1, 2, 3, 4, 5, 6, 7, 8], "Must have identical vertex multiset");
    assert!(is_valid_cycle(&perturbed, &g), "Perturbed cycle must be valid in G");
    assert_ne!(perturbed, cycle, "Perturbed cycle must differ from original cycle");
}

#[test]
fn test_ils_escapes_local_minimum() {
    let edges = vec![
        (1, 2), (2, 3), (3, 4), (4, 5), (5, 6), (6, 7), (7, 8), (8, 1),
        (9, 10), (10, 11), (11, 12), (12, 9),
        (13, 14), (14, 15), (15, 16), (16, 13),
        (17, 18), (18, 19), (19, 20), (20, 17),
        (2, 7), (8, 5), (6, 3), (4, 1),
        (8, 9), (5, 10),
        (6, 13), (3, 14),
        (4, 17), (1, 18),
    ];
    let g = build_test_graph(&edges);
    let contractor = Degree2Contractor::new_empty();
    let hub_registry = empty_hub_registry();
    let initial_cycles = vec![
        vec![1, 2, 3, 4, 5, 6, 7, 8],
        vec![9, 10, 11, 12],
        vec![13, 14, 15, 16],
        vec![17, 18, 19, 20],
    ];
    let matching_only = MatchingPatcher::patch_cycles_via_matching(&initial_cycles, &g, &contractor, &hub_registry);
    assert_eq!(matching_only.len(), 4, "Initial cycles cannot be merged by matching without perturbation");
    let result = IteratedLocalSearchPatcher::solve_via_ils(&initial_cycles, &g, &contractor, &hub_registry, 100);
    assert_eq!(result.len(), 1, "ILS must merge all 4 cycles into 1 Hamiltonian cycle");
    assert_eq!(result[0].len(), 20, "Final cycle must visit all 20 vertices");
    assert!(is_valid_cycle(&result[0], &g), "Final cycle must be a valid simple tour in G");
}

#[test]
fn test_ils_degree2_safety() {
    let edges = vec![(1, 2), (2, 3), (3, 4), (4, 5), (5, 6), (6, 7), (7, 8), (8, 1), (2, 7), (8, 5), (6, 3), (4, 1)];
    let g = build_test_graph(&edges);
    let cycle = vec![1, 2, 3, 4, 5, 6, 7, 8];

    let mut contractor = Degree2Contractor::new_empty();
    contractor.insert_chain(2, 3, vec![2, 99, 3]);
    contractor.insert_chain(3, 2, vec![2, 99, 3]);
    let perturbed_opt = IteratedLocalSearchPatcher::perturb_cycle(&cycle, &g, &contractor, 42);
    if let Some(perturbed) = perturbed_opt {
        let n = perturbed.len();
        let mut preserves_2_3 = false;
        for i in 0..n {
            let u = perturbed[i];
            let v = perturbed[(i + 1) % n];
            if (u == 2 && v == 3) || (u == 3 && v == 2) {
                preserves_2_3 = true;
                break;
            }
        }
        assert!(preserves_2_3, "Perturbation must preserve guarded degree-2 edge (2, 3)");
    }

    for i in 0..cycle.len() {
        let u = cycle[i];
        let v = cycle[(i + 1) % cycle.len()];
        contractor.insert_chain(u, v, vec![u, 100 + i as i32, v]);
        contractor.insert_chain(v, u, vec![u, 100 + i as i32, v]);
    }
    let blocked_opt = IteratedLocalSearchPatcher::perturb_cycle(&cycle, &g, &contractor, 42);
    assert!(blocked_opt.is_none(), "Must not break any guarded degree-2 edges when all are locked");

    let clean_contractor = Degree2Contractor::new_empty();
    let perturbed_clean = IteratedLocalSearchPatcher::perturb_cycle(&cycle, &g, &clean_contractor, 42);
    assert!(perturbed_clean.is_some(), "Perturbation succeeds when degree-2 edges are safe");
}

#[test]
fn ils_keeps_a_lone_cycle() {
    let g = build_test_graph(&[(1, 2), (2, 3), (3, 1)]);
    let contractor = Degree2Contractor::new_empty();
    let out = IteratedLocalSearchPatcher::solve_via_ils(&[vec![1, 2, 3]], &g, &contractor, &empty_hub_registry(), 5);
    assert_eq!(out, vec![vec![1, 2, 3]]);
}

#[test]
fn two_opt_patching_merges_adjacent_cycles() {
    // two triangles joined by the edges (1, 4) and (2, 5)
    let g = build_test_graph(&[(1, 2), (2, 3), (3, 1), (4, 5), (5, 6), (6, 4), (1, 4), (2, 5)]);
    let out = patch_cycles_2opt(vec![vec![1, 2, 3], vec![4, 5, 6]], &g);
    assert_eq!(out.len(), 1);
    // C1 forward from 2 to 1, then C2 backwards from 4 (2 is adjacent to 5, the successor of 4)
    assert_eq!(out[0], vec![2, 3, 1, 4, 6, 5]);
    assert!(is_valid_cycle(&out[0], &g));
}

#[test]
fn two_opt_patching_stops_without_cross_edges() {
    let g = build_test_graph(&[(1, 2), (2, 3), (3, 1), (4, 5), (5, 6), (6, 4)]);
    let cycles = vec![vec![1, 2, 3], vec![4, 5, 6]];
    assert_eq!(patch_cycles_2opt(cycles.clone(), &g), cycles);
    assert_eq!(patch_cycles_2opt(vec![vec![7, 8, 9]], &g), vec![vec![7, 8, 9]]);
}
