use cegar_fix::graph::Graph;
use cegar_fix::parallel_sub_hcp::cluster_subcycles;

/// The triangles `cycles`, plus the given cross edges.
fn triangles_with(cycles: &[Vec<i32>], cross: &[(i32, i32)]) -> Graph {
    let mut g = Graph::new();
    for c in cycles {
        for i in 0..c.len() {
            g.add_edge(c[i], c[(i + 1) % c.len()]);
        }
    }
    for &(u, v) in cross {
        g.add_edge(u, v);
    }
    g
}

fn abc() -> Vec<Vec<i32>> {
    vec![vec![1, 2, 3], vec![4, 5, 6], vec![7, 8, 9]]
}

#[test]
fn clustering_single_or_no_cycle_is_one_cluster() {
    let g = triangles_with(&[vec![1, 2, 3]], &[]);
    assert_eq!(cluster_subcycles(&vec![vec![1, 2, 3]], &g, 2), vec![vec![vec![1, 2, 3]]]);
    let none: Vec<Vec<i32>> = Vec::new();
    assert_eq!(cluster_subcycles(&none, &g, 2), vec![none.clone()]);
}

#[test]
fn clustering_merges_heaviest_pair_within_bound() {
    let cs = abc();
    // Weight 2 between the first two triangles, weight 1 between the last two.
    let g = triangles_with(&cs, &[(1, 4), (2, 5), (6, 7)]);
    assert_eq!(
        cluster_subcycles(&cs, &g, 6),
        vec![vec![vec![1, 2, 3], vec![4, 5, 6]], vec![vec![7, 8, 9]]]
    );
    assert_eq!(cluster_subcycles(&cs, &g, 9), vec![cs.clone()]);
    assert_eq!(
        cluster_subcycles(&cs, &g, 5),
        vec![vec![vec![1, 2, 3]], vec![vec![4, 5, 6]], vec![vec![7, 8, 9]]]
    );
}

#[test]
fn clustering_ties_go_in_pair_order() {
    let cs = abc();
    let g = triangles_with(&cs, &[(1, 4), (2, 7), (5, 8)]);
    assert_eq!(
        cluster_subcycles(&cs, &g, 6),
        vec![vec![vec![1, 2, 3], vec![4, 5, 6]], vec![vec![7, 8, 9]]]
    );
}

#[test]
fn clustering_orders_clusters_by_representative() {
    let cs = vec![vec![1, 2, 3], vec![4, 5, 6], vec![7, 8, 9], vec![10, 11, 12]];
    // Cycles 0 and 3 merge first (weight 3) under label 0; then the pair (2, 3)
    // (weight 2) relabels that cluster to 2.
    let g = triangles_with(&cs, &[(1, 10), (2, 11), (3, 12), (7, 10), (8, 11)]);
    assert_eq!(
        cluster_subcycles(&cs, &g, 100),
        vec![vec![vec![4, 5, 6]], vec![vec![1, 2, 3], vec![7, 8, 9], vec![10, 11, 12]]]
    );
}

#[test]
fn clustering_partitions_the_cycles() {
    let cs = vec![vec![1, 2, 3], vec![4, 5, 6], vec![7, 8, 9], vec![10, 11, 12], vec![4, 5, 6]];
    let g = triangles_with(&cs, &[(1, 10), (2, 11), (3, 12), (7, 10), (8, 11), (6, 9)]);
    for max in [0usize, 3, 6, 9, 100] {
        let out = cluster_subcycles(&cs, &g, max);
        let mut all: Vec<Vec<i32>> = out.into_iter().flatten().collect();
        all.sort();
        let mut expected = cs.clone();
        expected.sort();
        assert_eq!(all, expected);
    }
}

#[test]
fn clustering_keeps_merged_clusters_within_bound() {
    let cs = vec![vec![1, 2, 3], vec![4, 5, 6, 13], vec![7, 8, 9], vec![10, 11, 12]];
    let g = triangles_with(&cs, &[(1, 10), (2, 11), (3, 12), (7, 10), (8, 11), (6, 9), (13, 1)]);
    for max in [0usize, 3, 6, 7, 9, 10, 13, 100] {
        for cluster in cluster_subcycles(&cs, &g, max) {
            let total: usize = cluster.iter().map(|c| c.len()).sum();
            assert!(cluster.len() < 2 || total <= max);
        }
    }
}
