use cegar_fix::contraction::Degree2Contractor;
use cegar_fix::graph::Graph;
use cegar_fix::module_dual_path_extractor::ModuleDualPathExtractor;

fn graph_of(edges: &[(i32, i32)]) -> Graph {
    let mut g = Graph::new();
    for &(u, v) in edges {
        g.add_edge(u, v);
    }
    g
}

#[test]
fn dual_paths_two_distinct_traversals() {
    // Virtual edge 2-3 (a contracted chain); real edges 1-2, 3-4, 1-3, 2-4.
    let g = graph_of(&[(1, 2), (2, 3), (3, 4), (1, 3), (2, 4)]);
    let mut c = Degree2Contractor::new_empty();
    c.insert_chain(2, 3, vec![2, 100, 3]);
    let r = ModuleDualPathExtractor::extract_dual_paths(&[1, 2, 3, 4], &g, &c);
    let (t, f) = r.expect("two alternating traversals exist");
    assert_eq!(t, vec![1, 2, 3, 4]);
    assert_eq!(f, vec![1, 3, 2, 4]);
}

#[test]
fn dual_paths_single_traversal_is_not_enough() {
    // Only one undirected alternating path 1-2=3-4 exists (walked both ways).
    let g = graph_of(&[(1, 2), (2, 3), (3, 4)]);
    let mut c = Degree2Contractor::new_empty();
    c.insert_chain(2, 3, vec![2, 100, 3]);
    let r = ModuleDualPathExtractor::extract_dual_paths(&[1, 2, 3, 4], &g, &c);
    assert!(r.is_none());
}

#[test]
fn dual_paths_tiny_module() {
    let g = graph_of(&[(1, 2)]);
    let c = Degree2Contractor::new_empty();
    assert!(ModuleDualPathExtractor::extract_dual_paths(&[1], &g, &c).is_none());
    assert!(ModuleDualPathExtractor::extract_dual_paths(&[], &g, &c).is_none());
}

#[test]
fn dual_paths_every_vertex_partnered() {
    // Every vertex has a partner (chains 1-2 and 3-4), so every module vertex
    // is a start, and searches begin with a real step, then a virtual one.
    let g = graph_of(&[(1, 2), (3, 4), (2, 3), (1, 4)]);
    let mut c = Degree2Contractor::new_empty();
    c.insert_chain(1, 2, vec![1, 50, 2]);
    c.insert_chain(3, 4, vec![3, 60, 4]);
    let r = ModuleDualPathExtractor::extract_dual_paths(&[1, 2, 3, 4], &g, &c);
    let (t, f) = r.expect("two alternating traversals exist");
    // From 1, real first: 1-4, virtual 4-3, real 3-2.
    assert_eq!(t, vec![1, 4, 3, 2]);
    // From 1, virtual first: 1-2, real 2-3, virtual 3-4.
    assert_eq!(f, vec![1, 2, 3, 4]);
}

#[test]
fn dual_paths_chain_leaving_the_module_is_not_virtual() {
    // The chain 2-9 ends outside the module, so 2 has no partner inside it and
    // the module behaves as a plain path graph: no alternation is possible.
    let g = graph_of(&[(1, 2), (2, 3), (2, 9)]);
    let mut c = Degree2Contractor::new_empty();
    c.insert_chain(2, 9, vec![2, 70, 9]);
    let r = ModuleDualPathExtractor::extract_dual_paths(&[1, 2, 3], &g, &c);
    assert!(r.is_none());
}
