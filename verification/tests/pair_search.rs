use cegar_fix::alternating_pairs::alternating_pair_encoding;
use cegar_fix::contraction::Degree2Contractor;
use cegar_fix::graph::Graph;
use cegar_fix::pair_cnf::{pair_arcs, pair_cnf, pair_model_step, pair_tour_vertices, selection_cycles, PairStep};

fn lit_holds(model: &[bool], l: i32) -> bool {
    if l > 0 {
        model[l as usize]
    } else {
        !model[(-l) as usize]
    }
}

fn clause_holds(model: &[bool], c: &[i32]) -> bool {
    c.iter().any(|&l| lit_holds(model, l))
}

fn cnf_holds(model: &[bool], cnf: &[Vec<i32>]) -> bool {
    cnf.iter().all(|c| clause_holds(model, c))
}

// the semantic condition, checked directly on the selected arcs
fn choice_ok(n: usize, arcs: &[(usize, usize)], model: &[bool]) -> bool {
    let sel: Vec<(usize, usize)> = arcs.iter().enumerate().filter(|(i, _)| model[i + 1]).map(|(_, a)| *a).collect();
    for u in 0..n {
        if sel.iter().filter(|a| a.0 == u).count() != 1 || sel.iter().filter(|a| a.1 == u).count() != 1 {
            return false;
        }
    }
    for &(u, v) in &sel {
        if sel.contains(&(v, u)) {
            return false;
        }
        for &(v2, w) in &sel {
            if v2 == v && w != u && sel.contains(&(w, u)) {
                return false;
            }
            for &(w2, x) in &sel {
                if v2 == v && w2 == w && w != u && x != u && x != v && sel.contains(&(x, u)) {
                    return false;
                }
            }
        }
    }
    true
}

fn model_of(n_arcs: usize, picked: &[usize]) -> Vec<bool> {
    let mut m = vec![false; n_arcs + 1];
    for &i in picked {
        m[i + 1] = true;
    }
    m
}

#[test]
fn pair_cnf_models_are_exactly_the_good_selections() {
    // five nodes: a 5-cycle, its reverse arcs on two edges, a triangle and a quadrangle shortcut
    let arcs = vec![(0, 1), (1, 2), (2, 3), (3, 4), (4, 0), (1, 0), (2, 1), (2, 0), (3, 0)];
    let n = 5;
    let cnf = pair_cnf(n, &arcs);
    for bits in 0u32..(1 << arcs.len()) {
        let picked: Vec<usize> = (0..arcs.len()).filter(|i| bits & (1 << i) != 0).collect();
        let m = model_of(arcs.len(), &picked);
        assert_eq!(cnf_holds(&m, &cnf), choice_ok(n, &arcs, &m), "selection {:?}", picked);
    }
    // the Hamiltonian cycle is a model; the same with the triangle 0-1-2 is not
    assert!(cnf_holds(&model_of(arcs.len(), &[0, 1, 2, 3, 4]), &cnf));
    assert!(!cnf_holds(&model_of(arcs.len(), &[0, 1, 7]), &cnf));
}

#[test]
fn pair_arcs_follow_the_out_ends() {
    // nodes (in, out): (1, 2), (3, 4), (5, 6); edges 2-3, 4-5, 6-1, 2-6 and the partner edges
    let mut g = Graph::new();
    for &(u, v) in &[(1, 2), (3, 4), (5, 6), (2, 3), (4, 5), (6, 1), (2, 6)] {
        g.add_edge(u, v);
    }
    let nodes = vec![(1, 2), (3, 4), (5, 6)];
    let arcs = pair_arcs(&g, &nodes);
    let mut sorted = arcs.clone();
    sorted.sort();
    // out end 2 sees 3 (node 1) and 6 (node 2) besides its in end 1; out end 4
    // sees 5 (node 2) besides its in end 3; out end 6 sees 1 and 2 (both node 0)
    assert_eq!(sorted, vec![(0, 1), (0, 2), (1, 2), (2, 0)]);
}

#[test]
fn pair_step_cuts_two_subcycles() {
    let arcs = vec![(0, 1), (1, 0), (2, 3), (3, 2), (1, 2), (3, 0)];
    let model = model_of(arcs.len(), &[0, 1, 2, 3]);
    let cycles = selection_cycles(4, &arcs, &model);
    assert_eq!(cycles, vec![vec![0, 1], vec![2, 3]]);
    match pair_model_step(4, &arcs, &model) {
        PairStep::Tour(_) => panic!("two subcycles are no tour"),
        PairStep::Cuts(cuts) => {
            assert!(!cuts.is_empty());
            for c in &cuts {
                assert!(!clause_holds(&model, c));
            }
            assert!(cuts.contains(&vec![-1, -2]));
            assert!(cuts.contains(&vec![-3, -4]));
            // the leaving cut of {0, 1} names the arc 1 -> 2
            assert!(cuts.contains(&vec![5]));
            // every cut keeps the tour 0 -> 1 -> 2 -> 3 -> 0
            let tour_model = model_of(arcs.len(), &[0, 4, 2, 5]);
            for c in &cuts {
                assert!(clause_holds(&tour_model, c));
            }
        }
    }
}

#[test]
fn pair_step_accepts_a_tour() {
    let arcs = vec![(0, 1), (1, 0), (2, 3), (3, 2), (1, 2), (3, 0)];
    let model = model_of(arcs.len(), &[0, 4, 2, 5]);
    match pair_model_step(4, &arcs, &model) {
        PairStep::Tour(t) => {
            assert_eq!(t, vec![0, 1, 2, 3]);
            let nodes = vec![(10, 11), (12, 13), (14, 15), (16, 17)];
            assert_eq!(pair_tour_vertices(&nodes, &t), vec![10, 11, 12, 13, 14, 15, 16, 17]);
        }
        PairStep::Cuts(_) => panic!("a Hamiltonian selection is a tour"),
    }
}

#[test]
fn pair_encoding_needs_a_chain_pair() {
    let mut g = Graph::new();
    g.add_edge(1, 2);
    let contractor = Degree2Contractor::new_empty();
    assert!(alternating_pair_encoding(&g, &contractor).is_none());
}

#[test]
fn pair_encoding_of_two_pairs() {
    // chains 1..2 and 3..4 contracted; the contracted graph joins 2-3 and 4-1
    let mut g = Graph::new();
    for &(u, v) in &[(1, 2), (2, 3), (3, 4), (4, 1)] {
        g.add_edge(u, v);
    }
    let mut contractor = Degree2Contractor::new_empty();
    contractor.insert_chain(1, 2, vec![1, 100, 2]);
    contractor.insert_chain(3, 4, vec![3, 101, 4]);
    let e = alternating_pair_encoding(&g, &contractor).expect("two chain pairs");
    assert_eq!(e.nodes.len(), 2);
    assert!(e.nodes[0] == (1, 2) || e.nodes[0] == (2, 1));
    assert!(e.nodes[1] == (3, 4) || e.nodes[1] == (4, 3));
    // a selection with one arc out of and into each node satisfies the clauses
    // exactly when it is the two-node cycle, which the two-cycle clause forbids
    for bits in 0u32..(1 << e.arcs.len()) {
        let picked: Vec<usize> = (0..e.arcs.len()).filter(|i| bits & (1 << i) != 0).collect();
        let m = model_of(e.arcs.len(), &picked);
        assert_eq!(cnf_holds(&m, &e.clauses), choice_ok(2, &e.arcs, &m));
    }
}
