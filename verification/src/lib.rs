//! Building blocks of a Hamiltonian-cycle solver: graphs, degree-2 chain
//! bookkeeping, tour checks, and the cycle-merging heuristics that turn a
//! collection of disjoint subcycles into fewer, longer cycles.
pub mod graph;
pub mod contraction;
pub mod tour;
pub mod cycle_family;
pub mod splice;
pub mod matching_patcher;
pub mod hub_registry;
pub mod patching;
pub mod ils_patcher;
pub mod macro_splicer;
pub mod multi_opt_sat_splicer;
pub mod sorting;
pub mod modular_tree;
pub mod modular_solver;
pub mod macro_solver;
pub mod metagraph_router;
pub mod interface_port_synchronizer;
pub mod hub_sub_hcp;
pub mod module_dual_path_extractor;
pub mod modular_ring_dp_solver;
pub mod hub_hierarchical_decomposer;
pub mod alternating_pairs;
pub mod parallel_sub_hcp;
pub mod macro_corridor;
pub mod macro_decomp;
pub mod pair_cnf;
