//! Macro-level decompositions of the graph.
pub mod corridor;
