//! Reverse-mode automatic differentiation over scalar nodes held in an arena.
//!
//! The graph structure, the topological order of the backward pass, the plan of
//! gradient contributions and the neural-network composition are verified here.
//! Numeric values are kept by the caller, indexed by node handle.
pub mod engine;
pub mod topo;
pub mod graph;
pub mod nn;
