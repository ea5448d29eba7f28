//! Backward inference for Conway's Game of Life (rule B3/S23) on a fixed
//! square grid: given a target configuration, enumerate the complete
//! predecessor configurations whose forward step agrees with the target,
//! and chain that single-step search across several generations.
//!
//! Cells are three-valued (dead, alive, unknown); the forward rule is lifted
//! to an interval-based abstract transformer so that a partially assigned
//! grid can be simulated and pruned before it is fully enumerated.

pub mod grid;
pub mod neighbors;
pub mod transfer;
pub mod consistency;
pub mod search;
pub mod backtrack;
pub mod frontier;
pub mod heuristic;
pub mod chain;
pub mod equivalence;
