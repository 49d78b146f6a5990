//! Backtracking optimizers and supporting text utilities.
//!
//! The heart of the crate is the `problems` module: three independent
//! backtracking search engines (subset-sum overshoot minimization,
//! constrained assignment maximization, and shortest-jump-path search on a
//! bounded grid) that share a two-phase typestate protocol and a common
//! reporting capability. Around them stand a verified binary search, a
//! Boyer-Moore pattern counter, and the text machinery of a Hill cipher.

pub mod bin_search;
pub mod decimal;
pub mod error;
pub mod matches;
pub mod problems;
pub mod process;
