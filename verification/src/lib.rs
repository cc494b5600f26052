//! A local-search engine for the maximum mean-dispersion problem: pick a
//! subset of vertices of a complete weighted graph maximizing the sum of
//! pairwise distances divided by the subset size.
//!
//! Distances are integer weights, so every cost the engine maintains is
//! exact, and objective values — rationals `total cost / size` — are
//! compared by exact cross-multiplication; no floating-point tolerance is
//! needed anywhere.
//!
//! - [`instance`]: the distance matrix and its well-formedness;
//! - [`sums`]: the cost model (sums over member lists) and its lemmas;
//! - [`solution`]: the candidate solution with incrementally maintained
//!   marginal costs;
//! - [`ratio`]: exact objective comparisons;
//! - [`tabu`]: the tabu memory;
//! - [`rng`]: the trusted randomness wrappers and the reservoir selector;
//! - [`timer`]: the wall-clock budget;
//! - [`greedy`]: the tabu search engine and the semi-greedy orders;
//! - [`vlns`]: shake, the neighborhood decomposer and the multistart
//!   controller;
//! - [`options`]: the engine parameters.

pub mod greedy;
pub mod instance;
pub mod options;
pub mod ratio;
pub mod rng;
pub mod solution;
pub mod sums;
pub mod tabu;
pub mod timer;
pub mod vlns;
