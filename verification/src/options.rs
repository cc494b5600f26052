//! Engine parameters.
//!
//! Fractions (the shake size and the two greedy relaxation factors) are
//! expressed in per mille, so every parameter is an integer.

use vstd::prelude::*;
use crate::instance::MAX_N;

verus! {

pub struct Options {
    /// Time limit, in seconds.
    pub time_limit: u64,
    /// Random seed.
    pub seed: u64,
    /// Number of multistart rounds.
    pub max_iter: usize,
    /// Non-improving iterations before a shake.
    pub max_iter_wo_impr: usize,
    /// Tabu tenure of the round memory.
    pub tenure: usize,
    /// Shakes allowed per round.
    pub max_shakes: usize,
    /// Shake size relative to the solution size, in per mille.
    pub shake_size: u32,
    /// Relaxation factor of the shake's greedy orders, in per mille.
    pub shake_alpha: u32,
    /// Size of the decomposition sub-problem.
    pub subp_sz: usize,
    /// Independent restarts of one decomposition.
    pub subp_restarts: usize,
    /// Relaxation factor when drawing the free vertex set, in per mille.
    pub subp_alpha: u32,
}

impl Options {
    /// The parameter ranges the engine accepts.
    pub open spec fn ok(self) -> bool {
        &&& self.tenure <= 0xFFFFFFFF
        &&& self.subp_sz < MAX_N
        &&& self.subp_alpha <= 1000
        &&& self.shake_alpha <= 1000
        &&& self.shake_size <= 1000
        &&& self.max_iter < usize::MAX
        &&& self.max_iter_wo_impr < usize::MAX - 1
        &&& self.max_shakes < usize::MAX
        &&& self.subp_sz < usize::MAX
    }
}

impl Default for Options {
    /// The stock parameter set.
    fn default() -> (r: Options)
        ensures
            r.time_limit == 1800,
            r.seed == 1,
            r.max_iter == 1000000,
            r.max_iter_wo_impr == 1000,
            r.tenure == 0,
            r.max_shakes == 25,
            r.shake_size == 100,
            r.shake_alpha == 200,
            r.subp_sz == 70,
            r.subp_restarts == 1,
            r.subp_alpha == 100,
            r.ok(),
    {
        Options {
            time_limit: 1800,
            seed: 1,
            max_iter: 1000000,
            max_iter_wo_impr: 1000,
            tenure: 0,
            max_shakes: 25,
            shake_size: 100,
            shake_alpha: 200,
            subp_sz: 70,
            subp_restarts: 1,
            subp_alpha: 100,
        }
    }
}

} // verus!
