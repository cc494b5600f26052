//! Randomness: thin trusted wrappers over the `fastrand` generator, and the
//! reservoir selector built on them.
//!
//! A draw is random, so the wrappers state only what holds of every outcome
//! (the range of an integer draw, that a shuffle permutes).  Every decision
//! taken on a drawn value lives in verified code.

use vstd::prelude::*;

verus! {

/// Relies on `fastrand::u64`: a draw from `0..n`, which panics only on an
/// empty range and otherwise returns a value of the range.
#[verifier::external_body]
pub fn rand_u64_below(n: u64) -> (r: u64)
    requires
        n >= 1,
    ensures
        r < n,
{
    fastrand::u64(0..n)
}

/// Relies on `fastrand::shuffle`: reorders the slice in place, so the new
/// contents are a permutation of the old.
#[verifier::external_body]
pub fn shuffle_usizes(v: &mut Vec<usize>)
    ensures
        final(v)@.len() == old(v)@.len(),
        final(v)@.to_multiset() == old(v)@.to_multiset(),
{
    fastrand::shuffle(v.as_mut_slice());
}

/// Streaming uniform selector of one item: while scanning a candidate set
/// once, the k-th call keeps the k-th candidate with probability 1/k, which
/// leaves the finally kept candidate uniform over all candidates seen.
pub struct ReservoirSampling {
    /// How many candidates have been considered so far.
    pub num: u64,
}

impl ReservoirSampling {
    pub fn new() -> (r: ReservoirSampling)
        ensures
            r.num == 0,
    {
        ReservoirSampling { num: 0 }
    }

    /// Consider the next candidate of the stream; true means it replaces the
    /// held one.  The draw is random, so of later calls only the count's
    /// advance is promised; the first candidate of a fresh stream is always
    /// kept (the draw from `0..1` can only be 0).
    pub fn consider(&mut self) -> (r: bool)
        requires
            old(self).num < 0xffffffffffffffff,
        ensures
            final(self).num == old(self).num + 1,
            old(self).num == 0 ==> r,
    {
        self.num = self.num + 1;
        let draw = rand_u64_below(self.num);
        draw == 0
    }
}

} // verus!
