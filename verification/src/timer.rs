//! Wall-clock budget: a timer with a limit in seconds.
//!
//! What the clock reads is outside any contract; the only promise is the
//! boundary behaviour the controller relies on: a zero limit reports timed
//! out at once, and seconds left never exceed the limit.

use vstd::prelude::*;

verus! {

#[verifier::external_type_specification]
#[verifier::external_body]
pub struct ExInstant(std::time::Instant);

/// Relies on `std::time::Instant::now`: the current instant.
#[verifier::external_body]
fn instant_now() -> std::time::Instant {
    std::time::Instant::now()
}

/// Relies on `std::time::Instant::elapsed` and `Duration::as_secs`: whole
/// seconds since `start`.  The clock decides the value, so nothing is
/// promised of it.
#[verifier::external_body]
fn elapsed_secs_of(start: &std::time::Instant) -> u64 {
    start.elapsed().as_secs()
}

pub struct Timer {
    pub start: std::time::Instant,
    /// The limit, in seconds.
    pub tl: u64,
}

impl Timer {
    pub fn new(time_lim_secs: u64) -> (t: Timer)
        ensures
            t.tl == time_lim_secs,
    {
        Timer { start: instant_now(), tl: time_lim_secs }
    }

    /// Whole seconds since the timer was built.
    pub fn elapsed(&self) -> u64 {
        elapsed_secs_of(&self.start)
    }

    /// Seconds of budget left, never above the limit; zero once the limit
    /// has passed.
    pub fn secs_left(&self) -> (r: u64)
        ensures
            r <= self.tl,
    {
        let ela = self.elapsed();
        if ela >= self.tl {
            0
        } else {
            self.tl - ela
        }
    }

    /// Whether the budget is exhausted.  A zero limit is exhausted from the
    /// start.
    pub fn timed_out(&self) -> (r: bool)
        ensures
            self.tl == 0 ==> r,
    {
        self.secs_left() == 0
    }
}

} // verus!
