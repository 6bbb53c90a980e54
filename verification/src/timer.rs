//! Wall-clock timing shared by the benchmarks.

use vstd::prelude::*;
use std::time::{Duration, Instant};

verus! {

#[verifier::external_type_specification]
#[verifier::external_body]
pub struct ExInstant(Instant);

/// `std::time::Instant::now`: the current reading of the monotonic clock.
/// Nothing is stated of the value, which depends on the time of the call.
#[verifier::external_body]
fn instant_now() -> Instant {
    Instant::now()
}

/// `std::time::Instant::elapsed`: the time since `start` was taken.
/// Nothing is stated of the value, which depends on the time of the call.
#[verifier::external_body]
fn instant_elapsed(start: &Instant) -> Duration {
    start.elapsed()
}

/// A wall-clock timer started at a fixed instant.
pub struct Timer(Instant);

impl Timer {
    /// Starts a timer at the current instant.
    pub fn start() -> (t: Timer) {
        Timer(instant_now())
    }

    /// The time elapsed since the timer was started.
    pub fn elapsed(&self) -> Duration {
        instant_elapsed(&self.0)
    }
}

} // verus!
