use std::time::{Duration, Instant};
use vstd::prelude::*;

verus! {

#[verifier::external_type_specification]
#[verifier::external_body]
pub struct ExInstant(Instant);

/// Relies on `std::time::Instant::now`: reads the monotonic clock.
#[verifier::external_body]
fn clock_now() -> Instant {
    Instant::now()
}

/// Relies on `std::time::Instant::elapsed`: the time that passed since `start`.
#[verifier::external_body]
fn elapsed_since(start: &Instant) -> Duration {
    start.elapsed()
}

/// Relies on `Duration`'s division by `u32`, which panics on a zero divisor.
#[verifier::external_body]
fn divide_duration(d: Duration, reps: u32) -> Duration
    requires
        reps > 0,
{
    d / reps
}

/// Runs `operation` `reps` times and returns the mean duration of one run.
pub fn measure(reps: u32, operation: impl Fn()) -> Duration
    requires
        reps > 0,
        operation.requires(()),
{
    let start = clock_now();
    let mut i: u32 = 0;
    while i < reps
        invariant
            i <= reps,
            operation.requires(()),
        decreases reps - i,
    {
        operation();
        i += 1;
    }
    divide_duration(elapsed_since(&start), reps)
}

} // verus!
