//! Measured time, which only the clock of the machine can give.
use std::time::{Duration, Instant};
use vstd::prelude::*;

verus! {

#[verifier::external_type_specification]
#[verifier::external_body]
pub struct ExInstant(Instant);

/// `Instant::now`: the current time, which no two calls need to agree on.
#[verifier::external_body]
pub(crate) fn now() -> Instant {
    Instant::now()
}

/// `Instant::elapsed`: the time since `start`.
#[verifier::external_body]
pub(crate) fn since(start: &Instant) -> Duration {
    start.elapsed()
}

/// `Duration::as_micros`: the whole microseconds of a duration, cut to 64
/// bits.
#[verifier::external_body]
pub(crate) fn micros_of(d: &Duration) -> u64 {
    d.as_micros() as u64
}

/// The whole microseconds since `start`, cut to 64 bits.
pub(crate) fn micros_since(start: &Instant) -> u64 {
    micros_of(&since(start))
}

} // verus!
