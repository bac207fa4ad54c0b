//! The clock by which recalculations are scheduled.

use std::time::{Duration, Instant};
use vstd::prelude::*;

verus! {

/// Trusted: the type `std::time::Instant`, a moment on a clock. Its
/// inside is not looked into.
#[verifier::external_type_specification]
#[verifier::external_body]
pub struct ExInstant(Instant);

/// Trusted: `std::time::Instant::now`, the present moment on a clock that
/// does not go back. Nothing is claimed of the moment.
#[verifier::external_body]
fn instant_now() -> (now: Instant) {
    Instant::now()
}

/// Trusted: `std::time::Instant::elapsed`, the time since `start`. Nothing
/// is claimed of its length.
#[verifier::external_body]
fn instant_elapsed(start: &Instant) -> (elapsed: Duration) {
    start.elapsed()
}

/// Trusted: `std::time::Duration::as_millis`, the whole milliseconds of a
/// duration. Nothing is claimed of their number.
#[verifier::external_body]
fn duration_millis(duration: &Duration) -> (millis: u128) {
    duration.as_millis()
}

/// A clock that counts milliseconds from the moment it was started.
pub struct Clock {
    start: Instant,
}

impl Clock {
    /// A clock that starts now.
    pub fn start() -> (clock: Clock) {
        Clock { start: instant_now() }
    }

    /// The milliseconds since the clock was started.
    pub fn now(&self) -> (millis: u128) {
        let elapsed = instant_elapsed(&self.start);
        duration_millis(&elapsed)
    }
}

} // verus!
