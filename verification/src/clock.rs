//! The wall clock, for searches that stop after a time. Nothing is known of
//! what a clock shows, so nothing is claimed of it.

use std::time::{Duration, Instant};
use vstd::prelude::*;

verus! {

/// `std::time::Instant`, opaque to the verifier.
#[verifier::external_type_specification]
#[verifier::external_body]
pub struct ExInstant(Instant);

/// `Instant::now`: the present moment.
#[verifier::external_body]
pub(crate) fn now() -> Instant {
    Instant::now()
}

/// `Instant::elapsed`: the time that has passed since `start`.
#[verifier::external_body]
pub(crate) fn elapsed(start: &Instant) -> Duration {
    start.elapsed()
}

/// `Duration::as_millis`: a time span in whole milliseconds.
#[verifier::external_body]
pub(crate) fn as_millis(span: &Duration) -> u128 {
    span.as_millis()
}

} // verus!
