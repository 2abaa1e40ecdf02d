//! Wall-clock reading for deadline-bounded search.
//!
//! Time is not a function of the program's inputs, so nothing is promised
//! of these values: the search loops use them only as a stop signal, and
//! every candidate they admit is validated on its own terms.

use vstd::prelude::*;

verus! {

#[verifier::external_type_specification]
#[verifier::external_body]
pub struct ExInstant(std::time::Instant);

/// Relies on std::time::Instant::now: an opaque reading of the monotonic
/// clock, taken when a deadline-bounded search starts.
#[verifier::external_body]
pub(crate) fn clock_now() -> std::time::Instant {
    std::time::Instant::now()
}

/// Relies on std::time::Instant::elapsed and Duration::as_millis: the
/// milliseconds since `start`, truncated to 64 bits.
#[verifier::external_body]
pub(crate) fn elapsed_millis(start: &std::time::Instant) -> u64 {
    start.elapsed().as_millis() as u64
}

} // verus!
