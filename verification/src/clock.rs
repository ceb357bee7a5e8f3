//! Reading the machine's monotonic clock.

use std::time::Instant;
use vstd::prelude::*;

verus! {

/// A point in time, as the standard library keeps it.
#[verifier::external_type_specification]
#[verifier::external_body]
pub struct ExInstant(std::time::Instant);

/// Calls `Instant::now`. Nothing is known of the point in time.
#[verifier::external_body]
pub(crate) fn now() -> (r: Instant) {
    Instant::now()
}

/// Calls `Instant::elapsed`, in nanoseconds. Nothing is known of how long the
/// time since then was.
#[verifier::external_body]
pub(crate) fn nanos_since(start: &Instant) -> (r: u64) {
    start.elapsed().as_nanos() as u64
}

} // verus!
