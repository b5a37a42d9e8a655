//! The clock that the solver stamps its run with.

use vstd::prelude::*;
use std::time::Instant;

verus! {

/// `std::time::Instant`: a point on the monotonic clock, carried through
/// as a value that nothing is known of.
#[verifier::external_type_specification]
#[verifier::external_body]
pub struct ExInstant(Instant);

/// Reads the monotonic clock with `std::time::Instant::now`. Nothing is
/// claimed of the instant that comes back.
#[verifier::external_body]
pub(crate) fn now() -> (t: Instant) {
    Instant::now()
}

} // verus!
