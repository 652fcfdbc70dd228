//! The wall clock.

use vstd::prelude::*;
use std::time::Instant;

verus! {

/// A point in time, as the system clock gives it.
#[verifier::external_type_specification]
#[verifier::external_body]
pub struct ExInstant(Instant);

/// `Instant::now`: the present moment.
#[verifier::external_body]
pub(crate) fn now() -> Instant {
    Instant::now()
}

/// `Instant::elapsed`, in nanoseconds: the time that has passed since `start`.
#[verifier::external_body]
pub(crate) fn elapsed_nanos(start: &Instant) -> u128 {
    start.elapsed().as_nanos()
}

} // verus!
