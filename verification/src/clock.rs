//! Reading the monotonic clock for the time-limited search.
//!
//! Every item here is trusted: it calls one function of `std::time`. What a
//! clock reading is depends on when it is taken, so none of them states
//! anything about its result; the search that uses them is verified for
//! every possible reading.
use std::time::Duration;
use std::time::Instant;
use vstd::prelude::*;

verus! {

/// `std::time::Instant`, a reading of the monotonic clock, carried through
/// the search as an opaque value.
#[verifier::external_type_specification]
#[verifier::external_body]
pub struct ExInstant(Instant);

/// Calls `Instant::now`. Nothing is stated of the reading it returns.
#[verifier::external_body]
pub(crate) fn instant_now() -> (r: Instant) {
    Instant::now()
}

/// Calls `Duration::new(secs, nanos)`, which panics only when `nanos`
/// carries over into a second count beyond `u64`; the `requires` keeps
/// `nanos` below one second, so it cannot. Nothing is stated of the result.
#[verifier::external_body]
pub(crate) fn duration_new(secs: u64, nanos: u32) -> (r: Duration)
    requires
        nanos < 1_000_000_000,
{
    Duration::new(secs, nanos)
}

/// Calls `Instant::checked_add`: `None` when the sum cannot be represented.
/// Nothing is stated of the result.
#[verifier::external_body]
pub(crate) fn instant_checked_add(start: &Instant, d: Duration) -> (r: Option<Instant>) {
    start.checked_add(d)
}

/// Calls `PartialOrd::ge` on two instants (`a >= b`). Nothing is stated of
/// the result.
#[verifier::external_body]
pub(crate) fn instant_at_or_after(a: &Instant, b: &Instant) -> (r: bool) {
    *a >= *b
}

/// Calls `Instant::elapsed` (the time since `start`, by the monotonic clock)
/// and gives it in nanoseconds. Nothing is stated of the reading.
#[verifier::external_body]
pub(crate) fn elapsed_nanos(start: &Instant) -> (r: u128) {
    start.elapsed().as_nanos()
}

} // verus!
