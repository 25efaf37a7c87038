//! Monotonic clock readings and durations, as used by the shutdown
//! coordinators to enforce their time budgets.
//!
//! Every reading of the clock depends on when it is taken, so the wrappers
//! that read it promise nothing about their results; decisions built on
//! them are verified as functions of the readings.

use std::time::{Duration, Instant};
use vstd::prelude::*;

verus! {

/// `std::time::Instant` is carried through verified code as an opaque value.
#[verifier::external_type_specification]
#[verifier::external_body]
pub struct ExInstant(Instant);

/// `Duration` is `Copy`; its `clone` returns the same duration.
pub assume_specification[ <Duration as Clone>::clone ](d: &Duration) -> (r: Duration)
    ensures
        r == *d,
;

/// The duration of `secs` whole seconds, as `Duration::from_secs` builds it.
pub uninterp spec fn secs_duration(secs: u64) -> Duration;

/// `Duration::from_secs`: the result is determined by `secs` alone.
#[verifier::external_body]
pub fn duration_from_secs(secs: u64) -> (r: Duration)
    ensures
        r == secs_duration(secs),
{
    Duration::from_secs(secs)
}

/// `Instant::now()`. Nothing is stated of the reading.
#[verifier::external_body]
pub fn now() -> Instant {
    Instant::now()
}

/// `start.elapsed()`: time since `start`. Nothing is stated of the reading.
#[verifier::external_body]
pub fn elapsed_since(start: &Instant) -> Duration {
    start.elapsed()
}

/// `start.elapsed() >= budget`. The answer depends on when it is asked;
/// what holds whenever it is asked is that a zero budget is always spent
/// (an elapsed `Duration` is never below zero).
#[verifier::external_body]
pub fn budget_spent(start: &Instant, budget: &Duration) -> (r: bool)
    ensures
        *budget == secs_duration(0) ==> r,
{
    start.elapsed() >= *budget
}

/// `Instant::now() >= at`. Nothing is stated: the answer depends on when
/// it is asked.
#[verifier::external_body]
pub fn reached(at: &Instant) -> bool {
    Instant::now() >= *at
}

/// `start.checked_add(span)`: the instant `span` after `start`, or `None`
/// when that instant is not representable. Nothing is stated of the result.
#[verifier::external_body]
pub fn checked_deadline(start: &Instant, span: &Duration) -> Option<Instant> {
    start.checked_add(*span)
}

} // verus!
