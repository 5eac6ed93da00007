//! The clock, for the timings that the statistics report.

use std::time::{Duration, Instant};
use vstd::prelude::*;

verus! {

/// A moment, as the standard library's monotonic clock gives it.
#[verifier::external_type_specification]
#[verifier::external_body]
pub struct ExInstant(Instant);

/// `Instant::now`: the present moment. Nothing is known of it.
#[verifier::external_body]
pub(crate) fn now() -> (t: Instant) {
    Instant::now()
}

/// `Instant::elapsed`: the time since `since`. Nothing is known of it.
#[verifier::external_body]
pub(crate) fn elapsed(since: &Instant) -> (d: Duration) {
    since.elapsed()
}

/// `Duration::saturating_add`: the sum of two spans of time, or the longest span
/// there is. Nothing is stated of it.
#[verifier::external_body]
pub(crate) fn add_durations(a: Duration, b: Duration) -> (d: Duration) {
    a.saturating_add(b)
}

/// `Duration::default`: the empty span of time. Nothing is stated of it.
#[verifier::external_body]
pub(crate) fn no_duration() -> (d: Duration) {
    Duration::default()
}

} // verus!
