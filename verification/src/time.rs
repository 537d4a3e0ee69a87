//! Spans of time: `std::time::Duration`, seen through the number of
//! nanoseconds it spans.
use vstd::prelude::*;
use std::time::Duration;

verus! {

/// The nanoseconds a duration spans.
pub uninterp spec fn duration_nanos(d: Duration) -> nat;

/// Nanoseconds per second.
pub const NANOS_PER_SEC: u64 = 1_000_000_000;

/// Nanoseconds per millisecond.
pub const NANOS_PER_MILLI: u64 = 1_000_000;

/// `Duration::from_secs`: the given whole seconds.
pub assume_specification[ Duration::from_secs ](secs: u64) -> (r: Duration)
    ensures
        duration_nanos(r) == secs * 1_000_000_000,
;

/// `Duration::from_millis`: the given whole milliseconds.
pub assume_specification[ Duration::from_millis ](millis: u64) -> (r: Duration)
    ensures
        duration_nanos(r) == millis * 1_000_000,
;

/// `Duration::as_secs`: the whole seconds spanned.
pub assume_specification[ Duration::as_secs ](d: &Duration) -> (r: u64)
    ensures
        r == duration_nanos(*d) / 1_000_000_000,
;

/// `Duration::as_nanos`: the nanoseconds spanned.
pub assume_specification[ Duration::as_nanos ](d: &Duration) -> (r: u128)
    ensures
        r == duration_nanos(*d),
;

} // verus!
