//! The wall-clock budget of a search.

use std::time::{Duration, Instant};
use vstd::prelude::*;

verus! {

/// `std::time::Instant`, carried through as it is.
#[verifier::external_type_specification]
#[verifier::external_body]
pub struct ExInstant(Instant);

/// `Instant::elapsed`: the time that has passed since `start` according to
/// the monotonic clock. Nothing is claimed of the value.
#[verifier::external_body]
fn elapsed(start: &Instant) -> Duration {
    start.elapsed()
}

/// `Duration::as_nanos`: the span in nanoseconds. Nothing is claimed of the
/// value.
#[verifier::external_body]
fn nanos_of(span: &Duration) -> u128 {
    span.as_nanos()
}

/// `Instant::now`: the present moment. Nothing is claimed of it.
#[verifier::external_body]
pub(crate) fn now() -> Instant {
    Instant::now()
}

/// `Duration::from_secs`: a span of `secs` whole seconds. Nothing is claimed
/// of it.
#[verifier::external_body]
pub(crate) fn seconds(secs: u64) -> Duration {
    Duration::from_secs(secs)
}

/// When a search has to stop.
pub enum Deadline {
    /// Never: the search runs until it has nothing left to look at.
    Never,
    /// Once more than `limit` has passed since `start`.
    After { start: Instant, limit: Duration },
}

impl Deadline {
    /// A deadline `limit` after `start`.
    pub fn after(start: Instant, limit: Duration) -> (deadline: Deadline)
        ensures
            deadline == (Deadline::After { start, limit }),
    {
        Deadline::After { start, limit }
    }

    /// Whether `elapsed` nanoseconds are more than a limit of `limit`
    /// nanoseconds.
    pub fn more_than(elapsed: u128, limit: u128) -> (over: bool)
        ensures
            over == (elapsed > limit),
    {
        elapsed > limit
    }

    /// Whether `elapsed` nanoseconds are at least a limit of `limit`
    /// nanoseconds.
    pub fn at_least(elapsed: u128, limit: u128) -> (over: bool)
        ensures
            over == (elapsed >= limit),
    {
        elapsed >= limit
    }

    /// More than the limit has passed: what `more_than` says of the time
    /// that the clock shows since the start and of the limit, both in
    /// nanoseconds. Without a limit this never holds.
    pub fn exceeded(&self) -> (over: bool)
        ensures
            self is Never ==> !over,
    {
        match self {
            Deadline::Never => false,
            Deadline::After { start, limit } => Self::more_than(
                nanos_of(&elapsed(start)),
                nanos_of(limit),
            ),
        }
    }

    /// At least the limit has passed: what `at_least` says of the time that
    /// the clock shows since the start and of the limit, both in
    /// nanoseconds. Without a limit this never holds.
    pub fn reached(&self) -> (over: bool)
        ensures
            self is Never ==> !over,
    {
        match self {
            Deadline::Never => false,
            Deadline::After { start, limit } => Self::at_least(
                nanos_of(&elapsed(start)),
                nanos_of(limit),
            ),
        }
    }
}

} // verus!
