//! Points and spans of time, counted in whole nanoseconds.

use vstd::prelude::*;

verus! {

/// Nanoseconds in one millisecond.
pub const NANOS_PER_MILLI: u128 = 1_000_000;

/// A span of time.
#[derive(Clone, Copy, Debug, PartialEq, Eq, Structural)]
pub struct Duration {
    pub nanos: u128,
}

/// A point on a monotonic clock: the time since a fixed origin.
#[derive(Clone, Copy, Debug, PartialEq, Eq, Structural)]
pub struct Instant {
    pub nanos: u128,
}

/// The span from `earlier` to `later`, zero when they are the other way round.
pub open spec fn elapsed(earlier: Instant, later: Instant) -> int {
    if later.nanos >= earlier.nanos {
        later.nanos - earlier.nanos
    } else {
        0
    }
}

impl Duration {
    /// A span of `millis` milliseconds.
    pub fn from_millis(millis: u64) -> (d: Duration)
        ensures
            d.nanos == millis * NANOS_PER_MILLI,
            d.nanos == millis * 1_000_000,
    {
        Duration { nanos: (millis as u128) * NANOS_PER_MILLI }
    }

    /// The whole milliseconds in this span.
    pub fn as_millis(&self) -> (m: u128)
        ensures
            m == self.nanos as int / NANOS_PER_MILLI as int,
            m * 1_000_000 <= self.nanos < (m + 1) * 1_000_000,
    {
        self.nanos / NANOS_PER_MILLI
    }
}

impl Instant {
    /// The time that has passed since `earlier`; zero if `earlier` is later than this.
    pub fn duration_since(&self, earlier: Instant) -> (d: Duration)
        ensures
            d.nanos == elapsed(earlier, *self),
            self.nanos >= earlier.nanos ==> earlier.nanos + d.nanos == self.nanos,
            self.nanos < earlier.nanos ==> d.nanos == 0,
    {
        Duration { nanos: self.nanos.saturating_sub(earlier.nanos) }
    }
}

/// The time that passes between two points is what has to be added to the first to get to the second;
/// it is never negative.
pub proof fn lemma_elapsed(earlier: Instant, later: Instant)
    ensures
        later.nanos >= earlier.nanos ==> earlier.nanos + elapsed(earlier, later) == later.nanos,
        later.nanos < earlier.nanos ==> elapsed(earlier, later) == 0,
{
}

} // verus!
