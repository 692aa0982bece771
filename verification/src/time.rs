//! Spans of time in whole seconds, and readings of a monotonic clock.

use vstd::prelude::*;

verus! {

/// The nanoseconds in a second.
pub const NANOS_PER_SEC: u128 = 1_000_000_000;

/// A span of time in whole seconds.
#[derive(Clone, Copy, Debug, PartialEq, Eq, Structural)]
pub struct Duration {
    secs: u64,
}

impl View for Duration {
    type V = int;

    closed spec fn view(&self) -> int {
        self.secs as int
    }
}

impl Duration {
    /// A span of `secs` seconds.
    pub fn from_secs(secs: u64) -> (r: Duration)
        ensures
            r@ == secs,
    {
        Duration { secs }
    }

    /// The number of seconds.
    pub fn as_secs(&self) -> (r: u64)
        ensures
            r == self@,
    {
        self.secs
    }

    /// Whether the span is empty.
    pub fn is_zero(&self) -> (r: bool)
        ensures
            r == (self@ == 0),
    {
        self.secs == 0
    }
}

/// A span has no less than no seconds, and no more than can be counted.
pub proof fn lemma_span(d: Duration)
    ensures
        0 <= d@ <= u64::MAX,
{
}

/// A reading of a monotonic clock: the nanoseconds since some fixed start.
#[derive(Clone, Copy, Debug, PartialEq, Eq, Structural)]
pub struct Instant {
    pub nanos: u128,
}

/// The latest reading that a deadline may have: the seconds of a clock fit in an `i64`.
pub open spec fn max_instant() -> int {
    i64::MAX as int * NANOS_PER_SEC
}

/// The whole seconds from `earlier` to `later`; none where `later` does not come after it.
pub open spec fn secs_between(earlier: Instant, later: Instant) -> int {
    if later.nanos >= earlier.nanos {
        (later.nanos - earlier.nanos) / NANOS_PER_SEC as int
    } else {
        0
    }
}

impl Instant {
    /// The whole seconds from `earlier` to this reading, which has at most an `u64` of them.
    pub fn secs_since(&self, earlier: Instant) -> (r: u128)
        ensures
            r == secs_between(earlier, *self),
    {
        if self.nanos >= earlier.nanos {
            (self.nanos - earlier.nanos) / NANOS_PER_SEC
        } else {
            0
        }
    }

    /// The reading that lies `duration` after this one.
    pub fn plus(&self, duration: Duration) -> (r: Instant)
        requires
            self.nanos + duration@ * NANOS_PER_SEC <= max_instant(),
        ensures
            r.nanos == self.nanos + duration@ * NANOS_PER_SEC,
    {
        assert(0 <= duration.secs * NANOS_PER_SEC <= u64::MAX * NANOS_PER_SEC) by (nonlinear_arith)
            requires
                0 <= duration.secs <= u64::MAX,
        ;
        Instant { nanos: self.nanos + duration.secs as u128 * NANOS_PER_SEC }
    }

    /// Whether the reading that lies `duration` after this one can be had.
    pub fn can_add(&self, duration: Duration) -> (r: bool)
        ensures
            r == (self.nanos + duration@ * NANOS_PER_SEC <= max_instant()),
    {
        assert(0 <= duration.secs * NANOS_PER_SEC <= u64::MAX * NANOS_PER_SEC) by (nonlinear_arith)
            requires
                0 <= duration.secs <= u64::MAX,
        ;
        let limit: u128 = i64::MAX as u128 * NANOS_PER_SEC;
        let span: u128 = duration.secs as u128 * NANOS_PER_SEC;
        self.nanos <= limit && span <= limit - self.nanos
    }
}

/// Seconds between two readings are whole: a second that has not passed does not count, and none have
/// passed where the second reading is not the later one.
pub proof fn law_whole_seconds_pass(earlier: Instant, later: Instant)
    ensures
        later.nanos >= earlier.nanos ==> {
            let n = secs_between(earlier, later);
            &&& 1_000_000_000 * n <= later.nanos - earlier.nanos
            &&& later.nanos - earlier.nanos < 1_000_000_000 * (n + 1)
        },
        later.nanos < earlier.nanos ==> secs_between(earlier, later) == 0,
        max_instant() == 0x7fff_ffff_ffff_ffff * 1_000_000_000,
{
}

} // verus!
