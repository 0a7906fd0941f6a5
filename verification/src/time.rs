//! Spans of simulated time.
use vstd::prelude::*;

verus! {

/// Nanoseconds in a second.
pub const NANOS_PER_SEC: u128 = 1_000_000_000;

/// Nanoseconds in a millisecond.
pub const NANOS_PER_MILLI: u128 = 1_000_000;

/// Nanoseconds in a microsecond.
pub const NANOS_PER_MICRO: u128 = 1_000;

/// A span of simulated time, counted in nanoseconds.
#[derive(Clone, Copy, Debug, PartialEq, Eq, Hash, Structural)]
pub struct Duration {
    /// The number of nanoseconds.
    pub nanos: u128,
}

impl Duration {
    /// Whether the whole seconds of the span fit in 64 bits, as those of every span
    /// of the operating system do.
    pub open spec fn is_bounded(self) -> bool {
        self.nanos < 0x1_0000_0000_0000_0000 * NANOS_PER_SEC
    }

    /// The empty span.
    pub fn zero() -> (r: Duration)
        ensures
            r.nanos == 0,
    {
        Duration { nanos: 0 }
    }

    /// A span of whole seconds.
    pub fn from_secs(secs: u64) -> (r: Duration)
        ensures
            r.nanos == secs * NANOS_PER_SEC,
            r.is_bounded(),
    {
        Duration { nanos: secs as u128 * NANOS_PER_SEC }
    }

    /// A span of whole milliseconds.
    pub fn from_millis(millis: u64) -> (r: Duration)
        ensures
            r.nanos == millis * NANOS_PER_MILLI,
            r.is_bounded(),
    {
        Duration { nanos: millis as u128 * NANOS_PER_MILLI }
    }

    /// A span of whole microseconds.
    pub fn from_micros(micros: u64) -> (r: Duration)
        ensures
            r.nanos == micros * NANOS_PER_MICRO,
            r.is_bounded(),
    {
        Duration { nanos: micros as u128 * NANOS_PER_MICRO }
    }

    /// A span of whole nanoseconds.
    pub fn from_nanos(nanos: u64) -> (r: Duration)
        ensures
            r.nanos == nanos,
            r.is_bounded(),
    {
        Duration { nanos: nanos as u128 }
    }

    /// The whole seconds of the span.
    pub fn as_secs(&self) -> (r: u64)
        requires
            self.is_bounded(),
        ensures
            r == self.nanos / NANOS_PER_SEC,
    {
        (self.nanos / NANOS_PER_SEC) as u64
    }

    /// The nanoseconds that remain beside the whole seconds.
    pub fn subsec_nanos(&self) -> (r: u32)
        ensures
            r == self.nanos % NANOS_PER_SEC,
            r < NANOS_PER_SEC,
    {
        (self.nanos % NANOS_PER_SEC) as u32
    }

    /// Whether the span is empty.
    pub fn is_zero(&self) -> (r: bool)
        ensures
            r == (self.nanos == 0),
    {
        self.nanos == 0
    }

    /// The sum of two spans.
    pub fn plus(&self, other: Duration) -> (r: Duration)
        requires
            self.nanos + other.nanos <= u128::MAX,
        ensures
            r.nanos == self.nanos + other.nanos,
    {
        Duration { nanos: self.nanos + other.nanos }
    }

    /// What this span has over the other, empty where it has nothing over.
    pub fn saturating_sub(&self, other: Duration) -> (r: Duration)
        ensures
            r.nanos == (if self.nanos > other.nanos { self.nanos - other.nanos } else { 0 }),
    {
        if self.nanos > other.nanos {
            Duration { nanos: self.nanos - other.nanos }
        } else {
            Duration { nanos: 0 }
        }
    }
}

} // verus!
