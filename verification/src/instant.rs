//! Points in time, as the file system and the clock report them.

use vstd::prelude::*;

verus! {

/// Seconds in one civil day without leap second.
pub const SECONDS_PER_DAY: i64 = 86_400;

/// An instant: whole seconds since 1970-01-01 00:00:00 UTC and the nanoseconds
/// past that second.
///
/// Instants are ordered by seconds first and nanoseconds second, which is a
/// total order on every pair of field values.
#[derive(Clone, Copy, Debug, PartialEq, Eq, Structural)]
pub struct Timestamp {
    pub secs: i64,
    pub nanos: u32,
}

impl Timestamp {
    /// `self` is strictly earlier than `other`.
    pub open spec fn precedes(self, other: Timestamp) -> bool {
        self.secs < other.secs || (self.secs == other.secs && self.nanos < other.nanos)
    }

    /// `self` is `other` or earlier.
    pub open spec fn at_or_before(self, other: Timestamp) -> bool {
        !other.precedes(self)
    }

    /// The seconds of the instant `days` days of 86 400 seconds before `self`;
    /// a negative `days` leads to a later instant.
    pub open spec fn seconds_back(self, days: int) -> int {
        self.secs - days * SECONDS_PER_DAY
    }

    /// The instant with the given seconds and nanoseconds.
    pub fn new(secs: i64, nanos: u32) -> (t: Timestamp)
        ensures
            t == (Timestamp { secs, nanos }),
    {
        Timestamp { secs, nanos }
    }

    /// Whether `self` is strictly earlier than `other`.
    pub fn is_before(&self, other: &Timestamp) -> (r: bool)
        ensures
            r == self.precedes(*other),
    {
        self.secs < other.secs || (self.secs == other.secs && self.nanos < other.nanos)
    }

    /// Moves the instant back by `days` days of 86 400 seconds, keeping the
    /// nanoseconds. `None` exactly when the seconds leave the range of `i64`.
    pub fn shifted_back(&self, days: i64) -> (r: Option<Timestamp>)
        ensures
            r == (if i64::MIN <= self.seconds_back(days as int) <= i64::MAX {
                Some(Timestamp { secs: self.seconds_back(days as int) as i64, nanos: self.nanos })
            } else {
                None
            }),
    {
        let span: i128 = (days as i128) * 86_400;
        let wide: i128 = (self.secs as i128) - span;
        if wide < i64::MIN as i128 || wide > i64::MAX as i128 {
            None
        } else {
            Some(Timestamp { secs: wide as i64, nanos: self.nanos })
        }
    }
}

} // verus!
