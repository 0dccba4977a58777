//! Spans of time in whole milliseconds.

use vstd::prelude::*;

verus! {

/// A span of time.
#[derive(Debug, Clone, Copy, PartialEq, Eq, PartialOrd, Ord, Structural)]
pub struct Duration {
    pub millis: u128,
}

impl Duration {
    /// A span of the given milliseconds.
    pub fn from_millis(millis: u64) -> (r: Self)
        ensures
            r.millis == millis,
    {
        Duration { millis: millis as u128 }
    }

    /// A span of the given seconds.
    pub fn from_secs(secs: u64) -> (r: Self)
        ensures
            r.millis == secs * 1000,
    {
        Duration { millis: secs as u128 * 1000 }
    }

    /// The milliseconds of the span.
    pub fn as_millis(&self) -> (r: u128)
        ensures
            r == self.millis,
    {
        self.millis
    }

    /// The milliseconds of the span, at most the largest `u64`.
    pub fn saturated_millis(&self) -> (r: u64)
        ensures
            r == if self.millis <= u64::MAX {
                self.millis as int
            } else {
                u64::MAX as int
            },
    {
        if self.millis <= 0xffff_ffff_ffff_ffff {
            self.millis as u64
        } else {
            0xffff_ffff_ffff_ffff
        }
    }
}

} // verus!
