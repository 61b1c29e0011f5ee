//! Spans of time.

use vstd::prelude::*;

verus! {

/// A span of time, in whole nanoseconds.
#[derive(Debug, Clone, Copy, PartialEq, Eq, Structural)]
pub struct Duration {
    pub nanos: u128,
}

impl View for Duration {
    type V = nat;

    /// The number of nanoseconds.
    open spec fn view(&self) -> nat {
        self.nanos as nat
    }
}

impl Duration {
    pub fn zero() -> (d: Self)
        ensures
            d@ == 0,
    {
        Duration { nanos: 0 }
    }

    pub fn from_millis(millis: u64) -> (d: Self)
        ensures
            d@ == millis as nat * 1_000_000,
    {
        Duration { nanos: millis as u128 * 1_000_000 }
    }

    pub fn from_secs(secs: u64) -> (d: Self)
        ensures
            d@ == secs as nat * 1_000_000_000,
    {
        Duration { nanos: secs as u128 * 1_000_000_000 }
    }
}

} // verus!
