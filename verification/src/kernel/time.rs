//! Virtual time.
//!
//! Time is counted in milliseconds and never goes below zero, so that a
//! script can wait for a fraction of a second. Sums stop at the largest
//! representable instant and differences stop at zero, so no operation on
//! time can wrap around.

use vstd::prelude::*;

verus! {

/// A point in virtual time: milliseconds since the simulation began.
#[derive(Clone, Copy, Debug, PartialEq, Eq, PartialOrd, Ord, Hash, Structural)]
pub struct SimTime(u64);

/// A span of virtual time in milliseconds.
#[derive(Clone, Copy, Debug, PartialEq, Eq, Structural)]
pub struct Duration(u64);

/// How many milliseconds a second has.
pub const MILLIS_PER_SECOND: u64 = 1000;

/// The milliseconds in `seconds` whole seconds, stopping at the largest
/// representable instant.
pub open spec fn seconds_as_millis(seconds: nat) -> nat {
    if seconds * 1000 > u64::MAX {
        u64::MAX as nat
    } else {
        seconds * 1000
    }
}

/// Sum of two millisecond counts, stopping at the largest representable
/// instant.
pub open spec fn clamped_sum(a: nat, b: nat) -> nat {
    if a + b > u64::MAX {
        u64::MAX as nat
    } else {
        a + b
    }
}

/// Difference of two millisecond counts, stopping at zero.
pub open spec fn clamped_diff(a: nat, b: nat) -> nat {
    if a >= b {
        (a - b) as nat
    } else {
        0
    }
}

impl View for SimTime {
    type V = nat;

    /// The number of milliseconds this instant lies after the start.
    closed spec fn view(&self) -> nat {
        self.0 as nat
    }
}

impl View for Duration {
    type V = nat;

    /// The length of the span in milliseconds.
    closed spec fn view(&self) -> nat {
        self.0 as nat
    }
}

/// The milliseconds in `seconds` whole seconds; see `seconds_as_millis`.
fn to_millis(seconds: u64) -> (millis: u64)
    ensures
        millis == seconds_as_millis(seconds as nat),
{
    if seconds > u64::MAX / MILLIS_PER_SECOND {
        u64::MAX
    } else {
        seconds * MILLIS_PER_SECOND
    }
}

impl SimTime {
    /// The instant `millis` milliseconds after the start, for use in
    /// contracts.
    pub closed spec fn at(millis: u64) -> SimTime {
        SimTime(millis)
    }

    /// `at` and the view undo each other.
    pub proof fn lemma_at(millis: u64)
        ensures
            Self::at(millis)@ == millis,
    {
    }

    /// The start of virtual time.
    pub fn zero() -> (t: SimTime)
        ensures
            t@ == 0,
            t == Self::at(0),
    {
        SimTime(0)
    }

    /// The instant `seconds` whole seconds after the start, or the
    /// largest instant if that lies beyond it.
    pub fn new(seconds: u64) -> (t: SimTime)
        ensures
            t@ == seconds_as_millis(seconds as nat),
            t == Self::at(seconds_as_millis(seconds as nat) as u64),
    {
        SimTime(to_millis(seconds))
    }

    /// The instant `seconds` whole seconds after the start, or the
    /// largest instant if that lies beyond it.
    pub fn from_seconds(seconds: u64) -> (t: SimTime)
        ensures
            t@ == seconds_as_millis(seconds as nat),
            t == Self::at(seconds_as_millis(seconds as nat) as u64),
    {
        SimTime(to_millis(seconds))
    }

    /// The instant `millis` milliseconds after the start.
    pub fn from_millis(millis: u64) -> (t: SimTime)
        ensures
            t@ == millis,
            t == Self::at(millis),
    {
        SimTime(millis)
    }

    /// Whole seconds elapsed since the start; a started second does not
    /// count.
    pub fn as_seconds(&self) -> (seconds: u64)
        ensures
            seconds == self@ / 1000,
    {
        self.0 / MILLIS_PER_SECOND
    }

    /// Milliseconds elapsed since the start.
    pub fn as_millis(&self) -> (millis: u64)
        ensures
            millis == self@,
    {
        self.0
    }

    /// The instant `other` later, stopping at the largest instant.
    pub fn saturating_add(self, other: SimTime) -> (t: SimTime)
        ensures
            t@ == clamped_sum(self@, other@),
            t == Self::at(clamped_sum(self@, other@) as u64),
    {
        if self.0 > u64::MAX - other.0 {
            SimTime(u64::MAX)
        } else {
            SimTime(self.0 + other.0)
        }
    }

    /// The time from `other` up to `self`, or zero when `other` is later.
    pub fn saturating_sub(self, other: SimTime) -> (t: SimTime)
        ensures
            t@ == clamped_diff(self@, other@),
            t == Self::at(clamped_diff(self@, other@) as u64),
    {
        if self.0 >= other.0 {
            SimTime(self.0 - other.0)
        } else {
            SimTime(0)
        }
    }

    /// Two instants with the same millisecond count are the same instant.
    pub proof fn lemma_view_injective(a: SimTime, b: SimTime)
        ensures
            a@ == b@ <==> a == b,
    {
    }

    /// Every instant fits in sixty-four bits.
    pub proof fn lemma_view_bounded(a: SimTime)
        ensures
            a@ <= u64::MAX,
    {
    }
}

impl Duration {
    /// A span of `secs` whole seconds, or the longest span if that is
    /// shorter.
    pub fn from_seconds(secs: u64) -> (d: Duration)
        ensures
            d@ == seconds_as_millis(secs as nat),
    {
        Duration(to_millis(secs))
    }

    /// A span of `millis` milliseconds.
    pub fn from_millis(millis: u64) -> (d: Duration)
        ensures
            d@ == millis,
    {
        Duration(millis)
    }

    /// Length of the span in whole seconds; a started second does not
    /// count.
    pub fn as_seconds(&self) -> (secs: u64)
        ensures
            secs == self@ / 1000,
    {
        self.0 / MILLIS_PER_SECOND
    }

    /// Length of the span in milliseconds.
    pub fn as_millis(&self) -> (millis: u64)
        ensures
            millis == self@,
    {
        self.0
    }

    /// Every span fits in sixty-four bits.
    pub proof fn lemma_view_bounded(d: Duration)
        ensures
            d@ <= u64::MAX,
    {
    }
}

} // verus!
