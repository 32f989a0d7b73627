//! Time as the registry sees it: instants and durations counted in whole
//! nanoseconds.
//!
//! The registry never reads a clock. Callers hand it instants measured from an
//! origin of their own choosing, and it hands deadlines back on the same scale.
use vstd::prelude::*;

verus! {

/// Nanoseconds in one millisecond.
pub const NANOS_PER_MILLI: u64 = 1_000_000;

/// Nanoseconds in one second.
pub const NANOS_PER_SEC: u64 = 1_000_000_000;

/// A point in time: nanoseconds since a caller-defined origin.
#[derive(Clone, Copy, Debug, PartialEq, Eq, Hash, Structural)]
pub struct Instant {
    pub nanos: u64,
}

/// A span of time in nanoseconds.
#[derive(Clone, Copy, Debug, PartialEq, Eq, Hash, Structural)]
pub struct Duration {
    pub nanos: u64,
}

impl View for Instant {
    type V = int;

    open spec fn view(&self) -> int {
        self.nanos as int
    }
}

impl View for Duration {
    type V = int;

    open spec fn view(&self) -> int {
        self.nanos as int
    }
}

impl Instant {
    /// The instant `nanos` nanoseconds after the origin.
    pub fn from_nanos(nanos: u64) -> (instant: Instant)
        ensures
            instant@ == nanos,
    {
        Instant { nanos }
    }

    /// Nanoseconds between the origin and this instant.
    pub fn as_nanos(&self) -> (nanos: u64)
        ensures
            nanos == self@,
    {
        self.nanos
    }

    /// The instant `span` later than this one.
    pub fn plus(self, span: Duration) -> (later: Instant)
        requires
            self@ + span@ <= u64::MAX,
        ensures
            later@ == self@ + span@,
    {
        Instant { nanos: self.nanos + span.nanos }
    }

    /// The instant `span` later than this one, or `None` where that instant
    /// lies beyond what an `Instant` can hold.
    pub fn checked_add(self, span: Duration) -> (later: Option<Instant>)
        ensures
            deadline_view(later) == if self@ + span@ <= u64::MAX {
                Some(self@ + span@)
            } else {
                None
            },
    {
        match self.nanos.checked_add(span.nanos) {
            Some(nanos) => Some(Instant { nanos }),
            None => None,
        }
    }

    /// Time elapsed from `earlier` to this instant; zero where `earlier` is
    /// in fact the later of the two.
    pub fn saturating_duration_since(self, earlier: Instant) -> (elapsed: Duration)
        ensures
            elapsed@ == if self@ >= earlier@ { self@ - earlier@ } else { 0 },
    {
        if self.nanos >= earlier.nanos {
            Duration { nanos: self.nanos - earlier.nanos }
        } else {
            Duration { nanos: 0 }
        }
    }
}

impl Duration {
    /// A span of `nanos` nanoseconds.
    pub fn from_nanos(nanos: u64) -> (span: Duration)
        ensures
            span@ == nanos,
    {
        Duration { nanos }
    }

    /// A span of `millis` milliseconds.
    pub fn from_millis(millis: u64) -> (span: Duration)
        requires
            millis * NANOS_PER_MILLI <= u64::MAX,
        ensures
            span@ == millis * NANOS_PER_MILLI,
    {
        Duration { nanos: millis * NANOS_PER_MILLI }
    }

    /// A span of `secs` seconds.
    pub fn from_secs(secs: u64) -> (span: Duration)
        requires
            secs * NANOS_PER_SEC <= u64::MAX,
        ensures
            span@ == secs * NANOS_PER_SEC,
    {
        Duration { nanos: secs * NANOS_PER_SEC }
    }

    /// The length of this span in nanoseconds.
    pub fn as_nanos(&self) -> (nanos: u64)
        ensures
            nanos == self@,
    {
        self.nanos
    }
}

/// What an optional deadline stands for: its nanosecond count, if there is one.
pub open spec fn deadline_view(deadline: Option<Instant>) -> Option<int> {
    match deadline {
        Some(instant) => Some(instant@),
        None => None,
    }
}

/// The earlier of two optional deadlines, where an absent deadline is later
/// than every present one.
pub open spec fn earlier_deadline(a: Option<int>, b: Option<int>) -> Option<int> {
    match (a, b) {
        (None, None) => None,
        (Some(_), None) => a,
        (None, Some(_)) => b,
        (Some(x), Some(y)) => if x <= y { a } else { b },
    }
}

/// Find the lesser of two optional instants.
///
/// Unlike the derived order on `Option`, `None` is strictly greater than any
/// `Some` here: a real deadline is always the stricter bound.
pub fn min_instant(a: Option<Instant>, b: Option<Instant>) -> (least: Option<Instant>)
    ensures
        deadline_view(least) == earlier_deadline(deadline_view(a), deadline_view(b)),
        least == a || least == b,
{
    match (a, b) {
        (None, None) => None,
        (Some(_), None) => a,
        (None, Some(_)) => b,
        (Some(x), Some(y)) => if x.nanos <= y.nanos { a } else { b },
    }
}

} // verus!
