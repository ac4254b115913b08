//! Protocol-time readings and the spans between them, in milliseconds.
use vstd::prelude::*;

verus! {

/// A span of protocol time.
#[derive(Clone, Copy, Debug, PartialEq, Eq, PartialOrd, Ord, Hash, Structural)]
pub struct Duration {
    /// The span in milliseconds.
    pub millis: u64,
}

impl Duration {
    /// A span of `millis` milliseconds.
    pub fn from_millis(millis: u64) -> (d: Self)
        ensures
            d.millis == millis,
    {
        Duration { millis }
    }
}

/// A reading of the local clock.
#[derive(Clone, Copy, Debug, PartialEq, Eq, PartialOrd, Ord, Hash, Structural)]
pub struct LocalTimestamp {
    /// Milliseconds since the clock's origin.
    pub millis: u64,
}

impl LocalTimestamp {
    /// The reading at `millis` milliseconds.
    pub fn from_millis(millis: u64) -> (t: Self)
        ensures
            t.millis == millis,
    {
        LocalTimestamp { millis }
    }

    /// The time since `earlier`, none when it lies ahead.
    pub open spec fn since(self, earlier: LocalTimestamp) -> Duration {
        if self.millis >= earlier.millis {
            Duration { millis: (self.millis - earlier.millis) as u64 }
        } else {
            Duration { millis: 0 }
        }
    }

    /// The time since `earlier`, none when it lies ahead.
    pub fn saturating_sub(self, earlier: LocalTimestamp) -> (d: Duration)
        ensures
            d == self.since(earlier),
    {
        Duration { millis: self.millis.saturating_sub(earlier.millis) }
    }
}

/// A reading of the clock that consensus attests.
#[derive(Clone, Copy, Debug, PartialEq, Eq, PartialOrd, Ord, Hash, Structural)]
pub struct WeightedTimestamp {
    /// Milliseconds since the epoch.
    pub millis: u64,
}

impl WeightedTimestamp {
    /// The epoch.
    pub fn zero() -> (t: Self)
        ensures
            t.millis == 0,
    {
        WeightedTimestamp { millis: 0 }
    }

    /// The reading at `millis` milliseconds.
    pub fn from_millis(millis: u64) -> (t: Self)
        ensures
            t.millis == millis,
    {
        WeightedTimestamp { millis }
    }

    /// Milliseconds since the epoch.
    pub fn as_millis(self) -> (millis: u64)
        ensures
            millis == self.millis,
    {
        self.millis
    }

    /// The reading a span later, at most the last one.
    pub open spec fn later(self, span: Duration) -> WeightedTimestamp {
        if self.millis + span.millis <= u64::MAX {
            WeightedTimestamp { millis: (self.millis + span.millis) as u64 }
        } else {
            WeightedTimestamp { millis: u64::MAX }
        }
    }

    /// The reading a span later, at most the last one.
    pub fn plus(self, span: Duration) -> (t: Self)
        ensures
            t == self.later(span),
    {
        WeightedTimestamp { millis: self.millis.saturating_add(span.millis) }
    }
}

/// A span later is the sum where there is such a reading, and the last reading
/// where there is not; the time since an earlier reading is what leads back to
/// it, and nothing since one that lies ahead.
pub proof fn law_readings_and_spans_add_up(
    t: WeightedTimestamp,
    span: Duration,
    a: LocalTimestamp,
    b: LocalTimestamp,
)
    ensures
        t.millis + span.millis <= u64::MAX ==> t.later(span).millis == t.millis + span.millis,
        t.millis + span.millis > u64::MAX ==> t.later(span).millis == u64::MAX,
        b.millis <= a.millis ==> b.millis + a.since(b).millis == a.millis,
        b.millis > a.millis ==> a.since(b).millis == 0,
{
}

} // verus!
