//! Basic value types shared by every layer of the storage engine.

use vstd::prelude::*;

verus! {

/// A closed timestamp interval `[min_ts, max_ts]`.
///
/// Callers may construct inverted ranges (`min_ts > max_ts`); such a range
/// overlaps nothing that lies strictly between its bounds, exactly as the
/// arithmetic below says.
#[derive(PartialEq, Eq, Structural, Clone, Copy, Debug, Hash)]
pub struct TimeRange {
    pub min_ts: i64,
    pub max_ts: i64,
}

impl TimeRange {
    /// Whether two closed intervals share at least one timestamp.
    pub open spec fn spec_overlaps(self, other: TimeRange) -> bool {
        self.min_ts <= other.max_ts && self.max_ts >= other.min_ts
    }

    /// Whether a timestamp lies inside the closed interval.
    pub open spec fn spec_contains_ts(self, ts: i64) -> bool {
        self.min_ts <= ts <= self.max_ts
    }

    pub fn new(min_ts: i64, max_ts: i64) -> (r: TimeRange)
        ensures
            r.min_ts == min_ts,
            r.max_ts == max_ts,
    {
        TimeRange { min_ts, max_ts }
    }

    pub fn overlaps(&self, other: &TimeRange) -> (r: bool)
        ensures
            r == self.spec_overlaps(*other),
    {
        self.min_ts <= other.max_ts && self.max_ts >= other.min_ts
    }

    pub fn contains_ts(&self, ts: i64) -> (r: bool)
        ensures
            r == self.spec_contains_ts(ts),
    {
        self.min_ts <= ts && ts <= self.max_ts
    }
}

} // verus!
