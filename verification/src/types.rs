//! Value types: time resolution, interval-edge policy, durations, column
//! dtypes and the error taxonomy.

use vstd::prelude::*;

verus! {

/// Resolution of an integer timestamp: the length of one step since the epoch.
#[derive(Clone, Copy, Debug, PartialEq, Eq, Structural)]
pub enum TimeUnit {
    Milliseconds,
    Nanoseconds,
}

/// Which endpoints of a grid interval are included.
#[derive(Clone, Copy, Debug, PartialEq, Eq, Structural)]
pub enum ClosedWindow {
    Left,
    Right,
    Both,
    Neither,
}

/// Column dtype: the index column must be `Date` or `Datetime`; every other
/// dtype is the explicitly rejected `Other` variant.
#[derive(Clone, Copy, Debug, PartialEq, Eq, Structural)]
pub enum DataType {
    Date,
    Datetime(TimeUnit),
    Other,
}

/// Why an upsampling call failed.
#[derive(Clone, Copy, Debug, PartialEq, Eq, Structural)]
pub enum UpsampleError {
    /// The index column is not of a temporal dtype.
    UnsupportedDtype(DataType),
    /// Every index value in a partition is null, so no grid domain exists.
    EmptyDomain,
    /// The step duration makes no forward progress at the requested
    /// resolution, so grid generation would never terminate.
    InvalidDuration,
    /// A calendar-derived timestamp falls outside the representable window.
    OutOfRepresentableRange,
}

/// An additive time offset: a calendar part (`months`, resolved against real
/// calendar rules) and a physical part (`nsecs`, a fixed nanosecond count),
/// both nonnegative, with one sign applied to the whole value.
#[derive(Clone, Copy, Debug, PartialEq, Eq, Structural)]
pub struct Duration {
    pub months: i64,
    pub nsecs: i64,
    pub negative: bool,
}

impl Duration {
    /// Both magnitudes are stored nonnegative; the sign lives in `negative`.
    pub open spec fn wf(self) -> bool {
        self.months >= 0 && self.nsecs >= 0
    }

    /// A duration of no extent at all.
    pub open spec fn is_zero(self) -> bool {
        self.months == 0 && self.nsecs == 0
    }

    pub fn new(months: i64, nsecs: i64, negative: bool) -> (d: Duration)
        requires
            months >= 0,
            nsecs >= 0,
        ensures
            d == (Duration { months, nsecs, negative }),
    {
        Duration { months, nsecs, negative }
    }
}

} // verus!
