//! Kernel time values and the wire-format timeout a futex wait accepts.

use vstd::prelude::*;

use crate::errno::LinuxError;

verus! {

/// Nanoseconds per second; `TimeValue::nanos` stays below this.
pub const NANOS_PER_SEC: u32 = 1_000_000_000;

/// A non-negative kernel duration, seconds plus sub-second nanoseconds.
#[derive(Clone, Copy, Debug, PartialEq, Eq, Structural)]
pub struct TimeValue {
    /// Whole seconds.
    pub secs: u64,
    /// Sub-second nanoseconds, always below `NANOS_PER_SEC`.
    pub nanos: u32,
}

impl TimeValue {
    /// A normalized time value has its nanosecond part below one second.
    pub open spec fn wf(self) -> bool {
        self.nanos < NANOS_PER_SEC
    }
}

/// The wire-format `timespec` a futex timeout arrives as: signed fields,
/// read from unmodified user memory, validated before use.
#[derive(Clone, Copy, Debug, PartialEq, Eq, Structural)]
pub struct TimeSpec {
    /// Seconds field; negative values are rejected.
    pub tv_sec: i64,
    /// Nanoseconds field; values outside `0..NANOS_PER_SEC` are rejected.
    pub tv_nsec: i64,
}

impl TimeSpec {
    /// The fields describe a valid duration.
    pub open spec fn valid(self) -> bool {
        0 <= self.tv_sec && 0 <= self.tv_nsec < NANOS_PER_SEC
    }

    /// Validates the user-supplied fields and converts them into a kernel
    /// duration; negative or overflowing fields fail with `EINVAL`.
    pub fn try_into_time_value(self) -> (r: Result<TimeValue, LinuxError>)
        ensures
            self.valid() ==> r == Ok::<TimeValue, LinuxError>(TimeValue {
                secs: self.tv_sec as u64,
                nanos: self.tv_nsec as u32,
            }),
            !self.valid() ==> r == Err::<TimeValue, LinuxError>(LinuxError::EINVAL),
            r is Ok ==> r.unwrap().wf(),
    {
        if self.tv_nsec < 0 || self.tv_nsec > 999_999_999 || self.tv_sec < 0 {
            return Err(LinuxError::EINVAL);
        }
        Ok(TimeValue { secs: self.tv_sec as u64, nanos: self.tv_nsec as u32 })
    }

    /// Converts a kernel duration back into the wire format.
    pub fn from_time_value(tv: TimeValue) -> (r: TimeSpec)
        requires
            tv.wf(),
            tv.secs <= i64::MAX,
        ensures
            r.tv_sec == tv.secs,
            r.tv_nsec == tv.nanos,
            r.valid(),
    {
        TimeSpec { tv_sec: tv.secs as i64, tv_nsec: tv.nanos as i64 }
    }
}

} // verus!
