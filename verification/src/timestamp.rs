//! Wall-clock timestamps with one-second resolution.
//!
//! All scheduling and storage logic takes the current time as an explicit
//! argument, so it can be driven by a simulated clock; `Timestamp::now` is the
//! one place the real clock is read.
use vstd::prelude::*;

verus! {

/// A wall-clock instant, as whole seconds since the Unix epoch.
#[derive(Debug, Clone, Copy, PartialEq, Eq, Structural)]
pub struct Timestamp {
    pub secs: u64,
}

impl Timestamp {
    /// Reads the real clock.
    ///
    /// Relies on `std::time::SystemTime::now` and
    /// `SystemTime::duration_since(UNIX_EPOCH)`: the current wall-clock time,
    /// which is assumed not to precede the Unix epoch. Nothing can be promised
    /// about the value returned.
    #[verifier::external_body]
    pub fn now() -> Timestamp {
        Timestamp {
            secs: std::time::SystemTime::now()
                .duration_since(std::time::UNIX_EPOCH)
                .unwrap()
                .as_secs(),
        }
    }

    pub fn from_secs(secs: u64) -> (r: Timestamp)
        ensures
            r.secs == secs,
    {
        Timestamp { secs }
    }

    /// Seconds elapsed from `earlier` to `self`.
    pub fn since(self, earlier: Timestamp) -> (r: u64)
        requires
            earlier.secs <= self.secs,
        ensures
            r == self.secs - earlier.secs,
    {
        self.secs - earlier.secs
    }
}

/// `a + b`, capped at `u64::MAX` instead of overflowing.
pub fn saturating_add_secs(a: u64, b: u64) -> (r: u64)
    ensures
        r == sat_add(a, b),
{
    if a > u64::MAX - b {
        u64::MAX
    } else {
        a + b
    }
}

/// Saturating addition on the second counter.
pub open spec fn sat_add(a: u64, b: u64) -> u64 {
    if a + b <= u64::MAX {
        (a + b) as u64
    } else {
        u64::MAX
    }
}

} // verus!
