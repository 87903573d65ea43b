//! Instants on the chain's clock: a whole-second count and the nanoseconds
//! within it, the two numbers every timestamp rule reads.
use vstd::prelude::*;

verus! {

/// An instant, as seconds since the Unix epoch and the nanoseconds within
/// that second.
#[derive(Debug, Clone, Copy, PartialEq, Eq, Structural)]
pub struct Timestamp {
    /// Whole seconds since 1970-01-01T00:00:00Z (negative before it).
    pub secs: i64,
    /// Nanoseconds within the second.
    pub nanos: u32,
}

impl Timestamp {
    /// The Unix epoch as a value.
    pub open spec fn epoch() -> Timestamp {
        Timestamp { secs: 0, nanos: 0 }
    }

    /// The Unix epoch, 1970-01-01T00:00:00Z.
    pub fn unix_epoch() -> (t: Timestamp)
        ensures
            t.secs == 0 && t.nanos == 0,
    {
        Timestamp { secs: 0, nanos: 0 }
    }

    /// The instant `secs` whole seconds after the epoch.
    pub fn from_unix_seconds(secs: i64) -> (t: Timestamp)
        ensures
            t.secs == secs && t.nanos == 0,
    {
        Timestamp { secs, nanos: 0 }
    }
}

} // verus!
