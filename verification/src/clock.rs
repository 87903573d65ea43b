//! The wall clock. What it reads depends on when it is asked, so nothing is
//! promised of the reading; the functions that consult it say what holds for
//! every reading.
use vstd::prelude::*;

use crate::chain::time::Timestamp;

verus! {

/// The current time.
///
/// Calls `chrono::Utc::now()` and keeps its second count and subsecond
/// nanoseconds. The reading is the machine's clock, so the only thing stated
/// is that the nanoseconds are below one second, which holds for every value
/// `Utc::now` builds from the system clock.
#[verifier::external_body]
pub(crate) fn now() -> (t: Timestamp)
    ensures
        t.nanos < 1_000_000_000,
{
    let now = chrono::Utc::now();
    Timestamp { secs: now.timestamp(), nanos: now.timestamp_subsec_nanos() }
}

} // verus!
