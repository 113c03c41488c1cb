//! Wall-clock readings, through the time crate.
//!
//! The engine works on plain millisecond timestamps; everything computed
//! from them (clamping, elapsed times, speeds) is verified for every
//! possible reading.

use vstd::prelude::*;

verus! {

/// Relies on time's `OffsetDateTime::now_utc`: a wall-clock reading taken as
/// milliseconds since the Unix epoch. Nothing is promised of the value; a
/// reading from before the epoch comes back as zero.
#[verifier::external_body]
pub(crate) fn now_unix_millis() -> u64 {
    let nanos = time::OffsetDateTime::now_utc().unix_timestamp_nanos();
    u64::try_from(nanos / 1_000_000).unwrap_or(0)
}

} // verus!
