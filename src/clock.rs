//! The clock that expiry reads.

use std::time::Duration;
use vstd::prelude::*;

verus! {

/// The current instant, in milliseconds since the Unix epoch (`0` before it).
///
/// Relies on `SystemTime::now`; nothing is known of the instant it reads.
#[verifier::external_body]
pub(crate) fn now_millis() -> (r: u64) {
    match std::time::SystemTime::now().duration_since(std::time::UNIX_EPOCH) {
        Ok(d) => u64::try_from(d.as_millis()).unwrap_or(u64::MAX),
        Err(_) => 0,
    }
}

/// A duration in whole milliseconds, at most `u64::MAX`.
///
/// Relies on `Duration::as_millis`.
#[verifier::external_body]
pub(crate) fn duration_millis(d: Duration) -> (r: u64) {
    u64::try_from(d.as_millis()).unwrap_or(u64::MAX)
}

/// The instant `d` after `now`, saturating at `u64::MAX`.
pub fn expiry_after(now: u64, d: u64) -> (r: u64)
    ensures
        r == if now + d > u64::MAX {
            u64::MAX as int
        } else {
            now + d
        },
{
    now.saturating_add(d)
}

} // verus!
