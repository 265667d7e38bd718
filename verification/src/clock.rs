//! The wall clock. Time is nondeterministic, so nothing is promised of the
//! value; every function whose behaviour depends on time takes the
//! milliseconds as an argument instead.

use vstd::prelude::*;
use std::time::{SystemTime, UNIX_EPOCH};

verus! {

/// Relies on `std::time::SystemTime::now`: milliseconds since the epoch,
/// zero when the clock reads before it.
#[verifier::external_body]
pub fn now_ms() -> u64 {
    SystemTime::now().duration_since(UNIX_EPOCH).map(|dur| dur.as_millis() as u64).unwrap_or(0)
}

/// Whether a diagnostic line may be written now: at least `window_ms` must
/// have passed since the last one, so idle polling cannot flood the log.
pub fn throttle_allows(last: u64, now: u64, window_ms: u64) -> (r: bool)
    ensures
        r == ((now >= last && now - last >= window_ms) || (now < last && window_ms == 0)),
{
    let since = if now >= last {
        now - last
    } else {
        0
    };
    since >= window_ms
}

} // verus!
