//! The logical clock: wall-clock milliseconds used as modification
//! timestamps.  The engine itself only compares timestamps; reading the
//! clock is the one place it asks the machine for a value.

use vstd::prelude::*;

verus! {

/// Relies on chrono's `Utc::now` and `DateTime::timestamp_millis`: the
/// machine's current wall-clock time as milliseconds since the Unix epoch.
/// The value depends on the clock alone; nothing is promised of it.
#[verifier::external_body]
fn now_millis() -> i64 {
    chrono::Utc::now().timestamp_millis()
}

/// The current time as an unsigned millisecond timestamp.  A clock reading
/// before the epoch is clamped to zero, so timestamps only count forward.
pub fn current_timestamp() -> (r: u64) {
    let t = now_millis();
    if t < 0 {
        0
    } else {
        t as u64
    }
}

} // verus!
