//! The engine's one window on wall-clock time: the instant that the write
//! path stamps into `created_at`.

use vstd::prelude::*;

use crate::meta::Timestamp;

verus! {

/// Relies on chrono's `Utc::now` (with `DateTime::timestamp` and
/// `DateTime::timestamp_subsec_nanos`) for the current UTC instant as Unix
/// seconds plus sub-second nanoseconds. Nothing is promised of the value:
/// callers state what holds whatever instant comes back.
#[verifier::external_body]
pub(crate) fn now_timestamp() -> (r: Timestamp) {
    let now = chrono::Utc::now();
    Timestamp { secs: now.timestamp(), nanos: now.timestamp_subsec_nanos() }
}

} // verus!
