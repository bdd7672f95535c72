//! The wall clock, behind a single trusted call.

use crate::models::Timestamp;
use vstd::prelude::*;

verus! {

/// Relies on `chrono::Utc::now` and `chrono::DateTime::timestamp_micros`:
/// the current wall-clock time in microseconds since the Unix epoch.
/// Nothing is promised of the value — the time is not a function of the
/// program's state — so every caller states what holds of any timestamp.
#[verifier::external_body]
pub(crate) fn now_micros() -> Timestamp {
    chrono::Utc::now().timestamp_micros() as u128
}

} // verus!
