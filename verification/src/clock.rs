//! The wall clock, behind a trusted boundary.

use vstd::prelude::*;

verus! {

/// Relies on chrono::Utc::now: the current wall-clock time in milliseconds
/// since the Unix epoch. Nothing is promised about the value — callers
/// must hold for every outcome. An unavailable system clock is fatal, as
/// the surrounding design accepts.
#[verifier::external_body]
pub(crate) fn now_millis() -> u64 {
    chrono::Utc::now().timestamp_millis() as u64
}

/// Relies on chrono::Utc::now: the current wall-clock time in whole
/// seconds since the Unix epoch. Nothing is promised about the value.
#[verifier::external_body]
pub(crate) fn now_seconds() -> i64 {
    chrono::Utc::now().timestamp()
}

} // verus!
