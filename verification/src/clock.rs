//! The wall clock, read once per stored row for its first-import timestamp.
use vstd::prelude::*;

use std::time::{Duration, SystemTime, UNIX_EPOCH};

verus! {

#[verifier::external_type_specification]
#[verifier::external_body]
pub struct ExSystemTime(std::time::SystemTime);

/// `SystemTime::now`: the current time. Nothing is stated of it.
#[verifier::external_body]
fn system_now() -> SystemTime {
    SystemTime::now()
}

/// `SystemTime::duration_since` with `UNIX_EPOCH`: the time elapsed since
/// the epoch, or none for a time before it. Nothing is stated of it.
#[verifier::external_body]
fn since_epoch(t: &SystemTime) -> Option<Duration> {
    t.duration_since(UNIX_EPOCH).ok()
}

/// `Duration::as_secs`: the whole seconds of a duration. Nothing is stated
/// of it.
#[verifier::external_body]
fn whole_seconds(d: &Duration) -> u64 {
    d.as_secs()
}

/// Seconds since the Unix epoch; 0 when the clock is set before the epoch.
pub(crate) fn unix_time_now() -> i64 {
    match since_epoch(&system_now()) {
        Some(d) => {
            let secs = whole_seconds(&d);
            #[verifier::truncate]
            (secs as i64)
        },
        None => 0,
    }
}

} // verus!
