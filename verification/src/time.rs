//! The wall clock, consulted only when a genesis timestamp is left out.

use vstd::prelude::*;

verus! {

#[verifier::external_type_specification]
#[verifier::external_body]
pub struct ExSystemTime(std::time::SystemTime);

/// Relies on `std::time::SystemTime::now`: the machine clock's reading, of
/// which nothing is promised.
#[verifier::external_body]
fn system_time_now() -> std::time::SystemTime {
    std::time::SystemTime::now()
}

/// Relies on `SystemTime::duration_since`: the span from the Unix epoch to
/// `t`, or nothing when the clock reads earlier than the epoch.
#[verifier::external_body]
fn duration_since_epoch(t: &std::time::SystemTime) -> Option<core::time::Duration> {
    t.duration_since(std::time::UNIX_EPOCH).ok()
}

/// Relies on `Duration::as_secs`: the whole seconds of `d`.
#[verifier::external_body]
fn duration_as_secs(d: &core::time::Duration) -> u64 {
    d.as_secs()
}

/// The wall clock in whole seconds since the Unix epoch; zero when the clock
/// reads earlier than the epoch. The value moves with the machine clock, so
/// nothing is promised of it.
pub(crate) fn current_timestamp_seconds() -> u64 {
    let now = system_time_now();
    match duration_since_epoch(&now) {
        Some(d) => duration_as_secs(&d),
        None => 0,
    }
}

} // verus!
