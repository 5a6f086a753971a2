//! The wall clock, read through `std::time`.

use vstd::prelude::*;

verus! {

#[verifier::external_type_specification]
#[verifier::external_body]
pub struct ExSystemTime(std::time::SystemTime);

/// Calls `std::time::SystemTime::now`. Nothing is claimed of the instant it
/// returns: it depends on the machine's clock.
#[verifier::external_body]
fn system_time_now() -> std::time::SystemTime {
    std::time::SystemTime::now()
}

/// Calls `std::time::SystemTime::duration_since` with `UNIX_EPOCH`: the
/// time elapsed since the epoch, or `None` for an instant before it.
/// Nothing is claimed of the result: it depends on the instant, which
/// nothing here describes.
#[verifier::external_body]
fn duration_since_unix_epoch(t: &std::time::SystemTime) -> Option<std::time::Duration> {
    match t.duration_since(std::time::UNIX_EPOCH) {
        Ok(d) => Some(d),
        Err(_) => None,
    }
}

/// Calls `std::time::Duration::as_secs`: the whole seconds of a duration.
/// Nothing is claimed of the result, as nothing here describes a duration.
#[verifier::external_body]
fn whole_secs(d: &std::time::Duration) -> u64 {
    d.as_secs()
}

/// The current Unix time in whole seconds, or 0 where the clock reads an
/// instant before the epoch. Two calls may give any two values.
pub(crate) fn now_secs() -> u64 {
    let t = system_time_now();
    match duration_since_unix_epoch(&t) {
        Some(d) => whole_secs(&d),
        None => 0,
    }
}

} // verus!
