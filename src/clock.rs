use vstd::prelude::*;

verus! {

#[verifier::external_type_specification]
#[verifier::external_body]
pub struct ExSystemTime(std::time::SystemTime);

#[verifier::external_type_specification]
#[verifier::external_body]
pub struct ExSystemTimeError(std::time::SystemTimeError);

/// Relies on std::time::SystemTime::now: reads the system clock, which may return any time.
pub assume_specification[ std::time::SystemTime::now ]() -> std::time::SystemTime;

/// Relies on std::time::SystemTime::duration_since: an error when `earlier` is later than
/// `self`, never a panic.
pub assume_specification[ std::time::SystemTime::duration_since ](
    t: &std::time::SystemTime,
    earlier: std::time::SystemTime,
) -> core::result::Result<core::time::Duration, std::time::SystemTimeError>;

/// Relies on core::time::Duration::as_millis: the whole milliseconds of a duration.
pub assume_specification[ core::time::Duration::as_millis ](d: &core::time::Duration) -> u128;

/// Relies on std::time::UNIX_EPOCH: the time 1970-01-01 00:00:00 UTC.
#[verifier::external_body]
fn unix_epoch() -> std::time::SystemTime {
    std::time::UNIX_EPOCH
}

/// Milliseconds elapsed since the Unix epoch by the system clock; 0 when the clock reads
/// earlier than the epoch.
pub fn now_ms() -> u128 {
    match std::time::SystemTime::now().duration_since(unix_epoch()) {
        Ok(d) => d.as_millis(),
        Err(_) => 0,
    }
}

} // verus!
