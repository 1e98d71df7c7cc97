//! Reading the system clock as nanoseconds since the Unix epoch.
use vstd::prelude::*;

verus! {

#[verifier::external_type_specification]
#[verifier::external_body]
pub struct ExSystemTime(std::time::SystemTime);

#[verifier::external_type_specification]
#[verifier::external_body]
pub struct ExSystemTimeError(std::time::SystemTimeError);

/// Calls `std::time::SystemTime::now`. Nothing is claimed of the result: it is
/// the current time of the machine.
#[verifier::external_body]
fn system_time_now() -> std::time::SystemTime {
    std::time::SystemTime::now()
}

/// Calls `SystemTime::duration_since` with `UNIX_EPOCH`. Nothing is claimed of
/// the result; it fails when `t` lies before the epoch.
#[verifier::external_body]
fn duration_since_epoch(t: &std::time::SystemTime) -> Result<
    std::time::Duration,
    std::time::SystemTimeError,
> {
    t.duration_since(std::time::UNIX_EPOCH)
}

/// Calls `Duration::as_nanos`. Nothing is claimed of the result, which Verus
/// cannot relate to the opaque duration.
#[verifier::external_body]
fn duration_as_nanos(d: &std::time::Duration) -> u128 {
    d.as_nanos()
}

/// The nanoseconds since the Unix epoch by the system clock, or `None` where the
/// clock reads a time before the epoch. Any value can come back.
pub fn now_nanos() -> Option<u128> {
    let t = system_time_now();
    match duration_since_epoch(&t) {
        Ok(d) => Some(duration_as_nanos(&d)),
        Err(_) => None,
    }
}

} // verus!
