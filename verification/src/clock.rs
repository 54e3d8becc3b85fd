//! The wall clock, in milliseconds since the UNIX epoch.

use vstd::prelude::*;
use crate::error::Error;
use std::time::{Duration, SystemTime, SystemTimeError};

verus! {

/// `std::time::SystemTime`, a point in time of the system clock; nothing is
/// known of a value.
#[verifier::external_type_specification]
#[verifier::external_body]
pub struct ExSystemTime(SystemTime);

/// `std::time::SystemTimeError`, the error of `SystemTime::duration_since`;
/// nothing is known of a value.
#[verifier::external_type_specification]
#[verifier::external_body]
pub struct ExSystemTimeError(SystemTimeError);

/// `SystemTime::now` reads the system clock; nothing is claimed of the value.
pub assume_specification[ SystemTime::now ]() -> (now: SystemTime);

/// `SystemTime::duration_since` gives the time elapsed since `earlier`, or an
/// error when `earlier` is later than `self`; nothing is claimed of the value.
pub assume_specification[ SystemTime::duration_since ](
    this: &SystemTime,
    earlier: SystemTime,
) -> (elapsed: Result<Duration, SystemTimeError>);

/// `Duration::as_millis` gives the whole milliseconds of a duration; nothing is
/// claimed of the value.
pub assume_specification[ Duration::as_millis ](this: &Duration) -> (millis: u128);

/// The constant `std::time::UNIX_EPOCH`, the start of 1970 in UTC; nothing is
/// claimed of the value.
#[verifier::external_body]
fn unix_epoch() -> (epoch: SystemTime) {
    std::time::UNIX_EPOCH
}

/// Narrows a count of milliseconds to 64 bits.
pub fn millis_to_u64(millis: u128) -> (r: Result<u64, Error>)
    ensures
        millis <= u64::MAX ==> r == Ok::<u64, Error>(millis as u64),
        millis > u64::MAX ==> r is Err && r->Err_0 is TimestampOverflow,
{
    if millis > u64::MAX as u128 {
        Err(Error::TimestampOverflow)
    } else {
        Ok(millis as u64)
    }
}

/// Gets the current time as milliseconds since the UNIX epoch.
///
/// The value depends on the clock alone. The call fails with `TimestampError`
/// when the clock is set before the epoch, and with `TimestampOverflow` when
/// the milliseconds do not fit in 64 bits.
pub fn timestamp_as_u64() -> (r: Result<u64, Error>)
    ensures
        r is Err ==> (r->Err_0 is TimestampError || r->Err_0 is TimestampOverflow),
{
    let now = SystemTime::now();
    match now.duration_since(unix_epoch()) {
        Ok(elapsed) => millis_to_u64(elapsed.as_millis()),
        Err(_) => Err(Error::TimestampError),
    }
}

} // verus!
