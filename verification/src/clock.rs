//! The wall clock that stamps accepted blocks.

use std::time::{Duration, SystemTime, SystemTimeError, UNIX_EPOCH};
use vstd::prelude::*;

verus! {

/// A point in time as the system clock gives it.
#[verifier::external_type_specification]
#[verifier::external_body]
pub struct ExSystemTime(SystemTime);

/// The error of a clock that reads earlier than the moment asked about.
#[verifier::external_type_specification]
#[verifier::external_body]
pub struct ExSystemTimeError(SystemTimeError);

/// Reads the system clock with `SystemTime::now`. Nothing is promised of
/// the reading: two readings may differ.
#[verifier::external_body]
fn read_clock() -> (moment: SystemTime) {
    SystemTime::now()
}

/// The time from the Unix epoch to `moment`, as `SystemTime::duration_since`
/// gives it for `UNIX_EPOCH`: an error where the moment lies before the
/// epoch. Nothing else is promised of the result.
#[verifier::external_body]
fn since_epoch(moment: &SystemTime) -> (elapsed: Result<Duration, SystemTimeError>) {
    moment.duration_since(UNIX_EPOCH)
}

/// The whole milliseconds of a duration, as `Duration::as_millis` gives
/// them. Nothing is promised of the number.
#[verifier::external_body]
fn whole_millis(elapsed: &Duration) -> (millis: u128) {
    elapsed.as_millis()
}

/// The current time in milliseconds since the Unix epoch. A clock set
/// before the epoch reads as 0.
pub fn now() -> (millis: u128) {
    let moment = read_clock();
    match since_epoch(&moment) {
        Ok(elapsed) => whole_millis(&elapsed),
        Err(_) => 0,
    }
}

} // verus!
