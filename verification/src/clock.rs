//! The wall clock, in whole seconds since the Unix epoch.
use vstd::prelude::*;

use std::time::{Duration, SystemTime, SystemTimeError};

verus! {

#[verifier::external_type_specification]
#[verifier::external_body]
pub struct ExSystemTime(std::time::SystemTime);

#[verifier::external_type_specification]
#[verifier::external_body]
pub struct ExSystemTimeError(std::time::SystemTimeError);

/// `SystemTime::now`: the current reading of the system clock. Nothing is
/// promised of it; it depends on the machine and the moment.
#[verifier::external_body]
fn system_now() -> SystemTime {
    SystemTime::now()
}

/// `SystemTime::duration_since(UNIX_EPOCH)`: how long after the epoch `t`
/// is, or an error when `t` lies before it. Which comes out depends on the
/// clock reading, so nothing is stated.
#[verifier::external_body]
fn since_unix_epoch(t: &SystemTime) -> Result<Duration, SystemTimeError> {
    t.duration_since(std::time::UNIX_EPOCH)
}

/// The whole seconds in a duration, as `Duration::as_secs` gives them.
pub uninterp spec fn duration_whole_secs(d: Duration) -> u64;

/// `Duration::as_secs`: the whole seconds of `d`, rounded down. The number
/// depends on `d` alone; it is named here rather than written out, since a
/// `Duration` is opaque to the library.
#[verifier::external_body]
fn whole_seconds(d: &Duration) -> (r: u64)
    ensures
        r == duration_whole_secs(*d),
{
    d.as_secs()
}

/// Whole seconds since the epoch for a clock reading taken against the
/// epoch: the whole seconds after it, or 0 when the clock read before it.
pub open spec fn epoch_secs(reading: Result<Duration, SystemTimeError>) -> u64 {
    match reading {
        Ok(d) => duration_whole_secs(d),
        Err(_) => 0,
    }
}

/// The whole seconds since the epoch for the clock reading `reading`; 0 for a
/// reading before the epoch.
pub fn secs_since_epoch(reading: Result<Duration, SystemTimeError>) -> (s: u64)
    ensures
        s == epoch_secs(reading),
        reading is Err ==> s == 0,
{
    match reading {
        Ok(d) => whole_seconds(&d),
        Err(_) => 0,
    }
}

/// The current time in whole seconds since the Unix epoch; 0 when the clock
/// reads before the epoch. The clock reading itself changes from call to
/// call, so nothing holds of every result: the mapping from a reading to the
/// number is `secs_since_epoch`, which this function applies.
pub fn now_secs() -> u64 {
    secs_since_epoch(since_unix_epoch(&system_now()))
}

} // verus!
