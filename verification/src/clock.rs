//! The wall clock.

use std::time::{Duration, SystemTimeError};
use vstd::prelude::*;

verus! {

/// The standard library's answer where one time is not after another.
#[verifier::external_type_specification]
#[verifier::external_body]
pub struct ExSystemTimeError(SystemTimeError);

/// The whole seconds that a span contains, as `Duration::as_secs` gives them.
pub uninterp spec fn whole_secs(d: Duration) -> u64;

/// `Duration::as_secs` gives the number of whole seconds that the span
/// contains: one number for one span.
pub assume_specification[ Duration::as_secs ](d: &Duration) -> (secs: u64)
    ensures
        secs == whole_secs(*d),
;

/// `SystemTime::elapsed` on the Unix epoch: the time since then by the
/// system clock, or an error where the clock is set before it. The clock may
/// show anything, so nothing is claimed of the answer.
#[verifier::external_body]
fn since_epoch() -> Result<Duration, SystemTimeError> {
    std::time::UNIX_EPOCH.elapsed()
}

/// A clock that this daemon cannot work with.
#[derive(Clone, Copy, Debug, PartialEq, Eq, Structural)]
pub enum ClockError {
    /// The clock is set before 1970.
    BeforeEpoch,
    /// The clock is implausibly far in the future.
    FarFuture,
}

impl ClockError {
    /// What is wrong with the clock.
    pub fn message(self) -> (text: &'static str)
        ensures
            text@ == (match self {
                ClockError::BeforeEpoch => "system clock set before 1970"@,
                ClockError::FarFuture => "system clock implausibly far in the future"@,
            }),
    {
        match self {
            ClockError::BeforeEpoch => "system clock set before 1970",
            ClockError::FarFuture => "system clock implausibly far in the future",
        }
    }
}

/// The Unix time for a number of seconds since the epoch, where the clock
/// gave one.
pub fn timestamp_from(elapsed_secs: Option<u64>) -> (ts: Result<i64, ClockError>)
    ensures
        ts == (match elapsed_secs {
            None => Err(ClockError::BeforeEpoch),
            Some(secs) if secs > i64::MAX => Err(ClockError::FarFuture),
            Some(secs) => Ok(secs as i64),
        }),
{
    match elapsed_secs {
        None => Err(ClockError::BeforeEpoch),
        Some(secs) => {
            if secs > i64::MAX as u64 {
                Err(ClockError::FarFuture)
            } else {
                Ok(secs as i64)
            }
        },
    }
}

/// The Unix time for the clock's answer: the whole seconds of the span since
/// the epoch, where there is one and they are in range. An error of the clock
/// says that it is set before the epoch.
pub fn timestamp_of(elapsed: Result<Duration, SystemTimeError>) -> (ts: Result<i64, ClockError>)
    ensures
        elapsed is Err <==> ts == Err::<i64, ClockError>(ClockError::BeforeEpoch),
        elapsed is Ok ==> ts == (if whole_secs(elapsed->Ok_0) > i64::MAX {
            Err(ClockError::FarFuture)
        } else {
            Ok(whole_secs(elapsed->Ok_0) as i64)
        }),
{
    match elapsed {
        Ok(elapsed) => timestamp_from(Some(elapsed.as_secs())),
        Err(_) => timestamp_from(None),
    }
}

/// Returns the current Unix time in seconds, which is never negative, or
/// says what is wrong with the clock.
pub fn unix_ts_now() -> (ts: Result<i64, ClockError>)
    ensures
        ts is Ok ==> ts->Ok_0 >= 0,
{
    timestamp_of(since_epoch())
}

} // verus!
