//! The system's clock.

use std::time::{Duration, SystemTime, UNIX_EPOCH};
use vstd::prelude::*;

verus! {

/// `std::time::SystemTime`: a point in time of the system's clock.
#[verifier::external_type_specification]
#[verifier::external_body]
pub struct ExSystemTime(SystemTime);

/// Why the clock cannot be used.
#[derive(Debug, Clone, Copy, PartialEq, Eq, Structural)]
pub enum ClockError {
    BeforeEpoch,
    SessionTooLarge,
    TimestampTooLarge,
}

impl ClockError {
    /// What is said of a clock that cannot be used.
    pub open spec fn text(self) -> Seq<char> {
        match self {
            ClockError::BeforeEpoch => "system clock is before unix epoch"@,
            ClockError::SessionTooLarge =>
                "current unix timestamp does not fit in u32 session_id"@,
            ClockError::TimestampTooLarge => "current unix timestamp does not fit in u64"@,
        }
    }

    pub fn message(&self) -> (message: String)
        ensures
            message@ == self.text(),
    {
        match self {
            ClockError::BeforeEpoch => "system clock is before unix epoch".to_owned(),
            ClockError::SessionTooLarge =>
                "current unix timestamp does not fit in u32 session_id".to_owned(),
            ClockError::TimestampTooLarge =>
                "current unix timestamp does not fit in u64".to_owned(),
        }
    }
}

/// The nanoseconds that a duration holds.
pub uninterp spec fn nanos_of(elapsed: Duration) -> nat;

/// How many nanoseconds after the Unix epoch a time is, or none if it is before.
pub uninterp spec fn nanos_after_epoch(time: SystemTime) -> Option<nat>;

/// `SystemTime::now`: the time that the system's clock shows, of which nothing is said.
#[verifier::external_body]
fn system_now() -> (now: SystemTime) {
    SystemTime::now()
}

/// `SystemTime::duration_since`: how long after the Unix epoch a time is, or none if it is before.
#[verifier::external_body]
fn since_epoch(time: SystemTime) -> (elapsed: Option<Duration>)
    ensures
        match nanos_after_epoch(time) {
            Some(nanos) => elapsed matches Some(found) && nanos_of(found) == nanos,
            None => elapsed is None,
        },
{
    time.duration_since(UNIX_EPOCH).ok()
}

/// `Duration::as_secs`: the whole seconds of a duration.
#[verifier::external_body]
fn whole_seconds(elapsed: Duration) -> (seconds: u64)
    ensures
        seconds == nanos_of(elapsed) / 1_000_000_000,
{
    elapsed.as_secs()
}

/// `Duration::as_millis`: the whole milliseconds of a duration.
#[verifier::external_body]
fn whole_milliseconds(elapsed: Duration) -> (millis: u128)
    ensures
        millis == nanos_of(elapsed) / 1_000_000,
{
    elapsed.as_millis()
}

/// The number of a session that starts so many seconds after the Unix epoch, or before it.
pub open spec fn session_number(seconds: Option<nat>) -> Result<u32, ClockError> {
    match seconds {
        Some(value) if value <= u32::MAX => Ok(value as u32),
        Some(_) => Err(ClockError::SessionTooLarge),
        None => Err(ClockError::BeforeEpoch),
    }
}

/// A time so many milliseconds after the Unix epoch, or before it, as it is written down.
pub open spec fn timestamp(millis: Option<nat>) -> Result<u64, ClockError> {
    match millis {
        Some(value) if value <= u64::MAX => Ok(value as u64),
        Some(_) => Err(ClockError::TimestampTooLarge),
        None => Err(ClockError::BeforeEpoch),
    }
}

/// So many whole units of a number of nanoseconds.
pub open spec fn whole_units(nanos: Option<nat>, unit: nat) -> Option<nat> {
    match nanos {
        Some(value) => Some(value / unit),
        None => None,
    }
}

/// The number of a session that starts so many seconds after the Unix epoch.
pub fn session_id_of(seconds: Option<u64>) -> (id: Result<u32, ClockError>)
    ensures
        id == session_number(
            match seconds {
                Some(value) => Some(value as nat),
                None => None,
            },
        ),
{
    match seconds {
        Some(value) => if value <= 0xffff_ffff {
            Ok(value as u32)
        } else {
            Err(ClockError::SessionTooLarge)
        },
        None => Err(ClockError::BeforeEpoch),
    }
}

/// The number of a session that starts now: the seconds since the Unix epoch to a time that the
/// clock showed, whichever that was.
pub fn current_session_id() -> (id: Result<u32, ClockError>)
    ensures
        exists|time: SystemTime|
            id == session_number(whole_units(#[trigger] nanos_after_epoch(time), 1_000_000_000)),
{
    let now = system_now();
    let seconds = match since_epoch(now) {
        Some(elapsed) => Some(whole_seconds(elapsed)),
        None => None,
    };
    let id = session_id_of(seconds);
    assert(id == session_number(whole_units(nanos_after_epoch(now), 1_000_000_000)));
    id
}

/// A time as it is written down, so many milliseconds after the Unix epoch.
pub fn unix_ms_of(millis: Option<u128>) -> (unix_ms: Result<u64, ClockError>)
    ensures
        unix_ms == timestamp(
            match millis {
                Some(value) => Some(value as nat),
                None => None,
            },
        ),
{
    match millis {
        Some(value) => if value <= 0xffff_ffff_ffff_ffff {
            Ok(value as u64)
        } else {
            Err(ClockError::TimestampTooLarge)
        },
        None => Err(ClockError::BeforeEpoch),
    }
}

/// The time now: the milliseconds since the Unix epoch to a time that the clock showed, whichever
/// that was.
pub fn unix_ms_now() -> (unix_ms: Result<u64, ClockError>)
    ensures
        exists|time: SystemTime|
            unix_ms == timestamp(whole_units(#[trigger] nanos_after_epoch(time), 1_000_000)),
{
    let now = system_now();
    let millis = match since_epoch(now) {
        Some(elapsed) => Some(whole_milliseconds(elapsed)),
        None => None,
    };
    let unix_ms = unix_ms_of(millis);
    assert(unix_ms == timestamp(whole_units(nanos_after_epoch(now), 1_000_000)));
    unix_ms
}

} // verus!
