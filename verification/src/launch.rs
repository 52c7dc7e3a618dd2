//! What the front end decides when it launches a command: the starting
//! offset of the virtual clock, and the exit status it passes on.
use vstd::prelude::*;

use std::time::{Duration, SystemTime, SystemTimeError};

use crate::duration::{duration_value, parse_duration_ns, DurationError, DurationFault};

verus! {

#[verifier::external_type_specification]
#[verifier::external_body]
pub struct ExSystemTime(SystemTime);

#[verifier::external_type_specification]
#[verifier::external_body]
pub struct ExSystemTimeError(SystemTimeError);

#[verifier::external_type_specification]
#[verifier::external_body]
pub struct ExParseError(chrono::ParseError);

/// The largest number of nanoseconds a `Duration` holds: `u64::MAX`
/// seconds and 999_999_999 nanoseconds.
pub const MAX_DURATION_NANOS: u128 = 18_446_744_073_709_551_615_999_999_999;

/// The current wall-clock time.
///
/// Trusted: calls `SystemTime::now`; nothing is promised of the reading.
#[verifier::external_body]
fn system_time_now() -> SystemTime {
    SystemTime::now()
}

/// Time elapsed from the Unix epoch to `t`.
///
/// Trusted: calls `SystemTime::duration_since` with `UNIX_EPOCH`, which fails
/// when `t` lies before the epoch; the clock decides which.
#[verifier::external_body]
fn duration_since_unix_epoch(t: &SystemTime) -> Result<Duration, SystemTimeError> {
    t.duration_since(SystemTime::UNIX_EPOCH)
}

/// Whole nanoseconds in `d`.
///
/// Trusted: calls `Duration::as_nanos`. Its documentation gives the total
/// nanoseconds; a `Duration` holds at most `u64::MAX` seconds and fewer than
/// a billion nanoseconds, which bounds the result. The value itself is not
/// stated, since a `Duration` is opaque here.
#[verifier::external_body]
fn duration_as_nanos(d: &Duration) -> (n: u128)
    ensures
        n <= MAX_DURATION_NANOS,
{
    d.as_nanos()
}

/// Why the starting offset could not be set.
#[derive(Debug, PartialEq, Eq)]
pub enum OffsetError {
    /// The `--at` text is not an RFC 3339 date and time; holds the parser's
    /// reason.
    InvalidAt(chrono::ParseError),
    /// The `--at` instant lies outside what 64-bit nanoseconds since the
    /// epoch can hold.
    AtOutOfRange,
    /// The system clock reads before the Unix epoch.
    ClockBeforeEpoch,
    /// The `--offset` text is not a duration.
    Offset(DurationError),
}

/// Nanoseconds since the Unix epoch by the system clock, or
/// `ClockBeforeEpoch` when the clock reads earlier than that.
pub fn now_unix_ns() -> (r: Result<i128, OffsetError>)
    ensures
        r matches Ok(n) ==> 0 <= n <= MAX_DURATION_NANOS,
        r matches Err(e) ==> e == OffsetError::ClockBeforeEpoch,
{
    let now = system_time_now();
    match duration_since_unix_epoch(&now) {
        Ok(d) => Ok(duration_as_nanos(&d) as i128),
        Err(_) => Err(OffsetError::ClockBeforeEpoch),
    }
}

/// What `DateTime::parse_from_rfc3339` makes of a text: `None` when it
/// refuses it, otherwise the instant's nanoseconds since the Unix epoch,
/// `None` inside when they do not fit in 64 bits.
pub uninterp spec fn rfc3339_instant_nanos(text: Seq<char>) -> Option<Option<i64>>;

/// The instant an RFC 3339 text names, in nanoseconds since the epoch.
///
/// Trusted: calls chrono's `DateTime::parse_from_rfc3339` and reads the
/// parsed value's instant with `timestamp_nanos_opt`, which counts from the
/// epoch in UTC whatever the text's own offset. Claims only that the result
/// is a function of the text, named `rfc3339_instant_nanos`.
#[verifier::external_body]
fn rfc3339_unix_nanos(text: &str) -> (r: Result<Option<i64>, chrono::ParseError>)
    ensures
        r is Ok <==> rfc3339_instant_nanos(text@) is Some,
        r matches Ok(t) ==> rfc3339_instant_nanos(text@) == Some(t),
{
    match chrono::DateTime::parse_from_rfc3339(text) {
        Ok(dt) => Ok(dt.timestamp_nanos_opt()),
        Err(e) => Err(e),
    }
}

/// The offset that makes the virtual clock read `target` when the real
/// clock reads `now`.
pub open spec fn offset_to_target(target: Option<i64>, now: Option<int>) -> Result<
    int,
    OffsetError,
> {
    match now {
        None => Err(OffsetError::ClockBeforeEpoch),
        Some(n) => match target {
            None => Err(OffsetError::AtOutOfRange),
            Some(t) => Ok(t - n),
        },
    }
}

/// The offset that takes the clock from `now_ns` to `target_ns`; the first
/// failure of the clock reading or of the target decides the error.
pub fn offset_from_target(target_ns: Option<i64>, now_ns: Result<i128, OffsetError>) -> (r: Result<
    i128,
    OffsetError,
>)
    requires
        now_ns matches Ok(n) ==> 0 <= n <= MAX_DURATION_NANOS,
        now_ns matches Err(e) ==> e == OffsetError::ClockBeforeEpoch,
    ensures
        offset_to_target(
            target_ns,
            match now_ns {
                Ok(n) => Some(n as int),
                Err(_) => None,
            },
        ) == match r {
            Ok(v) => Ok(v as int),
            Err(e) => Err(e),
        },
{
    match now_ns {
        Err(e) => Err(e),
        Ok(now) => match target_ns {
            None => Err(OffsetError::AtOutOfRange),
            Some(t) => Ok(t as i128 - now),
        },
    }
}

/// The starting offset: to reach the `--at` instant when one is given,
/// else the `--offset` duration, else none.
pub fn initial_offset_ns(at: Option<&str>, offset: Option<&str>) -> (r: Result<i128, OffsetError>)
    ensures
        at matches Some(s) ==> (rfc3339_instant_nanos(s@) is None <==> r matches Err(
            OffsetError::InvalidAt(_),
        )),
        at matches Some(s) ==> (rfc3339_instant_nanos(s@) matches Some(t) ==> exists|now: Option<
            int,
        >|
            (now matches Some(n) ==> 0 <= n <= MAX_DURATION_NANOS) && offset_to_target(t, now)
                == match r {
                Ok(v) => Ok(v as int),
                Err(e) => Err::<int, OffsetError>(e),
            }),
        at is None && offset is Some ==> duration_value(offset->0@) == match r {
            Ok(v) => Ok(v as int),
            Err(OffsetError::Offset(e)) => Err::<int, DurationFault>(e@),
            Err(_) => Err::<int, DurationFault>(DurationFault::Empty),
        },
        at is None && offset is Some ==> r matches Ok(_) || r matches Err(OffsetError::Offset(_)),
        at is None && offset is None ==> r == Ok::<i128, OffsetError>(0),
{
    match at {
        Some(text) => {
            let target = match rfc3339_unix_nanos(text) {
                Ok(t) => t,
                Err(e) => {
                    return Err(OffsetError::InvalidAt(e));
                },
            };
            let now = now_unix_ns();
            let ghost witness = match now {
                Ok(n) => Some(n as int),
                Err(_) => None::<int>,
            };
            let r = offset_from_target(target, now);
            assert(witness matches Some(n) ==> 0 <= n <= MAX_DURATION_NANOS);
            r
        },
        None => match offset {
            Some(text) => match parse_duration_ns(text) {
                Ok(v) => Ok(v),
                Err(e) => Err(OffsetError::Offset(e)),
            },
            None => Ok(0),
        },
    }
}

/// The exit status passed on for a child's exit code: its low byte, or 1
/// when the child was ended by a signal.
pub fn child_exit_status(code: Option<i32>) -> (r: u8)
    ensures
        r == match code {
            Some(c) => c as u8,
            None => 1u8,
        },
{
    match code {
        Some(c) => c as u8,
        None => 1,
    }
}

} // verus!
