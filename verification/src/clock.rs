//! The clock behind the `File.lastModified` default.

use std::time::{Duration, SystemTime, SystemTimeError};

use vstd::prelude::*;

verus! {

/// A point in time of the host's clock.
#[verifier::external_type_specification]
#[verifier::external_body]
pub struct ExSystemTime(SystemTime);

/// The answer that one point in time lies before another.
#[verifier::external_type_specification]
#[verifier::external_body]
pub struct ExSystemTimeError(SystemTimeError);

/// `SystemTime::now` reads the host's clock; nothing is claimed of what it
/// shows.
pub assume_specification[ SystemTime::now ]() -> SystemTime
;

/// `SystemTime::duration_since` measures from one point in time to another;
/// nothing is claimed of the distance.
pub assume_specification[ SystemTime::duration_since ](
    time: &SystemTime,
    earlier: SystemTime,
) -> Result<Duration, SystemTimeError>
;

/// `SystemTimeError::duration` is how far the other point lies ahead; nothing
/// is claimed of the distance.
pub assume_specification[ SystemTimeError::duration ](error: &SystemTimeError) -> Duration
;

/// `Duration::as_millis` counts whole milliseconds; nothing is claimed of the
/// count, since nothing is known of the distance.
pub assume_specification[ Duration::as_millis ](duration: &Duration) -> u128
;

/// `std::time::UNIX_EPOCH`, the start of 1970; nothing is claimed of it.
#[verifier::external_body]
fn unix_epoch() -> SystemTime {
    std::time::UNIX_EPOCH
}

/// A source of the current time, injectable for deterministic runs.
///
/// It is asked only where a file is made without a `lastModified` of its own.
pub trait Clock: Send + Sync + 'static {
    /// The current UNIX time in milliseconds.
    fn now_unix_millis(&self) -> i64;
}

/// The clock of the host.
#[derive(Debug, Clone, Copy, Default)]
pub struct SystemClock;

/// The UNIX time of a clock that is `millis` ahead of the epoch, or behind it:
/// the nearest one that the type holds.
pub open spec fn unix_time(millis: int, ahead: bool) -> int {
    if ahead {
        if millis > i64::MAX {
            i64::MAX as int
        } else {
            millis
        }
    } else if millis > i64::MAX {
        i64::MIN as int
    } else {
        -millis
    }
}

/// The UNIX time of a distance from the epoch, saturated.
pub fn unix_millis(millis: u128, ahead: bool) -> (time: i64)
    ensures
        time == unix_time(millis as int, ahead),
{
    if millis > i64::MAX as u128 {
        if ahead {
            i64::MAX
        } else {
            i64::MIN
        }
    } else if ahead {
        millis as i64
    } else {
        -(millis as i64)
    }
}

/// Whether `outcome` may be the distance of the host's clock from the epoch: some
/// reading of the clock, measured from there.
pub closed spec fn is_reading(outcome: Result<Duration, SystemTimeError>) -> bool {
    exists|now: SystemTime, epoch: SystemTime|
        {
            &&& #[trigger] call_ensures(SystemTime::now, (), now)
            &&& #[trigger] call_ensures(unix_epoch, (), epoch)
            &&& call_ensures(SystemTime::duration_since, (&now, epoch), outcome)
        }
}

/// Whether `time` is the UNIX time of `distance` after the epoch, or before it.
pub open spec fn is_unix_time(distance: Duration, ahead: bool, time: i64) -> bool {
    exists|millis: u128| #[trigger]
        call_ensures(Duration::as_millis, (&distance,), millis) && time == unix_time(
            millis as int,
            ahead,
        )
}

/// Whether a clock at that distance from the epoch shows `time`: a clock that is
/// behind the epoch shows a time before it.
pub open spec fn shows(outcome: Result<Duration, SystemTimeError>, time: i64) -> bool {
    match outcome {
        Ok(distance) => is_unix_time(distance, true, time),
        Err(error) => exists|distance: Duration| #[trigger]
            call_ensures(SystemTimeError::duration, (&error,), distance) && is_unix_time(
                distance,
                false,
                time,
            ),
    }
}

impl Clock for SystemClock {
    /// The UNIX time that a reading of the host's clock shows.
    fn now_unix_millis(&self) -> (time: i64)
        ensures
            exists|outcome: Result<Duration, SystemTimeError>| #[trigger]
                is_reading(outcome) && shows(outcome, time),
    {
        let now = SystemTime::now();
        let epoch = unix_epoch();
        let outcome = now.duration_since(epoch);
        proof {
            assert(call_ensures(SystemTime::now, (), now));
            assert(call_ensures(unix_epoch, (), epoch));
            assert(is_reading(outcome));
        }
        match outcome {
            Ok(distance) => {
                let millis: u128 = distance.as_millis();
                let time: i64 = unix_millis(millis, true);
                proof {
                    assert(call_ensures(Duration::as_millis, (&distance,), millis));
                    assert(shows(outcome, time));
                }
                time
            },
            Err(error) => {
                let distance = error.duration();
                let millis: u128 = distance.as_millis();
                let time: i64 = unix_millis(millis, false);
                proof {
                    assert(call_ensures(SystemTimeError::duration, (&error,), distance));
                    assert(call_ensures(Duration::as_millis, (&distance,), millis));
                    assert(shows(outcome, time));
                }
                time
            },
        }
    }
}


/// A time is the distance from the epoch in milliseconds, counted forwards after
/// the epoch and backwards before it, as far as the range goes.
pub proof fn lemma_times_count_from_the_epoch(millis: u128, after: i64, before: i64)
    requires
        call_ensures(unix_millis, (millis, true), after),
        call_ensures(unix_millis, (millis, false), before),
    ensures
        millis <= i64::MAX ==> after == millis && after + before == 0,
        millis > i64::MAX ==> after == i64::MAX && before == i64::MIN,
{
}

} // verus!
