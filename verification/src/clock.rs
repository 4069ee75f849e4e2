//! The wall clock, in whole seconds since the Unix epoch.
use crate::types::Timestamp;
use std::time::{Duration, SystemTime};
use vstd::prelude::*;

verus! {

pub const NANOSECONDS_PER_SECOND: u64 = 1_000_000_000;

/// Declares `std::time::SystemTime`, which is opaque but for `since_epoch`.
#[verifier::external_type_specification]
#[verifier::external_body]
pub struct ExSystemTime(std::time::SystemTime);

/// The nanoseconds from the Unix epoch to `time`; negative where `time` lies before it.
pub uninterp spec fn since_epoch(time: SystemTime) -> int;

/// The nanoseconds that a duration lasts.
pub uninterp spec fn nanoseconds(duration: Duration) -> nat;

/// Calls `std::time::SystemTime::now`. Nothing is claimed of the time that it gives: that is
/// the clock's.
#[verifier::external_body]
fn system_now() -> (now: SystemTime) {
    SystemTime::now()
}

/// Calls `std::time::SystemTime::duration_since` with the Unix epoch: it gives the time that
/// has elapsed since the epoch, and fails exactly where the epoch is later than `time`.
#[verifier::external_body]
fn elapsed_since_epoch(time: SystemTime) -> (elapsed: Option<Duration>)
    ensures
        match elapsed {
            Some(duration) => nanoseconds(duration) == since_epoch(time),
            None => since_epoch(time) < 0,
        },
{
    match time.duration_since(SystemTime::UNIX_EPOCH) {
        Ok(elapsed) => Some(elapsed),
        Err(_) => None,
    }
}

/// Calls `std::time::Duration::as_secs`: the whole seconds of the duration, without the
/// fraction of a second that may be left.
#[verifier::external_body]
fn whole_secs(duration: Duration) -> (secs: u64)
    ensures
        secs == nanoseconds(duration) / NANOSECONDS_PER_SECOND as nat,
{
    duration.as_secs()
}

/// The Unix timestamp of `time`: the seconds since the epoch, rounded down. A time before the
/// epoch counts as the epoch itself.
pub open spec fn unix_seconds(time: SystemTime) -> int {
    if since_epoch(time) < 0 {
        0
    } else {
        since_epoch(time) / NANOSECONDS_PER_SECOND as int
    }
}

/// Whether the clock shows `timestamp` at some time.
pub open spec fn clock_shows(timestamp: Timestamp) -> bool {
    exists|time: SystemTime| timestamp == #[trigger] unix_seconds(time)
}

/// Whether every one of the readings is what the clock shows at some time.
pub open spec fn clock_showed(readings: Seq<Timestamp>) -> bool {
    forall|i: int| 0 <= i < readings.len() ==> clock_shows(#[trigger] readings[i])
}

/// The Unix timestamp of `time`, in seconds.
pub fn timestamp_at(time: SystemTime) -> (timestamp: Timestamp)
    ensures
        timestamp == unix_seconds(time),
{
    match elapsed_since_epoch(time) {
        Some(elapsed) => whole_secs(elapsed),
        None => 0,
    }
}

/// The current Unix timestamp in seconds. The time is the clock's: two calls may differ.
pub fn current_timestamp_secs() -> (timestamp: Timestamp)
    ensures
        clock_shows(timestamp),
{
    timestamp_at(system_now())
}

/// `count` readings of the clock, taken one after the other.
pub fn take_readings(count: usize) -> (readings: Vec<Timestamp>)
    ensures
        readings.len() == count,
        clock_showed(readings@),
{
    let mut readings: Vec<Timestamp> = Vec::new();
    while readings.len() < count
        invariant
            readings.len() <= count,
            clock_showed(readings@),
        decreases count - readings.len(),
    {
        readings.push(current_timestamp_secs());
    }
    readings
}

/// A timestamp counts the whole seconds that have passed since the epoch: the time lies in
/// the second that begins with it. Before the epoch it is zero.
pub proof fn law_timestamp_is_the_second_begun(time: SystemTime)
    ensures
        since_epoch(time) >= 0 ==> unix_seconds(time) * 1_000_000_000 <= since_epoch(time) < (
        unix_seconds(time) + 1) * 1_000_000_000,
        since_epoch(time) < 0 ==> unix_seconds(time) == 0,
{
}

/// Timestamps never fall while time goes on, and one second adds one.
pub proof fn law_timestamps_follow_time(earlier: SystemTime, later: SystemTime)
    ensures
        since_epoch(earlier) <= since_epoch(later) ==> unix_seconds(earlier) <= unix_seconds(later),
        0 <= since_epoch(earlier) && since_epoch(later) == since_epoch(earlier) + 1_000_000_000
            ==> unix_seconds(later) == unix_seconds(earlier) + 1,
{
}

/// What the clock shows is the second in which some time lies, and this holds of each reading.
pub proof fn law_readings_are_seconds_of_the_clock(readings: Seq<Timestamp>, i: int)
    requires
        clock_showed(readings),
        0 <= i < readings.len(),
    ensures
        exists|time: SystemTime|
            (#[trigger] since_epoch(time) < 0 && readings[i] == 0) || (readings[i] * 1_000_000_000
                <= since_epoch(time) < (readings[i] + 1) * 1_000_000_000),
{
    assert(clock_shows(readings[i]));
    let time = choose|time: SystemTime| readings[i] == #[trigger] unix_seconds(time);
    assert(readings[i] == unix_seconds(time));
    law_timestamp_is_the_second_begun(time);
    assert(since_epoch(time) < 0 || since_epoch(time) >= 0);
}

} // verus!
