//! The wall clock.

use vstd::prelude::*;
use crate::clock::{minute_of_day, MINUTES_PER_DAY};

verus! {

/// The hour and the minute of the local time, as `chrono::Local::now()`
/// reports it and `chrono::Timelike` takes it apart.
///
/// Trusted, not proved: chrono documents `hour()` as a number from 0 to 23
/// and `minute()` as a number from 0 to 59. Nothing is claimed about which
/// time comes back: it is the machine's clock and time zone that decide.
/// Where the machine has no usable clock (one set before 1970) or time zone,
/// chrono panics.
#[verifier::external_body]
fn local_hour_minute() -> (now: (u32, u32))
    ensures
        now.0 < 24,
        now.1 < 60,
{
    let time = chrono::Local::now().time();
    (chrono::Timelike::hour(&time), chrono::Timelike::minute(&time))
}

/// The minute of the day that the local clock shows.
pub fn current_minute_of_day() -> (t: u32)
    ensures
        t < MINUTES_PER_DAY,
{
    let (hour, min) = local_hour_minute();
    minute_of(hour, min)
}

/// The minute of the day of the clock reading `hour`:`min`.
pub fn minute_of(hour: u32, min: u32) -> (t: u32)
    requires
        hour < 24,
        min < 60,
    ensures
        t == minute_of_day(hour as int, min as int),
        t < MINUTES_PER_DAY,
{
    hour * 60 + min
}

} // verus!
