//! Arithmetic on minutes of the day.

use vstd::prelude::*;

verus! {

/// Minutes in one day.
pub const MINUTES_PER_DAY: u32 = 1440;

/// Minutes since midnight of the wall-clock time `hour`:`min`.
pub open spec fn minute_of_day(hour: int, min: int) -> int {
    hour * 60 + min
}

/// The minute of the day given to slot `index` when `count` slots share the
/// day evenly, the first one at midnight.
pub open spec fn auto_minute(index: int, count: int) -> int {
    (1440 * index) / count
}

/// The whole number of minutes that each of `count` slots gets when they
/// share the day evenly.
pub open spec fn even_gap(count: int) -> int {
    1440int / count
}

/// `gap` is an even share of the day among `count` slots: the whole number
/// of minutes that each can get or one minute more, and exactly that number
/// where it divides the day.
pub open spec fn is_even_gap(gap: int, count: int) -> bool {
    &&& even_gap(count) <= gap <= even_gap(count) + 1
    &&& 1440int % count == 0 ==> gap == even_gap(count)
}

/// Every evenly spaced slot falls inside the day.
pub proof fn lemma_auto_minute_in_day(index: int, count: int)
    requires
        0 <= index < count,
    ensures
        0 <= auto_minute(index, count) < 1440,
{
    assert(0 <= (1440 * index) / count < 1440) by (nonlinear_arith)
        requires
            0 <= index < count,
    ;
}

/// Later slots never come earlier in the day.
pub proof fn lemma_auto_minute_monotonic(i: int, j: int, count: int)
    requires
        0 <= i <= j,
        0 < count,
    ensures
        auto_minute(i, count) <= auto_minute(j, count),
{
    assert((1440 * i) / count <= (1440 * j) / count) by (nonlinear_arith)
        requires
            0 <= i <= j,
            0 < count,
    ;
}

/// Two neighbouring slots are `1440 / count` minutes apart, rounded down or
/// up, and exactly that far apart when `count` divides the day.
pub proof fn lemma_auto_minute_spacing(index: int, count: int)
    requires
        0 <= index,
        0 < count,
    ensures
        is_even_gap(auto_minute(index + 1, count) - auto_minute(index, count), count),
{
    let a: int = 1440 * index;
    let q1: int = a / count;
    let r1: int = a % count;
    let q: int = 1440int / count;
    let r: int = 1440int % count;
    let next: int = (1440 * (index + 1)) / count;
    assert(1440 * (index + 1) == a + 1440);
    assert(q <= next - q1 <= q + 1 && (r == 0 ==> next - q1 == q)) by (nonlinear_arith)
        requires
            0 < count,
            0 <= a,
            q1 == a / count,
            r1 == a % count,
            q == 1440int / count,
            r == 1440int % count,
            next == (a + 1440) / count,
    ;
}

/// The slot behind the last one would fall on the next midnight, so the last
/// slot's share of the day is as even as the others'.
pub proof fn lemma_auto_minute_wraps(count: int)
    requires
        0 < count,
    ensures
        auto_minute(0, count) == 0,
        auto_minute(count, count) == 1440,
{
    assert((1440 * 0int) / count == 0 && (1440 * count) / count == 1440) by (nonlinear_arith)
        requires
            0 < count,
    ;
}

/// The time of day of slot `index` out of `length` evenly spaced slots, as
/// an hour and a minute.
pub fn to_hour_minutes(index: usize, length: usize) -> (hm: (u32, u32))
    requires
        index < length,
    ensures
        hm.0 == auto_minute(index as int, length as int) / 60,
        hm.1 == auto_minute(index as int, length as int) % 60,
        hm.0 < 24,
        hm.1 < 60,
        minute_of_day(hm.0 as int, hm.1 as int) == auto_minute(index as int, length as int),
{
    proof {
        lemma_auto_minute_in_day(index as int, length as int);
    }
    let scaled: u128 = 1440u128 * (index as u128);
    let minutes: u128 = scaled / (length as u128);
    let hours: u32 = (minutes / 60) as u32;
    let rest: u32 = (minutes % 60) as u32;
    (hours, rest)
}

/// Minutes since midnight of `hour`:`min`, for any two numbers.
pub fn minutes_since_midnight(hour: u32, min: u32) -> (m: u64)
    ensures
        m == minute_of_day(hour as int, min as int),
{
    (hour as u64) * 60 + (min as u64)
}

} // verus!
