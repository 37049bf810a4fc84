//! The proleptic Gregorian calendar: conversion between seconds since the
//! Unix epoch and calendar fields.
use vstd::prelude::*;

verus! {

pub const SECS_PER_DAY: i64 = 86_400;

/// Seconds from the Unix epoch to the reference date, 2001-01-01 00:00 UTC.
pub const SECS_FROM_UNIX_TO_APPLE_EPOCHS: i64 = 978_307_200;

/// A point in time in calendar fields. `month` and `day` count from 1,
/// `weekday` from 0 for Sunday, `year_day` from 0.
#[derive(Clone, Copy, Debug, PartialEq, Eq, Structural)]
pub struct CivilTime {
    pub year: i64,
    pub month: i64,
    pub day: i64,
    pub hour: i64,
    pub minute: i64,
    pub second: i64,
    pub weekday: i64,
    pub year_day: i64,
}

pub open spec fn leap_year(year: int) -> bool {
    year % 4 == 0 && (year % 100 != 0 || year % 400 == 0)
}

pub open spec fn month_length(year: int, month: int) -> int {
    if month == 2 {
        if leap_year(year) {
            29
        } else {
            28
        }
    } else if month == 4 || month == 6 || month == 9 || month == 11 {
        30
    } else {
        31
    }
}

pub open spec fn year_length(year: int) -> int {
    if leap_year(year) {
        366
    } else {
        365
    }
}

/// Days of the year before the first of a month.
pub open spec fn days_before_month(year: int, month: int) -> int
    decreases month,
{
    if month <= 1 {
        0
    } else {
        days_before_month(year, month - 1) + month_length(year, month - 1)
    }
}

/// Days from 0001-01-01 to the first day of a year.
pub open spec fn days_before_year(year: int) -> int {
    365 * (year - 1) + (year - 1) / 4 - (year - 1) / 100 + (year - 1) / 400
}

/// Days from the Unix epoch to a date.
pub open spec fn day_number(year: int, month: int, day: int) -> int {
    days_before_year(year) - 719_162 + days_before_month(year, month) + day - 1
}

pub open spec fn valid_date(year: int, month: int, day: int) -> bool {
    1 <= month <= 12 && 1 <= day <= month_length(year, month)
}

/// The seconds since the epoch of a wall-clock time; the fields may lie
/// outside of their usual ranges and carry over.
pub open spec fn timestamp(
    year: int,
    month0: int,
    day: int,
    hour: int,
    minute: int,
    second: int,
) -> int {
    86_400 * (day_number(year + month0 / 12, month0 % 12 + 1, 1) + day - 1) + 3600 * hour + 60
        * minute + second
}

/// The fields are those of the `t`-th second since the epoch.
pub open spec fn is_civil(c: CivilTime, t: int) -> bool {
    &&& valid_date(c.year as int, c.month as int, c.day as int)
    &&& 0 <= c.hour < 24
    &&& 0 <= c.minute < 60
    &&& 0 <= c.second < 60
    &&& day_number(c.year as int, c.month as int, c.day as int) == t / 86_400
    &&& 3600 * c.hour + 60 * c.minute + c.second == t % 86_400
    &&& c.weekday == (t / 86_400 + 4) % 7
    &&& c.year_day == days_before_month(c.year as int, c.month as int) + c.day - 1
}

pub proof fn lemma_days_before_month(year: int, month: int)
    requires
        1 <= month <= 13,
    ensures
        days_before_month(year, month) == (if month == 1 {
            0int
        } else if month == 2 {
            31
        } else {
            (if leap_year(year) {
                1int
            } else {
                0
            }) + (if month == 3 {
                59int
            } else if month == 4 {
                90
            } else if month == 5 {
                120
            } else if month == 6 {
                151
            } else if month == 7 {
                181
            } else if month == 8 {
                212
            } else if month == 9 {
                243
            } else if month == 10 {
                273
            } else if month == 11 {
                304
            } else if month == 12 {
                334
            } else {
                365
            })
        }),
{
    reveal_with_fuel(days_before_month, 14);
}

/// A year starts where the year before ends.
pub proof fn lemma_year_step(year: int)
    ensures
        days_before_year(year + 1) == days_before_year(year) + year_length(year),
{
    lemma_floor_step(year, 4);
    lemma_floor_step(year, 100);
    lemma_floor_step(year, 400);
    assert(year % 400 == 0 ==> year % 100 == 0);
    assert(year % 100 == 0 ==> year % 4 == 0);
}

proof fn lemma_floor_step(y: int, d: int)
    requires
        d == 4 || d == 100 || d == 400,
    ensures
        y / d == (y - 1) / d + if y % d == 0 {
            1int
        } else {
            0
        },
{
}

pub proof fn lemma_years_monotonic(a: int, b: int)
    requires
        a <= b,
    ensures
        days_before_year(a) + 365 * (b - a) <= days_before_year(b),
    decreases b - a,
{
    if a < b {
        lemma_years_monotonic(a, b - 1);
        lemma_year_step(b - 1);
    }
}

pub proof fn lemma_months_monotonic(year: int, a: int, b: int)
    requires
        1 <= a < b <= 13,
    ensures
        days_before_month(year, a) + month_length(year, a) <= days_before_month(year, b),
{
    lemma_days_before_month(year, a);
    lemma_days_before_month(year, b);
}

/// Every date has a day number of its own, and later dates have larger ones.
pub proof fn law_day_number_orders_dates(y1: int, m1: int, d1: int, y2: int, m2: int, d2: int)
    requires
        valid_date(y1, m1, d1),
        valid_date(y2, m2, d2),
    ensures
        day_number(y1, m1, d1) < day_number(y2, m2, d2) <==> (y1 < y2 || (y1 == y2 && (m1 < m2 || (
        m1 == m2 && d1 < d2)))),
        day_number(y1, m1, d1) == day_number(y2, m2, d2) <==> y1 == y2 && m1 == m2 && d1 == d2,
{
    lemma_days_before_month(y1, m1);
    lemma_days_before_month(y2, m2);
    if y1 < y2 {
        lemma_year_step(y1);
        lemma_years_monotonic(y1 + 1, y2);
    } else if y2 < y1 {
        lemma_year_step(y2);
        lemma_years_monotonic(y2 + 1, y1);
    } else if m1 < m2 {
        lemma_months_monotonic(y1, m1, m2);
    } else if m2 < m1 {
        lemma_months_monotonic(y1, m2, m1);
    }
}

/// The calendar fields of a second determine it, and a second determines its
/// calendar fields.
pub proof fn law_civil_time_is_unique(a: CivilTime, b: CivilTime, t: int, u: int)
    requires
        is_civil(a, t),
        is_civil(b, u),
    ensures
        t == u <==> a == b,
{
    law_day_number_orders_dates(
        a.year as int,
        a.month as int,
        a.day as int,
        b.year as int,
        b.month as int,
        b.day as int,
    );
}

/// The timestamp of the calendar fields of a second is that second.
pub proof fn law_civil_round_trip(c: CivilTime, t: int)
    requires
        is_civil(c, t),
    ensures
        timestamp(
            c.year as int,
            c.month - 1,
            c.day as int,
            c.hour as int,
            c.minute as int,
            c.second as int,
        ) == t,
{
}

pub fn is_leap_year(year: i64) -> (leap: bool)
    ensures
        leap == leap_year(year as int),
{
    floor_mod(year, 4) == 0 && (floor_mod(year, 100) != 0 || floor_mod(year, 400) == 0)
}

/// Remainder that is never negative (`rem_euclid`).
pub fn floor_mod(a: i64, b: i64) -> (r: i64)
    requires
        0 < b,
    ensures
        r == a as int % b as int,
{
    if a >= 0 {
        a % b
    } else {
        let k: i64 = -(a + 1);
        proof {
            assert((k as int) / (b as int) * b + (k as int) % (b as int) == k) by {
                vstd::arithmetic::div_mod::lemma_fundamental_div_mod(k as int, b as int);
                assert(b * ((k as int) / (b as int)) == (k as int) / (b as int) * b)
                    by (nonlinear_arith);
            }
            let q = -((k as int) / (b as int)) - 1;
            let r = b - 1 - (k as int) % (b as int);
            assert(q * b == -((k as int) / (b as int) * b) - b) by (nonlinear_arith)
                requires
                    q == -((k as int) / (b as int)) - 1,
            ;
            assert(a == q * b + r);
            vstd::arithmetic::div_mod::lemma_fundamental_div_mod_converse(
                a as int,
                b as int,
                q,
                r,
            );
        }
        b - 1 - k % b
    }
}

/// Quotient rounded down (`div_euclid`).
pub fn floor_div(a: i64, b: i64) -> (q: i64)
    requires
        1 < b,
    ensures
        q == a as int / b as int,
{
    if a >= 0 {
        a / b
    } else {
        let k: i64 = -(a + 1);
        proof {
            let q = -((k as int) / (b as int)) - 1;
            let r = b - 1 - (k as int) % (b as int);
            vstd::arithmetic::div_mod::lemma_fundamental_div_mod(k as int, b as int);
            assert(q * b == -(b * ((k as int) / (b as int))) - b) by (nonlinear_arith)
                requires
                    q == -((k as int) / (b as int)) - 1,
            ;
            assert(a == q * b + r);
            vstd::arithmetic::div_mod::lemma_fundamental_div_mod_converse(
                a as int,
                b as int,
                q,
                r,
            );
            assert((k as int) / (b as int) <= k) by {
                vstd::arithmetic::div_mod::lemma_div_is_ordered_by_denominator(
                    k as int,
                    1,
                    b as int,
                );
            }
        }
        -(k / b) - 1
    }
}

pub fn days_in_month(year: i64, month: i64) -> (days: i64)
    ensures
        days == month_length(year as int, month as int),
{
    if month == 2 {
        if is_leap_year(year) {
            29
        } else {
            28
        }
    } else if month == 4 || month == 6 || month == 9 || month == 11 {
        30
    } else {
        31
    }
}

fn month_start(year: i64, month: i64) -> (days: i64)
    requires
        1 <= month <= 13,
    ensures
        days == days_before_month(year as int, month as int),
        0 <= days <= 366,
{
    let mut m: i64 = 1;
    let mut days: i64 = 0;
    while m < month
        invariant
            1 <= m <= month <= 13,
            days == days_before_month(year as int, m as int),
            0 <= days <= 31 * (m - 1),
        decreases month - m,
    {
        days = days + days_in_month(year, m);
        m = m + 1;
    }
    proof {
        lemma_days_before_month(year as int, month as int);
    }
    days
}

fn year_start(year: i64) -> (days: i64)
    requires
        -0x20_0000_0000_0000 <= year <= 0x20_0000_0000_0000,
    ensures
        days == days_before_year(year as int),
{
    let y: i64 = year - 1;
    365 * y + floor_div(y, 4) - floor_div(y, 100) + floor_div(y, 400)
}

/// The seconds since the epoch of a wall-clock time in UTC. The month counts
/// from 0; a field outside of its usual range carries over.
pub fn civil_to_timestamp_i64(
    year: i64,
    month0: i64,
    day: i64,
    hour: i64,
    minute: i64,
    second: i64,
) -> (t: i64)
    requires
        -0x1_0000_0000 <= year <= 0x1_0000_0000,
        -0x1_0000_0000 <= month0 <= 0x1_0000_0000,
        -0x1_0000_0000 <= day <= 0x1_0000_0000,
        -0x1_0000_0000 <= hour <= 0x1_0000_0000,
        -0x1_0000_0000 <= minute <= 0x1_0000_0000,
        -0x1_0000_0000 <= second <= 0x1_0000_0000,
    ensures
        t == timestamp(
            year as int,
            month0 as int,
            day as int,
            hour as int,
            minute as int,
            second as int,
        ),
{
    let y: i64 = year + floor_div(month0, 12);
    let m: i64 = floor_mod(month0, 12) + 1;
    let days: i64 = year_start(y) - 719_162 + month_start(y, m) + day - 1;
    86_400 * days + 3600 * hour + 60 * minute + second
}

/// The calendar fields of the `t`-th second since the epoch.
pub fn timestamp_to_calendar_date_i64(t: i64) -> (c: CivilTime)
    ensures
        is_civil(c, t as int),
{
    let days: i64 = floor_div(t, 86_400);
    let secs: i64 = floor_mod(t, 86_400);
    let since: i64 = days + 719_162;
    let era: i64 = floor_div(since, 146_097);
    let day_of_era: i64 = floor_mod(since, 146_097);
    let mut k: i64 = 1;
    proof {
        assert(days_before_year(401) == 146_097);
        assert(day_of_era < days_before_year(401));
    }
    while year_start(k + 1) <= day_of_era
        invariant
            1 <= k <= 400,
            0 <= day_of_era < 146_097,
            days_before_year(401) == 146_097,
            days_before_year(k as int) <= day_of_era,
        decreases 400 - k,
    {
        proof {
            if k >= 400 {
                assert(false);
            }
        }
        k = k + 1;
    }
    let year: i64 = 400 * era + k;
    proof {
        lemma_era(era as int, k as int);
        lemma_era(era as int, k + 1);
        lemma_year_step(year as int);
    }
    let year_day: i64 = day_of_era - year_start(k);
    let mut month: i64 = 1;
    proof {
        lemma_days_before_month(year as int, 13);
        lemma_days_before_month(year as int, 1);
    }
    while month_start(year, month + 1) <= year_day
        invariant
            1 <= month <= 12,
            days_before_month(year as int, month as int) <= year_day,
            days_before_month(year as int, 13) == year_length(year as int),
            0 <= year_day < year_length(year as int),
        decreases 12 - month,
    {
        proof {
            if month >= 12 {
                assert(false);
            }
        }
        month = month + 1;
    }
    let day: i64 = year_day - month_start(year, month) + 1;
    assert(days_before_month(year as int, month + 1) == days_before_month(
        year as int,
        month as int,
    ) + month_length(year as int, month as int));
    CivilTime {
        year,
        month,
        day,
        hour: secs / 3600,
        minute: secs % 3600 / 60,
        second: secs % 60,
        weekday: floor_mod(days + 4, 7),
        year_day,
    }
}

/// Four hundred years are a whole number of days.
proof fn lemma_era(era: int, k: int)
    ensures
        days_before_year(400 * era + k) == 146_097 * era + days_before_year(k),
        leap_year(400 * era + k) == leap_year(k),
{
    lemma_shift(k - 1, 100 * era, 4);
    lemma_shift(k - 1, 4 * era, 100);
    lemma_shift(k - 1, era, 400);
    lemma_shift(k, 100 * era, 4);
    lemma_shift(k, 4 * era, 100);
    lemma_shift(k, era, 400);
}

proof fn lemma_shift(a: int, q: int, d: int)
    requires
        0 < d,
    ensures
        (d * q + a) / d == q + a / d,
        (d * q + a) % d == a % d,
{
    vstd::arithmetic::div_mod::lemma_mod_multiples_vanish(q, a, d);
    vstd::arithmetic::div_mod::lemma_hoist_over_denominator(a, q, d as nat);
    assert(q * d == d * q) by (nonlinear_arith);
}

/// Days have 24 hours of 60 minutes of 60 seconds, months count on into the next year after
/// twelve, and the epoch is where 1970 begins.
pub proof fn law_timestamp_counts(
    year: int,
    month0: int,
    day: int,
    hour: int,
    minute: int,
    second: int,
)
    ensures
        timestamp(1970, 0, 1, 0, 0, 0) == 0,
        timestamp(year, month0, day, hour, minute, second) == timestamp(year, month0, 1, 0, 0, 0)
            + 86_400 * (day - 1) + 3600 * hour + 60 * minute + second,
        timestamp(year, month0 + 12, day, hour, minute, second) == timestamp(
            year + 1,
            month0,
            day,
            hour,
            minute,
            second,
        ),
{
    lemma_days_before_month(1970, 1);
}

/// A month begins as many days after the month before as that one has: thirty in April,
/// June, September and November, in February twenty-eight, or twenty-nine in every fourth
/// year but those of three centuries out of four, and else thirty-one.
pub proof fn law_months_follow(year: int, month0: int)
    requires
        0 <= month0 < 12,
    ensures
        timestamp(year, month0 + 1, 1, 0, 0, 0) - timestamp(year, month0, 1, 0, 0, 0) == 86_400 * (
        if month0 == 3 || month0 == 5 || month0 == 8 || month0 == 10 {
            30int
        } else if month0 != 1 {
            31
        } else if year % 400 == 0 || (year % 4 == 0 && year % 100 != 0) {
            29
        } else {
            28
        }),
{
    lemma_days_before_month(year, month0 + 1);
    lemma_days_before_month(year, month0 + 2);
    lemma_days_before_month(year + 1, 1);
    lemma_year_step(year);
}

/// Each day follows the day before in the week, the epoch was a Thursday, and the clock
/// shows the same time a day later.
pub proof fn law_weekdays_follow(c: CivilTime, t: int, next: CivilTime)
    requires
        is_civil(c, t),
        is_civil(next, t + 86_400),
    ensures
        next.weekday == if c.weekday == 6 {
            0
        } else {
            c.weekday + 1
        },
        0 <= t < 86_400 ==> c.weekday == 4,
        next.hour == c.hour && next.minute == c.minute && next.second == c.second,
{
    lemma_next_weekday(t, c.weekday as int, next.weekday as int);
    lemma_same_clock(
        t,
        c.hour as int,
        c.minute as int,
        c.second as int,
        next.hour as int,
        next.minute as int,
        next.second as int,
    );
}

proof fn lemma_next_weekday(t: int, w: int, next: int)
    requires
        w == (t / 86_400 + 4) % 7,
        next == ((t + 86_400) / 86_400 + 4) % 7,
    ensures
        next == if w == 6 {
            0
        } else {
            w + 1
        },
        0 <= t < 86_400 ==> w == 4,
{
    assert((t + 86_400) / 86_400 == t / 86_400 + 1);
}

proof fn lemma_same_clock(t: int, h: int, m: int, s: int, h2: int, m2: int, s2: int)
    requires
        0 <= m < 60,
        0 <= s < 60,
        0 <= m2 < 60,
        0 <= s2 < 60,
        3600 * h + 60 * m + s == t % 86_400,
        3600 * h2 + 60 * m2 + s2 == (t + 86_400) % 86_400,
    ensures
        h == h2,
        m == m2,
        s == s2,
{
    assert((t + 86_400) % 86_400 == t % 86_400);
    lemma_sixties(60 * h + m, s, 60 * h2 + m2, s2);
    lemma_sixties(h, m, h2, m2);
}

proof fn lemma_sixties(a: int, r: int, b: int, q: int)
    requires
        0 <= r < 60,
        0 <= q < 60,
        60 * a + r == 60 * b + q,
    ensures
        a == b,
        r == q,
{
    if a < b {
        assert(60 * a + 60 <= 60 * b);
    } else if b < a {
        assert(60 * b + 60 <= 60 * a);
    }
}

proof fn lemma_year_day(year: int, month: int, day: int)
    requires
        valid_date(year, month, day),
    ensures
        0 <= days_before_month(year, month) + day - 1 < year_length(year),
        days_before_month(year, month) + day - 1 == 0 <==> month == 1 && day == 1,
{
    lemma_days_before_month(year, month);
}

/// Each day has the next number in its year, and the first of January the number 0.
pub proof fn law_year_days_follow(c: CivilTime, t: int, next: CivilTime)
    requires
        is_civil(c, t),
        is_civil(next, t + 86_400),
    ensures
        next.year_day == if next.month == 1 && next.day == 1 {
            0
        } else {
            c.year_day + 1
        },
{
    assert((t + 86_400) / 86_400 == t / 86_400 + 1);
    let (y, z) = (c.year as int, next.year as int);
    lemma_year_day(y, c.month as int, c.day as int);
    lemma_year_day(z, next.month as int, next.day as int);
    lemma_year_step(y);
    lemma_year_step(z);
    if z > y {
        lemma_years_monotonic(y + 1, z);
    } else if z < y {
        lemma_years_monotonic(z + 1, y);
    }
}

} // verus!
