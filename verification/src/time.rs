//! Core Foundation times: the reference date and Gregorian dates.
use crate::civil;
use crate::civil::{timestamp_to_calendar_date_i64, CivilTime};
use crate::doubles;
use crate::ns_date_formatter;
use crate::ns_date_formatter::saturating_offset;
use crate::ns_keyed_unarchiver;
use crate::ns_keyed_unarchiver::seconds_as_real;
use crate::ns_time_zone;
use crate::ns_time_zone::{seconds_from_gmt_at_unix, LocalZone};
use crate::objc::{Environment, Id, NIL};
use vstd::prelude::*;

verus! {

/// Times beyond this many seconds from the reference date are held to it, which is
/// about 31.7 million years.
pub const MAX_HOST_TIMESTAMP: i64 = 1_000_000_000_000_000;

/// Seconds from the Unix epoch to the reference date.
pub fn apple_epoch() -> (secs: u64)
    ensures
        secs == 978_307_200,
{
    978_307_200
}

/// The nanoseconds from the reference date to a time of a clock, which is given by the
/// whole seconds since the Unix epoch, rounded down, and the nanoseconds behind them.
pub open spec fn since_reference(unix_secs: i64, nanos: u32) -> int {
    (unix_secs - 978_307_200) * 1_000_000_000 + nanos
}

/// The time since the reference date of a clock: whether it is before the reference
/// date, and how far away in seconds and nanoseconds.
pub fn distance_from_reference(unix_secs: i64, nanos: u32) -> (r: (bool, u64, u32))
    requires
        nanos < 1_000_000_000,
    ensures
        r.2 < 1_000_000_000,
        r.0 == (since_reference(unix_secs, nanos) < 0),
        r.1 * 1_000_000_000 + r.2 == if r.0 {
            -since_reference(unix_secs, nanos)
        } else {
            since_reference(unix_secs, nanos)
        },
{
    let since: i128 = unix_secs as i128 - 978_307_200;
    if since >= 0 {
        (false, since as u64, nanos)
    } else if nanos == 0 {
        (true, (-since) as u64, 0)
    } else {
        (true, (-since - 1) as u64, 1_000_000_000 - nanos)
    }
}

/// The bits of the seconds from the reference date to a time of a clock.
pub open spec fn absolute_time(unix_secs: i64, nanos: u32) -> int {
    let since = since_reference(unix_secs, nanos);
    let size = if since < 0 {
        -since
    } else {
        since
    };
    let bits = ns_keyed_unarchiver::real_seconds(
        (size / 1_000_000_000) as u64,
        (size % 1_000_000_000) as u32,
    );
    if since < 0 {
        bits + doubles::SIGN
    } else {
        bits as int
    }
}

/// The current time as the bits of the seconds since the reference date, where the
/// clock shows `unix_secs` and `nanos`. Before the reference date it is negative.
pub fn cf_absolute_time_now(unix_secs: i64, nanos: u32) -> (bits: u64)
    requires
        nanos < 1_000_000_000,
    ensures
        bits == absolute_time(unix_secs, nanos),
        since_reference(unix_secs, nanos) < 0 <==> doubles::is_negative(bits),
{
    let (before, seconds, rest): (bool, u64, u32) = distance_from_reference(unix_secs, nanos);
    let size: u64 = seconds_as_real(seconds, rest);
    if before {
        size + doubles::SIGN
    } else {
        size
    }
}

/// A whole second of the Gregorian calendar.
#[derive(Clone, Copy, Debug, PartialEq, Eq, Structural)]
pub struct CFGregorianDate {
    pub year: i32,
    pub month: i8,
    pub day: i8,
    pub hours: i8,
    pub minutes: i8,
    pub seconds: i8,
}

/// The whole second since the epoch of a time since the reference date, which is
/// given by the bits of a double and held to a limit on either side. A time that is
/// infinite or no number is taken for the reference date.
pub open spec fn unix_second(at: u64) -> int {
    978_307_200 + if doubles::magnitude(at) >= doubles::INFINITE {
        0
    } else if doubles::floor_of(at) < -MAX_HOST_TIMESTAMP {
        -MAX_HOST_TIMESTAMP
    } else if doubles::floor_of(at) > MAX_HOST_TIMESTAMP {
        MAX_HOST_TIMESTAMP as int
    } else {
        doubles::floor_of(at)
    }
}

/// The whole second since the epoch of a time since the reference date.
pub fn cf_absolute_time_to_unix_floor(at: u64) -> (unix_secs: i64)
    ensures
        unix_secs == unix_second(at),
        -MAX_HOST_TIMESTAMP <= unix_secs - 978_307_200 <= MAX_HOST_TIMESTAMP,
{
    match doubles::floor_within(at, MAX_HOST_TIMESTAMP) {
        Some(floor) => floor + 978_307_200,
        None => 978_307_200,
    }
}

/// The offset of a time zone at a time since the reference date; `nil` is GMT.
/// `reply` is what the host's zone says of that time.
pub fn cf_time_zone_offset_at(
    env: &Environment,
    zone: &LocalZone,
    tz: Id,
    at: u64,
    reply: i32,
) -> (offset: i32)
    ensures
        offset == ns_time_zone::gmt_offset(
            env.objc.objects@,
            zone,
            tz,
            unix_second(at),
            reply,
        ),
{
    if tz == NIL {
        return 0;
    }
    let unix_secs: i64 = cf_absolute_time_to_unix_floor(at);
    seconds_from_gmt_at_unix(env, zone, tz, unix_secs, reply)
}

/// A Gregorian date and day of the week stand for the fields `c`.
pub open spec fn shows(date: CFGregorianDate, c: CivilTime) -> bool {
    &&& date.year == c.year
    &&& date.month == c.month
    &&& date.day == c.day
    &&& date.hours == c.hour
    &&& date.minutes == c.minute
    &&& date.seconds == c.second
}

/// Years stay small for the seconds that can occur.
pub proof fn lemma_year_bound(c: CivilTime, t: int)
    requires
        civil::is_civil(c, t),
        -2_010_000_000_000_000 <= t <= 2_010_000_000_000_000,
    ensures
        -64_000_000 <= c.year <= 64_000_000,
{
    civil::lemma_days_before_month(c.year as int, c.month as int);
    if c.year >= 1 {
        civil::lemma_years_monotonic(1, c.year as int);
    } else {
        civil::lemma_years_monotonic(c.year as int, 1);
    }
}

/// The Gregorian date of a time in a zone with the given offset, and its day of the
/// week, from 0 for Sunday.
pub fn gregorian_date_with_offset(at: u64, offset: i32) -> (r: (CFGregorianDate, i32))
    ensures
        ({
            let c = ns_date_formatter::civil_of(unix_second(at) + offset);
            shows(r.0, c) && r.1 == c.weekday && civil::is_civil(c, unix_second(at) + offset)
        }),
{
    let unix_secs: i64 = cf_absolute_time_to_unix_floor(at);
    let local: i64 = saturating_offset(unix_secs, offset);
    let c = timestamp_to_calendar_date_i64(local);
    proof {
        civil::law_civil_time_is_unique(
            c,
            ns_date_formatter::civil_of(local as int),
            local as int,
            local as int,
        );
        lemma_year_bound(c, local as int);
    }
    (
        CFGregorianDate {
            year: c.year as i32,
            month: c.month as i8,
            day: c.day as i8,
            hours: c.hour as i8,
            minutes: c.minute as i8,
            seconds: c.second as i8,
        },
        c.weekday as i32,
    )
}

/// The Gregorian date of a time in a time zone.
pub fn CFAbsoluteTimeGetGregorianDate(
    env: &Environment,
    zone: &LocalZone,
    at: u64,
    tz: Id,
    reply: i32,
) -> (date: CFGregorianDate)
    ensures
        shows(
            date,
            ns_date_formatter::civil_of(
                unix_second(at) + ns_time_zone::gmt_offset(
                    env.objc.objects@,
                    zone,
                    tz,
                    unix_second(at),
                    reply,
                ),
            ),
        ),
{
    let offset: i32 = cf_time_zone_offset_at(env, zone, tz, at, reply);
    gregorian_date_with_offset(at, offset).0
}

/// The day of the week of a time, from 1 for Monday to 7 for Sunday.
pub open spec fn day_of_week(c: CivilTime) -> int {
    if c.weekday == 0 {
        7
    } else {
        c.weekday as int
    }
}

/// The day of the week of a time in a time zone, from 1 for Monday to 7 for
/// Sunday.
pub fn CFAbsoluteTimeGetDayOfWeek(
    env: &Environment,
    zone: &LocalZone,
    at: u64,
    tz: Id,
    reply: i32,
) -> (day: i32)
    ensures
        1 <= day <= 7,
        day % 7 == ns_date_formatter::civil_of(
            unix_second(at) + ns_time_zone::gmt_offset(
                env.objc.objects@,
                zone,
                tz,
                unix_second(at),
                reply,
            ),
        ).weekday,
        day == day_of_week(
            ns_date_formatter::civil_of(
                unix_second(at) + ns_time_zone::gmt_offset(
                    env.objc.objects@,
                    zone,
                    tz,
                    unix_second(at),
                    reply,
                ),
            ),
        ),
{
    let offset: i32 = cf_time_zone_offset_at(env, zone, tz, at, reply);
    let wday: i32 = gregorian_date_with_offset(at, offset).1;
    if wday == 0 {
        7
    } else {
        wday
    }
}

/// The reference date is the beginning of 2001, and a clock counts nanoseconds from it.
pub proof fn law_reference_date(unix_secs: i64, nanos: u32)
    requires
        nanos < 1_000_000_000,
    ensures
        since_reference(unix_secs, nanos) == 1_000_000_000 * (unix_secs - civil::timestamp(
            2001,
            0,
            1,
            0,
            0,
            0,
        )) + nanos,
{
    assert(civil::days_before_year(2001) == 730_485);
    assert(civil::days_before_month(2001, 1) == 0);
}

/// A time before the reference date is the negative of the one as long after it.
pub proof fn law_times_mirrored(unix_secs: i64, nanos: u32, other_secs: i64, other_nanos: u32)
    requires
        since_reference(unix_secs, nanos) == -since_reference(other_secs, other_nanos),
        since_reference(unix_secs, nanos) > 0,
    ensures
        absolute_time(other_secs, other_nanos) == absolute_time(unix_secs, nanos)
            + 0x8000_0000_0000_0000,
        unix_secs >= 978_307_200 && nanos < 1_000_000_000 ==> absolute_time(unix_secs, nanos)
            == ns_keyed_unarchiver::real_seconds((unix_secs - 978_307_200) as u64, nanos),
{
}

/// The whole second of a time is the one that it lies in, up to a limit on either side.
pub proof fn law_whole_second(at: u64)
    ensures
        doubles::magnitude(at) < doubles::INFINITE && -1_000_000_000_000_000 <= doubles::floor_of(
            at,
        ) <= 1_000_000_000_000_000 ==> unix_second(at) == doubles::floor_of(at)
            + civil::timestamp(2001, 0, 1, 0, 0, 0),
        doubles::magnitude(at) < doubles::INFINITE && doubles::floor_of(at)
            > 1_000_000_000_000_000 ==> unix_second(at) == 1_000_000_978_307_200,
        doubles::magnitude(at) < doubles::INFINITE && doubles::floor_of(at)
            < -1_000_000_000_000_000 ==> unix_second(at) == -999_999_021_692_800,
        doubles::magnitude(at) >= doubles::INFINITE ==> unix_second(at) == civil::timestamp(
            2001,
            0,
            1,
            0,
            0,
            0,
        ),
{
    law_reference_date(978_307_200, 0);
}

/// Days of the week go on from 1 to 7 and begin again, and the Unix epoch was on the fourth
/// of them, a Thursday.
pub proof fn law_day_of_week(c: CivilTime, t: int, next: CivilTime)
    requires
        civil::is_civil(c, t),
        civil::is_civil(next, t + 86_400),
    ensures
        1 <= day_of_week(c) <= 7,
        day_of_week(next) == if day_of_week(c) == 7 {
            1
        } else {
            day_of_week(c) + 1
        },
        0 <= t < 86_400 ==> day_of_week(c) == 4,
{
    civil::law_weekdays_follow(c, t, next);
}

} // verus!
