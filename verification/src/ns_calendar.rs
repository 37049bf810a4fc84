//! `NSCalendar` and `NSDateComponents` in the Gregorian calendar.
use crate::civil;
use crate::civil::{
    civil_to_timestamp_i64, days_in_month, floor_div, floor_mod, timestamp_to_calendar_date_i64,
    CivilTime,
};
use crate::ns_date_formatter;
use crate::ns_time_zone::LocalZone;
use crate::time;
use vstd::prelude::*;

verus! {

pub const NSEraCalendarUnit: u32 = 2;

pub const NSYearCalendarUnit: u32 = 4;

pub const NSMonthCalendarUnit: u32 = 8;

pub const NSDayCalendarUnit: u32 = 16;

pub const NSHourCalendarUnit: u32 = 32;

pub const NSMinuteCalendarUnit: u32 = 64;

pub const NSSecondCalendarUnit: u32 = 128;

pub const NSWeekdayCalendarUnit: u32 = 512;

/// The value of a component that has not been set.
pub const NSUndefinedDateComponent: i32 = 0x7fff_ffff;

#[derive(Clone, Copy, Debug, PartialEq, Eq, Structural)]
pub struct NSDateComponents {
    pub era: i32,
    pub year: i32,
    pub month: i32,
    pub day: i32,
    pub hour: i32,
    pub minute: i32,
    pub second: i32,
    pub weekday: i32,
}

pub open spec fn no_components() -> NSDateComponents {
    NSDateComponents {
        era: NSUndefinedDateComponent,
        year: NSUndefinedDateComponent,
        month: NSUndefinedDateComponent,
        day: NSUndefinedDateComponent,
        hour: NSUndefinedDateComponent,
        minute: NSUndefinedDateComponent,
        second: NSUndefinedDateComponent,
        weekday: NSUndefinedDateComponent,
    }
}

impl Default for NSDateComponents {
    fn default() -> (c: NSDateComponents)
        ensures
            c == no_components(),
    {
        NSDateComponents {
            era: NSUndefinedDateComponent,
            year: NSUndefinedDateComponent,
            month: NSUndefinedDateComponent,
            day: NSUndefinedDateComponent,
            hour: NSUndefinedDateComponent,
            minute: NSUndefinedDateComponent,
            second: NSUndefinedDateComponent,
            weekday: NSUndefinedDateComponent,
        }
    }
}

/// A value where the unit was asked for, and the mark of an unset component
/// where it was not.
pub open spec fn if_asked(flags: u32, unit: u32, value: int) -> i32 {
    if flags & unit != 0 {
        value as i32
    } else {
        NSUndefinedDateComponent
    }
}

/// The components of a local time.
pub open spec fn components_of(flags: u32, c: CivilTime) -> NSDateComponents {
    NSDateComponents {
        era: if_asked(
            flags,
            NSEraCalendarUnit,
            if c.year > 0 {
                1
            } else {
                0
            },
        ),
        year: if_asked(flags, NSYearCalendarUnit, c.year as int),
        month: if_asked(flags, NSMonthCalendarUnit, c.month as int),
        day: if_asked(flags, NSDayCalendarUnit, c.day as int),
        hour: if_asked(flags, NSHourCalendarUnit, c.hour as int),
        minute: if_asked(flags, NSMinuteCalendarUnit, c.minute as int),
        second: if_asked(flags, NSSecondCalendarUnit, c.second as int),
        weekday: if_asked(flags, NSWeekdayCalendarUnit, c.weekday + 1),
    }
}

/// The seconds that the calendar functions accept.
pub open spec fn in_calendar(t: int) -> bool {
    -2_001_000_000_000_000 <= t <= 2_001_000_000_000_000
}

/// The local time of a second.
pub open spec fn local_civil(zone: &LocalZone, t: int) -> CivilTime {
    ns_date_formatter::civil_of(t + zone.offset_at(t))
}

/// The calendar fields of a second in the host's time zone.
pub fn local_fields(zone: &LocalZone, unix_secs: i64) -> (c: CivilTime)
    requires
        in_calendar(unix_secs as int),
    ensures
        c == local_civil(zone, unix_secs as int),
        civil::is_civil(c, unix_secs + zone.offset_at(unix_secs as int)),
        -64_000_000 <= c.year <= 64_000_000,
{
    let offset: i32 = zone.local_utc_offset_at(unix_secs);
    let local: i64 = unix_secs + offset as i64;
    let c = timestamp_to_calendar_date_i64(local);
    proof {
        civil::law_civil_time_is_unique(
            c,
            ns_date_formatter::civil_of(local as int),
            local as int,
            local as int,
        );
        time::lemma_year_bound(c, local as int);
    }
    c
}

/// The asked-for components of a second in the host's time zone.
pub fn components_from_date(zone: &LocalZone, unit_flags: u32, unix_secs: i64) -> (comps:
    NSDateComponents)
    requires
        in_calendar(unix_secs as int),
    ensures
        comps == components_of(unit_flags, local_civil(zone, unix_secs as int)),
{
    let c = local_fields(zone, unix_secs);
    let mut comps = NSDateComponents::default();
    if unit_flags & NSEraCalendarUnit != 0 {
        comps.era =
        if c.year > 0 {
            1
        } else {
            0
        };
    }
    if unit_flags & NSYearCalendarUnit != 0 {
        comps.year = c.year as i32;
    }
    if unit_flags & NSMonthCalendarUnit != 0 {
        comps.month = c.month as i32;
    }
    if unit_flags & NSDayCalendarUnit != 0 {
        comps.day = c.day as i32;
    }
    if unit_flags & NSHourCalendarUnit != 0 {
        comps.hour = c.hour as i32;
    }
    if unit_flags & NSMinuteCalendarUnit != 0 {
        comps.minute = c.minute as i32;
    }
    if unit_flags & NSSecondCalendarUnit != 0 {
        comps.second = c.second as i32;
    }
    if unit_flags & NSWeekdayCalendarUnit != 0 {
        comps.weekday = (c.weekday + 1) as i32;
    }
    comps
}

/// The second of a wall-clock time in the host's time zone.
pub open spec fn wall_to_unix(
    zone: &LocalZone,
    year: int,
    month: int,
    day: int,
    hour: int,
    minute: int,
    second: int,
) -> int {
    let local = civil::timestamp(year, month - 1, day, hour, minute, second);
    local - zone.wall_offset(local)
}

pub fn local_wall_clock_to_unix(
    zone: &LocalZone,
    year: i64,
    month: i64,
    day: i64,
    hour: i64,
    minute: i64,
    second: i64,
) -> (t: i64)
    requires
        -0x8000_0000 <= year <= 0x8000_0000,
        -0x8000_0000 <= month <= 0x8000_0000,
        -0x8000_0000 <= day <= 0x8000_0000,
        -0x8000_0000 <= hour <= 0x8000_0000,
        -0x8000_0000 <= minute <= 0x8000_0000,
        -0x8000_0000 <= second <= 0x8000_0000,
    ensures
        t == wall_to_unix(
            zone,
            year as int,
            month as int,
            day as int,
            hour as int,
            minute as int,
            second as int,
        ),
{
    let local: i64 = civil_to_timestamp_i64(year, month - 1, day, hour, minute, second);
    proof {
        lemma_timestamp_bound(
            year as int,
            month - 1,
            day as int,
            hour as int,
            minute as int,
            second as int,
        );
    }
    local - zone.local_utc_offset_for_wall_clock(local) as i64
}

proof fn lemma_timestamp_bound(
    year: int,
    month0: int,
    day: int,
    hour: int,
    minute: int,
    second: int,
)
    requires
        -0x8000_0000 <= year <= 0x8000_0000,
        -0x8000_0001 <= month0 <= 0x8000_0000,
        -0x8000_0000 <= day <= 0x8000_0000,
        -0x8000_0000 <= hour <= 0x8000_0000,
        -0x8000_0000 <= minute <= 0x8000_0000,
        -0x8000_0000 <= second <= 0x8000_0000,
    ensures
        -0x2000_0000_0000_0000 <= civil::timestamp(
            year,
            month0,
            day,
            hour,
            minute,
            second,
        ) <= 0x2000_0000_0000_0000,
{
    civil::lemma_days_before_month(year + month0 / 12, month0 % 12 + 1);
}

pub open spec fn or_default(v: i32, default: int) -> int {
    if v == NSUndefinedDateComponent {
        default
    } else {
        v as int
    }
}

fn component_or(v: i32, default: i64) -> (r: i64)
    ensures
        r == or_default(v, default as int),
{
    if v == NSUndefinedDateComponent {
        default
    } else {
        v as i64
    }
}

/// The second that components stand for; unset ones count as the first of
/// January of the year 1 at midnight.
pub open spec fn second_of(zone: &LocalZone, comps: NSDateComponents) -> int {
    wall_to_unix(
        zone,
        or_default(comps.year, 1),
        or_default(comps.month, 1),
        or_default(comps.day, 1),
        or_default(comps.hour, 0),
        or_default(comps.minute, 0),
        or_default(comps.second, 0),
    )
}

/// The second that components stand for.
pub fn date_from_components(zone: &LocalZone, comps: &NSDateComponents) -> (t: i64)
    ensures
        t == second_of(zone, *comps),
{
    local_wall_clock_to_unix(
        zone,
        component_or(comps.year, 1),
        component_or(comps.month, 1),
        component_or(comps.day, 1),
        component_or(comps.hour, 0),
        component_or(comps.minute, 0),
        component_or(comps.second, 0),
    )
}

/// The same wall-clock time some months later, with the day held to the length
/// of the month.
#[verifier::opaque]
pub open spec fn months_later(zone: &LocalZone, start: CivilTime, months: int) -> int {
    let month0 = start.month - 1 + months;
    let year = start.year + month0 / 12;
    let month = month0 % 12 + 1;
    let length = civil::month_length(year, month);
    wall_to_unix(
        zone,
        year,
        month,
        if start.day < length {
            start.day as int
        } else {
            length
        },
        start.hour as int,
        start.minute as int,
        start.second as int,
    )
}

pub open spec fn small_civil(c: CivilTime) -> bool {
    &&& -64_000_000 <= c.year <= 64_000_000
    &&& 1 <= c.month <= 12
    &&& 1 <= c.day <= 31
    &&& 0 <= c.hour < 24
    &&& 0 <= c.minute < 60
    &&& 0 <= c.second < 60
}

pub fn add_months_local(zone: &LocalZone, start: &CivilTime, months: i64) -> (t: i64)
    requires
        small_civil(*start),
        0 <= months <= 1_600_000_000,
    ensures
        t == months_later(zone, *start, months as int),
{
    proof {
        reveal(months_later);
    }
    let month0: i64 = start.month - 1 + months;
    let year: i64 = start.year + floor_div(month0, 12);
    let month: i64 = floor_mod(month0, 12) + 1;
    let length: i64 = days_in_month(year, month);
    let day: i64 = if start.day < length {
        start.day
    } else {
        length
    };
    local_wall_clock_to_unix(zone, year, month, day, start.hour, start.minute, start.second)
}

/// The largest number of whole months, at most `months`, that lies between the
/// two times; `later_fraction` says that the fraction of the second is larger
/// at the start.
pub open spec fn whole_months(
    zone: &LocalZone,
    from: CivilTime,
    to: int,
    later_fraction: bool,
    months: int,
) -> int
    decreases months,
{
    if months <= 0 {
        0
    } else {
        let reached = months_later(zone, from, months);
        if reached > to || (reached == to && later_fraction) {
            whole_months(zone, from, to, later_fraction, months - 1)
        } else {
            months
        }
    }
}

pub open spec fn at_least_zero(v: int) -> int {
    if v < 0 {
        0
    } else {
        v
    }
}

/// How often a unit goes into what is left, held to the range of components.
pub open spec fn unit_count(left: int, secs: int) -> int {
    if left / secs > 0x7fff_fffe {
        0x7fff_fffe
    } else {
        left / secs
    }
}

pub open spec fn left_over(flags: u32, unit: u32, left: int, secs: int) -> int {
    if flags & unit != 0 {
        left % secs
    } else {
        left
    }
}

pub open spec fn negated(v: i32, negative: bool) -> i32 {
    if negative && v != NSUndefinedDateComponent {
        (-v) as i32
    } else {
        v
    }
}

/// Years and months between two seconds as far as they are asked for, and the
/// second from which the smaller units count.
pub open spec fn month_part(
    zone: &LocalZone,
    flags: u32,
    from: int,
    to: int,
    later_fraction: bool,
) -> (int, int, int) {
    let from_civil = local_civil(zone, from);
    let to_civil = local_civil(zone, to);
    let months = whole_months(
        zone,
        from_civil,
        to,
        later_fraction,
        (to_civil.year - from_civil.year) * 12 + (to_civil.month - from_civil.month),
    );
    let years = if flags & NSYearCalendarUnit != 0 {
        months / 12
    } else {
        0
    };
    let rest = if flags & NSMonthCalendarUnit != 0 {
        months - 12 * years
    } else {
        0
    };
    if flags & NSYearCalendarUnit != 0 || flags & NSMonthCalendarUnit != 0 {
        (years, rest, months_later(zone, from_civil, 12 * years + rest))
    } else {
        (0, 0, from)
    }
}

/// The time between two seconds in calendar units, where `from` is the earlier
/// one. The result is negated if the caller's dates were the other way round.
pub open spec fn difference(
    zone: &LocalZone,
    flags: u32,
    from: int,
    to: int,
    later_fraction: bool,
    negative: bool,
) -> NSDateComponents {
    let (years, rest, start) = month_part(zone, flags, from, to, later_fraction);
    let left0 = at_least_zero(
        to - start - if later_fraction {
            1int
        } else {
            0
        },
    );
    let left1 = left_over(flags, NSDayCalendarUnit, left0, 86_400);
    let left2 = left_over(flags, NSHourCalendarUnit, left1, 3600);
    let left3 = left_over(flags, NSMinuteCalendarUnit, left2, 60);
    NSDateComponents {
        era: NSUndefinedDateComponent,
        year: negated(if_asked(flags, NSYearCalendarUnit, years), negative),
        month: negated(if_asked(flags, NSMonthCalendarUnit, rest), negative),
        day: negated(if_asked(flags, NSDayCalendarUnit, unit_count(left0, 86_400)), negative),
        hour: negated(if_asked(flags, NSHourCalendarUnit, unit_count(left1, 3600)), negative),
        minute: negated(if_asked(flags, NSMinuteCalendarUnit, unit_count(left2, 60)), negative),
        second: negated(if_asked(flags, NSSecondCalendarUnit, unit_count(left3, 1)), negative),
        weekday: NSUndefinedDateComponent,
    }
}

/// One unit of the time that is left: its count, and what remains.
fn take_unit(flags: u32, unit: u32, left: i64, secs: i64) -> (r: (i32, i64))
    requires
        0 <= left,
        0 < secs,
    ensures
        r.0 == if_asked(flags, unit, unit_count(left as int, secs as int)),
        r.1 == left_over(flags, unit, left as int, secs as int),
        0 <= r.1 <= left,
        r.0 >= 0,
{
    if flags & unit != 0 {
        proof {
            vstd::arithmetic::div_mod::lemma_div_pos_is_pos(left as int, secs as int);
            vstd::arithmetic::div_mod::lemma_mod_decreases(left as nat, secs as nat);
        }
        let n: i64 = left / secs;
        (
            if n > 0x7fff_fffe {
                0x7fff_fffe
            } else {
                n as i32
            },
            left % secs,
        )
    } else {
        (NSUndefinedDateComponent, left)
    }
}

fn negate(v: i32, negative: bool) -> (r: i32)
    requires
        v > i32::MIN,
    ensures
        r == negated(v, negative),
{
    if negative && v != NSUndefinedDateComponent {
        -v
    } else {
        v
    }
}

/// Whole months between two local times.
fn months_between(
    zone: &LocalZone,
    from: &CivilTime,
    to: &CivilTime,
    to_unix: i64,
    later_fraction: bool,
) -> (months: i64)
    requires
        small_civil(*from),
        small_civil(*to),
    ensures
        months == whole_months(
            zone,
            *from,
            to_unix as int,
            later_fraction,
            (to.year - from.year) * 12 + (to.month - from.month),
        ),
        0 <= months <= 1_600_000_000,
{
    let first: i64 = (to.year - from.year) * 12 + (to.month - from.month);
    let mut months: i64 = first;
    while months > 0
        invariant
            small_civil(*from),
            first <= 1_600_000_000,
            first == (to.year - from.year) * 12 + (to.month - from.month),
            months <= first,
            whole_months(zone, *from, to_unix as int, later_fraction, months as int)
                == whole_months(zone, *from, to_unix as int, later_fraction, first as int),
        decreases months,
    {
        let reached: i64 = add_months_local(zone, from, months);
        if reached > to_unix || (reached == to_unix && later_fraction) {
            months = months - 1;
        } else {
            return months;
        }
    }
    0
}

/// The years and months between two seconds, and the second from which the
/// smaller units count.
fn split_months(
    zone: &LocalZone,
    unit_flags: u32,
    from_unix: i64,
    to_unix: i64,
    later_fraction: bool,
) -> (r: (i32, i32, i64))
    requires
        in_calendar(from_unix as int),
        in_calendar(to_unix as int),
    ensures
        (r.0 as int, r.1 as int, r.2 as int) == month_part(
            zone,
            unit_flags,
            from_unix as int,
            to_unix as int,
            later_fraction,
        ),
        0 <= r.0,
        0 <= r.1,
        -0x3000_0000_0000_0000 <= r.2 <= 0x3000_0000_0000_0000,
{
    let by_year: bool = unit_flags & NSYearCalendarUnit != 0;
    let by_month: bool = unit_flags & NSMonthCalendarUnit != 0;
    if !by_year && !by_month {
        return (0, 0, from_unix);
    }
    let from = local_fields(zone, from_unix);
    let to = local_fields(zone, to_unix);
    let months: i64 = months_between(zone, &from, &to, to_unix, later_fraction);
    let years: i64 = if by_year {
        months / 12
    } else {
        0
    };
    let rest: i64 = if by_month {
        months - years * 12
    } else {
        0
    };
    proof {
        lemma_months_later_bound(zone, from, years * 12 + rest);
        lemma_whole_months_bound(
            zone,
            from,
            to_unix as int,
            later_fraction,
            (to.year - from.year) * 12 + (to.month - from.month),
        );
    }
    (years as i32, rest as i32, add_months_local(zone, &from, years * 12 + rest))
}

proof fn lemma_whole_months_bound(
    zone: &LocalZone,
    from: CivilTime,
    to: int,
    later_fraction: bool,
    months: int,
)
    ensures
        0 <= whole_months(zone, from, to, later_fraction, months) <= at_least_zero(months),
    decreases months,
{
    if months > 0 {
        lemma_whole_months_bound(zone, from, to, later_fraction, months - 1);
    }
}

pub fn components_between(
    zone: &LocalZone,
    unit_flags: u32,
    from_unix: i64,
    to_unix: i64,
    later_fraction: bool,
    negative: bool,
) -> (comps: NSDateComponents)
    requires
        in_calendar(from_unix as int),
        in_calendar(to_unix as int),
    ensures
        comps == difference(
            zone,
            unit_flags,
            from_unix as int,
            to_unix as int,
            later_fraction,
            negative,
        ),
{
    let (years, rest, cursor): (i32, i32, i64) = split_months(
        zone,
        unit_flags,
        from_unix,
        to_unix,
        later_fraction,
    );
    let mut left: i64 = to_unix - cursor - (if later_fraction {
        1
    } else {
        0
    });
    if left < 0 {
        left = 0;
    }
    let (day, left1): (i32, i64) = take_unit(unit_flags, NSDayCalendarUnit, left, 86_400);
    let (hour, left2): (i32, i64) = take_unit(unit_flags, NSHourCalendarUnit, left1, 3600);
    let (minute, left3): (i32, i64) = take_unit(unit_flags, NSMinuteCalendarUnit, left2, 60);
    let (second, left4): (i32, i64) = take_unit(unit_flags, NSSecondCalendarUnit, left3, 1);
    let mut comps = NSDateComponents::default();
    if unit_flags & NSYearCalendarUnit != 0 {
        comps.year = negate(years, negative);
    }
    if unit_flags & NSMonthCalendarUnit != 0 {
        comps.month = negate(rest, negative);
    }
    comps.day = negate(day, negative);
    comps.hour = negate(hour, negative);
    comps.minute = negate(minute, negative);
    comps.second = negate(second, negative);
    comps
}

proof fn lemma_months_later_bound(zone: &LocalZone, from: CivilTime, months: int)
    requires
        small_civil(from),
        0 <= months <= 1_600_000_000,
    ensures
        -0x3000_0000_0000_0000 <= months_later(zone, from, months) <= 0x3000_0000_0000_0000,
{
    reveal(months_later);
    let month0 = from.month - 1 + months;
    let year = from.year + month0 / 12;
    let month = month0 % 12 + 1;
    let length = civil::month_length(year, month);
    lemma_timestamp_bound(
        year,
        month - 1,
        if from.day < length {
            from.day as int
        } else {
            length
        },
        from.hour as int,
        from.minute as int,
        from.second as int,
    );
}

/// The components of a second, all of them asked for, stand for that second
/// again, where the zone's offset does not change nearby.
pub proof fn law_components_round_trip(zone: &LocalZone, t: int, comps: NSDateComponents)
    requires
        in_calendar(t),
        civil::is_civil(local_civil(zone, t), t + zone.offset_at(t)),
        -64_000_000 <= local_civil(zone, t).year <= 64_000_000,
        comps == components_of(0x3fe, local_civil(zone, t)),
        zone.offset_at(t) == zone.offset_at(t + zone.offset_at(t)),
    ensures
        wall_to_unix(
            zone,
            or_default(comps.year, 1),
            or_default(comps.month, 1),
            or_default(comps.day, 1),
            or_default(comps.hour, 0),
            or_default(comps.minute, 0),
            or_default(comps.second, 0),
        ) == t,
{
    assert(0x3feu32 & 4 != 0 && 0x3feu32 & 8 != 0 && 0x3feu32 & 16 != 0 && 0x3feu32 & 32 != 0
        && 0x3feu32 & 64 != 0 && 0x3feu32 & 128 != 0) by (bit_vector);
    civil::law_civil_round_trip(local_civil(zone, t), t + zone.offset_at(t));
}

/// A component counts as it is, and one that is not set as the first one of its unit: the
/// year 1, January, the first day, and midnight.
pub proof fn law_components_count(
    zone: &LocalZone,
    year: i32,
    month: i32,
    day: i32,
    hour: i32,
    minute: i32,
    second: i32,
    era: i32,
    weekday: i32,
)
    ensures
        ({
            let comps = NSDateComponents { era, year, month, day, hour, minute, second, weekday };
            second_of(zone, comps) == wall_to_unix(
                zone,
                if year == 0x7fff_ffff {
                    1
                } else {
                    year as int
                },
                if month == 0x7fff_ffff {
                    1
                } else {
                    month as int
                },
                if day == 0x7fff_ffff {
                    1
                } else {
                    day as int
                },
                if hour == 0x7fff_ffff {
                    0
                } else {
                    hour as int
                },
                if minute == 0x7fff_ffff {
                    0
                } else {
                    minute as int
                },
                if second == 0x7fff_ffff {
                    0
                } else {
                    second as int
                },
            )
        }),
{
}

/// The wall clock shows a second where the offset of the zone has been added to it: each
/// unit of a wall-clock time counts as many seconds as it has.
pub proof fn law_wall_clock_counts(
    zone: &LocalZone,
    year: int,
    month: int,
    day: int,
    hour: int,
    minute: int,
    second: int,
    offset: int,
)
    requires
        forall|t: int| #[trigger] zone.offset_at(t) == offset,
    ensures
        wall_to_unix(zone, year, month, day, hour, minute, second) == wall_to_unix(
            zone,
            year,
            month,
            1,
            0,
            0,
            0,
        ) + 86_400 * (day - 1) + 3600 * hour + 60 * minute + second,
        wall_to_unix(zone, year, month + 12, day, hour, minute, second) == wall_to_unix(
            zone,
            year + 1,
            month,
            day,
            hour,
            minute,
            second,
        ),
        wall_to_unix(zone, 1970, 1, 1, 0, 0, 0) == -offset,
{
    civil::law_timestamp_counts(year, month - 1, day, hour, minute, second);
    let here = civil::timestamp(year, month - 1, day, hour, minute, second);
    let there = civil::timestamp(year, month - 1, 1, 0, 0, 0);
    let later = civil::timestamp(year, month + 12 - 1, day, hour, minute, second);
    let epoch = civil::timestamp(1970, 0, 1, 0, 0, 0);
    assert(zone.offset_at(here - zone.offset_at(here)) == offset && zone.offset_at(
        there - zone.offset_at(there),
    ) == offset && zone.offset_at(later - zone.offset_at(later)) == offset && zone.offset_at(
        epoch - zone.offset_at(epoch),
    ) == offset && zone.offset_at(here) == offset && zone.offset_at(there) == offset
        && zone.offset_at(later) == offset && zone.offset_at(epoch) == offset);
}

/// Whether a unit is asked for.
pub open spec fn asks(flags: u32, unit: u32) -> bool {
    unit > 0 && flags / unit % 2 == 1
}

proof fn lemma_asks(flags: u32)
    ensures
        flags & 2 != 0 <==> asks(flags, 2),
        flags & 4 != 0 <==> asks(flags, 4),
        flags & 8 != 0 <==> asks(flags, 8),
        flags & 16 != 0 <==> asks(flags, 16),
        flags & 32 != 0 <==> asks(flags, 32),
        flags & 64 != 0 <==> asks(flags, 64),
        flags & 128 != 0 <==> asks(flags, 128),
        flags & 512 != 0 <==> asks(flags, 512),
{
    assert((flags & 2 != 0 <==> flags / 2 % 2 == 1) && (flags & 4 != 0 <==> flags / 4 % 2 == 1) && (
    flags & 8 != 0 <==> flags / 8 % 2 == 1) && (flags & 16 != 0 <==> flags / 16 % 2 == 1) && (flags
        & 32 != 0 <==> flags / 32 % 2 == 1) && (flags & 64 != 0 <==> flags / 64 % 2 == 1) && (flags
        & 128 != 0 <==> flags / 128 % 2 == 1) && (flags & 512 != 0 <==> flags / 512 % 2 == 1))
        by (bit_vector);
}

/// The components of a local time are its fields where they are asked for, and else not
/// set. Days of the week count from Sunday, which is 1, and years after the year 0 belong
/// to the era 1.
pub proof fn law_components(flags: u32, c: CivilTime)
    requires
        small_civil(c),
        0 <= c.weekday < 7,
    ensures
        ({
            let comps = components_of(flags, c);
            &&& comps.era == if !asks(flags, 2) {
                0x7fff_ffff
            } else if c.year >= 1 {
                1
            } else {
                0int
            }
            &&& comps.year == if asks(flags, 4) {
                c.year as int
            } else {
                0x7fff_ffff
            }
            &&& comps.month == if asks(flags, 8) {
                c.month as int
            } else {
                0x7fff_ffff
            }
            &&& comps.day == if asks(flags, 16) {
                c.day as int
            } else {
                0x7fff_ffff
            }
            &&& comps.hour == if asks(flags, 32) {
                c.hour as int
            } else {
                0x7fff_ffff
            }
            &&& comps.minute == if asks(flags, 64) {
                c.minute as int
            } else {
                0x7fff_ffff
            }
            &&& comps.second == if asks(flags, 128) {
                c.second as int
            } else {
                0x7fff_ffff
            }
            &&& comps.weekday == if asks(flags, 512) {
                c.weekday + 1
            } else {
                0x7fff_ffff
            }
        }),
{
    lemma_asks(flags);
}

/// The units that a difference has been split into, and what is left of it below them.
pub open spec fn counted(flags: u32, comps: NSDateComponents) -> int {
    (if asks(flags, 16) {
        86_400 * comps.day
    } else {
        0
    }) + (if asks(flags, 32) {
        3600 * comps.hour
    } else {
        0
    }) + (if asks(flags, 64) {
        60 * comps.minute
    } else {
        0
    }) + if asks(flags, 128) {
        comps.second as int
    } else {
        0
    }
}

/// The components of a difference add up to it: days, hours, minutes and seconds, as far
/// as they are asked for, leave less than the smallest of these units over, and each of them
/// is less than the next larger one that is asked for. A second that is not whole does not
/// count. Units that are not asked for are not set.
pub proof fn law_difference_adds_up(
    zone: &LocalZone,
    flags: u32,
    from: int,
    to: int,
    later_fraction: bool,
)
    requires
        ({
            let start = month_part(zone, flags, from, to, later_fraction).2;
            start <= to <= start + 0x7fff_fffe
        }),
    ensures
        ({
            let start = month_part(zone, flags, from, to, later_fraction).2;
            let comps = difference(zone, flags, from, to, later_fraction, false);
            let total = if later_fraction && to > start {
                to - start - 1
            } else {
                to - start
            };
            let over = total - counted(flags, comps);
            &&& over >= 0
            &&& asks(flags, 128) ==> over == 0
            &&& asks(flags, 64) ==> over < 60
            &&& asks(flags, 32) ==> over < 3600
            &&& asks(flags, 16) ==> over < 86_400
            &&& asks(flags, 16) ==> 0 <= comps.day
            &&& asks(flags, 32) ==> 0 <= comps.hour && (asks(flags, 16) ==> comps.hour < 24)
            &&& asks(flags, 64) ==> 0 <= comps.minute && (asks(flags, 32) ==> comps.minute < 60)
                && (asks(flags, 16) ==> comps.minute < 1440)
            &&& asks(flags, 128) ==> 0 <= comps.second && (asks(flags, 64) ==> comps.second < 60)
                && (asks(flags, 32) ==> comps.second < 3600) && (asks(flags, 16) ==> comps.second
                < 86_400)
            &&& !asks(flags, 16) ==> comps.day == 0x7fff_ffff
            &&& !asks(flags, 32) ==> comps.hour == 0x7fff_ffff
            &&& !asks(flags, 64) ==> comps.minute == 0x7fff_ffff
            &&& !asks(flags, 128) ==> comps.second == 0x7fff_ffff
            &&& comps.era == 0x7fff_ffff && comps.weekday == 0x7fff_ffff
        }),
{
    lemma_asks(flags);
}

/// Where no years and months are asked for, the smaller units count from the start.
pub proof fn law_difference_without_months(
    zone: &LocalZone,
    flags: u32,
    from: int,
    to: int,
    later_fraction: bool,
)
    requires
        !asks(flags, 4),
        !asks(flags, 8),
    ensures
        month_part(zone, flags, from, to, later_fraction) == (0int, 0int, from),
{
    lemma_asks(flags);
}

/// A difference the other way round has the same components with the other sign.
pub proof fn law_difference_negated(
    zone: &LocalZone,
    flags: u32,
    from: int,
    to: int,
    later_fraction: bool,
)
    ensures
        ({
            let comps = difference(zone, flags, from, to, later_fraction, false);
            let other = difference(zone, flags, from, to, later_fraction, true);
            let start = month_part(zone, flags, from, to, later_fraction).2;
            &&& asks(flags, 16) && to - start <= 0x7fff_fffe ==> other.day == -comps.day
            &&& asks(flags, 32) && to - start <= 0x7fff_fffe ==> other.hour == -comps.hour
            &&& asks(flags, 64) && to - start <= 0x7fff_fffe ==> other.minute == -comps.minute
            &&& asks(flags, 128) && to - start <= 0x7fff_fffe ==> other.second == -comps.second
            &&& !asks(flags, 16) ==> other.day == comps.day
            &&& !asks(flags, 32) ==> other.hour == comps.hour
            &&& !asks(flags, 64) ==> other.minute == comps.minute
            &&& !asks(flags, 128) ==> other.second == comps.second
            &&& asks(flags, 4) && -0x7fff_ffff <= comps.year < 0x7fff_ffff ==> other.year
                == -comps.year
            &&& asks(flags, 8) && -0x7fff_ffff <= comps.month < 0x7fff_ffff ==> other.month
                == -comps.month
        }),
{
    lemma_asks(flags);
}

/// Whole months are counted up to the end: so many months later it is not past the end,
/// and any greater number of months that could be meant goes past it. Twelve months make a
/// year where years are asked for.
pub proof fn law_months_are_whole(
    zone: &LocalZone,
    flags: u32,
    from: int,
    to: int,
    later_fraction: bool,
    more: int,
)
    requires
        asks(flags, 4) || asks(flags, 8),
    ensures
        ({
            let start = local_civil(zone, from);
            let end = local_civil(zone, to);
            let most = (end.year - start.year) * 12 + (end.month - start.month);
            let (years, rest, cursor) = month_part(zone, flags, from, to, later_fraction);
            let months = whole_months(zone, start, to, later_fraction, most);
            &&& 0 <= months
            &&& most >= 0 ==> months <= most
            &&& months > 0 ==> months_later(zone, start, months) <= to && (later_fraction
                ==> months_later(zone, start, months) < to)
            &&& months < more <= most ==> months_later(zone, start, more) > to || (later_fraction
                && months_later(zone, start, more) == to)
            &&& asks(flags, 4) && asks(flags, 8) ==> 12 * years + rest == months && 0 <= rest < 12
            &&& asks(flags, 4) && !asks(flags, 8) ==> rest == 0 && 12 * years <= months < 12 * years
                + 12
            &&& !asks(flags, 4) && asks(flags, 8) ==> years == 0 && rest == months
            &&& cursor == months_later(zone, start, 12 * years + rest)
        }),
{
    lemma_asks(flags);
    let start = local_civil(zone, from);
    let end = local_civil(zone, to);
    let most = (end.year - start.year) * 12 + (end.month - start.month);
    lemma_whole_months(zone, start, to, later_fraction, most, more);
}

proof fn lemma_whole_months(
    zone: &LocalZone,
    start: CivilTime,
    to: int,
    later_fraction: bool,
    most: int,
    more: int,
)
    ensures
        ({
            let months = whole_months(zone, start, to, later_fraction, most);
            &&& 0 <= months
            &&& most >= 0 ==> months <= most
            &&& months > 0 ==> months_later(zone, start, months) <= to && (later_fraction
                ==> months_later(zone, start, months) < to)
            &&& months < more <= most ==> months_later(zone, start, more) > to || (later_fraction
                && months_later(zone, start, more) == to)
        }),
    decreases most,
{
    if most > 0 {
        lemma_whole_months(zone, start, to, later_fraction, most - 1, more);
    }
}

/// Some months later it is the same time of the same day, or of the last day of a month
/// that has no such day.
pub proof fn law_months_later(zone: &LocalZone, start: CivilTime, months: int, year: int, month: int)
    requires
        1 <= month <= 12,
        12 * year + month == 12 * start.year + start.month + months,
    ensures
        ({
            let last: int = if month == 2 {
                if year % 4 == 0 && (year % 100 != 0 || year % 400 == 0) {
                    29
                } else {
                    28
                }
            } else if month == 4 || month == 6 || month == 9 || month == 11 {
                30
            } else {
                31
            };
            months_later(zone, start, months) == wall_to_unix(
                zone,
                year,
                month,
                if start.day <= last {
                    start.day as int
                } else {
                    last
                },
                start.hour as int,
                start.minute as int,
                start.second as int,
            )
        }),
{
    reveal(months_later);
}

} // verus!
