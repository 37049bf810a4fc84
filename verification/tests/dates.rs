use touchhle::civil::{
    civil_to_timestamp_i64, days_in_month, floor_div, floor_mod, is_leap_year,
    timestamp_to_calendar_date_i64,
};
use touchhle::ns_calendar::{
    add_months_local, components_between, components_from_date, date_from_components,
    local_fields, NSDateComponents, NSDayCalendarUnit, NSHourCalendarUnit, NSMonthCalendarUnit,
    NSUndefinedDateComponent, NSWeekdayCalendarUnit, NSYearCalendarUnit,
};
use touchhle::ns_date_formatter::{
    date_from_string, format_date, format_field, format_offset_digits, parse_date, parse_offset,
    parsed_date_to_unix, tokenize_date_format, LocalTime,
};
use touchhle::ns_string::from_rust_string;
use touchhle::ns_time_zone::{
    alloc_time_zone, init_with_name, kind_for_name, seconds_from_gmt_at_unix, seconds_from_gmt_for_wall_clock,
    system_time_zone, LocalZone, State,
};
use touchhle::objc::{Environment, TimeZoneKind, NIL};
use touchhle::time::{
    cf_absolute_time_now, cf_absolute_time_to_unix_floor, distance_from_reference,
    gregorian_date_with_offset,
    CFAbsoluteTimeGetDayOfWeek, CFAbsoluteTimeGetGregorianDate,
};

fn chars(s: &str) -> Vec<char> {
    s.chars().collect()
}

fn text(chars: Vec<char>) -> String {
    chars.into_iter().collect()
}

fn beijing() -> LocalZone {
    LocalZone { name: chars("Asia/Shanghai"), base_offset: 28800, transitions: vec![] }
}

/// One hour more from second 1000 to second 100000.
fn changing() -> LocalZone {
    LocalZone { name: chars("X"), base_offset: 0, transitions: vec![(1000, 3600), (100000, 0)] }
}

fn fraction(frac: f64) -> Vec<i64> {
    (0..10).map(|d| (frac * 10f64.powi(d)).floor() as i64).collect()
}

fn format(pattern: &str, unix_secs: i64, frac: f64, offset: i32) -> String {
    let tokens = tokenize_date_format(&chars(pattern));
    text(format_date(&tokens, unix_secs, fraction(frac), offset, chars("GMT+8")))
}

#[test]
fn civil_dates() {
    assert!(is_leap_year(2000) && is_leap_year(2024) && !is_leap_year(1900) && is_leap_year(0));
    assert_eq!(days_in_month(2024, 2), 29);
    assert_eq!(days_in_month(2023, 2), 28);
    assert_eq!((floor_div(-1, 60), floor_mod(-1, 60)), (-1, 59));
    let c = timestamp_to_calendar_date_i64(0);
    assert_eq!((c.year, c.month, c.day, c.weekday, c.year_day), (1970, 1, 1, 4, 0));
    let c = timestamp_to_calendar_date_i64(-1);
    assert_eq!((c.year, c.month, c.day, c.hour, c.second), (1969, 12, 31, 23, 59));
    let c = timestamp_to_calendar_date_i64(4_102_444_799);
    assert_eq!((c.year, c.month, c.day, c.year_day), (2099, 12, 31, 364));
    assert_eq!(civil_to_timestamp_i64(2001, 0, 1, 0, 0, 0), 978_307_200);
    // Fields that run over carry into the next one.
    assert_eq!(
        civil_to_timestamp_i64(2000, 12, 1, 0, 0, 0),
        civil_to_timestamp_i64(2001, 0, 1, 0, 0, 0)
    );
    for t in [-62_135_596_800, -1, 0, 951_782_400, 1_709_164_800, 253_402_300_799] {
        let c = timestamp_to_calendar_date_i64(t);
        assert_eq!(
            civil_to_timestamp_i64(c.year, c.month - 1, c.day, c.hour, c.minute, c.second),
            t
        );
    }
}

#[test]
fn dates_are_formatted() {
    // Tuesday, 2024-03-05 06:07:08 in Beijing
    let t = 1_709_590_028;
    assert_eq!(format("yyyy-MM-dd HH:mm:ss", t, 0.0, 28800), "2024-03-05 06:07:08");
    assert_eq!(format("yy/M/d h:m:s a", t, 0.0, 28800), "24/3/5 6:7:8 AM");
    assert_eq!(format("EEE EEEE MMM MMMM D", t, 0.0, 28800), "Tue Tuesday Mar March 65");
    assert_eq!(format("Z ZZZZ ZZZZZ z", t, 0.0, 28800), "+0800 GMT+08:00 +08:00 GMT+8");
    assert_eq!(format("Z ZZZZ ZZZZZ", t, 0.0, 0), "+0000 GMT Z");
    assert_eq!(format("Z", t, 0.0, -19800), "-0530");
    assert_eq!(format("ss.SSS", t, 0.25, 0), "08.250");
    assert_eq!(format("'at' ''yyyy''' o''clock'", t, 0.0, 0), "at '2024' o'clock");
    assert_eq!(format("k K", 1_709_568_000, 0.0, 0), "16 4");
    assert_eq!(format("k K h", 1_709_510_400, 0.0, 0), "24 0 12");
    assert_eq!(format("bb G", t, 0.0, 0), "bb AD");
}

#[test]
fn dates_are_parsed() {
    let parse = |pattern: &str, input: &str| {
        let tokens = tokenize_date_format(&chars(pattern));
        parse_date(&tokens, &chars(input)).map(|p| parsed_date_to_unix(&p, 28800))
    };
    assert_eq!(parse("yyyy-MM-dd HH:mm:ss", "2024-03-05 06:07:08"), Some(1_709_590_028));
    assert_eq!(parse("yyyyMMddHHmmss", "20240305060708"), Some(1_709_590_028));
    assert_eq!(parse("yyyy-MM-dd HH:mm:ss Z", "2024-03-04 22:07:08 +0000"), Some(1_709_590_028));
    assert_eq!(parse("dd MMM yyyy", "05 mar 2024"), parse("yyyy-MM-dd", "2024-03-05"));
    assert_eq!(parse("yy-M-d h a", "24-3-5 12 AM"), parse("yyyy-MM-dd", "2024-03-05"));
    assert_eq!(parse("yy-M-d h a", "24-3-5 1 PM"), parse("yyyy-MM-dd HH", "2024-03-05 13"));
    assert_eq!(parse("yy", "49"), parse("yyyy", "2049"));
    assert_eq!(parse("yy", "50"), parse("yyyy", "1950"));
    assert_eq!(parse("yyyy D", "2024 65"), parse("yyyy-MM-dd", "2024-03-05"));
    assert_eq!(parse("yyyy-MM-dd", "2023-02-29"), None);
    assert_eq!(parse("yyyy-MM-dd", "2024-02-29  "), parse("yyyy-MM-dd", "2024-02-29"));
    assert_eq!(parse("yyyy-MM-dd", "2024-02-29x"), None);
    assert_eq!(parse("yyyy-MM-dd", "2024-13-01"), None);
    assert_eq!(parse("HH:mm", "25:00"), None);
    assert_eq!(parse("w", "1"), None);
    assert_eq!(parse("EEEE d", "Wednesday 3"), parse("d", "3"));
    assert_eq!(parse("G y", "BC 2024"), parse("y", "2024"));
}

#[test]
fn written_dates_are_read_back() {
    let patterns = [
        "yyyy-MM-dd HH:mm:ss",
        "yyyyMMddHHmmss",
        "d.M.y, H 'o''clock' m s",
        "yy/MM/dd  HH-mm-ss",
        "'at 'ss:mm:HH dd-MM-yyyyyy",
    ];
    for pattern in patterns {
        let tokens = tokenize_date_format(&chars(pattern));
        for secs in [1_709_590_028i64, 0, 951_782_399, 2_000_000_000, 1_709_251_199] {
            let written = format(pattern, secs, 0.0, 28800);
            let parsed = parse_date(&tokens, &chars(&written)).unwrap();
            assert_eq!(parsed_date_to_unix(&parsed, 28800), secs, "{written}");
        }
    }
    assert_eq!(format("yyyyMMddHHmmss", 1_709_590_028, 0.0, 28800), "20240305060708");
}

#[test]
fn what_follows_a_date_decides() {
    let cases = [
        ("yyyy-MM-dd", "2024-02-29"),
        ("dd MMM yyyy ", "05 mar 2024"),
        ("yyyy MMMM", "2024 May"),
        ("yyyy h a", "2024 12 PM"),
        ("yyyy Z", "2024 GMT"),
        ("yyyy Z", "2024 +08"),
        ("yyyy'!'", "2024!"),
    ];
    for (pattern, input) in cases {
        let tokens = tokenize_date_format(&chars(pattern));
        let parse = |input: String| {
            parse_date(&tokens, &chars(&input)).map(|p| parsed_date_to_unix(&p, 28800))
        };
        let found = parse(input.to_string());
        assert!(found.is_some(), "{input}");
        assert_eq!(parse(format!("{input} ")), found);
        assert_eq!(parse(format!("{input}\t\n")), found);
        assert_eq!(parse(format!("{input}!")), None);
        assert_eq!(parse(format!("{input} ,")), None);
    }
}

#[test]
fn written_offsets_are_read_back() {
    for minutes in [-1139, -510, -1, 0, 1, 59, 60, 510, 1139] {
        for colon in [false, true] {
            let written = format_offset_digits(minutes * 60, colon);
            assert_eq!(parse_offset(&written, 0), Some((minutes * 60, written.len())));
        }
    }
    assert_eq!(text(format_offset_digits(-30600, true)), "-08:30");
}

#[test]
fn offsets_are_parsed() {
    let parse = |s: &str| parse_offset(&chars(s), 0);
    assert_eq!(parse("+0830"), Some((30600, 5)));
    assert_eq!(parse("-08:30x"), Some((-30600, 6)));
    assert_eq!(parse("GMT+8"), Some((28800, 5)));
    assert_eq!(parse("utc"), Some((0, 3)));
    assert_eq!(parse("z"), Some((0, 1)));
    assert_eq!(parse("+123"), None);
    assert_eq!(parse("+1900"), None);
    assert_eq!(parse("8"), None);
}

#[test]
fn formatter_reads_in_its_zone() {
    let mut env = Environment::new(0);
    let tz = alloc_time_zone(&mut env, NIL, TimeZoneKind::Fixed(3600));
    let found = |zone: Option<u32>| {
        date_from_string(
            &env,
            &beijing(),
            zone,
            &chars("yyyy-MM-dd"),
            &chars("1970-01-02"),
            0,
        )
        .map(|r| r.0)
    };
    assert_eq!(found(None), Some(86400 - 28800));
    assert_eq!(found(Some(tz)), Some(86400 - 3600));
}

#[test]
fn wall_clocks_at_the_ends_of_time() {
    let zone = beijing();
    assert_eq!(zone.local_utc_offset_for_wall_clock(i64::MAX), 28800);
    assert_eq!(zone.local_utc_offset_for_wall_clock(i64::MIN + 28800), 28800);
    let env = Environment::new(0x1000);
    assert_eq!(seconds_from_gmt_for_wall_clock(&env, &zone, NIL, i64::MIN, 7), 0);
}

#[test]
fn zones_change_their_offset() {
    let zone = changing();
    assert_eq!(zone.local_utc_offset_at(999), 0);
    assert_eq!(zone.local_utc_offset_at(1000), 3600);
    assert_eq!(zone.local_utc_offset_at(100000), 0);
    let mut env = Environment::new(0);
    let local = alloc_time_zone(&mut env, NIL, TimeZoneKind::Local);
    let fixed = alloc_time_zone(&mut env, NIL, TimeZoneKind::Fixed(-60));
    assert_eq!(seconds_from_gmt_at_unix(&env, &zone, local, 5000, 7), 3600);
    assert_eq!(seconds_from_gmt_at_unix(&env, &zone, fixed, 5000, 7), -60);
    assert_eq!(seconds_from_gmt_at_unix(&env, &zone, NIL, 5000, 7), 0);
    assert_eq!(seconds_from_gmt_for_wall_clock(&env, &zone, local, 8600, 7), 3600);
    assert_eq!(kind_for_name(&chars("X"), &zone, Some(5)), TimeZoneKind::Fixed(5));
    assert_eq!(kind_for_name(&chars("A/B"), &zone, None), TimeZoneKind::Fixed(0));
    assert_eq!(
        kind_for_name(&chars("Asia/Shanghai"), &beijing(), Some(5)),
        TimeZoneKind::Local
    );
    assert_eq!(
        kind_for_name(&chars("GMT+1"), &zone, Some(3600)),
        TimeZoneKind::Fixed(3600)
    );
    let name = from_rust_string(&mut env, "Asia/Shanghai".to_string());
    let named = init_with_name(&mut env, &beijing(), fixed, name, None);
    assert_eq!(named, fixed);
    assert_eq!(env.objc.objects[name as usize].retain_count, Some(2));
    assert_eq!(seconds_from_gmt_at_unix(&env, &beijing(), fixed, 0, 7), 28800);
    let unnamed = alloc_time_zone(&mut env, NIL, TimeZoneKind::Fixed(0));
    assert_eq!(init_with_name(&mut env, &beijing(), unnamed, NIL, None), NIL);
    assert!(!env.objc.is_object(unnamed));
    let mut state = State { system_time_zone: None };
    let first = system_time_zone(&mut env, &mut state, NIL);
    assert_eq!(system_time_zone(&mut env, &mut state, NIL), first);
}

#[test]
fn absolute_times() {
    assert_eq!(distance_from_reference(978_307_201, 5), (false, 1, 5));
    assert_eq!(distance_from_reference(978_307_199, 250_000_000), (true, 0, 750_000_000));
    assert_eq!(distance_from_reference(-1, 0), (true, 978_307_201, 0));
    assert_eq!(distance_from_reference(i64::MIN, 1).1, (1u64 << 63) + 978_307_199);
    let now = |secs, nanos| f64::from_bits(cf_absolute_time_now(secs, nanos));
    assert_eq!(now(978_307_200, 0), 0.0);
    assert_eq!(now(978_307_201, 500_000_000), 1.5);
    assert_eq!(now(978_307_198, 250_000_000), -1.75);
    assert_eq!(now(-10, 0), -978_307_210.0);
    let unix = |at: f64| cf_absolute_time_to_unix_floor(at.to_bits());
    assert_eq!(unix(0.0), 978_307_200);
    assert_eq!(unix(-0.5), 978_307_199);
    assert_eq!(unix(1.75), 978_307_201);
    assert_eq!(unix(f64::NAN), 978_307_200);
    assert_eq!(unix(f64::INFINITY), 978_307_200);
    assert_eq!(unix(1e300), 1_000_000_000_000_000 + 978_307_200);
    assert_eq!(unix(-1e300), -1_000_000_000_000_000 + 978_307_200);
    let (date, wday) = gregorian_date_with_offset((-1.0f64).to_bits(), 28800);
    assert_eq!((date.year, date.month, date.day), (2001, 1, 1));
    assert_eq!((date.hours, date.minutes, date.seconds, wday), (7, 59, 59, 1));
    let env = Environment::new(0);
    let at = 0.0f64.to_bits();
    let date = CFAbsoluteTimeGetGregorianDate(&env, &beijing(), at, NIL, 0);
    assert_eq!((date.year, date.month, date.day, date.hours), (2001, 1, 1, 0));
    // 2001-01-01 was a Monday.
    assert_eq!(CFAbsoluteTimeGetDayOfWeek(&env, &beijing(), at, NIL, 0), 1);
    let sunday = (-86400.0f64).to_bits();
    assert_eq!(CFAbsoluteTimeGetDayOfWeek(&env, &beijing(), sunday, NIL, 0), 7);
}

#[test]
fn calendar_components() {
    let zone = beijing();
    let t = 1_709_590_028;
    let comps = components_from_date(
        &zone,
        NSYearCalendarUnit | NSMonthCalendarUnit | NSDayCalendarUnit | NSWeekdayCalendarUnit,
        t,
    );
    assert_eq!((comps.year, comps.month, comps.day, comps.weekday), (2024, 3, 5, 3));
    assert_eq!(comps.hour, NSUndefinedDateComponent);
    assert_eq!(local_fields(&zone, t).hour, 6);
    let midnight = NSDateComponents {
        hour: NSUndefinedDateComponent,
        minute: NSUndefinedDateComponent,
        second: NSUndefinedDateComponent,
        ..comps
    };
    assert_eq!(date_from_components(&zone, &midnight), 1_709_568_000);
    // A month after January 31st is the end of February.
    let start = local_fields(&zone, 1_706_659_200);
    assert_eq!((start.month, start.day), (1, 31));
    let end = local_fields(&zone, add_months_local(&zone, &start, 1));
    assert_eq!((end.month, end.day), (2, 29));
    let between = components_between(
        &zone,
        NSYearCalendarUnit | NSMonthCalendarUnit | NSDayCalendarUnit | NSHourCalendarUnit,
        0,
        86400 * 400 + 7200,
        false,
        false,
    );
    assert_eq!((between.year, between.month, between.day, between.hour), (1, 1, 4, 2));
}

#[test]
fn fields_of_no_letters() {
    let at = |offset| LocalTime {
        civil: timestamp_to_calendar_date_i64(0),
        fraction: fraction(0.0),
        offset,
        zone_name: chars("GMT"),
    };
    let field = |c, n, offset| text(format_field(c, n, &at(offset)));
    assert_eq!((field('M', 0, 0), field('M', 1, 0)), ("January".to_string(), "1".to_string()));
    assert_eq!((field('L', 0, 0), field('L', 3, 0)), ("January".to_string(), "Jan".to_string()));
    assert_eq!((field('Z', 0, 0), field('Z', 1, 0)), ("Z".to_string(), "+0000".to_string()));
    assert_eq!(field('Z', 0, 3600), "+01:00");
    assert_eq!(field('Z', 3, 3600), "+0100");
}
