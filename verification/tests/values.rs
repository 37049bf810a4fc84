use touchhle::code_units::{parse_compare_options, NSRange};
use touchhle::string_encoding::{
    decode_units, encode_utf16, NSUTF16StringEncoding, NSUTF8StringEncoding,
};
use touchhle::string_values::{
    add_percent_escapes, all_kept, append_path_extension, bool_value,
    components_separated_by_string, int_value, is_absolute_path,
    leading_number, long_long_value, path_within_home, replace_occurrences_in_range,
    sniff_encoding, split_units, substring_from_index, substring_to_index, substring_with_range,
    trimmed_range,
};
use touchhle::text::{decimal_chars, padded_chars, parse_digits};

fn units(s: &str) -> Vec<u16> {
    s.encode_utf16().collect()
}

fn text(units: &Vec<u16>) -> String {
    String::from_utf16(units).unwrap()
}

fn chars(s: &str) -> Vec<char> {
    s.chars().collect()
}

#[test]
fn numbers_at_the_start_of_a_text() {
    assert_eq!(int_value("  42abc"), 42);
    assert_eq!(int_value("-7"), -7);
    assert_eq!(int_value("+7.9"), 7);
    assert_eq!(int_value("--7"), 0);
    assert_eq!(int_value("abc"), 0);
    assert_eq!(int_value("2147483647"), i32::MAX);
    assert_eq!(int_value("2147483648"), 0);
    assert_eq!(int_value("-2147483648"), i32::MIN);
    assert_eq!(long_long_value("9223372036854775807"), i64::MAX);
    assert_eq!(long_long_value("-9223372036854775808"), i64::MIN);
    assert_eq!(long_long_value("9223372036854775808"), 0);
    let part = leading_number(&chars(" \t-1.5e3"), true);
    assert_eq!(part.into_iter().collect::<String>(), "-1.5");
}

#[test]
fn truth_of_a_text() {
    for yes in ["YES", "y", "true", "1", "  00012", "+9", "-5"] {
        assert!(bool_value(yes), "{}", yes);
    }
    for no in ["NO", "false", "0", "000", "", "x1", "  "] {
        assert!(!bool_value(no), "{}", no);
    }
}

#[test]
fn percent_escapes() {
    let escape = |s: &str| add_percent_escapes(&s.as_bytes().to_vec());
    assert_eq!(escape("a b"), "a%20b");
    assert_eq!(escape("中"), "%E4%B8%AD");
    assert_eq!(escape("abc-_.~"), "abc-_.~");
    assert!(all_kept(&b"abc-_.~".to_vec()));
    assert!(!all_kept(&b"a b".to_vec()));
}

#[test]
fn parts_of_strings() {
    let s = units("abcdef");
    assert_eq!(text(&substring_to_index(&s, 2)), "ab");
    assert_eq!(text(&substring_from_index(&s, 4)), "ef");
    assert_eq!(text(&substring_with_range(&s, NSRange { location: 1, length: 3 })), "bcd");
    let opts = parse_compare_options(0).0;
    let (out, n) = replace_occurrences_in_range(
        &units("aaaa"),
        &units("a"),
        &units("b"),
        opts,
        NSRange { location: 1, length: 2 },
    );
    assert_eq!((text(&out), n), ("abba".to_string(), 2));
    let parts = |s: &str, sep: &str| -> Vec<String> {
        components_separated_by_string(&units(s), &units(sep)).iter().map(text).collect()
    };
    assert_eq!(parts("a,b,,c", ","), vec!["a", "b", "", "c"]);
    assert_eq!(parts("", ","), vec![""]);
    assert_eq!(parts("a--b---c", "--"), vec!["a", "b", "-c"]);
    let split = split_units(&units("a1b2"), &vec![false, true, false, true]);
    assert_eq!(split.iter().map(text).collect::<Vec<String>>(), vec!["a", "b", ""]);
    assert_eq!(trimmed_range(&vec![true, false, true, false, true, true]), (1, 4));
    assert_eq!(trimmed_range(&vec![true, true]).0, trimmed_range(&vec![true, true]).1);
}

#[test]
fn paths() {
    assert!(is_absolute_path("/a") && is_absolute_path("~/a") && !is_absolute_path("a/b"));
    assert_eq!(append_path_extension("/a/b", "txt"), "/a/b.txt");
    assert_eq!(path_within_home("~/Documents"), Some("Documents".to_string()));
    assert_eq!(path_within_home("~~foo/bar"), Some("bar".to_string()));
    assert_eq!(path_within_home("~user"), Some("".to_string()));
    assert_eq!(path_within_home("/Documents"), None);
}

#[test]
fn encodings_are_sniffed() {
    assert_eq!(sniff_encoding(&vec![0xff, 0xfe, 0x41, 0]), NSUTF16StringEncoding);
    assert_eq!(sniff_encoding(&vec![0xfe, 0xff, 0, 0x41]), NSUTF16StringEncoding);
    assert_eq!(sniff_encoding(&b"abc".to_vec()), NSUTF8StringEncoding);
}

#[test]
fn code_units_round_trip() {
    for s in ["", "abc", "中文", "x😀y"] {
        let u = encode_utf16(s);
        assert_eq!(u, units(s));
        assert_eq!(decode_units(&u), (s.to_string(), true));
    }
    let (lossy, paired) = decode_units(&vec![0x61, 0xd800, 0x62]);
    assert_eq!((lossy.as_str(), paired), ("a\u{fffd}b", false));
}

#[test]
fn decimal_numbers() {
    let s = |c: Vec<char>| c.into_iter().collect::<String>();
    assert_eq!(s(decimal_chars(0)), "0");
    assert_eq!(s(decimal_chars(u64::MAX)), "18446744073709551615");
    assert_eq!(s(padded_chars(42, 5)), "00042");
    assert_eq!(parse_digits(&chars("00042")), Some(42));
    assert_eq!(parse_digits(&chars("9223372036854775808")), None);
}
