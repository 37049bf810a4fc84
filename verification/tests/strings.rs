use std::cmp::Ordering;
use touchhle::code_units::{
    compare_code_units, find_code_units, line_range_helper, parse_compare_options,
    replace_code_units, CompareOptions, NSAnchoredSearch, NSBackwardsSearch,
    NSCaseInsensitiveSearch, NSForcedOrderingSearch, NSLiteralSearch, NSNumericSearch, NSRange,
    NSRegularExpressionSearch,
};
use touchhle::objc::StringHostObject;
use touchhle::string_encoding::{
    encode_for_data, encode_str, legacy_encoding_for, nul_terminator_size, NSASCIIStringEncoding,
    NSGB18030StringEncoding, NSISOLatin1StringEncoding, NSUTF16BigEndianStringEncoding,
    NSUTF16LittleEndianStringEncoding, NSUTF16StringEncoding, NSUTF32LittleEndianStringEncoding,
    NSUTF32StringEncoding, NSUTF8StringEncoding,
};

fn u16s(s: &str) -> Vec<u16> {
    s.encode_utf16().collect()
}

#[test]
fn linerange_tests() {
    let range = |x, y| NSRange { location: x, length: y };
    let str1: Vec<u16> = "abcd\nab".encode_utf16().collect();
    assert!(line_range_helper(&str1, range(5, 1), true, true) == (5, 7, 7));
    assert!(line_range_helper(&str1, range(4, 1), true, true) == (0, 5, 4));

    let str2: Vec<u16> = "abc\r".encode_utf16().collect();
    assert!(line_range_helper(&str2, range(4, 0), true, true) == (4, 4, 4));
    assert!(line_range_helper(&str2, range(3, 1), true, true) == (0, 4, 3));

    let str3: Vec<u16> = "abc\r\nab".encode_utf16().collect();
    assert!(line_range_helper(&str3, range(4, 0), true, true) == (0, 5, 3));
    assert!(line_range_helper(&str3, range(4, 1), true, true) == (0, 5, 3));
    assert!(line_range_helper(&str3, range(6, 1), true, true) == (5, 7, 7));
    assert!(line_range_helper(&str3, range(4, 2), true, true) == (0, 7, 7));

    let str4: Vec<u16> = "\r\n".encode_utf16().collect();
    assert!(line_range_helper(&str4, range(1, 0), true, true) == (0, 2, 0));
    assert!(line_range_helper(&str4, range(1, 1), true, true) == (0, 2, 0));
    assert!(line_range_helper(&str4, range(0, 0), true, true) == (0, 2, 0));

    let str5: Vec<u16> = "abcd\na\n".encode_utf16().collect();
    assert!(line_range_helper(&str5, range(6, 1), true, true) == (5, 7, 6));
    assert!(line_range_helper(&str5, range(4, 1), true, true) == (0, 5, 4));
}

#[test]
fn compare_options_bits() {
    let (opts, unknown) = parse_compare_options(NSCaseInsensitiveSearch | NSBackwardsSearch);
    assert!(opts.case_insensitive && opts.backwards && !opts.anchored && !opts.numeric);
    assert_eq!(unknown, 0);
    let (opts, unknown) = parse_compare_options(NSLiteralSearch);
    assert_eq!(opts, CompareOptions::default());
    assert_eq!(unknown, 0);
    let (_, unknown) = parse_compare_options(NSRegularExpressionSearch | NSCaseInsensitiveSearch);
    assert_eq!(unknown, NSRegularExpressionSearch);
}

#[test]
fn range_search_options() {
    let hay = u16s("abcABCabc");
    let opts = |o| parse_compare_options(o).0;
    assert_eq!(find_code_units(&hay, &u16s("ABC"), opts(0)), Some(3));
    assert_eq!(find_code_units(&hay, &u16s("ABC"), opts(NSCaseInsensitiveSearch)), Some(0));
    assert_eq!(find_code_units(&hay, &u16s("ABC"), opts(5)), Some(6));
    assert_eq!(find_code_units(&hay, &u16s("abc"), opts(NSAnchoredSearch)), Some(0));
    assert_eq!(find_code_units(&hay, &u16s("ABC"), opts(NSAnchoredSearch)), None);
    assert_eq!(
        find_code_units(&hay, &u16s("abc"), opts(NSAnchoredSearch | NSBackwardsSearch)),
        Some(6)
    );
    assert_eq!(find_code_units(&hay, &u16s("zzz"), opts(0)), None);
    assert_eq!(find_code_units(&hay, &[], opts(0)), None);
    let emoji = u16s("x😀y");
    assert_eq!(find_code_units(&emoji, &u16s("😀"), opts(NSCaseInsensitiveSearch)), Some(1));
}

#[test]
fn compare_with_combined_options() {
    let opts = |o| parse_compare_options(o).0;
    assert_eq!(
        compare_code_units(&u16s("a2"), &u16s("a10"), opts(NSNumericSearch)),
        Ordering::Less
    );
    assert_eq!(compare_code_units(&u16s("a2"), &u16s("a10"), opts(0)), Ordering::Greater);
    assert_eq!(
        compare_code_units(&u16s("File2"), &u16s("file10"), opts(0x41)),
        Ordering::Less
    );
    assert_eq!(compare_code_units(&u16s("v9"), &u16s("v10"), opts(0x44)), Ordering::Less);
    assert_eq!(
        compare_code_units(&u16s("ABC"), &u16s("abc"), opts(NSCaseInsensitiveSearch)),
        Ordering::Equal
    );
    assert_eq!(
        compare_code_units(
            &u16s("ABC"),
            &u16s("abc"),
            opts(NSCaseInsensitiveSearch | NSForcedOrderingSearch)
        ),
        Ordering::Less
    );
    assert_eq!(
        compare_code_units(
            &u16s("99999999999999999999"),
            &u16s("100000000000000000000"),
            opts(NSNumericSearch)
        ),
        Ordering::Less
    );
    assert_eq!(
        compare_code_units(&u16s("a01"), &u16s("a1"), opts(NSNumericSearch)),
        Ordering::Equal
    );
}

#[test]
fn replace_with_options() {
    let opts = |o| parse_compare_options(o).0;
    let run = |src: &str, target: &str, repl: &str, o| {
        let (out, count) = replace_code_units(&u16s(src), &u16s(target), &u16s(repl), opts(o));
        (String::from_utf16(&out).unwrap(), count)
    };
    assert_eq!(run("a\r\nb\r\n", "\r", "", NSLiteralSearch), ("a\nb\n".to_string(), 2));
    assert_eq!(run("aXbxc", "x", "-", NSCaseInsensitiveSearch), ("a-b-c".to_string(), 2));
    assert_eq!(run("aaa", "aa", "b", 0), ("ba".to_string(), 1));
    assert_eq!(run("aaa", "aa", "b", NSBackwardsSearch), ("ab".to_string(), 1));
    assert_eq!(run("abab", "ab", "X", NSAnchoredSearch), ("Xab".to_string(), 1));
    assert_eq!(
        run("abab", "ab", "X", NSAnchoredSearch | NSBackwardsSearch),
        ("abX".to_string(), 1)
    );
    assert_eq!(run("abc", "", "X", 0), ("abc".to_string(), 0));
}

#[test]
fn encode_and_decode_encodings() {
    let decode_utf8 = |bytes: &[u8], encoding| -> Option<String> {
        StringHostObject::decode(bytes, encoding).map(|host| match host.to_utf8() {
            Ok(text) => text,
            Err(_) => panic!("unpaired surrogate"),
        })
    };
    assert_eq!(
        encode_str("café", NSISOLatin1StringEncoding, false),
        Some(vec![b'c', b'a', b'f', 0xE9])
    );
    assert_eq!(
        decode_utf8(&[b'c', b'a', b'f', 0xE9], NSISOLatin1StringEncoding).as_deref(),
        Some("café")
    );
    assert_eq!(encode_str("中a", NSASCIIStringEncoding, false), None);
    assert_eq!(encode_str("中a", NSASCIIStringEncoding, true), Some(b"?a".to_vec()));
    assert_eq!(
        encode_str("A中", NSUTF16LittleEndianStringEncoding, false),
        Some(vec![0x41, 0x00, 0x2D, 0x4E])
    );
    assert_eq!(
        encode_str("A中", NSUTF16BigEndianStringEncoding, false),
        Some(vec![0x00, 0x41, 0x4E, 0x2D])
    );
    assert_eq!(
        encode_for_data("A", NSUTF16StringEncoding, false),
        Some(vec![0xFF, 0xFE, 0x41, 0x00])
    );
    assert_eq!(
        decode_utf8(&[0xFE, 0xFF, 0x00, 0x41, 0x4E, 0x2D], NSUTF16StringEncoding).as_deref(),
        Some("A中")
    );
    assert_eq!(
        decode_utf8(&[0x41, 0x00, 0x2D, 0x4E], NSUTF16LittleEndianStringEncoding).as_deref(),
        Some("A中")
    );
    let gb = encode_str("摩尔庄园", NSGB18030StringEncoding, false).unwrap();
    assert_eq!(gb, vec![0xC4, 0xA6, 0xB6, 0xFB, 0xD7, 0xAF, 0xD4, 0xB0]);
    assert_eq!(decode_utf8(&gb, NSGB18030StringEncoding).as_deref(), Some("摩尔庄园"));
    assert_eq!(
        decode_utf8(&[0x41, 0, 0, 0], NSUTF32LittleEndianStringEncoding).as_deref(),
        Some("A")
    );
    assert_eq!(encode_str("abc", 0x7FFF_0001, false), None);
    assert!(legacy_encoding_for(0x7FFF_0001).is_none());
    assert_eq!(nul_terminator_size(NSUTF8StringEncoding), 1);
    assert_eq!(nul_terminator_size(NSUTF16LittleEndianStringEncoding), 2);
    assert_eq!(nul_terminator_size(NSUTF32StringEncoding), 4);
}

#[test]
fn swapped_strings_swap_the_order() {
    let strings = ["", "a", "A", "b", "a1", "a01", "a10", "a2", "A2b", "\u{e9}", "\u{c9}", "\u{1f600}"];
    for options in [0, 1, 0x40, 0x41, 0x200, 0x201, 0x240, 0x241] {
        let (opts, _) = parse_compare_options(options);
        for a in strings {
            for b in strings {
                let order = compare_code_units(&u16s(a), &u16s(b), opts);
                assert_eq!(compare_code_units(&u16s(b), &u16s(a), opts), order.reverse());
            }
        }
    }
}

#[test]
fn wide_data_is_read_back() {
    let text = "A\u{4e2d}\u{1f600}";
    for encoding in [NSUTF16StringEncoding, NSUTF32StringEncoding] {
        let data = encode_for_data(text, encoding, false).unwrap();
        assert_eq!(data[..2], [0xff, 0xfe]);
        assert_eq!(StringHostObject::decode(&data, encoding).unwrap().to_utf8_lossy(), text);
    }
}

#[test]
fn what_is_encoded_is_decoded() {
    for (text, encodings) in [
        ("az ~", vec![NSASCIIStringEncoding, NSISOLatin1StringEncoding, NSUTF8StringEncoding, 0]),
        ("caf\u{e9}", vec![NSISOLatin1StringEncoding, NSUTF8StringEncoding]),
        ("\u{feff}\u{1f600}", vec![NSUTF16StringEncoding, NSUTF16BigEndianStringEncoding]),
        ("", vec![NSASCIIStringEncoding, NSUTF8StringEncoding, NSUTF32LittleEndianStringEncoding]),
    ] {
        for encoding in encodings {
            let data = encode_for_data(text, encoding, false).unwrap();
            let decoded = StringHostObject::decode(&data, encoding).unwrap();
            assert_eq!(decoded.to_utf8(), Ok(text.to_string()));
        }
    }
    assert_eq!(encode_for_data("\u{80}", NSASCIIStringEncoding, false), None);
}
