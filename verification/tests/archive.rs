use touchhle::ns_array;
use touchhle::ns_data;
use touchhle::ns_keyed_unarchiver::{
    coerce_int, coerce_real, date_to_interval, get_known_class, hand_out, NSKeyedUnarchiver,
    UnarchiveStep,
};
use touchhle::ns_string;
use touchhle::objc::{Environment, HostObject, NumberValue, NIL};
use touchhle::plist_value::{parse_plist, plain_value, PlistValue};

fn s(text: &str) -> plist::Value {
    plist::Value::String(text.to_string())
}

fn uid(n: u64) -> plist::Value {
    plist::Value::Uid(plist::Uid::new(n))
}

fn entry(entries: Vec<(&str, plist::Value)>) -> plist::Value {
    plist::Value::Dictionary(entries.into_iter().map(|(k, v)| (k.to_string(), v)).collect())
}

fn objects() -> Vec<plist::Value> {
    vec![
        s("$null"),
        entry(vec![("$class", uid(2)), ("NS.objects", plist::Value::Array(vec![uid(3), uid(0), s("x"), uid(4)]))]),
        entry(vec![("$classname", s("NSArray"))]),
        s("hello"),
        plist::Value::Integer(u64::MAX.into()),
        plist::Value::Real(1.5),
        plist::Value::Boolean(true),
        plist::Value::Data(vec![1, 2]),
        entry(vec![("NS.keys", plist::Value::Array(vec![uid(3), uid(0)]))]),
        entry(vec![("$class", uid(99))]),
        plist::Value::Array(vec![]),
        plist::Value::Integer((-5i64).into()),
    ]
}

fn archive_bytes() -> Vec<u8> {
    let root = entry(vec![
        ("$version", plist::Value::Integer(100000i64.into())),
        ("$archiver", s("NSKeyedArchiver")),
        (
            "$top",
            entry(vec![
                ("root", uid(1)),
                ("n", plist::Value::Real(2.9)),
                ("b", plist::Value::Boolean(true)),
                ("d", plist::Value::Data(vec![7, 8, 9])),
            ]),
        ),
        ("$objects", plist::Value::Array(objects())),
    ]);
    let mut bytes = Vec::new();
    root.to_writer_binary(&mut bytes).unwrap();
    bytes
}

fn number(env: &Environment, id: u32) -> NumberValue {
    match env.objc.objects[id as usize].host {
        HostObject::Number(n) => n,
        _ => panic!("no number"),
    }
}

fn read(reader: &mut NSKeyedUnarchiver, env: &mut Environment, key: u64) -> u32 {
    match reader.unarchive_key(env, key) {
        UnarchiveStep::Done(id) => id,
        _ => panic!("not done"),
    }
}

#[test]
fn archives_are_recognised() {
    assert!(NSKeyedUnarchiver::init_for_reading(&archive_bytes()).is_some());
    assert!(NSKeyedUnarchiver::init_for_reading(&b"rubbish".to_vec()).is_none());
    let other = parse_plist(b"<?xml version=\"1.0\"?><plist><dict/></plist>").unwrap();
    assert!(NSKeyedUnarchiver::from_plist(other).is_none());
}

#[test]
fn keys_of_the_top_are_decoded() {
    let reader = NSKeyedUnarchiver::init_for_reading(&archive_bytes()).unwrap();
    assert_eq!(reader.object_key_for_key("root"), Some(1));
    assert_eq!(reader.decode_int64("n"), 2);
    assert_eq!(reader.decode_int32("b"), 1);
    assert!(reader.decode_bool("b") && !reader.decode_bool("missing"));
    assert_eq!(f64::from_bits(reader.decode_double("n")), 2.9);
    assert_eq!(reader.decode_int64("missing"), 0);
    assert!(reader.contains_value_for_key("root") && !reader.contains_value_for_key("x"));
}

#[test]
fn plain_values_are_made_once() {
    let mut env = Environment::new(0x1000);
    let mut reader = NSKeyedUnarchiver::init_for_reading(&archive_bytes()).unwrap();
    assert_eq!(read(&mut reader, &mut env, 0), NIL);
    assert_eq!(read(&mut reader, &mut env, 1000), NIL);
    let hello = read(&mut reader, &mut env, 3);
    assert_eq!(ns_string::to_rust_string(&env, hello), "hello");
    assert_eq!(read(&mut reader, &mut env, 3), hello);
    let n = read(&mut reader, &mut env, 4);
    assert_eq!(number(&env, n), NumberValue::Unsigned(u64::MAX));
    let n = read(&mut reader, &mut env, 11);
    assert_eq!(number(&env, n), NumberValue::Signed(-5));
    let n = read(&mut reader, &mut env, 5);
    assert_eq!(number(&env, n), NumberValue::Real(1.5f64.to_bits()));
    let n = read(&mut reader, &mut env, 6);
    assert_eq!(number(&env, n), NumberValue::Bool(true));
    let d = read(&mut reader, &mut env, 7);
    assert_eq!(ns_data::to_rust_slice(&env, d), vec![1, 2]);
    for broken in [8, 9, 10] {
        assert_eq!(read(&mut reader, &mut env, broken), NIL);
    }
}

#[test]
fn instances_read_themselves() {
    let mut env = Environment::new(0x1000);
    let mut reader = NSKeyedUnarchiver::init_for_reading(&archive_bytes()).unwrap();
    let (class, saved) = match reader.unarchive_key(&mut env, 1) {
        UnarchiveStep::Init { class, saved_key } => (class, saved_key),
        _ => panic!(),
    };
    assert_eq!(get_known_class(&mut env, &"NSArray".to_string()), class);
    assert_eq!((saved, reader.current_key), (None, Some(1)));
    // References to nothing and other values are left out.
    assert_eq!(reader.decode_current_array(), vec![3, 4]);
    assert_eq!(reader.keys_for_key("NS.objects"), vec![3, 0, 4]);
    assert!(reader.keys_for_key("NS.keys").is_empty());
    let object = env.objc.alloc_object(HostObject::Instance(class));
    assert_eq!(reader.unarchive_finish(1, saved, object), object);
    assert_eq!(read(&mut reader, &mut env, 1), object);
    assert_eq!(reader.current_key, None);
    let pool = env.autorelease_pool.len();
    assert_eq!(hand_out(&mut env, object), object);
    assert_eq!(env.autorelease_pool[pool..], [object]);
    // Nothing is left to the pool of what does not have to be released.
    assert_eq!(hand_out(&mut env, NIL), NIL);
    assert_eq!(env.autorelease_pool.len(), pool + 1);
}

#[test]
fn contents_of_the_current_object() {
    let mut env = Environment::new(0x1000);
    let current = |entries: Vec<(&str, plist::Value)>| {
        let root = entry(vec![
            ("$version", plist::Value::Integer(100000i64.into())),
            ("$archiver", s("NSKeyedArchiver")),
            ("$top", entry(vec![])),
            ("$objects", plist::Value::Array(vec![s("$null"), entry(entries)])),
        ]);
        let mut reader = NSKeyedUnarchiver::from_plist(plain_value(&root)).unwrap();
        reader.current_key = Some(1);
        reader
    };
    let keys = plist::Value::Array(vec![uid(5), uid(0), uid(7)]);
    let values = plist::Value::Array(vec![uid(6), uid(1), uid(8), uid(9)]);
    let reader = current(vec![("NS.keys", keys), ("NS.objects", values)]);
    assert_eq!(reader.decode_current_dict(), vec![(5, 6), (7, 8)]);
    let string = current(vec![("NS.string", s("é"))]).decode_current_string(&mut env);
    assert_eq!(ns_string::to_rust_string(&env, string), "é");
    let bytes = current(vec![("NS.bytes", plist::Value::Data(vec![0x61])), ("NS.string", s("x"))])
        .decode_current_string(&mut env);
    assert_eq!(ns_string::to_rust_string(&env, bytes), "a");
    let data = current(vec![("NS.data", plist::Value::Data(vec![3]))])
        .decode_current_data(&mut env)
        .unwrap();
    assert_eq!(ns_data::to_rust_slice(&env, data), vec![3]);
    let date = current(vec![("NS.time", plist::Value::Real(12.5))]).decode_current_date(&mut env);
    assert!(matches!(
        env.objc.objects[date as usize].host,
        HostObject::Date(b) if b == 12.5f64.to_bits()
    ));
    let n = current(vec![("NS.intval", plist::Value::Real(3.9))]).decode_current_number(&mut env);
    assert_eq!(number(&env, n), NumberValue::Signed(3));
    let n = current(vec![("NS.dblval", plist::Value::Integer(3i64.into()))])
        .decode_current_number(&mut env);
    assert_eq!(number(&env, n), NumberValue::Real(3.0f64.to_bits()));
    let n = current(vec![("NS.boolval", plist::Value::Boolean(true))])
        .decode_current_number(&mut env);
    assert_eq!(number(&env, n), NumberValue::Bool(true));
    let n = current(vec![]).decode_current_number(&mut env);
    assert_eq!(number(&env, n), NumberValue::Signed(0));
}

#[test]
fn temporary_bytes_live_as_long_as_the_reader() {
    let mut env = Environment::new(0x1000);
    let mut reader = NSKeyedUnarchiver::init_for_reading(&archive_bytes()).unwrap();
    let length = env.mem.allocate(4);
    let before = env.mem.allocations.len();
    let at = reader.decode_bytes(&mut env, "d", length).unwrap();
    assert_eq!(env.mem.bytes_at(at, 3), vec![7, 8, 9]);
    assert_eq!(env.mem.read_u32(length), 3);
    let string = read(&mut reader, &mut env, 3);
    reader.dealloc(&mut env);
    assert_eq!(env.mem.allocations.len(), before);
    assert!(!env.objc.is_object(string));
}

#[test]
fn numbers_are_coerced() {
    assert_eq!(coerce_int(&PlistValue::Unsigned(u64::MAX)), Some(-1));
    assert_eq!(coerce_int(&PlistValue::Real((-2.7f64).to_bits())), Some(-2));
    assert_eq!(coerce_int(&PlistValue::Boolean(true)), Some(1));
    assert_eq!(coerce_int(&PlistValue::Str("1".to_string())), None);
    assert_eq!(coerce_real(&PlistValue::Integer(-3)), Some((-3.0f64).to_bits()));
    assert_eq!(coerce_real(&PlistValue::Boolean(true)), None);
    assert_eq!(date_to_interval(false, 978_307_201, 500_000_000), 1.5f64.to_bits());
    assert_eq!(date_to_interval(true, 0, 0), (-978_307_200.0f64).to_bits());
}

#[test]
fn property_lists_of_every_kind_are_taken_apart() {
    let date = plist::Date::from(std::time::SystemTime::UNIX_EPOCH
        - std::time::Duration::from_secs(5));
    let value = plist::Value::Array(vec![
        s("x"),
        plist::Value::Boolean(false),
        plist::Value::Real(-0.0),
        plist::Value::Integer(7i64.into()),
        plist::Value::Data(vec![9]),
        plist::Value::Date(date),
        uid(3),
        entry(vec![("k", s("v")), ("l", s("w"))]),
    ]);
    let items = match plain_value(&value) {
        PlistValue::Array(items) => items,
        _ => panic!(),
    };
    assert!(matches!(&items[0], PlistValue::Str(t) if t == "x"));
    assert!(matches!(items[1], PlistValue::Boolean(false)));
    assert!(matches!(items[2], PlistValue::Real(b) if b == (-0.0f64).to_bits()));
    assert!(matches!(items[3], PlistValue::Integer(7)));
    assert!(matches!(&items[4], PlistValue::Data(d) if d == &vec![9]));
    assert!(matches!(items[5], PlistValue::Date { before: true, seconds: 5, nanos: 0 }));
    assert!(matches!(items[6], PlistValue::Uid(3)));
    match &items[7] {
        PlistValue::Dictionary(entries) => {
            assert_eq!((entries[0].0.as_str(), entries[1].0.as_str()), ("k", "l"));
        }
        _ => panic!(),
    }
    assert!(items[7].get("k").is_some() && items[7].get("z").is_none());
}

#[test]
fn written_arrays_are_read_back() {
    let mut scope = vec![("$class".to_string(), PlistValue::Uid(2))];
    ns_array::encode_with_coder_inner(&mut scope, &vec![9]);
    ns_array::encode_with_coder_inner(&mut scope, &vec![3, 4]);
    assert_eq!(scope.len(), 2);
    assert_eq!(scope[1].0, "NS.objects");
    let objects = vec![PlistValue::Str("$null".to_string()), PlistValue::Dictionary(scope)];
    let root = PlistValue::Dictionary(vec![
        ("$version".to_string(), PlistValue::Integer(100000)),
        ("$archiver".to_string(), PlistValue::Str("NSKeyedArchiver".to_string())),
        ("$objects".to_string(), PlistValue::Array(objects)),
    ]);
    let mut reader = NSKeyedUnarchiver::from_plist(root).unwrap();
    reader.current_key = Some(1);
    assert_eq!(reader.decode_current_array(), vec![3, 4]);

    let mut env = Environment::new(0x1000);
    let a = ns_string::from_rust_string(&mut env, "a".to_string());
    let mut reading = reader.begin_array();
    assert_eq!(reading.next_key(), Some(3));
    reading.take(&mut env, a);
    assert_eq!(reading.next_key(), Some(4));
    reading.take(&mut env, NIL);
    assert_eq!(reading.next_key(), None);
    assert_eq!(reading.objects, vec![a, NIL]);
    assert_eq!(env.objc.objects[a as usize].retain_count, Some(2));
    let array = ns_array::mutable_from_vec(&mut env, vec![]);
    assert_eq!(ns_array::init_with_coder_inner(&mut env, array, vec![a, NIL]), array);
    assert_eq!(ns_array::array_items(&env, array), vec![a, NIL]);
}

fn reader_at(entry: PlistValue) -> NSKeyedUnarchiver {
    let objects = vec![PlistValue::Str("$null".to_string()), entry];
    let root = PlistValue::Dictionary(vec![
        ("$version".to_string(), PlistValue::Integer(100000)),
        ("$archiver".to_string(), PlistValue::Str("NSKeyedArchiver".to_string())),
        ("$objects".to_string(), PlistValue::Array(objects)),
    ]);
    let mut reader = NSKeyedUnarchiver::from_plist(root).unwrap();
    reader.current_key = Some(1);
    reader
}

#[test]
fn written_strings_and_data_are_read_back() {
    let mut env = Environment::new(0x1000);
    let fixed = ns_string::from_rust_string(&mut env, "摩尔".to_string());
    let mutable = ns_string::mutable_from_rust_string(&mut env, "庄园 x".to_string());
    let entry = || PlistValue::Dictionary(vec![("$class".to_string(), PlistValue::Uid(2))]);

    let encoded = ns_string::encode_with_coder(&env, fixed, entry());
    assert_eq!(encoded.as_str().map(|s| s.as_str()), Some("摩尔"));
    let mut reader = reader_at(encoded);
    reader.current_key = None;
    match reader.unarchive_key(&mut env, 1) {
        UnarchiveStep::Done(id) => assert_eq!(ns_string::to_rust_string(&env, id), "摩尔"),
        _ => panic!(),
    }

    let encoded = ns_string::encode_with_coder(&env, mutable, entry());
    assert_eq!(encoded.get("$class").and_then(|v| v.as_uid()), Some(2));
    let reader = reader_at(encoded);
    let empty = ns_string::mutable_from_rust_string(&mut env, String::new());
    let read = ns_string::init_with_coder(&mut env, empty, &reader);
    assert_eq!(ns_string::to_rust_string(&env, read), "庄园 x");
    assert!(matches!(
        env.objc.objects[read as usize].host,
        HostObject::Str { mutable: true, .. }
    ));
    assert!(!env.objc.is_object(empty) && !env.objc.is_object(read - 1));
    let empty = ns_string::from_rust_string(&mut env, String::new());
    let read = ns_string::init_with_coder(&mut env, empty, &reader);
    assert!(matches!(
        env.objc.objects[read as usize].host,
        HostObject::Str { mutable: false, .. }
    ));

    let data = ns_data::new_nsdata(&mut env, &vec![1, 2, 3], false);
    let mut scope = vec![("$class".to_string(), PlistValue::Uid(2))];
    ns_data::encode_with_coder(&env, data, &mut scope);
    let reader = reader_at(PlistValue::Dictionary(scope));
    let read = reader.decode_current_data(&mut env).unwrap();
    assert_eq!(ns_data::to_rust_slice(&env, read), vec![1, 2, 3]);
}

fn date_list(date: &str) -> Vec<u8> {
    format!(
        "<?xml version=\"1.0\"?>\n<!DOCTYPE plist PUBLIC \"a>b\" 'c[d'>\n<plist><array>{date}</array></plist>"
    )
    .into_bytes()
}

fn is_read(date: &str) -> bool {
    match parse_plist(&date_list(date)) {
        Some(list) => {
            assert!(matches!(list.as_array().unwrap()[0], PlistValue::Date { .. }));
            true
        }
        None => false,
    }
}

#[test]
fn dates_that_are_too_late_are_not_read() {
    for late in [
        "<date>9999-12-31T23:59:59-23:59</date>",
        "<date>9999-12-31T23:59:59-00:01</date>",
        "<date>9999-12-31 00:01:00.5-23:59</date>",
        "<x:date a='>'>9999-12-31T23:59:59-23:59</x:date >",
        "<date>9999-12<!-- > -- <date> -->-31T23:59:59-23:59</date>",
        "<date>9999-12-31T23:59<![CDATA[</date>]]>:59-23:59</date>",
        "<date>9999-12-31T23:59:59<?x ?>-23:59</date>",
        "<date>&#57;&#x39;9&none;9-12-31&amp;23:59:59-23:59</date>",
        "<string>9999</string><date/><!-- <date> --><date>9999-12-31T23:59:59-23:59</date>",
    ] {
        assert!(parse_plist(&date_list(late)).is_none(), "{late}");
        assert!(NSKeyedUnarchiver::init_for_reading(&date_list(late)).is_none());
    }
    let subset = b"<!DOCTYPE plist [<!ENTITY a '>]'><!-- ]> --><?b ]> ?><!ELEMENT c>]>\
        <plist><date>9999-12-31T23:59:59-23:59</date></plist>";
    assert!(parse_plist(subset).is_none());
    let spaced = "<plist>\u{a0}\u{3000}&#x2028;<array></array\n><date>9999-12-31T23:59:59-23:59</date>";
    assert!(parse_plist(spaced.as_bytes()).is_none());
    let marked = b"\xef\xbb\xbf<plist><date>9999-12-31T23:59:59-23:59</date></plist>";
    assert!(parse_plist(marked).is_none());
}

#[test]
fn other_dates_are_read() {
    for good in [
        "<date>9999-12-31T23:59:59Z</date>",
        "<date>9999-12-31T23:59:59+23:59</date>",
        "<date>9999-12-31T23:59:59-00:00</date>",
        "<date>9999-12-31T00:00:59.25-23:59</date>",
        "<date>9999-12-30T23:59:59-23:59</date>",
        "<date>0000-01-01T00:00:00+23:59</date>",
        "<date>&#50;024-02-2<!-- -->9T00:00:00z</date>",
        "<!-- <date>9999-12-31T23:59:59-23:59</date> --><date>2024-01-01T00:00:00Z</date>",
        "<![CDATA[<date>9999-12-31T23:59:59-23:59</date>]]><date>2024-01-01T00:00:00Z</date>",
        "<date a='<date>9999-12-31T23:59:59-23:59</date>'>2024-01-01T00:00:00Z</date>",
    ] {
        assert!(is_read(good), "{good}");
    }
    let quoted = parse_plist(b"\"<date>9999-12-31T23:59:59-23:59</date>\"").unwrap();
    assert_eq!(
        quoted.as_str().map(|s| s.as_str()),
        Some("<date>9999-12-31T23:59:59-23:59</date>")
    );
    let subset = b"<!DOCTYPE plist [<!ENTITY a '<date>9999-12-31T23:59:59-23:59</date>'>]>\
        <plist><true/></plist>";
    assert!(matches!(parse_plist(subset), Some(PlistValue::Boolean(true))));
}

#[test]
fn bare_words_are_no_dates() {
    for start in [
        "</plist>",
        "<plist></dict>",
        "<plist></Plist>",
        "<date></date2>",
        "<date/>",
        "<integer/>",
        "<!-x-->",
        "<![x]]>",
        "<!DOC>",
        "<!DOCTYPE>",
        "<?>",
        "\u{e9}",
        "\u{200b}",
    ] {
        let word = start.to_string() + "<date>9999-12-31T23:59:59-23:59</date>";
        let read = parse_plist(word.as_bytes()).unwrap();
        assert_eq!(read.as_str().map(|s| s.as_str()), Some(word.as_str()));
    }
}
