use touchhle::ns_string;
use touchhle::objc::{Environment, HostObject, NumberValue};
use touchhle::plist_value::{parse_plist, PlistValue};
use touchhle::security::{
    finish_change, guest_to_bool, guest_to_value, load_items, parse_dict, save_items,
    value_to_guest, GuestValue, KcAnswer, KcItem, KcResult, KcValue, MatchLimit,
    SecItemAdd, SecItemCopyMatching, SecItemDelete, SecItemUpdate, ERR_SEC_DUPLICATE_ITEM,
    ERR_SEC_IO, ERR_SEC_ITEM_NOT_FOUND, ERR_SEC_PARAM, ERR_SEC_SUCCESS,
};

type Dict = Option<Vec<(Option<String>, GuestValue)>>;

fn text(s: &str) -> GuestValue {
    GuestValue::Str(s.to_string())
}

fn integer(n: i64) -> GuestValue {
    GuestValue::Number { integer: n, bits: (n as f64).to_bits(), truth: n != 0 }
}

fn dict(entries: Vec<(&str, GuestValue)>) -> Dict {
    Some(entries.into_iter().map(|(k, v)| (Some(k.to_string()), v)).collect())
}

fn password(account: &str, data: &str) -> Dict {
    dict(vec![
        ("class", text("genp")),
        ("acct", text(account)),
        ("svce", text("s")),
        ("v_Data", GuestValue::Data(data.as_bytes().to_vec())),
    ])
}

fn asking(account: &str) -> Dict {
    dict(vec![
        ("class", text("genp")),
        ("acct", text(account)),
        ("r_Data", integer(1)),
    ])
}

fn found_data(file: &Option<Vec<u8>>, account: &str) -> Option<Vec<u8>> {
    match SecItemCopyMatching(&asking(account), true, file) {
        (ERR_SEC_SUCCESS, Some(KcAnswer::One(KcResult::Data(d)))) => Some(d),
        (status, _) => {
            assert_eq!(status, ERR_SEC_ITEM_NOT_FOUND);
            None
        }
    }
}

#[test]
fn added_items_are_found_until_deleted() {
    let odd = "a <&>'\"\r\n\t ]]> \u{1}中😀 ";
    let first = SecItemAdd(&password(odd, "one"), false, &None);
    assert_eq!(first.status, ERR_SEC_SUCCESS);
    let second = SecItemAdd(&password("b", "two"), false, &first.file);
    assert_eq!(found_data(&second.file, odd), Some(b"one".to_vec()));
    assert_eq!(found_data(&second.file, "b"), Some(b"two".to_vec()));
    assert_eq!(found_data(&first.file, "b"), None);
    let again = SecItemAdd(&password("b", "three"), false, &second.file);
    assert_eq!((again.status, again.file), (ERR_SEC_DUPLICATE_ITEM, None));
    let update = dict(vec![("v_Data", text("four")), ("labl", text("l"))]);
    let changed = SecItemUpdate(&asking("b"), &update, &second.file);
    assert_eq!(changed.status, ERR_SEC_SUCCESS);
    assert_eq!(found_data(&changed.file, "b"), Some(b"four".to_vec()));
    assert_eq!(found_data(&changed.file, odd), Some(b"one".to_vec()));
    let clash = dict(vec![("acct", text(odd))]);
    assert_eq!(
        SecItemUpdate(&asking("b"), &clash, &second.file).status,
        ERR_SEC_DUPLICATE_ITEM
    );
    let deleted = SecItemDelete(&asking("b"), &changed.file);
    assert_eq!(deleted.status, ERR_SEC_SUCCESS);
    assert_eq!(found_data(&deleted.file, "b"), None);
    assert_eq!(found_data(&deleted.file, odd), Some(b"one".to_vec()));
    assert_eq!(SecItemDelete(&asking("b"), &deleted.file).status, ERR_SEC_ITEM_NOT_FOUND);
}

#[test]
fn incomplete_requests_are_refused() {
    let no_class = dict(vec![("acct", text("a"))]);
    assert_eq!(SecItemAdd(&no_class, true, &None).status, ERR_SEC_PARAM);
    assert_eq!(SecItemAdd(&None, true, &None).status, ERR_SEC_PARAM);
    assert_eq!(SecItemDelete(&no_class, &None).status, ERR_SEC_PARAM);
    assert_eq!(SecItemCopyMatching(&None, true, &None).0, ERR_SEC_PARAM);
    assert_eq!(SecItemUpdate(&asking("a"), &None, &None).status, ERR_SEC_PARAM);
    assert_eq!(
        SecItemUpdate(&asking("a"), &dict(vec![]), &None).status,
        ERR_SEC_ITEM_NOT_FOUND
    );
    assert_eq!(SecItemCopyMatching(&asking("a"), true, &None).0, ERR_SEC_ITEM_NOT_FOUND);
    let change = SecItemAdd(&password("a", "x"), false, &None);
    assert_eq!(finish_change(change, false).0, ERR_SEC_IO);
}

#[test]
fn searches_are_limited() {
    let mut file = None;
    for account in ["a", "b", "c"] {
        file = SecItemAdd(&password(account, account), false, &file).file;
    }
    let search = |limit: GuestValue| {
        let query = dict(vec![
            ("class", text("genp")),
            ("agrp", text("ignored")),
            ("r_Attributes", integer(1)),
            ("r_Data", integer(1)),
            ("m_Limit", limit),
        ]);
        SecItemCopyMatching(&query, true, &file).1
    };
    match search(text("m_LimitAll")) {
        Some(KcAnswer::Many(all)) => {
            assert_eq!(all.len(), 3);
            match &all[1] {
                KcResult::Attributes(attrs) => {
                    let keys: Vec<&str> = attrs.iter().map(|a| a.0.as_str()).collect();
                    assert_eq!(keys, vec!["acct", "svce", "v_Data"]);
                }
                _ => panic!(),
            }
        }
        _ => panic!(),
    }
    assert!(matches!(search(integer(2)), Some(KcAnswer::Many(all)) if all.len() == 2));
    assert!(matches!(search(integer(1)), Some(KcAnswer::One(_))));
    assert!(matches!(search(text("m_LimitOne")), Some(KcAnswer::One(_))));
    let query = dict(vec![("class", text("genp"))]);
    let (status, answer) = SecItemCopyMatching(&query, true, &file);
    assert!(status == ERR_SEC_SUCCESS && answer.is_none());
}

#[test]
fn missing_attributes_are_empty() {
    let bare = dict(vec![("class", text("genp"))]);
    let added = SecItemAdd(&bare, false, &None);
    let items = load_items(&added.file);
    assert!(matches!(items[0].attr("acct"), Some(KcValue::Str(s)) if s.is_empty()));
    assert!(matches!(items[0].attr("svce"), Some(KcValue::Str(s)) if s.is_empty()));
    assert!(items[0].attr("labl").is_none());
    assert_eq!(SecItemAdd(&bare, false, &added.file).status, ERR_SEC_DUPLICATE_ITEM);
}

#[test]
fn values_are_compared_loosely() {
    let s = |t: &str| KcValue::Str(t.to_string());
    let d = |t: &str| KcValue::Data(t.as_bytes().to_vec());
    let r = |x: f64| KcValue::Real(x.to_bits());
    assert!(s("a").loosely_equals(&d("a")) && d("a").loosely_equals(&s("a")));
    assert!(!s("a").loosely_equals(&d("b")) && !s("1").loosely_equals(&KcValue::Int(1)));
    assert!(KcValue::Int(2).loosely_equals(&r(2.0)) && !r(2.5).loosely_equals(&KcValue::Int(2)));
    assert!(r(0.0).loosely_equals(&r(-0.0)) && !r(f64::NAN).loosely_equals(&r(f64::NAN)));
    let half = GuestValue::Number { integer: 2, bits: 2.5f64.to_bits(), truth: true };
    assert!(matches!(guest_to_value(&half), Some(KcValue::Real(b)) if b == 2.5f64.to_bits()));
    assert!(matches!(guest_to_value(&integer(3)), Some(KcValue::Int(3))));
    assert!(guest_to_value(&GuestValue::Other).is_none());
    assert!(guest_to_bool(&integer(1)) && !guest_to_bool(&text("1")));
}

#[test]
fn dictionaries_are_parsed() {
    let parsed = parse_dict(&vec![
        (None, text("x")),
        (Some("class".to_string()), text("inet")),
        (Some("u_Foo".to_string()), text("x")),
        (Some("port".to_string()), integer(80)),
        (Some("gone".to_string()), GuestValue::Nil),
        (Some("m_Limit".to_string()), integer(7)),
    ]);
    assert_eq!(parsed.class.as_deref(), Some("inet"));
    assert_eq!(parsed.attrs.len(), 1);
    assert!(matches!(parsed.limit, MatchLimit::Count(7)));
}

#[test]
fn files_hold_the_items() {
    let mut item = KcItem { class: "inet".to_string(), attrs: vec![], data: Some(vec![0, 255]) };
    item.set_attr("port", KcValue::Int(-80));
    item.set_attr("real", KcValue::Real(0.1f64.to_bits()));
    item.set_attr("data", KcValue::Data((0..=255u8).collect()));
    item.set_attr("port", KcValue::Int(i64::MIN));
    let file = save_items(&vec![item]);
    let items = load_items(&file);
    assert_eq!(items.len(), 1);
    assert_eq!(items[0].class, "inet");
    assert_eq!(items[0].data, Some(vec![0, 255]));
    let keys: Vec<&str> = items[0].attrs.iter().map(|a| a.0.as_str()).collect();
    assert_eq!(keys, vec!["port", "real", "data"]);
    assert!(matches!(items[0].attr("port"), Some(KcValue::Int(i64::MIN))));
    assert!(matches!(items[0].attr("real"), Some(KcValue::Real(b)) if *b == 0.1f64.to_bits()));
    assert!(matches!(items[0].attr("data"), Some(KcValue::Data(d)) if d.len() == 256));
    match parse_plist(&file.unwrap()) {
        Some(root) => {
            assert!(matches!(root.get("version"), Some(PlistValue::Integer(1))));
        }
        None => panic!(),
    }
    assert!(load_items(&Some(b"not a property list".to_vec())).is_empty());
    assert!(load_items(&None).is_empty());
}

#[test]
fn values_become_guest_objects() {
    let mut env = Environment::new(0x1000);
    let s = value_to_guest(&mut env, &KcValue::Str("x".to_string()));
    assert_eq!(ns_string::to_rust_string(&env, s), "x");
    let n = value_to_guest(&mut env, &KcValue::Int(7));
    assert_eq!(env.objc.objects[n as usize].retain_count, Some(2));
    assert_eq!(env.autorelease_pool, vec![n]);
    assert!(matches!(
        env.objc.objects[n as usize].host,
        HostObject::Number(NumberValue::Signed(7))
    ));
}
