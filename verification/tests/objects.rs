use touchhle::code_units::NSRange;
use touchhle::mem::Mem;
use touchhle::ns_array;
use touchhle::ns_data;
use touchhle::ns_set;
use touchhle::ns_string;
use touchhle::objc::{
    autorelease, release, release_each, retain, retain_each, Environment, HostObject, ObjC,
    StringHostObject, NIL,
};
use touchhle::string_encoding::{NSASCIIStringEncoding, NSUTF16StringEncoding, NSUTF8StringEncoding};

fn env() -> Environment {
    Environment::new(0x1000)
}

fn object(env: &mut Environment) -> u32 {
    env.objc.alloc_object(HostObject::Instance(1))
}

fn string(env: &mut Environment, s: &str) -> u32 {
    ns_string::from_rust_string(env, s.to_string())
}

fn count_of(env: &Environment, id: u32) -> Option<u32> {
    env.objc.objects[id as usize].retain_count
}

fn range(location: u32, length: u32) -> NSRange {
    NSRange { location, length }
}

#[test]
fn memory_is_read_as_written() {
    let mut mem = Mem::new(0x1000);
    let before = mem.bytes.len() as u32;
    let a = mem.allocate_with(&vec![1, 2, 3], 8);
    assert_eq!(a, before.max(a));
    assert_eq!(mem.bytes_at(a, 8), vec![1, 2, 3, 0, 0, 0, 0, 0]);
    mem.write_u32(a + 4, 0x0102_0304);
    assert_eq!(mem.read_u32(a + 4), 0x0102_0304);
    assert_eq!(mem.read_u16(a + 4), 0x0304);
    assert_eq!(mem.read_u8(a + 7), 1);
    assert_eq!(mem.cstr_len(a), 3);
    assert_eq!(mem.get_bytes_fallible(0xfff, 1), None);
    assert_eq!(mem.get_bytes_fallible(a + 8, 1), None);
    let b = mem.reallocate(a, 3, 4);
    assert_eq!(mem.bytes_at(b, 4), vec![1, 2, 3, 0]);
    assert_eq!(mem.allocations, vec![(b, 4)]);
    mem.free(b);
    assert!(mem.allocations.is_empty());
}

#[test]
fn releasing_an_owner_releases_what_it_owns() {
    let mut env = env();
    let a = object(&mut env);
    let b = object(&mut env);
    retain(&mut env, b);
    let inner = ns_array::from_vec(&mut env, vec![a]);
    let outer = ns_array::from_vec(&mut env, vec![inner, b]);
    release(&mut env, outer);
    assert!(!env.objc.is_object(outer) && !env.objc.is_object(inner) && !env.objc.is_object(a));
    assert_eq!(count_of(&env, b), Some(1));
    retain_each(&mut env, &vec![b, NIL, b]);
    assert_eq!(count_of(&env, b), Some(3));
    release_each(&mut env, vec![b, b]);
    assert_eq!(count_of(&env, b), Some(1));
    let forever = env.objc.alloc_static_object(HostObject::Instance(1));
    release(&mut env, forever);
    assert!(env.objc.is_object(forever));
    assert_eq!(autorelease(&mut env, b), b);
    assert_eq!(env.autorelease_pool, vec![b]);
    assert!(!ObjC::new().is_object(NIL));
}

#[test]
fn arrays_hold_references() {
    let mut env = env();
    let ids: Vec<u32> = (0..4).map(|_| object(&mut env)).collect();
    let (a, b, c, d) = (ids[0], ids[1], ids[2], ids[3]);
    let array = ns_array::mutable_from_vec(&mut env, vec![a, b]);
    ns_array::add_object(&mut env, array, c);
    assert_eq!(count_of(&env, c), Some(2));
    ns_array::insert_object(&mut env, array, d, 1);
    assert_eq!(ns_array::array_items(&env, array), vec![a, d, b, c]);
    ns_array::exchange_objects(&mut env, array, 0, 3);
    assert_eq!(ns_array::array_items(&env, array), vec![c, d, b, a]);
    ns_array::replace_object_at_index(&mut env, array, 1, c);
    assert_eq!((count_of(&env, c), count_of(&env, d)), (Some(3), Some(1)));
    assert_eq!(ns_array::remove_object(&mut env, array, &vec![true, true, false, false]), 2);
    assert_eq!(ns_array::array_items(&env, array), vec![b, a]);
    assert_eq!(count_of(&env, c), Some(1));
    ns_array::remove_last_object(&mut env, array);
    assert!(!env.objc.is_object(a));
    ns_array::remove_last_object(&mut env, array);
    assert_eq!(ns_array::count(&env, array), 0);
    assert_eq!(ns_array::first_object(&env, array), NIL);
    ns_array::add_objects_from_array(&mut env, array, &vec![c, d]);
    ns_array::sort_by_swaps(&mut env, array, &vec![(0, 1)]);
    assert_eq!(ns_array::object_at_index(&env, array, 0), d);
    assert_eq!(ns_array::last_object(&env, array), c);
    ns_array::remove_object_at_index(&mut env, array, 0);
    ns_array::remove_all_objects(&mut env, array);
    assert_eq!((count_of(&env, c), count_of(&env, d)), (Some(1), Some(1)));
}

#[test]
fn arrays_are_copied_and_walked() {
    let mut env = env();
    let a = object(&mut env);
    let b = object(&mut env);
    let array = ns_array::from_vec(&mut env, vec![a, b]);
    assert_eq!(ns_array::copy_array(&mut env, array), array);
    let mutable = ns_array::mutable_copy_inner(&mut env, array);
    assert_eq!(count_of(&env, a), Some(2));
    let walk = ns_array::object_enumerator_inner(&mut env, mutable);
    let back = ns_array::reverse_object_enumerator_inner(&mut env, mutable);
    assert_eq!(ns_array::next_object(&mut env, walk), a);
    assert_eq!(ns_array::next_object(&mut env, walk), b);
    assert_eq!(ns_array::next_object(&mut env, walk), NIL);
    assert_eq!(ns_array::next_object(&mut env, back), b);
    let sub = ns_array::subarray_with_range(&mut env, mutable, range(1, 1));
    assert_eq!(ns_array::array_items(&env, sub), vec![b]);
    let kept = ns_array::filtered_array(&mut env, mutable, &vec![true, false]);
    assert_eq!(ns_array::array_items(&env, kept), vec![a]);
    assert_eq!(ns_array::ids_before_nil(&vec![a, b, NIL, a]), vec![a, b]);
    let at = ns_array::guest_buffer_of(&mut env, &vec![a, b]);
    assert_eq!(ns_array::retained_objects_from_ptr(&mut env, at, 2), vec![a, b]);
    assert_eq!(
        ns_array::retained_objects_from_varargs(&mut env, &vec![b, NIL, a]),
        vec![b]
    );
    assert!(ns_array::is_equal_to_array(2, 2, &vec![true, true]));
    assert!(!ns_array::is_equal_to_array(2, 3, &vec![true, true]));
    assert!(!ns_array::is_equal_to_array(2, 2, &vec![true, false]));
    assert_eq!(ns_array::index_of_object(&vec![false, true]), 1);
    assert_eq!(ns_array::index_of_object(&vec![false]), 0x7fff_ffff);
    assert!(ns_array::contains_object(&vec![false, true]));
}

#[test]
fn array_texts() {
    let items = vec!["a".to_string(), "b".to_string()];
    assert_eq!(ns_array::components_joined_by_string(&items, ", "), "a, b");
    assert_eq!(ns_array::components_joined_by_string(&vec![], ", "), "");
    assert_eq!(ns_array::build_description(&items), "(\n\ta,\n\tb,\n)");
}

#[test]
fn sets_hold_equal_objects_once() {
    let mut env = env();
    let ids: Vec<u32> = (0..4).map(|_| object(&mut env)).collect();
    let (a, b, c, d) = (ids[0], ids[1], ids[2], ids[3]);
    // The first and the third are equal.
    let set = ns_set::set_from_collection(&mut env, &vec![a, b, c], &vec![0, 1, 0], true);
    assert_eq!(ns_set::set_members(&env, set), vec![a, b]);
    assert_eq!((count_of(&env, a), count_of(&env, c)), (Some(2), Some(1)));
    ns_set::add_object(&mut env, set, &vec![0, 1], d, 2);
    ns_set::add_object(&mut env, set, &vec![0, 1, 2], c, 0);
    assert_eq!(ns_set::count(&env, set), 3);
    ns_set::minus_set(&mut env, set, NIL, &vec![0, 1, 2], &vec![]);
    assert_eq!(ns_set::count(&env, set), 3);
    let other = ns_set::set_from_collection(&mut env, &vec![b], &vec![1], false);
    ns_set::minus_set(&mut env, set, other, &vec![0, 1, 2], &vec![1]);
    assert_eq!(ns_set::set_members(&env, set), vec![a, d]);
    // The other set and the array of its members keep it.
    assert_eq!(count_of(&env, b), Some(3));
    let listed = *env.autorelease_pool.last().unwrap();
    assert_eq!(ns_array::array_items(&env, listed), vec![b]);
    release(&mut env, other);
    release(&mut env, listed);
    assert_eq!(count_of(&env, b), Some(1));
    ns_set::union_set(&mut env, set, &vec![0, 2], &vec![b, c], &vec![1, 0]);
    assert_eq!(ns_set::set_members(&env, set), vec![a, d, b]);
    let copy = ns_set::copy_set(&mut env, set);
    assert_eq!(ns_set::set_members(&env, copy), vec![a, d, b]);
    assert_eq!(env.autorelease_pool.last(), Some(&(copy - 1)));
    assert_eq!(ns_array::array_items(&env, copy - 1), vec![a, d, b]);
    assert_eq!(count_of(&env, d), Some(4));
    assert_eq!(ns_set::copy_set(&mut env, copy), copy);
    let changeable = ns_set::mutable_copy_set(&mut env, copy);
    assert_eq!(ns_set::set_members(&env, changeable), vec![a, d, b]);
    // An array of the members and the walk over it.
    let (listed, walk) = (changeable + 1, changeable + 2);
    assert!(env.autorelease_pool.ends_with(&[listed, walk]));
    assert_eq!((count_of(&env, listed), count_of(&env, d)), (Some(2), Some(6)));
    assert_eq!(ns_array::next_object(&mut env, walk), NIL);
    let all = ns_set::all_objects(&mut env, set);
    assert_eq!(ns_array::count(&env, all), 3);
    assert!(ns_set::set_members(&env, set).contains(&ns_set::any_object(&env, set)));
    ns_set::remove_all_objects(&mut env, set);
    assert_eq!(ns_set::any_object(&env, set), NIL);
    let first = ns_set::set_from_objects(&mut env, a, &vec![b, NIL, c], &vec![0, 1], false);
    assert_eq!(ns_set::count(&env, first), 2);
}

#[test]
fn data_grows_and_is_replaced() {
    let mut env = env();
    let bytes = env.mem.allocate_with(&vec![9, 8, 7], 3);
    let data = ns_data::new_nsdata(&mut env, &vec![1, 2, 3, 4], true);
    ns_data::append_bytes(&mut env, data, bytes, 2);
    assert_eq!(ns_data::to_rust_slice(&env, data), vec![1, 2, 3, 4, 9, 8]);
    ns_data::replace_bytes_in_range(&mut env, data, range(1, 2), bytes);
    assert_eq!(ns_data::to_rust_slice(&env, data), vec![1, 9, 8, 4, 9, 8]);
    ns_data::replace_bytes_with_length(&mut env, data, range(0, 4), bytes, 1);
    assert_eq!(ns_data::to_rust_slice(&env, data), vec![9, 9, 8]);
    ns_data::increase_length_by(&mut env, data, 1);
    ns_data::set_length(&mut env, data, 5);
    assert_eq!(ns_data::to_rust_slice(&env, data), vec![9, 9, 8, 0, 0]);
    ns_data::set_length(&mut env, data, 1);
    assert_eq!(ns_data::to_rust_slice(&env, data), vec![9]);
    let other = ns_data::new_nsdata(&mut env, &vec![9], false);
    assert!(ns_data::is_equal_to_data(&env, data, other));
    let sub = ns_data::subdata_with_range(&mut env, data, range(0, 1));
    assert_eq!(ns_data::to_rust_slice(&env, sub), vec![9]);
    let buffer = env.mem.allocate(4);
    ns_data::get_bytes(&mut env, data, buffer, 1);
    assert_eq!(env.mem.read_u8(buffer), 9);
    let copy = ns_data::mutable_copy_data(&mut env, other);
    ns_data::append_bytes(&mut env, copy, bytes, 1);
    assert_eq!(ns_data::to_rust_slice(&env, other), vec![9]);
    let count = env.mem.allocations.len();
    release(&mut env, copy);
    assert_eq!(env.mem.allocations.len(), count - 1);
    let shared = ns_data::data_with_bytes_no_copy(&mut env, bytes, 3, false);
    assert_eq!(ns_data::to_rust_slice(&env, shared), vec![9, 8, 7]);
}

#[test]
fn strings_are_made_and_changed() {
    let mut env = env();
    let s = string(&mut env, "a中😀");
    assert_eq!(ns_string::length(&mut env, s), 4);
    assert_eq!(ns_string::character_at_index(&mut env, s, 1), 0x4e2d);
    assert_eq!(ns_string::collect_code_units(&env, s).len(), 4);
    assert_eq!(ns_string::for_each_code_unit(&env, s)[2], (2, 0xd83d));
    let t = string(&mut env, "b");
    let joined = ns_string::string_by_appending_string(&mut env, s, t);
    assert_eq!(ns_string::to_rust_string(&env, joined), "a中😀b");
    let m = ns_string::mutable_from_rust_string(&mut env, "hello".to_string());
    let mut strings = ns_string::State::new();
    ns_string::delete_characters(&mut env, &mut strings, m, range(1, 3));
    assert_eq!(ns_string::to_rust_string(&env, m), "ho");
    ns_string::set_string(&mut env, m, t);
    assert_eq!(ns_string::to_rust_string(&env, m), "b");
    assert!(ns_string::is_equal_to_string(&env, m, t));
    assert!(!ns_string::is_equal_to_string(&env, m, s));
    assert_eq!(ns_string::to_rust_string(&env, NIL), "");
    let units = ns_string::from_u16_vec(&mut env, vec![0x61, 0xd800]);
    assert_eq!(ns_string::to_rust_string(&env, units), "a\u{fffd}");
    let sub = ns_string::substring(&mut env, joined, range(1, 1));
    assert_eq!(ns_string::to_rust_string(&env, sub), "中");
}

#[test]
fn strings_are_searched_and_compared() {
    let mut env = env();
    let s = string(&mut env, "Hello hello");
    let h = string(&mut env, "hello");
    let r = string(&mut env, "x");
    assert_eq!(
        ns_string::range_of_string_common(&env, s, h, 0, range(0, 11)),
        range(6, 5)
    );
    assert_eq!(
        ns_string::range_of_string_common(&env, s, h, 1, range(0, 11)),
        range(0, 5)
    );
    assert_eq!(
        ns_string::range_of_string_common(&env, s, r, 0, range(0, 11)),
        range(0x7fff_ffff, 0)
    );
    assert_eq!(ns_string::compare_strings(&env, h, s, 0), 1);
    assert_eq!(ns_string::compare_strings(&env, s, h, 0), -1);
    let replaced = ns_string::string_by_replacing_occurrences_inner(&mut env, s, h, r, 1);
    assert_eq!(ns_string::to_rust_string(&env, replaced), "x x");
    let m = ns_string::mutable_copy_string(&mut env, s);
    assert_eq!(
        ns_string::replace_occurrences_of_string(&mut env, m, h, r, 0, range(0, 11)),
        1
    );
    assert_eq!(ns_string::to_rust_string(&env, m), "Hello x");
}

#[test]
fn static_strings_are_shared() {
    let mut env = env();
    let mut state = ns_string::State::new();
    let a = ns_string::get_static_str(&mut env, &mut state, "key");
    let b = ns_string::get_static_str(&mut env, &mut state, "other");
    assert_ne!(a, b);
    assert_eq!(ns_string::get_static_str(&mut env, &mut state, "key"), a);
    release(&mut env, a);
    assert_eq!(ns_string::to_rust_string(&env, a), "key");
}

#[test]
fn strings_are_encoded_into_guest_memory() {
    let mut env = env();
    let s = string(&mut env, "é");
    let buffer = env.mem.allocate(8);
    assert_eq!(
        ns_string::get_bytes_buffer_inner(&mut env, s, buffer, 3, NSUTF8StringEncoding, true),
        Some(true)
    );
    assert_eq!(env.mem.bytes_at(buffer, 3), vec![0xc3, 0xa9, 0]);
    assert_eq!(
        ns_string::get_bytes_buffer_inner(&mut env, s, buffer, 2, NSUTF8StringEncoding, true),
        Some(false)
    );
    assert_eq!(
        ns_string::get_bytes_buffer_inner(&mut env, s, buffer, 8, NSASCIIStringEncoding, true),
        Some(false)
    );
    assert_eq!(ns_string::length_of_bytes_using_encoding(&env, s, NSUTF8StringEncoding), 2);
    let at = ns_string::c_string_using_encoding(&mut env, s, NSUTF8StringEncoding).unwrap();
    assert_eq!(env.mem.bytes_at(at, 3), vec![0xc3, 0xa9, 0]);
    let data = ns_string::data_using_encoding_lossy_inner(&mut env, s, NSUTF16StringEncoding, false);
    assert_eq!(ns_data::to_rust_slice(&env, data.unwrap()), vec![0xff, 0xfe, 0xe9, 0]);
    let new = env.objc.alloc_object(HostObject::Str {
        value: StringHostObject::Utf8(String::new()),
        mutable: false,
    });
    assert_eq!(ns_string::init_with_bytes(&mut env, new, buffer, 2, NSUTF8StringEncoding), new);
    assert_eq!(ns_string::to_rust_string(&env, new), "é");
    ns_string::get_characters(&mut env, s, buffer);
    assert_eq!(env.mem.bytes_at(buffer, 2), vec![0xe9, 0]);
    let escaped = ns_string::string_by_adding_percent_escapes(&mut env, s, NSUTF8StringEncoding);
    assert_eq!(ns_string::to_rust_string(&env, escaped), "%C3%A9");
}

#[test]
fn strings_are_split_and_trimmed() {
    let mut env = env();
    let s = string(&mut env, " a,b ");
    let comma = string(&mut env, ",");
    let parts = ns_string::components_separated(&mut env, s, comma).unwrap();
    let texts: Vec<String> = ns_array::array_items(&env, parts)
        .iter()
        .map(|p| ns_string::to_rust_string(&env, *p))
        .collect();
    assert_eq!(texts, vec![" a", "b "]);
    let blank = vec![true, false, false, false, true];
    let trimmed = ns_string::string_by_trimming(&mut env, s, &blank);
    assert_eq!(ns_string::to_rust_string(&env, trimmed), "a,b");
    let lines = string(&mut env, "ab\ncd");
    assert_eq!(ns_string::line_range_for_range(&mut env, lines, range(0, 0)), range(0, 3));
    let out = env.mem.allocate(12);
    ns_string::get_line_start(&mut env, lines, out, out + 4, out + 8, range(4, 0));
    assert_eq!(
        (env.mem.read_u32(out), env.mem.read_u32(out + 4), env.mem.read_u32(out + 8)),
        (3, 5, 5)
    );
}

#[test]
fn constant_strings_are_registered() {
    let mut env = env();
    let text = env.mem.allocate_with(&b"hi\0".to_vec(), 4);
    let wide = env.mem.allocate_with(&vec![0x2d, 0x4e, 0, 0], 4);
    let table = env.mem.allocate(32);
    for (i, (flags, at, len)) in [(0x7c8, text, 2), (0x7d0, wide, 1)].iter().enumerate() {
        let base = table + 16 * i as u32;
        env.mem.write_u32(base, 0);
        env.mem.write_u32(base + 4, *flags);
        env.mem.write_u32(base + 8, *at);
        env.mem.write_u32(base + 12, *len);
    }
    let found = ns_string::register_constant_strings(&mut env, table, 32, 1, 2);
    assert_eq!(found.iter().map(|e| e.0).collect::<Vec<u32>>(), vec![table, table + 16]);
    assert_eq!(ns_string::to_rust_string(&env, found[0].1), "hi");
    assert_eq!(ns_string::to_rust_string(&env, found[1].1), "中");
    assert_eq!(ns_string::with_format(b"n=1".to_vec()), "n=1");
    assert_eq!(ns_string::format_byte("ab", 1), b'b');
    assert_eq!(ns_string::format_byte("ab", 2), 0);
}

#[test]
fn deleting_leaves_the_parts() {
    let mut env = env();
    let mut strings = ns_string::State::new();
    let m = ns_string::mutable_from_rust_string(&mut env, "abcdef".to_string());
    let text = |env: &Environment, id: u32| ns_string::to_rust_string(env, id);
    ns_string::delete_characters(&mut env, &mut strings, m, range(1, 3));
    assert_eq!(text(&env, m), "aef");
    assert_eq!(env.autorelease_pool, vec![m + 1, m + 2]);
    let parts: Vec<String> = (1..4).map(|i| text(&env, m + i)).collect();
    assert_eq!(parts, vec!["a", "ef", "aef"]);
    assert!(strings.static_str_pool.is_empty());
    // The start: the empty string before it lives forever.
    ns_string::delete_characters(&mut env, &mut strings, m, range(0, 1));
    assert_eq!(text(&env, m), "ef");
    assert_eq!(strings.static_str_pool, vec![(String::new(), m + 4)]);
    assert_eq!((text(&env, m + 4), count_of(&env, m + 4)), (String::new(), None));
    assert_eq!(env.autorelease_pool, vec![m + 1, m + 2, m + 5]);
    assert_eq!((text(&env, m + 6), count_of(&env, m + 6)), ("ef".to_string(), Some(1)));
    // All of it: the same empty string on both sides.
    let n = env.objc.objects.len();
    ns_string::delete_characters(&mut env, &mut strings, m, range(0, 2));
    assert_eq!((text(&env, m), env.objc.objects.len()), (String::new(), n + 1));
    assert_eq!(ns_string::get_static_str(&mut env, &mut strings, ""), m + 4);
    assert_eq!(env.autorelease_pool.len(), 3);
}

#[test]
fn strings_are_joined_in_utf16() {
    let mut env = env();
    let (a, b) = (string(&mut env, "a"), string(&mut env, "b"));
    let joined = ns_string::string_by_appending_string(&mut env, a, b);
    for id in [a, b, joined] {
        assert!(matches!(
            env.objc.objects[id as usize].host,
            HostObject::Str { value: StringHostObject::Utf16(_), .. }
        ));
    }
    let twice = ns_string::string_by_appending_string(&mut env, a, a);
    assert_eq!(ns_string::to_rust_string(&env, twice), "aa");
}

#[test]
fn static_strings_stay_out_of_the_pool() {
    let mut env = env();
    let mut strings = ns_string::State::new();
    let a = ns_string::get_static_str(&mut env, &mut strings, "a");
    let b = ns_string::get_static_str(&mut env, &mut strings, "b");
    assert!(a != b);
    // A string that has become UTF-16 is still found.
    assert_eq!(ns_string::length(&mut env, a), 1);
    assert_eq!(ns_string::get_static_str(&mut env, &mut strings, "a"), a);
    assert_eq!(ns_string::string_by_trimming(&mut env, a, &vec![false]), a);
    assert_eq!(autorelease(&mut env, NIL), NIL);
    assert!(env.autorelease_pool.is_empty());
}

#[test]
fn data_is_copied_onto_itself() {
    let mut env = env();
    let data = ns_data::new_nsdata(&mut env, &vec![1, 2, 3, 4], true);
    let at = env.mem.allocations.last().unwrap().0;
    ns_data::get_bytes_in_range(&mut env, data, at, range(1, 3));
    assert_eq!(ns_data::to_rust_slice(&env, data), vec![2, 3, 4, 4]);
    // A range that goes too far clears the place first.
    ns_data::get_bytes_in_range(&mut env, data, at + 1, range(0, 3));
    assert_eq!(ns_data::to_rust_slice(&env, data), vec![2, 2, 3, 4]);
    ns_data::get_bytes_in_range(&mut env, data, at, range(2, 4));
    assert_eq!(ns_data::to_rust_slice(&env, data), vec![0, 0, 0, 0]);
    // No more is written than there is.
    let buffer = env.mem.allocate(4);
    ns_data::get_bytes(&mut env, data, buffer, 0xffff_ffff);
    assert_eq!(env.mem.bytes_at(buffer, 4), vec![0; 4]);
}
