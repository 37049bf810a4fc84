//! `NSString`: string objects and what the framework does with them.
use crate::code_units;
use crate::code_units::{
    compare_code_units, from_rust_ordering, line_range_helper, parse_compare_options, push_units,
    range_of_units, replace_code_units, NSNotFound, NSRange,
};
use crate::mem;
use crate::mem::Mem;
use crate::ns_array;
use crate::ns_keyed_unarchiver::NSKeyedUnarchiver;
use crate::objc;
use crate::objc::{
    autorelease, release, retain, Environment, HostObject, Id, Object, StringHostObject, NIL,
};
use crate::plist_value;
use crate::plist_value::{insert_entry, PlistValue, PlistView};
use crate::string_encoding;
use crate::string_encoding::{
    encode_for_data, encode_str, nul_terminator_size, utf8_text, StringView,
    NSASCIIStringEncoding, NSISOLatin1StringEncoding, NSUTF8StringEncoding,
};
use crate::string_values;
use crate::string_values::{
    add_percent_escapes, components_separated_by_string, replace_occurrences_in_range,
    substring_with_range, trimmed_range,
};
use vstd::prelude::*;
use vstd::utf8;

verus! {

/// The contents of a string object; nothing for other objects.
pub open spec fn string_at(objects: Seq<Object>, id: Id) -> Option<StringView> {
    if 0 < id < objects.len() {
        match objects[id as int].host {
            HostObject::Str { value, mutable } => Some(value@),
            _ => None,
        }
    } else {
        None
    }
}

pub open spec fn is_string(objects: Seq<Object>, id: Id) -> bool {
    string_at(objects, id) is Some
}

pub open spec fn is_mutable_string(objects: Seq<Object>, id: Id) -> bool {
    0 < id < objects.len() && (objects[id as int].host matches HostObject::Str { value, mutable }
        && mutable)
}

/// The text of a string object; `nil` counts as the empty string.
pub open spec fn text_at(objects: Seq<Object>, id: Id) -> Seq<char> {
    match string_at(objects, id) {
        Some(s) => string_encoding::string_text(s),
        None => Seq::empty(),
    }
}

/// The code units of a string object; `nil` counts as the empty string.
pub open spec fn units_at(objects: Seq<Object>, id: Id) -> Seq<u16> {
    match string_at(objects, id) {
        Some(s) => string_encoding::string_units(s),
        None => Seq::empty(),
    }
}

/// An object that holds a string.
pub open spec fn holds_string(object: Object, value: StringView, mutable: bool) -> bool {
    object.host matches HostObject::Str { value: v, mutable: m } && v@ == value && m == mutable
}

/// One object more: a string with a reference count.
pub open spec fn string_added(
    before: Seq<Object>,
    after: Seq<Object>,
    value: StringView,
    mutable: bool,
    count: Option<u32>,
) -> bool {
    &&& after.len() == before.len() + 1
    &&& after.drop_last() == before
    &&& after.last().retain_count == count
    &&& holds_string(after.last(), value, mutable)
}

/// The string object holds other contents now; nothing else has changed.
pub open spec fn string_replaced(
    before: Seq<Object>,
    after: Seq<Object>,
    id: Id,
    value: StringView,
) -> bool {
    &&& objc::others_kept(before, after, id)
    &&& after[id as int].retain_count == before[id as int].retain_count
    &&& holds_string(after[id as int], value, is_mutable_string(before, id))
}

fn new_string(env: &mut Environment, value: StringHostObject, mutable: bool) -> (id: Id)
    requires
        old(env).wf(),
        old(env).has_room(1, 0),
    ensures
        final(env).wf(),
        id == old(env).objc.objects@.len(),
        string_added(
            old(env).objc.objects@,
            final(env).objc.objects@,
            value@,
            mutable,
            Some(1),
        ),
        string_at(final(env).objc.objects@, id) == Some(value@),
        final(env).mem == old(env).mem,
        final(env).autorelease_pool == old(env).autorelease_pool,
{
    let id: Id = env.objc.alloc_object(HostObject::Str { value, mutable });
    assert(env.objc.objects@.drop_last() =~= old(env).objc.objects@);
    id
}

/// Makes a string object of a text. The caller owns it.
pub fn from_rust_string(env: &mut Environment, from: String) -> (id: Id)
    requires
        old(env).wf(),
        old(env).has_room(1, 0),
    ensures
        final(env).wf(),
        id == old(env).objc.objects@.len(),
        string_added(
            old(env).objc.objects@,
            final(env).objc.objects@,
            StringView::Utf8(from@),
            false,
            Some(1),
        ),
        string_at(final(env).objc.objects@, id) == Some(StringView::Utf8(from@)),
        final(env).mem == old(env).mem,
        final(env).autorelease_pool == old(env).autorelease_pool,
{
    new_string(env, StringHostObject::Utf8(from), false)
}

/// Makes a mutable string object of a text. The caller owns it.
pub fn mutable_from_rust_string(env: &mut Environment, from: String) -> (id: Id)
    requires
        old(env).wf(),
        old(env).has_room(1, 0),
    ensures
        final(env).wf(),
        id == old(env).objc.objects@.len(),
        string_added(
            old(env).objc.objects@,
            final(env).objc.objects@,
            StringView::Utf8(from@),
            true,
            Some(1),
        ),
        string_at(final(env).objc.objects@, id) == Some(StringView::Utf8(from@)),
        final(env).mem == old(env).mem,
        final(env).autorelease_pool == old(env).autorelease_pool,
{
    new_string(env, StringHostObject::Utf8(from), true)
}

/// Makes a string object of code units. The caller owns it.
pub fn from_u16_vec(env: &mut Environment, from: Vec<u16>) -> (id: Id)
    requires
        old(env).wf(),
        old(env).has_room(1, 0),
    ensures
        final(env).wf(),
        id == old(env).objc.objects@.len(),
        string_added(
            old(env).objc.objects@,
            final(env).objc.objects@,
            StringView::Utf16(from@),
            false,
            Some(1),
        ),
        string_at(final(env).objc.objects@, id) == Some(StringView::Utf16(from@)),
        final(env).mem == old(env).mem,
        final(env).autorelease_pool == old(env).autorelease_pool,
{
    new_string(env, StringHostObject::Utf16(from), false)
}

/// The text of a string object; the empty text for `nil`. Surrogates that are
/// not paired become U+FFFD.
pub fn to_rust_string(env: &Environment, string: Id) -> (text: String)
    requires
        env.wf(),
        string == NIL || is_string(env.objc.objects@, string),
    ensures
        text@ == text_at(env.objc.objects@, string),
{
    if string == NIL {
        return String::new();
    }
    match &env.objc.objects[string as usize].host {
        HostObject::Str { value, mutable } => value.to_utf8_lossy(),
        _ => String::new(),
    }
}

/// The code units of a string object; none for `nil`.
pub fn collect_code_units(env: &Environment, string: Id) -> (units: Vec<u16>)
    requires
        env.wf(),
        string == NIL || is_string(env.objc.objects@, string),
    ensures
        units@ == units_at(env.objc.objects@, string),
{
    if string == NIL {
        return Vec::new();
    }
    match &env.objc.objects[string as usize].host {
        HostObject::Str { value, mutable } => value.code_units(),
        _ => Vec::new(),
    }
}

/// Code units with their indices, in order.
pub open spec fn indexed(units: Seq<u16>) -> Seq<(u32, u16)> {
    Seq::new(units.len(), |i: int| (i as u32, units[i]))
}

/// Each code unit that a string was made of comes once, in order and as it is; a text
/// gives those of its UTF-16 form.
pub proof fn law_each_unit_comes_once(objects: Seq<Object>, id: Id, units: Seq<u16>)
    requires
        string_at(objects, id) == Some(StringView::Utf16(units)) || exists|text: Seq<char>|
            string_at(objects, id) == Some(StringView::Utf8(text))
                && #[trigger] string_encoding::text_units(text) == units,
    ensures
        indexed(units_at(objects, id)) == indexed(units),
        indexed(units).len() == units.len(),
        forall|i: int|
            0 <= i < units.len() ==> #[trigger] indexed(units)[i] == (i as u32, units[i]),
{
}

/// The code units of a string object with their indices, in order.
pub fn for_each_code_unit(env: &Environment, string: Id) -> (pairs: Vec<(u32, u16)>)
    requires
        env.wf(),
        is_string(env.objc.objects@, string),
        units_at(env.objc.objects@, string).len() <= u32::MAX,
    ensures
        pairs@ == indexed(units_at(env.objc.objects@, string)),
{
    let units = collect_code_units(env, string);
    let mut out: Vec<(u32, u16)> = Vec::new();
    let mut i: usize = 0;
    while i < units.len()
        invariant
            i <= units@.len() <= u32::MAX,
            out@.len() == i,
            forall|j: int| 0 <= j < i ==> #[trigger] out@[j] == (j as u32, units@[j]),
        decreases units@.len() - i,
    {
        out.push((i as u32, units[i]));
        i = i + 1;
    }
    assert(out@ =~= indexed(units@));
    out
}

/// The strings that were made for texts known at compile time.
pub struct State {
    pub static_str_pool: Vec<(String, Id)>,
}

impl State {
    /// Each entry's object holds its text and lives forever.
    pub open spec fn wf(&self, objects: Seq<Object>) -> bool {
        forall|i: int| 0 <= i < self.static_str_pool@.len() ==> self.entry_wf(objects, i)
    }

    pub open spec fn entry_wf(&self, objects: Seq<Object>, i: int) -> bool {
        let (text, id) = self.static_str_pool@[i];
        &&& is_string(objects, id)
        &&& text_at(objects, id) == text@
        &&& !is_mutable_string(objects, id)
        &&& objects[id as int].retain_count is None
    }

    /// The entry of a text.
    pub open spec fn found(&self, text: Seq<char>, i: int) -> bool {
        &&& 0 <= i < self.static_str_pool@.len()
        &&& self.static_str_pool@[i].0@ == text
        &&& forall|j: int| 0 <= j < i ==> (#[trigger] self.static_str_pool@[j]).0@ != text
    }

    pub open spec fn has(&self, text: Seq<char>) -> bool {
        exists|i: int| self.found(text, i)
    }

    pub fn new() -> (state: State)
        ensures
            state.static_str_pool@.len() == 0,
            forall|objects: Seq<Object>| #[trigger] state.wf(objects),
    {
        State { static_str_pool: Vec::new() }
    }
}

/// There is a string object for a text known at compile time: the one that was
/// made before, or a new one.
pub open spec fn static_str(
    before: Environment,
    after: Environment,
    state: State,
    after_state: State,
    from: Seq<char>,
    id: Id,
) -> bool {
    &&& after_state.wf(after.objc.objects@)
    &&& after_state.has(from)
    &&& forall|i: int|
        after_state.found(from, i) ==> (#[trigger] after_state.static_str_pool@[i]).1 == id
    &&& is_string(after.objc.objects@, id)
    &&& text_at(after.objc.objects@, id) == from
    &&& !is_mutable_string(after.objc.objects@, id)
    &&& after.objc.objects@[id as int].retain_count is None
    &&& state.has(from) ==> after == before && after_state == state
    &&& !state.has(from) ==> {
        &&& string_added(
            before.objc.objects@,
            after.objc.objects@,
            StringView::Utf8(from),
            false,
            None,
        )
        &&& id == before.objc.objects@.len()
        &&& after_state.static_str_pool@.drop_last() == state.static_str_pool@
    }
    &&& after.mem == before.mem
    &&& after.autorelease_pool == before.autorelease_pool
}

/// A string object for a text known at compile time. It is never deallocated,
/// and the same text always gives the same object.
pub fn get_static_str(env: &mut Environment, state: &mut State, from: &str) -> (id: Id)
    requires
        old(env).wf(),
        old(env).has_room(1, 0),
        old(state).wf(old(env).objc.objects@),
    ensures
        final(env).wf(),
        static_str(*old(env), *final(env), *old(state), *final(state), from@, id),
        final(env).objc.objects@.len() <= old(env).objc.objects@.len() + 1,
{
    let text = from.to_owned();
    let mut i: usize = 0;
    while i < state.static_str_pool.len()
        invariant
            i <= state.static_str_pool@.len(),
            text@ == from@,
            *state == *old(state),
            *env == *old(env),
            env.wf(),
            state.wf(env.objc.objects@),
            forall|j: int| 0 <= j < i ==> (#[trigger] state.static_str_pool@[j]).0@ != from@,
        decreases state.static_str_pool@.len() - i,
    {
        if state.static_str_pool[i].0 == text {
            proof {
                assert(state.found(from@, i as int));
                assert(state.entry_wf(env.objc.objects@, i as int));
                assert forall|k: int| state.found(from@, k) implies (
                #[trigger] state.static_str_pool@[k]).1 == state.static_str_pool@[i as int].1 by {
                    if k < i {
                        assert(state.static_str_pool@[k].0@ != from@);
                    }
                    if i < k {
                        assert(state.static_str_pool@[i as int].0@ != from@);
                    }
                }
            }
            return state.static_str_pool[i].1;
        }
        i = i + 1;
    }
    assert(!state.has(from@));
    let value = StringHostObject::Utf8(from.to_owned());
    let id: Id = env.objc.alloc_static_object(HostObject::Str { value, mutable: false });
    assert(env.objc.objects@.drop_last() =~= old(env).objc.objects@);
    let ghost before = state.static_str_pool@;
    state.static_str_pool.push((text, id));
    proof {
        assert(state.static_str_pool@.drop_last() =~= before);
        assert(state.found(from@, before.len() as int));
        assert forall|j: int| 0 <= j < state.static_str_pool@.len() implies state.entry_wf(
            env.objc.objects@,
            j,
        ) by {
            if j < before.len() {
                assert(old(state).entry_wf(old(env).objc.objects@, j));
                let (t, other) = before[j];
                assert(env.objc.objects@[other as int] == old(env).objc.objects@[other as int]);
            }
        }
        assert forall|k: int| state.found(from@, k) implies (
        #[trigger] state.static_str_pool@[k]).1 == id by {
            if k < before.len() {
                assert(before[k].0@ != from@);
            }
        }
    }
    id
}

/// Two texts have the same object if and only if they are the same.
pub proof fn law_static_str_is_unique(
    objects: Seq<Object>,
    state: State,
    a: Seq<char>,
    b: Seq<char>,
    i: int,
    j: int,
)
    requires
        state.wf(objects),
        state.found(a, i),
        state.found(b, j),
    ensures
        state.static_str_pool@[i].1 == state.static_str_pool@[j].1 <==> a == b,
{
    assert(state.entry_wf(objects, i));
    assert(state.entry_wf(objects, j));
    if a == b {
        if i < j {
            assert(state.static_str_pool@[i].0@ != a);
        }
        if j < i {
            assert(state.static_str_pool@[j].0@ != a);
        }
    }
}

/// A text that has an object keeps it: when it is asked for again, it is the same object
/// with the same text, and nothing is made.
pub proof fn law_static_str_is_kept(
    before: Environment,
    after: Environment,
    again: Environment,
    state: State,
    after_state: State,
    again_state: State,
    text: Seq<char>,
    first: Id,
    second: Id,
)
    requires
        static_str(before, after, state, after_state, text, first),
        static_str(after, again, after_state, again_state, text, second),
    ensures
        second == first,
        again == after,
        again_state == after_state,
        text_at(again.objc.objects@, second) == text,
{
    let i = choose|i: int| after_state.found(text, i);
    assert(after_state.static_str_pool@[i].1 == first);
}

/// The size of a constant string's record in the guest binary: class, flags,
/// address and length.
pub const CFSTRING_SIZE: u32 = 16;

pub const CONSTANT_UTF8: u32 = 0x7c8;

pub const CONSTANT_UTF16: u32 = 0x7d0;

pub open spec fn word_at(bytes: Seq<u8>, at: int) -> int {
    mem::le_value(bytes.subrange(at, at + 4))
}

/// The code units stored at an address, low bytes first.
pub open spec fn guest_units(bytes: Seq<u8>, at: int, n: int) -> Seq<u16> {
    Seq::new(n as nat, |i: int| mem::le_value(bytes.subrange(at + 2 * i, at + 2 * i + 2)) as u16)
}

/// A record can be read: its flags are known and its contents are there.
pub open spec fn constant_ok(bytes: Seq<u8>, null_size: int, at: int) -> bool {
    let flags = word_at(bytes, at + 4);
    let data = word_at(bytes, at + 8);
    let length = word_at(bytes, at + 12);
    ||| flags == CONSTANT_UTF8 && null_size <= data && data + length <= bytes.len()
        && utf8::valid_utf8(bytes.subrange(data, data + length))
    ||| flags == CONSTANT_UTF16 && null_size <= data && data + 2 * length <= bytes.len()
}

/// The string of a record.
pub open spec fn constant_string(bytes: Seq<u8>, at: int) -> StringView {
    let data = word_at(bytes, at + 8);
    let length = word_at(bytes, at + 12);
    if word_at(bytes, at + 4) == CONSTANT_UTF8 {
        StringView::Utf8(utf8::decode_utf8(bytes.subrange(data, data + length)))
    } else {
        StringView::Utf16(guest_units(bytes, data, length))
    }
}

/// Guest memory after the first records have got their classes.
pub open spec fn classes_written(
    bytes: Seq<u8>,
    base: int,
    n: nat,
    utf8_class: Id,
    utf16_class: Id,
) -> Seq<u8>
    decreases n,
{
    if n == 0 {
        bytes
    } else {
        let before = classes_written(bytes, base, (n - 1) as nat, utf8_class, utf16_class);
        let at = base + 16 * (n - 1);
        let class = if word_at(before, at + 4) == CONSTANT_UTF8 {
            utf8_class
        } else {
            utf16_class
        };
        mem::splice(before, at, mem::le_bytes(class as int, 4))
    }
}

/// Reads code units out of guest memory.
pub fn read_units(mem: &Mem, addr: u32, n: u32) -> (units: Vec<u16>)
    requires
        mem.wf(),
        mem.mapped(addr as int, 2 * n),
    ensures
        units@ == guest_units(mem.bytes@, addr as int, n as int),
{
    let mut out: Vec<u16> = Vec::new();
    let mut i: u32 = 0;
    while i < n
        invariant
            i <= n,
            mem.wf(),
            mem.mapped(addr as int, 2 * n),
            out@ == guest_units(mem.bytes@, addr as int, i as int),
        decreases n - i,
    {
        let ghost before = out@;
        out.push(mem.read_u16(addr + 2 * i));
        i = i + 1;
        assert(out@ =~= guest_units(mem.bytes@, addr as int, i as int));
    }
    out
}

fn read_constant(mem: &Mem, at: u32) -> (value: StringHostObject)
    requires
        mem.wf(),
        mem.mapped(at as int, 16),
        constant_ok(mem.bytes@, mem.null_segment_size as int, at as int),
    ensures
        value@ == constant_string(mem.bytes@, at as int),
{
    let flags: u32 = mem.read_u32(at + 4);
    let data: u32 = mem.read_u32(at + 8);
    let length: u32 = mem.read_u32(at + 12);
    if flags == CONSTANT_UTF8 {
        let bytes = mem.bytes_at(data, length);
        match utf8_text(bytes) {
            Ok(text) => StringHostObject::Utf8(text),
            Err(_) => StringHostObject::Utf8(String::new()),
        }
    } else {
        StringHostObject::Utf16(read_units(mem, data, length))
    }
}

/// Makes the objects of the constant strings that a binary lists, and gives
/// each record its class; the addresses of the records with their objects.
pub fn register_constant_strings(
    env: &mut Environment,
    base: u32,
    size: u32,
    utf8_class: Id,
    utf16_class: Id,
) -> (table: Vec<(u32, Id)>)
    requires
        old(env).wf(),
        size % CFSTRING_SIZE == 0,
        old(env).has_room((size / CFSTRING_SIZE) as int, 0),
        old(env).mem.mapped(base as int, size as int),
        forall|i: nat|
            i < size / CFSTRING_SIZE ==> constant_ok(
                #[trigger] classes_written(
                    old(env).mem.bytes@,
                    base as int,
                    i,
                    utf8_class,
                    utf16_class,
                ),
                old(env).mem.null_segment_size as int,
                base + 16 * i,
            ),
    ensures
        final(env).wf(),
        table@.len() == size / CFSTRING_SIZE,
        final(env).objc.objects@.len() == old(env).objc.objects@.len() + table@.len(),
        final(env).objc.objects@.take(old(env).objc.objects@.len() as int)
            == old(env).objc.objects@,
        forall|i: int|
            0 <= i < table@.len() ==> {
                &&& #[trigger] table@[i] == (
                    (base + 16 * i) as u32,
                    (old(env).objc.objects@.len() + i) as u32,
                )
                &&& final(env).objc.objects@[old(env).objc.objects@.len() + i].retain_count is None
                &&& holds_string(
                    final(env).objc.objects@[old(env).objc.objects@.len() + i],
                    constant_string(
                        classes_written(
                            old(env).mem.bytes@,
                            base as int,
                            i as nat,
                            utf8_class,
                            utf16_class,
                        ),
                        base + 16 * i,
                    ),
                    false,
                )
            },
        final(env).mem.bytes@ == classes_written(
            old(env).mem.bytes@,
            base as int,
            table@.len(),
            utf8_class,
            utf16_class,
        ),
        final(env).mem.null_segment_size == old(env).mem.null_segment_size,
        final(env).mem.allocations@ == old(env).mem.allocations@,
        final(env).autorelease_pool == old(env).autorelease_pool,
{
    let n: u32 = size / CFSTRING_SIZE;
    let mut table: Vec<(u32, Id)> = Vec::new();
    let mut i: u32 = 0;
    let ghost first = old(env).objc.objects@;
    let ghost bytes = old(env).mem.bytes@;
    let ghost null_size = old(env).mem.null_segment_size;
    assert(env.objc.objects@.take(first.len() as int) =~= first);
    while i < n
        invariant
            i <= n,
            n == size / CFSTRING_SIZE,
            size % CFSTRING_SIZE == 0,
            env.wf(),
            first == old(env).objc.objects@,
            bytes == old(env).mem.bytes@,
            null_size == old(env).mem.null_segment_size,
            env.mem.null_segment_size == null_size,
            env.mem.allocations@ == old(env).mem.allocations@,
            env.autorelease_pool == old(env).autorelease_pool,
            env.mem.bytes@.len() == bytes.len(),
            null_size <= base,
            base + size <= bytes.len(),
            first.len() + n < u32::MAX,
            forall|k: nat|
                k < n ==> constant_ok(
                    #[trigger] classes_written(bytes, base as int, k, utf8_class, utf16_class),
                    null_size as int,
                    base + 16 * k,
                ),
            table@.len() == i,
            env.objc.objects@.len() == first.len() + i,
            env.objc.objects@.take(first.len() as int) == first,
            forall|k: int|
                0 <= k < i ==> {
                    &&& #[trigger] table@[k] == ((base + 16 * k) as u32, (first.len() + k) as u32)
                    &&& env.objc.objects@[first.len() + k].retain_count is None
                    &&& holds_string(
                        env.objc.objects@[first.len() + k],
                        constant_string(
                            classes_written(
                                bytes,
                                base as int,
                                k as nat,
                                utf8_class,
                                utf16_class,
                            ),
                            base + 16 * k,
                        ),
                        false,
                    )
                },
            env.mem.bytes@ == classes_written(
                bytes,
                base as int,
                i as nat,
                utf8_class,
                utf16_class,
            ),
        decreases n - i,
    {
        let ghost before = env.objc.objects@;
        assert(16 * (i + 1) <= size);
        let at: u32 = base + 16 * i;
        let value = read_constant(&env.mem, at);
        let class: Id = if env.mem.read_u32(at + 4) == CONSTANT_UTF8 {
            utf8_class
        } else {
            utf16_class
        };
        let id: Id = env.objc.alloc_static_object(HostObject::Str { value, mutable: false });
        env.mem.write_u32(at, class);
        table.push((at, id));
        i = i + 1;
        proof {
            assert(env.objc.objects@.take(first.len() as int) =~= before.take(first.len() as int));
            assert forall|k: int| 0 <= k < before.len() implies #[trigger] env.objc.objects@[k]
                == before[k] by {}
        }
    }
    table
}

/// The byte of a format at an index: the terminating zero follows the last one.
pub fn format_byte(format: &str, index: u32) -> (byte: u8)
    requires
        index <= utf8::encode_utf8(format@).len(),
    ensures
        byte == if index == utf8::encode_utf8(format@).len() {
            0
        } else {
            utf8::encode_utf8(format@)[index as int]
        },
{
    let bytes = format.as_bytes();
    if index as usize == bytes.len() {
        0
    } else {
        bytes[index as usize]
    }
}

/// The text that formatting gave, which has to be well-formed UTF-8.
pub fn with_format(formatted: Vec<u8>) -> (text: String)
    requires
        utf8::valid_utf8(formatted@),
    ensures
        text@ == utf8::decode_utf8(formatted@),
{
    match utf8_text(formatted) {
        Ok(text) => text,
        Err(_) => String::new(),
    }
}

/// Gives a string object other contents.
fn put_string(env: &mut Environment, id: Id, value: StringHostObject)
    requires
        old(env).wf(),
        is_string(old(env).objc.objects@, id),
    ensures
        final(env).wf(),
        string_replaced(old(env).objc.objects@, final(env).objc.objects@, id, value@),
        final(env).mem == old(env).mem,
        final(env).autorelease_pool == old(env).autorelease_pool,
{
    let i: usize = id as usize;
    let was_mutable: bool = match &env.objc.objects[i].host {
        HostObject::Str { value, mutable } => *mutable,
        _ => false,
    };
    let retain_count: Option<u32> = env.objc.objects[i].retain_count;
    env.objc.objects.set(
        i,
        Object { retain_count, host: HostObject::Str { value, mutable: was_mutable } },
    );
}

/// Turns a string object into UTF-16 and returns its code units.
fn units_in_place(env: &mut Environment, this: Id) -> (units: Vec<u16>)
    requires
        old(env).wf(),
        is_string(old(env).objc.objects@, this),
    ensures
        final(env).wf(),
        units@ == units_at(old(env).objc.objects@, this),
        string_replaced(
            old(env).objc.objects@,
            final(env).objc.objects@,
            this,
            StringView::Utf16(units@),
        ),
        final(env).mem == old(env).mem,
        final(env).autorelease_pool == old(env).autorelease_pool,
{
    let units = collect_code_units(env, this);
    let stored = collect_code_units(env, this);
    put_string(env, this, StringHostObject::Utf16(stored));
    units
}

/// The number of code units of a string object, which is UTF-16 from then on.
pub fn length(env: &mut Environment, this: Id) -> (len: u32)
    requires
        old(env).wf(),
        is_string(old(env).objc.objects@, this),
        units_at(old(env).objc.objects@, this).len() <= u32::MAX,
    ensures
        final(env).wf(),
        len == units_at(old(env).objc.objects@, this).len(),
        string_replaced(
            old(env).objc.objects@,
            final(env).objc.objects@,
            this,
            StringView::Utf16(units_at(old(env).objc.objects@, this)),
        ),
        final(env).mem == old(env).mem,
        final(env).autorelease_pool == old(env).autorelease_pool,
{
    units_in_place(env, this).len() as u32
}

/// A code unit of a string object, which is UTF-16 from then on.
pub fn character_at_index(env: &mut Environment, this: Id, index: u32) -> (unit: u16)
    requires
        old(env).wf(),
        is_string(old(env).objc.objects@, this),
        index < units_at(old(env).objc.objects@, this).len(),
    ensures
        final(env).wf(),
        unit == units_at(old(env).objc.objects@, this)[index as int],
        string_replaced(
            old(env).objc.objects@,
            final(env).objc.objects@,
            this,
            StringView::Utf16(units_at(old(env).objc.objects@, this)),
        ),
        final(env).mem == old(env).mem,
        final(env).autorelease_pool == old(env).autorelease_pool,
{
    units_in_place(env, this)[index as usize]
}

/// Gives a mutable string the text of another string.
pub fn set_string(env: &mut Environment, this: Id, other: Id)
    requires
        old(env).wf(),
        is_string(old(env).objc.objects@, this),
        is_string(old(env).objc.objects@, other),
    ensures
        final(env).wf(),
        string_replaced(
            old(env).objc.objects@,
            final(env).objc.objects@,
            this,
            StringView::Utf8(text_at(old(env).objc.objects@, other)),
        ),
        final(env).mem == old(env).mem,
        final(env).autorelease_pool == old(env).autorelease_pool,
{
    let text = to_rust_string(env, other);
    put_string(env, this, StringHostObject::Utf8(text));
}

/// The string object is UTF-16 now and holds the same code units.
pub open spec fn turned_to_utf16(before: Seq<Object>, after: Seq<Object>, id: Id) -> bool {
    &&& after[id as int].retain_count == before[id as int].retain_count
    &&& holds_string(
        after[id as int],
        StringView::Utf16(units_at(before, id)),
        is_mutable_string(before, id),
    )
}

/// One object more: a string with the units of two others, which are UTF-16 from then
/// on.
pub open spec fn appended(before: Seq<Object>, after: Seq<Object>, this: Id, other: Id) -> bool {
    &&& after.len() == before.len() + 1
    &&& forall|i: int|
        0 <= i < before.len() && i != this && i != other ==> #[trigger] after[i] == before[i]
    &&& turned_to_utf16(before, after, this)
    &&& turned_to_utf16(before, after, other)
    &&& after.last().retain_count == Some(1u32)
    &&& holds_string(
        after.last(),
        StringView::Utf16(units_at(before, this) + units_at(before, other)),
        false,
    )
}

/// A new string: one string behind another. The caller owns it.
pub fn string_by_appending_string(env: &mut Environment, this: Id, other: Id) -> (id: Id)
    requires
        old(env).wf(),
        old(env).has_room(1, 0),
        is_string(old(env).objc.objects@, this),
        is_string(old(env).objc.objects@, other),
        units_at(old(env).objc.objects@, this).len() <= u32::MAX,
        units_at(old(env).objc.objects@, other).len() <= u32::MAX,
    ensures
        final(env).wf(),
        id == old(env).objc.objects@.len(),
        appended(old(env).objc.objects@, final(env).objc.objects@, this, other),
        final(env).mem == old(env).mem,
        final(env).autorelease_pool == old(env).autorelease_pool,
{
    let ghost before = env.objc.objects@;
    length(env, this);
    let ghost first = env.objc.objects@;
    assert(units_at(first, other) == units_at(before, other));
    length(env, other);
    let ghost second = env.objc.objects@;
    let mut units = collect_code_units(env, this);
    let more = collect_code_units(env, other);
    push_units(&mut units, more.as_slice(), 0, more.len());
    assert(units@ =~= units_at(before, this) + units_at(before, other));
    let id: Id = from_u16_vec(env, units);
    proof {
        let after = env.objc.objects@;
        assert forall|i: int| 0 <= i < before.len() implies after[i] == second[i] by {
            assert(after.drop_last()[i] == after[i]);
        }
    }
    id
}

/// Copies a string: a mutable one is copied to a new string, another gets one
/// more reference.
pub fn copy_string(env: &mut Environment, this: Id) -> (id: Id)
    requires
        old(env).wf(),
        old(env).has_room(1, 0),
        is_string(old(env).objc.objects@, this),
        objc::can_retain(old(env).objc.objects@, this),
    ensures
        final(env).wf(),
        is_mutable_string(old(env).objc.objects@, this) ==> {
            &&& id == old(env).objc.objects@.len()
            &&& string_added(
                old(env).objc.objects@,
                final(env).objc.objects@,
                StringView::Utf16(units_at(old(env).objc.objects@, this)),
                false,
                Some(1),
            )
        },
        !is_mutable_string(old(env).objc.objects@, this) ==> {
            &&& id == this
            &&& final(env).objc.objects@ == objc::retained(old(env).objc.objects@, this)
        },
        final(env).mem == old(env).mem,
        final(env).autorelease_pool == old(env).autorelease_pool,
{
    let mutable: bool = match &env.objc.objects[this as usize].host {
        HostObject::Str { value, mutable } => *mutable,
        _ => false,
    };
    if mutable {
        let units = collect_code_units(env, this);
        from_u16_vec(env, units)
    } else {
        retain(env, this)
    }
}

/// A mutable string with the text of another string. The caller owns it.
pub fn mutable_copy_string(env: &mut Environment, this: Id) -> (id: Id)
    requires
        old(env).wf(),
        old(env).has_room(1, 0),
        is_string(old(env).objc.objects@, this),
    ensures
        final(env).wf(),
        id == old(env).objc.objects@.len(),
        string_added(
            old(env).objc.objects@,
            final(env).objc.objects@,
            StringView::Utf8(text_at(old(env).objc.objects@, this)),
            true,
            Some(1),
        ),
        final(env).mem == old(env).mem,
        final(env).autorelease_pool == old(env).autorelease_pool,
{
    let text = to_rust_string(env, this);
    mutable_from_rust_string(env, text)
}

/// A new string that belongs to the current pool.
pub open spec fn pooled_string(
    before: Environment,
    after: Environment,
    id: Id,
    value: StringView,
) -> bool {
    &&& id == before.objc.objects@.len()
    &&& string_added(before.objc.objects@, after.objc.objects@, value, false, Some(1))
    &&& after.mem == before.mem
    &&& after.autorelease_pool@ == before.autorelease_pool@.push(id)
}

/// The part of a string that a range covers, as a new string in the current
/// pool. The string itself is UTF-16 from then on.
pub fn substring(env: &mut Environment, this: Id, range: NSRange) -> (id: Id)
    requires
        old(env).wf(),
        old(env).has_room(1, 0),
        is_string(old(env).objc.objects@, this),
        range.location + range.length <= units_at(old(env).objc.objects@, this).len(),
        range.location + range.length <= u32::MAX,
    ensures
        final(env).wf(),
        id == old(env).objc.objects@.len(),
        final(env).objc.objects@.len() == old(env).objc.objects@.len() + 1,
        string_replaced(
            old(env).objc.objects@,
            final(env).objc.objects@.drop_last(),
            this,
            StringView::Utf16(units_at(old(env).objc.objects@, this)),
        ),
        final(env).objc.objects@.last().retain_count == Some(1u32),
        holds_string(
            final(env).objc.objects@.last(),
            StringView::Utf16(
                units_at(old(env).objc.objects@, this).subrange(
                    range.location as int,
                    range.location + range.length,
                ),
            ),
            false,
        ),
        final(env).mem == old(env).mem,
        final(env).autorelease_pool@ == old(env).autorelease_pool@.push(id),
{
    let units = units_in_place(env, this);
    let part = substring_with_range(&units, range);
    let new: Id = from_u16_vec(env, part);
    autorelease(env, new)
}

/// The units before an index, as a new string in the current pool.
pub fn substring_to(env: &mut Environment, this: Id, to: u32) -> (id: Id)
    requires
        old(env).wf(),
        old(env).has_room(1, 0),
        is_string(old(env).objc.objects@, this),
    ensures
        final(env).wf(),
        pooled_string(
            *old(env),
            *final(env),
            id,
            StringView::Utf16(
                units_at(old(env).objc.objects@, this).take(
                    if to < units_at(old(env).objc.objects@, this).len() {
                        to as int
                    } else {
                        units_at(old(env).objc.objects@, this).len() as int
                    },
                ),
            ),
        ),
{
    let units = collect_code_units(env, this);
    let part = string_values::substring_to_index(&units, to);
    let new: Id = from_u16_vec(env, part);
    autorelease(env, new)
}

/// The units from an index on, as a new string in the current pool.
pub fn substring_from(env: &mut Environment, this: Id, from: u32) -> (id: Id)
    requires
        old(env).wf(),
        old(env).has_room(1, 0),
        is_string(old(env).objc.objects@, this),
    ensures
        final(env).wf(),
        pooled_string(
            *old(env),
            *final(env),
            id,
            StringView::Utf16(
                units_at(old(env).objc.objects@, this).skip(
                    if from < units_at(old(env).objc.objects@, this).len() {
                        from as int
                    } else {
                        units_at(old(env).objc.objects@, this).len() as int
                    },
                ),
            ),
        ),
{
    let units = collect_code_units(env, this);
    let part = string_values::substring_from_index(&units, from);
    let new: Id = from_u16_vec(env, part);
    autorelease(env, new)
}

/// A string in the current pool that is a copy of another one.
pub open spec fn pooled_copy(before: Environment, after: Environment, this: Id, id: Id) -> bool {
    &&& is_mutable_string(before.objc.objects@, this) ==> pooled_string(
        before,
        after,
        id,
        StringView::Utf16(units_at(before.objc.objects@, this)),
    )
    &&& !is_mutable_string(before.objc.objects@, this) ==> {
        &&& id == this
        &&& after.objc.objects@ == objc::retained(before.objc.objects@, this)
        &&& after.mem == before.mem
        &&& after.autorelease_pool@ == objc::pooled(
            before.autorelease_pool@,
            before.objc.objects@,
            id,
        )
    }
}

/// Replaces what matches in a string: a new string in the current pool, or a
/// copy where there is nothing to look for.
pub fn string_by_replacing_occurrences_inner(
    env: &mut Environment,
    source: Id,
    target: Id,
    replacement: Id,
    options: u32,
) -> (id: Id)
    requires
        old(env).wf(),
        old(env).has_room(1, 0),
        is_string(old(env).objc.objects@, source),
        objc::can_retain(old(env).objc.objects@, source),
        target == NIL || is_string(old(env).objc.objects@, target),
        replacement == NIL || is_string(old(env).objc.objects@, replacement),
    ensures
        final(env).wf(),
        units_at(old(env).objc.objects@, target).len() == 0 ==> pooled_copy(
            *old(env),
            *final(env),
            source,
            id,
        ),
        units_at(old(env).objc.objects@, target).len() > 0 ==> pooled_string(
            *old(env),
            *final(env),
            id,
            StringView::Utf16(
                all_replaced(
                    units_at(old(env).objc.objects@, source),
                    units_at(old(env).objc.objects@, target),
                    units_at(old(env).objc.objects@, replacement),
                    code_units::options_of(options),
                ),
            ),
        ),
{
    let source_units = collect_code_units(env, source);
    let target_units = collect_code_units(env, target);
    if target_units.len() == 0 {
        let copy: Id = copy_string(env, source);
        return autorelease(env, copy);
    }
    let replacement_units = collect_code_units(env, replacement);
    let (opts, _) = parse_compare_options(options);
    let (result, _) = replace_code_units(
        source_units.as_slice(),
        target_units.as_slice(),
        replacement_units.as_slice(),
        opts,
    );
    let new: Id = from_u16_vec(env, result);
    autorelease(env, new)
}

/// The string with all matches replaced.
pub open spec fn all_replaced(
    source: Seq<u16>,
    target: Seq<u16>,
    replacement: Seq<u16>,
    opts: code_units::CompareOptions,
) -> Seq<u16> {
    code_units::replaced_from(
        source,
        code_units::matches_to_replace(source, target, opts),
        0,
        target.len() as int,
        replacement,
    )
}

/// Replaces what matches within a range of a mutable string; the number of
/// replacements. Nothing happens without a target or a replacement, or where
/// nothing matches.
pub fn replace_occurrences_of_string(
    env: &mut Environment,
    this: Id,
    target: Id,
    replacement: Id,
    options: u32,
    range: NSRange,
) -> (count: usize)
    requires
        old(env).wf(),
        is_string(old(env).objc.objects@, this),
        target == NIL || is_string(old(env).objc.objects@, target),
        replacement == NIL || is_string(old(env).objc.objects@, replacement),
    ensures
        final(env).wf(),
        ({
            let whole = units_at(old(env).objc.objects@, this);
            let target_units = units_at(old(env).objc.objects@, target);
            let replacement_units = units_at(old(env).objc.objects@, replacement);
            let opts = code_units::options_of(options);
            let (start, end) = code_units::clipped(
                whole.len() as int,
                range.location as int,
                range.length as int,
            );
            let middle = whole.subrange(start, end);
            &&& count == if target == NIL || replacement == NIL {
                0
            } else {
                code_units::matches_to_replace(middle, target_units, opts).len()
            }
            &&& count == 0 ==> *final(env) == *old(env)
            &&& count > 0 ==> string_replaced(
                old(env).objc.objects@,
                final(env).objc.objects@,
                this,
                StringView::Utf8(
                    string_encoding::units_text(
                        whole.take(start) + all_replaced(
                            middle,
                            target_units,
                            replacement_units,
                            opts,
                        ) + whole.skip(end),
                        0,
                    ),
                ),
            )
        }),
        final(env).mem == old(env).mem,
        final(env).autorelease_pool == old(env).autorelease_pool,
{
    if target == NIL || replacement == NIL {
        return 0;
    }
    let whole = collect_code_units(env, this);
    let target_units = collect_code_units(env, target);
    let replacement_units = collect_code_units(env, replacement);
    let (opts, _) = parse_compare_options(options);
    let (result, count): (Vec<u16>, usize) = replace_occurrences_in_range(
        &whole,
        &target_units,
        &replacement_units,
        opts,
        range,
    );
    if count == 0 {
        return 0;
    }
    let (text, _) = string_encoding::decode_units(&result);
    put_string(env, this, StringHostObject::Utf8(text));
    count
}

/// The strings that are made when the units before `end` from `start` on are taken out of
/// a string, each with its reference count: what comes before them and what comes after
/// them, where that is nothing the static empty string unless there is one, and both.
pub open spec fn parts_made(units: Seq<u16>, start: int, end: int, has_empty: bool) -> Seq<
    (Seq<u16>, Option<u32>),
> {
    let left = if start > 0 {
        seq![(units.take(start), Some(1u32))]
    } else if has_empty {
        Seq::empty()
    } else {
        seq![(Seq::empty(), None)]
    };
    let right = if end < units.len() {
        seq![(units.skip(end), Some(1u32))]
    } else if has_empty || start == 0 {
        Seq::empty()
    } else {
        seq![(Seq::empty(), None)]
    };
    left + right + seq![(units.take(start) + units.skip(end), Some(1u32))]
}

/// The parts among them that belong to the current pool; the first one has the id `id`.
pub open spec fn parts_pooled(units: Seq<u16>, start: int, end: int, has_empty: bool, id: int) -> Seq<
    Id,
> {
    let left = if start > 0 {
        seq![id as Id]
    } else {
        Seq::empty()
    };
    let right = if end < units.len() {
        seq![
            if start > 0 || !has_empty {
                (id + 1) as Id
            } else {
                id as Id
            },
        ]
    } else {
        Seq::empty()
    };
    left + right
}

/// The static empty string, if there is one.
pub open spec fn is_empty_str(state: State, id: int) -> bool {
    exists|i: int| #[trigger] state.found(Seq::empty(), i) && state.static_str_pool@[i].1 == id
}

/// Units have been taken out of a mutable string. The strings that this was done by are
/// left behind, and a static empty string among them is UTF-16.
pub open spec fn deleted(
    before: Environment,
    after: Environment,
    state: State,
    this: Id,
    start: int,
    end: int,
) -> bool {
    let objects = before.objc.objects@;
    let units = units_at(objects, this);
    let used_empty = start == 0 || end == units.len();
    let has_empty = state.has(Seq::empty());
    let made = parts_made(units, start, end, has_empty);
    &&& after.objc.objects@.len() == objects.len() + made.len()
    &&& forall|i: int|
        0 <= i < objects.len() ==> {
            let object = #[trigger] after.objc.objects@[i];
            if i == this {
                object.retain_count == objects[i].retain_count && holds_string(
                    object,
                    StringView::Utf8(
                        string_encoding::units_text(units.take(start) + units.skip(end), 0),
                    ),
                    true,
                )
            } else if used_empty && is_empty_str(state, i) {
                object.retain_count is None && holds_string(
                    object,
                    StringView::Utf16(Seq::empty()),
                    false,
                )
            } else {
                object == objects[i]
            }
        }
    &&& forall|i: int|
        0 <= i < made.len() ==> (#[trigger] after.objc.objects@[objects.len() + i]).retain_count
            == made[i].1 && holds_string(
            after.objc.objects@[objects.len() + i],
            StringView::Utf16(made[i].0),
            false,
        )
    &&& after.mem == before.mem
    &&& after.autorelease_pool@ == before.autorelease_pool@ + parts_pooled(
        units,
        start,
        end,
        has_empty,
        objects.len() as int,
    )
}

/// The units of a part of a string: those of a new string in the current pool, or of the
/// static empty string.
fn part_of_string(env: &mut Environment, state: &mut State, this: Id, range: NSRange) -> (id: Id)
    requires
        old(env).wf(),
        old(env).has_room(1, 0),
        old(state).wf(old(env).objc.objects@),
        is_mutable_string(old(env).objc.objects@, this),
        range.location + range.length <= units_at(old(env).objc.objects@, this).len(),
        units_at(old(env).objc.objects@, this).len() <= u32::MAX,
    ensures
        final(env).wf(),
        final(state).wf(final(env).objc.objects@),
        range.length == 0 ==> static_str(
            *old(env),
            *final(env),
            *old(state),
            *final(state),
            Seq::empty(),
            id,
        ),
        range.length > 0 ==> {
            &&& *final(state) == *old(state)
            &&& id == old(env).objc.objects@.len()
            &&& final(env).objc.objects@.len() == old(env).objc.objects@.len() + 1
            &&& string_replaced(
                old(env).objc.objects@,
                final(env).objc.objects@.drop_last(),
                this,
                StringView::Utf16(units_at(old(env).objc.objects@, this)),
            )
            &&& final(env).objc.objects@.last().retain_count == Some(1u32)
            &&& holds_string(
                final(env).objc.objects@.last(),
                StringView::Utf16(
                    units_at(old(env).objc.objects@, this).subrange(
                        range.location as int,
                        range.location + range.length,
                    ),
                ),
                false,
            )
            &&& final(env).mem == old(env).mem
            &&& final(env).autorelease_pool@ == old(env).autorelease_pool@.push(id)
        },
{
    if range.length == 0 {
        proof {
            reveal_strlit("");
            assert(""@ =~= Seq::<char>::empty());
        }
        get_static_str(env, state, "")
    } else {
        let ghost before = env.objc.objects@;
        let id: Id = substring(env, this, range);
        proof {
            let after = env.objc.objects@;
            assert forall|i: int| 0 <= i < state.static_str_pool@.len() implies state.entry_wf(
                after,
                i,
            ) by {
                assert(state.entry_wf(before, i));
                let (text, other) = state.static_str_pool@[i];
                assert(after.drop_last()[other as int] == after[other as int]);
            }
        }
        id
    }
}

/// Static strings stay what they are if no string that cannot be changed is.
proof fn lemma_state_kept(state: State, before: Seq<Object>, after: Seq<Object>)
    requires
        state.wf(before),
        forall|id: Id|
            is_string(before, id) && !is_mutable_string(before, id) ==> (#[trigger] is_string(
                after,
                id,
            )) && !is_mutable_string(after, id) && text_at(after, id) == text_at(before, id)
                && after[id as int].retain_count == before[id as int].retain_count,
    ensures
        state.wf(after),
{
    assert forall|i: int| 0 <= i < state.static_str_pool@.len() implies state.entry_wf(
        after,
        i,
    ) by {
        assert(state.entry_wf(before, i));
        assert(is_string(after, state.static_str_pool@[i].1));
    }
}

/// A string that is turned to UTF-16 keeps its text.
proof fn lemma_text_kept(before: Seq<Object>, after: Seq<Object>, id: Id)
    requires
        is_string(before, id),
        id < after.len(),
        turned_to_utf16(before, after, id),
    ensures
        text_at(after, id) == text_at(before, id),
{
    if let StringView::Utf8(chars) = string_at(before, id)->0 {
        string_encoding::law_utf16_round_trip(chars);
    }
}

/// The units of a static empty string.
proof fn lemma_empty_units(objects: Seq<Object>, id: Id)
    requires
        text_at(objects, id) == Seq::<char>::empty(),
    ensures
        units_at(objects, id) == Seq::<u16>::empty(),
{
    assert(units_at(objects, id) =~= Seq::empty());
}

/// Takes the units of a range out of a mutable string.
pub fn delete_characters(env: &mut Environment, state: &mut State, this: Id, range: NSRange)
    requires
        old(env).wf(),
        old(env).has_room(3, 0),
        old(state).wf(old(env).objc.objects@),
        is_mutable_string(old(env).objc.objects@, this),
        range.location + range.length <= units_at(old(env).objc.objects@, this).len(),
        units_at(old(env).objc.objects@, this).len() <= u32::MAX,
    ensures
        final(env).wf(),
        deleted(
            *old(env),
            *final(env),
            *old(state),
            this,
            range.location as int,
            range.location + range.length,
        ),
        final(state).wf(final(env).objc.objects@),
        ({
            let used_empty = range.location == 0 || range.location + range.length == units_at(
                old(env).objc.objects@,
                this,
            ).len();
            if used_empty && !old(state).has(Seq::empty()) {
                let pool = final(state).static_str_pool@;
                &&& pool.drop_last() == old(state).static_str_pool@
                &&& pool.last().0@ == Seq::<char>::empty()
                &&& pool.last().1 == old(env).objc.objects@.len() + if range.location > 0 {
                    1int
                } else {
                    0
                }
            } else {
                *final(state) == *old(state)
            }
        }),
{
    let ghost objects = env.objc.objects@;
    let ghost units = units_at(objects, this);
    let start: u32 = range.location;
    let end: u32 = range.location + range.length;
    let left: Id = part_of_string(env, state, this, NSRange { location: 0, length: start });
    let ghost a = env.objc.objects@;
    let ghost mid = *state;
    proof {
        assert forall|i: int| 0 <= i < objects.len() && i != this implies a[i] == objects[i] by {
            if start > 0 || !old(state).has(Seq::empty()) {
                assert(a.drop_last()[i] == a[i]);
            }
        }
        if start > 0 || !old(state).has(Seq::empty()) {
            assert(a.drop_last()[this as int] == a[this as int]);
        }
    }
    let len: u32 = length(env, this);
    let ghost b = env.objc.objects@;
    proof {
        lemma_state_kept(*state, a, b);
    }
    let right: Id = part_of_string(
        env,
        state,
        this,
        NSRange { location: end, length: len - end },
    );
    let ghost c = env.objc.objects@;
    proof {
        assert forall|i: int| 0 <= i < b.len() && i != this implies c[i] == b[i] by {
            if end < len || !mid.has(Seq::empty()) {
                assert(c.drop_last()[i] == c[i]);
            }
        }
        if end < len || !mid.has(Seq::empty()) {
            assert(c.drop_last()[this as int] == c[this as int]);
        }
        assert(units.subrange(0, start as int) =~= units.take(start as int));
        assert(units.subrange(end as int, len as int) =~= units.skip(end as int));
        if start == 0 {
            lemma_empty_units(a, left);
            assert(units.take(0) =~= Seq::empty());
        }
        if end == len {
            lemma_empty_units(c, right);
            assert(units.skip(end as int) =~= Seq::empty());
        }
        assert(units_at(c, left) == units.take(start as int));
        assert(units_at(c, right) == units.skip(end as int));
    }
    let whole: Id = string_by_appending_string(env, left, right);
    let ghost d = env.objc.objects@;
    set_string(env, this, whole);
    proof {
        if (start == 0 || end == len) && !old(state).has(Seq::empty()) {
            let k = choose|k: int| state.found(Seq::empty(), k);
            if k < old(state).static_str_pool@.len() {
                assert forall|j: int| 0 <= j <= k implies #[trigger] state.static_str_pool@[j]
                    == old(state).static_str_pool@[j] by {
                    assert(state.static_str_pool@.drop_last()[j] == state.static_str_pool@[j]);
                }
                assert(old(state).found(Seq::empty(), k));
            }
        }
        let after = env.objc.objects@;
        let n = objects.len() as int;
        let has_empty = old(state).has(Seq::empty());
        let made = parts_made(units, start as int, end as int, has_empty);
        lemma_text_kept(c, d, left);
        lemma_text_kept(c, d, right);
        assert forall|id: Id| is_string(c, id) && !is_mutable_string(c, id) implies (
        #[trigger] is_string(after, id)) && !is_mutable_string(after, id) && text_at(after, id)
            == text_at(c, id) && after[id as int].retain_count == c[id as int].retain_count by {
            if id != left && id != right {
                assert(d[id as int] == c[id as int]);
            }
        }
        lemma_state_kept(*state, c, after);
        assert(d.len() == n + made.len());
        assert forall|i: int| 0 <= i < n implies ({
            let object = #[trigger] after[i];
            if i == this {
                object.retain_count == objects[i].retain_count && holds_string(
                    object,
                    StringView::Utf8(
                        string_encoding::units_text(
                            units.take(start as int) + units.skip(end as int),
                            0,
                        ),
                    ),
                    true,
                )
            } else if (start == 0 || end == units.len()) && is_empty_str(*old(state), i) {
                object.retain_count is None && holds_string(
                    object,
                    StringView::Utf16(Seq::empty()),
                    false,
                )
            } else {
                object == objects[i]
            }
        }) by {
            if i == this {
                assert(d.last() == d[whole as int]);
                assert(d[i] == c[i]);
            } else if (start == 0 || end == units.len()) && is_empty_str(*old(state), i) {
                assert(has_empty);
                assert(i == left || i == right);
                assert(turned_to_utf16(c, d, i as Id));
            } else {
                assert(i != left && i != right);
                assert(d[i] == c[i]);
            }
        }
        assert forall|i: int| 0 <= i < made.len() implies (#[trigger] after[n + i]).retain_count
            == made[i].1 && holds_string(
            after[n + i],
            StringView::Utf16(made[i].0),
            false,
        ) by {
            if i == made.len() - 1 {
                assert(after[n + i] == d.last());
            }
        }
        assert(env.autorelease_pool@ =~= old(env).autorelease_pool@ + parts_pooled(
            units,
            start as int,
            end as int,
            has_empty,
            n,
        ));
    }
}

/// The range of the first match within a range; a location of `NSNotFound` if
/// there is none.
pub fn range_of_string_common(
    env: &Environment,
    this: Id,
    search_string: Id,
    options: u32,
    range: NSRange,
) -> (found: NSRange)
    requires
        env.wf(),
        is_string(env.objc.objects@, this),
        search_string == NIL || is_string(env.objc.objects@, search_string),
        units_at(env.objc.objects@, this).len() <= u32::MAX,
    ensures
        ({
            let hay = units_at(env.objc.objects@, this);
            let needle = units_at(env.objc.objects@, search_string);
            let opts = code_units::options_of(options);
            let (start, end) = code_units::clipped(
                hay.len() as int,
                range.location as int,
                range.length as int,
            );
            ||| search_string == NIL && found == (NSRange {
                location: NSNotFound as u32,
                length: 0,
            })
            ||| search_string != NIL && found == (NSRange {
                location: NSNotFound as u32,
                length: 0,
            }) && code_units::search_result(hay.subrange(start, end), needle, opts, None)
            ||| {
                &&& search_string != NIL
                &&& start <= found.location
                &&& found.length == needle.len()
                &&& code_units::search_result(
                    hay.subrange(start, end),
                    needle,
                    opts,
                    Some((found.location - start) as usize),
                )
            }
        }),
{
    let not_found = NSRange { location: NSNotFound as u32, length: 0 };
    if search_string == NIL {
        return not_found;
    }
    let hay = collect_code_units(env, this);
    let needle = collect_code_units(env, search_string);
    let (opts, _) = parse_compare_options(options);
    match range_of_units(hay.as_slice(), needle.as_slice(), opts, range) {
        Some((location, length)) => NSRange { location: location as u32, length: length as u32 },
        None => not_found,
    }
}

/// Compares two strings: -1, 0 or 1; anything comes behind `nil`.
pub fn compare_strings(env: &Environment, this: Id, other: Id, options: u32) -> (result: i32)
    requires
        env.wf(),
        is_string(env.objc.objects@, this),
        other == NIL || is_string(env.objc.objects@, other),
    ensures
        result == if other == NIL {
            1
        } else {
            match code_units::string_rank(
                units_at(env.objc.objects@, this),
                units_at(env.objc.objects@, other),
                code_units::options_of(options),
            ) {
                code_units::Rank::Before => -1,
                code_units::Rank::Same => 0,
                code_units::Rank::After => 1int,
            }
        },
{
    if other == NIL {
        return 1;
    }
    let (opts, _) = parse_compare_options(options);
    let a = collect_code_units(env, this);
    let b = collect_code_units(env, other);
    from_rust_ordering(compare_code_units(a.as_slice(), b.as_slice(), opts))
}

/// Whether two strings have the same text. Only the same reference is equal to
/// `nil`.
pub fn is_equal_to_string(env: &Environment, this: Id, other: Id) -> (equal: bool)
    requires
        env.wf(),
        is_string(env.objc.objects@, this),
        other == NIL || is_string(env.objc.objects@, other),
    ensures
        equal == (other != NIL && text_at(env.objc.objects@, this) == text_at(
            env.objc.objects@,
            other,
        )),
{
    if this == other {
        return true;
    }
    if other == NIL {
        return false;
    }
    to_rust_string(env, this) == to_rust_string(env, other)
}

/// The text of a string is short enough to be encoded.
pub open spec fn text_fits(objects: Seq<Object>, id: Id, encoding: u32) -> bool {
    string_encoding::size_fits(utf8::encode_utf8(text_at(objects, id)).len() as int, encoding)
}

/// What is written to a buffer: the encoded text, and behind it the terminator
/// where it is asked for.
pub open spec fn terminated(bytes: Seq<u8>, encoding: u32, terminator: bool) -> Seq<u8> {
    if terminator {
        bytes + Seq::new(string_encoding::terminator_size(encoding) as nat, |i: int| 0u8)
    } else {
        bytes
    }
}

fn push_zeros(bytes: &mut Vec<u8>, n: u32)
    ensures
        final(bytes)@ == old(bytes)@ + Seq::new(n as nat, |i: int| 0u8),
{
    let mut i: u32 = 0;
    assert(bytes@ =~= old(bytes)@ + Seq::new(0, |i: int| 0u8));
    while i < n
        invariant
            i <= n,
            bytes@ == old(bytes)@ + Seq::new(i as nat, |i: int| 0u8),
        decreases n - i,
    {
        bytes.push(0);
        i = i + 1;
        assert(bytes@ =~= old(bytes)@ + Seq::new(i as nat, |i: int| 0u8));
    }
}

/// Writes an encoded text to a guest buffer. Nothing is written where there is
/// no encoded text, or where the buffer is too small for it.
pub fn write_encoded(
    env: &mut Environment,
    bytes: &Option<Vec<u8>>,
    buffer: u32,
    buffer_size: u32,
) -> (written: bool)
    requires
        old(env).wf(),
        bytes matches Some(b) ==> (0 < b@.len() <= buffer_size ==> old(env).mem.mapped(
            buffer as int,
            b@.len() as int,
        )),
    ensures
        final(env).wf(),
        written == (bytes matches Some(b) && b@.len() <= buffer_size),
        match bytes {
            Some(b) => if 0 < b@.len() <= buffer_size {
                final(env).mem.is_written(&old(env).mem, buffer as int, b@)
            } else {
                final(env).mem == old(env).mem
            },
            None => final(env).mem == old(env).mem,
        },
        final(env).objc == old(env).objc,
        final(env).autorelease_pool == old(env).autorelease_pool,
{
    match bytes {
        Some(b) => {
            if b.len() > buffer_size as usize {
                return false;
            }
            if b.len() > 0 {
                env.mem.write_bytes(buffer, b);
            }
            true
        },
        None => false,
    }
}

/// The bytes that a string has in an encoding, with a terminator where it is
/// asked for; nothing if the encoding cannot represent it.
pub fn encoded_bytes(env: &Environment, string: Id, encoding: u32, terminator: bool) -> (bytes:
    Option<Vec<u8>>)
    requires
        env.wf(),
        string == NIL || is_string(env.objc.objects@, string),
        text_fits(env.objc.objects@, string, encoding),
    ensures
        match bytes {
            Some(b) => string_encoding::encoded(
                text_at(env.objc.objects@, string),
                encoding,
                false,
            ) matches Some(e) && b@ == terminated(e, encoding, terminator),
            None => string_encoding::encoded(
                text_at(env.objc.objects@, string),
                encoding,
                false,
            ) is None,
        },
{
    let text = to_rust_string(env, string);
    match encode_str(text.as_str(), encoding, false) {
        Some(b) => {
            let mut out = b;
            if terminator {
                push_zeros(&mut out, nul_terminator_size(encoding));
            }
            Some(out)
        },
        None => None,
    }
}

/// Writes a string to a guest buffer in an encoding: whether it could be
/// represented and was small enough. Nothing is returned, and nothing written,
/// where the guest cannot access the bytes that would be written.
pub fn get_bytes_buffer_inner(
    env: &mut Environment,
    string: Id,
    buffer: u32,
    buffer_size: u32,
    encoding: u32,
    include_null_terminator: bool,
) -> (written: Option<bool>)
    requires
        old(env).wf(),
        string == NIL || is_string(old(env).objc.objects@, string),
        text_fits(old(env).objc.objects@, string, encoding),
    ensures
        final(env).wf(),
        final(env).objc == old(env).objc,
        final(env).autorelease_pool == old(env).autorelease_pool,
        match string_encoding::encoded(text_at(old(env).objc.objects@, string), encoding, false) {
            None => written == Some(false) && final(env).mem == old(env).mem,
            Some(e) => {
                let bytes = terminated(e, encoding, include_null_terminator);
                if bytes.len() > buffer_size {
                    written == Some(false) && final(env).mem == old(env).mem
                } else if bytes.len() == 0 {
                    written == Some(true) && final(env).mem == old(env).mem
                } else if old(env).mem.mapped(buffer as int, bytes.len() as int) {
                    written == Some(true) && final(env).mem.is_written(
                        &old(env).mem,
                        buffer as int,
                        bytes,
                    )
                } else {
                    written is None && final(env).mem == old(env).mem
                }
            },
        },
{
    let bytes = encoded_bytes(env, string, encoding, include_null_terminator);
    if let Some(b) = &bytes {
        if 0 < b.len() && b.len() <= buffer_size as usize && !env.mem.is_mapped(
            buffer,
            b.len() as u32,
        ) {
            return None;
        }
    }
    Some(write_encoded(env, &bytes, buffer, buffer_size))
}

/// The number of bytes that a string needs in an encoding; zero if the encoding
/// cannot represent it.
pub fn length_of_bytes_using_encoding(env: &Environment, this: Id, encoding: u32) -> (len: usize)
    requires
        env.wf(),
        is_string(env.objc.objects@, this),
        text_fits(env.objc.objects@, this, encoding),
    ensures
        len == match string_encoding::encoded(
            text_at(env.objc.objects@, this),
            encoding,
            false,
        ) {
            Some(e) => e.len() as int,
            None => 0,
        },
{
    match encoded_bytes(env, this, encoding, false) {
        Some(b) => b.len(),
        None => 0,
    }
}

/// A data object with an own copy of some bytes, in the current pool; zeros
/// fill the rest of its buffer.
pub open spec fn pooled_data(
    before: Environment,
    after: Environment,
    id: Id,
    content: Seq<u8>,
    size: nat,
    length: int,
) -> bool {
    &&& id == before.objc.objects@.len()
    &&& after.objc.objects@ == before.objc.objects@.push(
        Object {
            retain_count: Some(1),
            host: HostObject::Data {
                bytes: before.mem.bytes@.len() as u32,
                length: length as u32,
                free_when_done: true,
                mutable: false,
            },
        },
    )
    &&& after.mem.bytes@ == before.mem.bytes@ + mem::padded_with_zeros(content, size)
    &&& after.mem.null_segment_size == before.mem.null_segment_size
    &&& after.mem.allocations@ == before.mem.allocations@.push(
        (before.mem.bytes@.len() as u32, size as u32),
    )
    &&& after.autorelease_pool@ == before.autorelease_pool@.push(id)
}

fn new_pooled_data(env: &mut Environment, content: &Vec<u8>, size: u32, length: u32) -> (id: Id)
    requires
        old(env).wf(),
        old(env).has_room(1, size as int),
        content@.len() <= size,
    ensures
        final(env).wf(),
        pooled_data(*old(env), *final(env), id, content@, size as nat, length as int),
{
    let bytes: u32 = env.mem.allocate_with(content, size);
    let id: Id = env.objc.alloc_object(
        HostObject::Data { bytes, length, free_when_done: true, mutable: false },
    );
    autorelease(env, id)
}

/// The encodings for which a data object counts the terminator.
pub open spec fn keeps_nul(encoding: u32) -> bool {
    encoding == NSUTF8StringEncoding || encoding == NSASCIIStringEncoding || encoding
        == NSISOLatin1StringEncoding
}

/// The size of the buffer that a data object for an encoded text gets.
pub open spec fn data_size(len: nat, encoding: u32) -> nat {
    if keeps_nul(encoding) || len == 0 {
        len + 1
    } else {
        len
    }
}

pub open spec fn data_length(len: nat, encoding: u32) -> nat {
    if keeps_nul(encoding) {
        len + 1
    } else {
        len
    }
}

/// A data object for an encoded text, `nil` where there is none. For UTF-8,
/// ASCII and Latin-1 the terminator counts as part of the data.
pub fn data_from_encoded(env: &mut Environment, bytes: &Option<Vec<u8>>, encoding: u32) -> (id: Id)
    requires
        old(env).wf(),
        old(env).has_room(1, 0),
        bytes matches Some(b) ==> old(env).has_room(1, data_size(b@.len(), encoding) as int),
    ensures
        final(env).wf(),
        match bytes {
            Some(b) => pooled_data(
                *old(env),
                *final(env),
                id,
                b@,
                data_size(b@.len(), encoding),
                data_length(b@.len(), encoding) as int,
            ),
            None => id == NIL && *final(env) == *old(env),
        },
{
    match bytes {
        Some(b) => {
            let len: u32 = b.len() as u32;
            if encoding == NSUTF8StringEncoding || encoding == NSASCIIStringEncoding || encoding
                == NSISOLatin1StringEncoding {
                new_pooled_data(env, b, len + 1, len + 1)
            } else {
                let size: u32 = if len == 0 {
                    1
                } else {
                    len
                };
                new_pooled_data(env, b, size, len)
            }
        },
        None => NIL,
    }
}

/// A data object with a string in an encoding, `nil` where the encoding cannot
/// represent it. Nothing is returned, and nothing changed, where guest memory
/// has no room for the data.
pub fn data_using_encoding_lossy_inner(
    env: &mut Environment,
    this: Id,
    encoding: u32,
    lossy: bool,
) -> (id: Option<Id>)
    requires
        old(env).wf(),
        old(env).has_room(1, 0),
        is_string(old(env).objc.objects@, this),
        text_fits(old(env).objc.objects@, this, encoding),
    ensures
        final(env).wf(),
        match string_encoding::encoded(text_at(old(env).objc.objects@, this), encoding, lossy) {
            None => id == Some(NIL) && *final(env) == *old(env),
            Some(e) => {
                let bytes = string_encoding::data_mark(encoding) + e;
                if old(env).has_room(1, data_size(bytes.len(), encoding) as int) {
                    id matches Some(data) && pooled_data(
                        *old(env),
                        *final(env),
                        data,
                        bytes,
                        data_size(bytes.len(), encoding),
                        data_length(bytes.len(), encoding) as int,
                    )
                } else {
                    id is None && *final(env) == *old(env)
                }
            },
        },
{
    let text = to_rust_string(env, this);
    let bytes = encode_for_data(text.as_str(), encoding, lossy);
    if let Some(b) = &bytes {
        let keeps: bool = encoding == NSUTF8StringEncoding || encoding == NSASCIIStringEncoding
            || encoding == NSISOLatin1StringEncoding;
        let more: u64 = if keeps || b.len() == 0 {
            1
        } else {
            0
        };
        let left: u64 = u32::MAX as u64 - env.mem.bytes.len() as u64;
        if b.len() as u64 > left || b.len() as u64 + more > left {
            return None;
        }
    }
    Some(data_from_encoded(env, &bytes, encoding))
}

/// A guest copy of an encoded text that is terminated, held by a data object in
/// the current pool; its address, or zero where there is no text.
pub fn c_string_from_encoded(env: &mut Environment, bytes: &Option<Vec<u8>>) -> (addr: u32)
    requires
        old(env).wf(),
        old(env).has_room(1, 0),
        bytes matches Some(b) ==> old(env).has_room(1, b@.len() as int),
    ensures
        final(env).wf(),
        match bytes {
            Some(b) => addr == old(env).mem.bytes@.len() && pooled_data(
                *old(env),
                *final(env),
                old(env).objc.objects@.len() as u32,
                b@,
                b@.len(),
                b@.len() as int,
            ),
            None => addr == 0 && *final(env) == *old(env),
        },
{
    match bytes {
        Some(b) => {
            let addr: u32 = env.mem.bytes.len() as u32;
            new_pooled_data(env, b, b.len() as u32, b.len() as u32);
            addr
        },
        None => 0,
    }
}

/// The address of a guest copy of a string in an encoding, terminated; zero
/// where the encoding cannot represent it. Nothing is returned, and nothing
/// changed, where guest memory has no room for the copy.
pub fn c_string_using_encoding(env: &mut Environment, this: Id, encoding: u32) -> (addr: Option<
    u32,
>)
    requires
        old(env).wf(),
        old(env).has_room(1, 0),
        is_string(old(env).objc.objects@, this),
        text_fits(old(env).objc.objects@, this, encoding),
    ensures
        final(env).wf(),
        match string_encoding::encoded(text_at(old(env).objc.objects@, this), encoding, false) {
            None => addr == Some(0u32) && *final(env) == *old(env),
            Some(e) => {
                let bytes = terminated(e, encoding, true);
                if old(env).has_room(1, bytes.len() as int) {
                    addr == Some(old(env).mem.bytes@.len() as u32) && pooled_data(
                        *old(env),
                        *final(env),
                        old(env).objc.objects@.len() as u32,
                        bytes,
                        bytes.len(),
                        bytes.len() as int,
                    )
                } else {
                    addr is None && *final(env) == *old(env)
                }
            },
        },
{
    let bytes = encoded_bytes(env, this, encoding, true);
    if let Some(b) = &bytes {
        if b.len() as u64 > u32::MAX as u64 - env.mem.bytes.len() as u64 {
            return None;
        }
    }
    Some(c_string_from_encoded(env, &bytes))
}

/// The entry of a string in an archive. For a mutable string it is a dictionary that
/// names the class, and gets the text; for another it is the text alone.
pub open spec fn archived(text: Seq<char>, mutable: bool, entry: PlistView) -> PlistView {
    if mutable {
        match entry {
            PlistView::Dictionary(entries) => PlistView::Dictionary(
                plist_value::entry_put(entries, "NS.string"@, PlistView::Str(text)),
            ),
            _ => entry,
        }
    } else {
        PlistView::Str(text)
    }
}

/// Writes a string into its entry of an archive.
pub fn encode_with_coder(env: &Environment, this: Id, entry: PlistValue) -> (encoded: PlistValue)
    requires
        env.wf(),
        is_string(env.objc.objects@, this),
        entry@ is Dictionary,
    ensures
        encoded@ == archived(
            text_at(env.objc.objects@, this),
            is_mutable_string(env.objc.objects@, this),
            entry@,
        ),
{
    let string = to_rust_string(env, this);
    let mutable: bool = match &env.objc.objects[this as usize].host {
        HostObject::Str { value, mutable } => *mutable,
        _ => false,
    };
    if !mutable {
        return PlistValue::Str(string);
    }
    match entry {
        PlistValue::Dictionary(mut entries) => {
            insert_entry(&mut entries, "NS.string", PlistValue::Str(string));
            PlistValue::Dictionary(entries)
        },
        other => other,
    }
}

/// The objects after a string has read itself from an archive in the place of
/// another one, which is released: `value` has been added, and for a mutable string
/// a mutable copy of it, which stays alone.
pub open spec fn string_read(
    before: Seq<Object>,
    after: Seq<Object>,
    this: Id,
    value: StringView,
    mutable: bool,
) -> bool {
    exists|made: Seq<Object>|
        {
            let freed = objc::released(made, seq![this], Seq::empty()).0;
            &&& #[trigger] string_added(before, made, value, false, Some(1))
            &&& !mutable ==> after == freed
            &&& mutable ==> exists|copied: Seq<Object>|
                {
                    &&& #[trigger] string_added(
                        freed,
                        copied,
                        StringView::Utf8(string_encoding::string_text(value)),
                        true,
                        Some(1),
                    )
                    &&& after == objc::released(
                        copied,
                        seq![before.len() as Id],
                        Seq::empty(),
                    ).0
                }
        }
}

/// Lets a new string read itself from an archive. The object is replaced by another
/// one, which is mutable if it was.
pub fn init_with_coder(env: &mut Environment, this: Id, reader: &NSKeyedUnarchiver) -> (string: Id)
    requires
        old(env).wf(),
        old(env).has_room(2, 0),
        is_string(old(env).objc.objects@, this),
        reader.wf(),
        reader.scope() is Some,
    ensures
        final(env).wf(),
        ({
            let before = old(env).objc.objects@;
            let mutable = is_mutable_string(before, this);
            &&& string == before.len() + if mutable {
                1int
            } else {
                0
            }
            &&& exists|value: StringView|
                #[trigger] string_encoding::is_decoded(
                    reader.current_string_bytes(),
                    NSUTF8StringEncoding,
                    Some(value),
                ) && string_read(before, final(env).objc.objects@, this, value, mutable)
            &&& final(env).mem.bytes@ == old(env).mem.bytes@
            &&& final(env).mem.null_segment_size == old(env).mem.null_segment_size
            &&& final(env).mem.allocations@ == old(env).mem.allocations@
            &&& final(env).autorelease_pool == old(env).autorelease_pool
        }),
{
    let ghost before = env.objc.objects@;
    let mutable: bool = match &env.objc.objects[this as usize].host {
        HostObject::Str { value, mutable } => *mutable,
        _ => false,
    };
    let string: Id = reader.decode_current_string(env);
    let ghost made = env.objc.objects@;
    let ghost value = choose|value: StringView|
        #[trigger] string_encoding::is_decoded(
            reader.current_string_bytes(),
            NSUTF8StringEncoding,
            Some(value),
        ) && string_added(before, made, value, false, Some(1));
    release(env, this);
    let ghost freed = env.objc.objects@;
    proof {
        assert(made[this as int] == made.drop_last()[this as int]);
        assert(seq![this].drop_last() =~= Seq::empty());
        assert(Seq::<Id>::empty() + objc::owned_by(made[this as int].host) =~= Seq::empty());
        reveal_with_fuel(objc::released, 2);
        assert(freed.len() == made.len() && freed[string as int] == made[string as int]);
    }
    if !mutable {
        assert(string_read(before, freed, this, value, false));
        return string;
    }
    let copy: Id = mutable_copy_string(env, string);
    let ghost copied = env.objc.objects@;
    release(env, string);
    proof {
        assert(string_added(
            freed,
            copied,
            StringView::Utf8(string_encoding::string_text(value)),
            true,
            Some(1),
        ));
        assert(string_read(before, env.objc.objects@, this, value, true));
    }
    copy
}

/// A string that was written into an archive is read back with the same text, and a
/// mutable one stays mutable: its entry still is a dictionary, in which reading finds
/// the text, and the entry of another is a plain text, from which reading makes an
/// object at once.
pub proof fn law_archived_string_is_read(
    reader: NSKeyedUnarchiver,
    text: Seq<char>,
    mutable: bool,
    entry: PlistView,
    value: StringView,
)
    requires
        entry is Dictionary,
        plist_value::value_of(entry, "NS.bytes"@) is None,
        reader.scope() == Some(archived(text, mutable, entry)),
    ensures
        mutable ==> archived(text, mutable, entry) is Dictionary && plist_value::value_of(
            archived(text, mutable, entry),
            "$class"@,
        ) == plist_value::value_of(entry, "$class"@),
        mutable && string_encoding::is_decoded(
            reader.current_string_bytes(),
            NSUTF8StringEncoding,
            Some(value),
        ) ==> string_encoding::string_text(value) == text,
        !mutable ==> archived(text, mutable, entry) == PlistView::Str(text),
{
    if mutable {
        let entries = entry->Dictionary_0;
        reveal_strlit("NS.bytes");
        reveal_strlit("NS.string");
        reveal_strlit("$class");
        assert("NS.bytes"@.len() != "NS.string"@.len() && "$class"@.len() != "NS.string"@.len());
        plist_value::law_put_is_found(entries, "NS.string"@, PlistView::Str(text), "NS.bytes"@);
        plist_value::law_put_is_found(entries, "NS.string"@, PlistView::Str(text), "$class"@);
        let bytes = utf8::encode_utf8(text);
        assert(reader.current_string_bytes() == bytes);
        if string_encoding::is_decoded(bytes, NSUTF8StringEncoding, Some(value)) {
            if bytes.len() == 0 {
                utf8::encode_utf8_decode_utf8(text);
                utf8::encode_utf8_decode_utf8(Seq::empty());
                assert(utf8::encode_utf8(Seq::empty()) =~= bytes);
            } else {
                string_encoding::law_utf8_round_trip(text, value->Utf8_0);
            }
        }
    }
}

/// A new string object has got its text, or has been released because there is
/// none.
pub open spec fn initialised(
    before: Environment,
    after: Environment,
    this: Id,
    id: Id,
    decoded: Option<StringView>,
) -> bool {
    match decoded {
        Some(s) => {
            &&& id == this
            &&& string_replaced(before.objc.objects@, after.objc.objects@, this, s)
            &&& after.mem == before.mem
            &&& after.autorelease_pool == before.autorelease_pool
        },
        None => id == NIL && objc::after_releases(before, after, seq![this]),
    }
}

/// Gives a new string object its text. Where there is none the object is
/// released and `nil` returned.
pub fn init_with_decoded(env: &mut Environment, this: Id, decoded: Option<StringHostObject>) -> (id:
    Id)
    requires
        old(env).wf(),
        is_string(old(env).objc.objects@, this),
    ensures
        final(env).wf(),
        initialised(
            *old(env),
            *final(env),
            this,
            id,
            match decoded {
                Some(s) => Some(s@),
                None => None,
            },
        ),
{
    match decoded {
        Some(s) => {
            put_string(env, this, s);
            this
        },
        None => {
            release(env, this);
            NIL
        },
    }
}

/// Gives a new string object the text of guest bytes in an encoding.
pub fn init_with_bytes(env: &mut Environment, this: Id, bytes: u32, len: u32, encoding: u32) -> (id:
    Id)
    requires
        old(env).wf(),
        is_string(old(env).objc.objects@, this),
        len == 0 || old(env).mem.mapped(bytes as int, len as int),
        string_encoding::size_fits(len as int, encoding),
    ensures
        final(env).wf(),
        exists|decoded: Option<StringView>|
            #[trigger] string_encoding::is_decoded(
                old(env).mem.content(bytes, len),
                encoding,
                decoded,
            ) && initialised(*old(env), *final(env), this, id, decoded),
{
    let content = env.mem.read_content(bytes, len);
    let decoded = StringHostObject::decode(content.as_slice(), encoding);
    let ghost view: Option<StringView> = match &decoded {
        Some(s) => Some(s@),
        None => None,
    };
    let id: Id = init_with_decoded(env, this, decoded);
    proof {
        let read = old(env).mem.content(bytes, len);
        assert(content@ =~= read);
        assert(string_encoding::is_decoded(read, encoding, view));
        assert(initialised(*old(env), *env, this, id, view));
    }
    id
}

/// Gives a new string object the text of a terminated guest string. Encodings
/// with wider units cannot be read like this: the object is released and `nil`
/// returned.
pub fn init_with_c_string(env: &mut Environment, this: Id, c_string: u32, encoding: u32) -> (id: Id)
    requires
        old(env).wf(),
        is_string(old(env).objc.objects@, this),
        string_encoding::terminator_size(encoding) == 1 ==> exists|n: int|
            string_encoding::size_fits(n, encoding) && old(env).mem.ends_after(c_string as int, n),
    ensures
        final(env).wf(),
        string_encoding::terminator_size(encoding) != 1 ==> initialised(
            *old(env),
            *final(env),
            this,
            id,
            None,
        ),
        string_encoding::terminator_size(encoding) == 1 ==> exists|
            n: int,
            decoded: Option<StringView>,
        |
            #[trigger] old(env).mem.ends_after(c_string as int, n)
                && #[trigger] string_encoding::is_decoded(
                old(env).mem.span(c_string as int, n),
                encoding,
                decoded,
            ) && initialised(*old(env), *final(env), this, id, decoded),
{
    if nul_terminator_size(encoding) != 1 {
        release(env, this);
        return NIL;
    }
    let ghost n = choose|n: int|
        string_encoding::size_fits(n, encoding) && old(env).mem.ends_after(c_string as int, n);
    let len: u32 = env.mem.cstr_len(c_string);
    proof {
        assert(len == n) by {
            if len < n {
                assert(env.mem.bytes@[c_string + len] != 0);
            }
            if n < len {
                assert(env.mem.bytes@[c_string + n] != 0);
            }
        }
        if len == 0 {
            assert(old(env).mem.span(c_string as int, 0) =~= Seq::<u8>::empty());
        }
    }
    init_with_bytes(env, this, c_string, len, encoding)
}

/// A string with what a URL may not hold escaped: a new string in the current
/// pool, a copy where nothing needs an escape, `nil` where the encoding cannot
/// represent the string.
pub fn string_by_adding_percent_escapes(env: &mut Environment, this: Id, encoding: u32) -> (id: Id)
    requires
        old(env).wf(),
        old(env).has_room(1, 0),
        is_string(old(env).objc.objects@, this),
        text_fits(old(env).objc.objects@, this, encoding),
        objc::can_retain(old(env).objc.objects@, this),
    ensures
        final(env).wf(),
        match string_encoding::encoded(text_at(old(env).objc.objects@, this), encoding, false) {
            None => id == NIL && *final(env) == *old(env),
            Some(e) => if forall|i: int|
                0 <= i < e.len() ==> string_values::kept_byte(#[trigger] e[i]) {
                pooled_copy(*old(env), *final(env), this, id)
            } else {
                pooled_string(
                    *old(env),
                    *final(env),
                    id,
                    StringView::Utf8(string_values::escaped(e)),
                )
            },
        },
{
    match encoded_bytes(env, this, encoding, false) {
        None => NIL,
        Some(bytes) => {
            if string_values::all_kept(&bytes) {
                let copy: Id = copy_string(env, this);
                autorelease(env, copy)
            } else {
                let escaped = add_percent_escapes(&bytes);
                let new: Id = from_rust_string(env, escaped);
                autorelease(env, new)
            }
        },
    }
}

/// New strings with some code units, each with one reference, at the end of the
/// table of objects.
pub open spec fn strings_added(before: Seq<Object>, after: Seq<Object>, parts: Seq<Seq<u16>>) -> bool {
    &&& after.len() == before.len() + parts.len()
    &&& after.take(before.len() as int) == before
    &&& forall|i: int|
        0 <= i < parts.len() ==> {
            &&& (#[trigger] after[before.len() + i]).retain_count == Some(1u32)
            &&& holds_string(after[before.len() + i], StringView::Utf16(parts[i]), false)
        }
}

pub open spec fn consecutive_ids(first: int, n: nat) -> Seq<Id> {
    Seq::new(n, |i: int| (first + i) as u32)
}

fn strings_from_parts(env: &mut Environment, parts: &Vec<Vec<u16>>) -> (ids: Vec<Id>)
    requires
        old(env).wf(),
        old(env).has_room(parts@.len() as int, 0),
    ensures
        final(env).wf(),
        strings_added(
            old(env).objc.objects@,
            final(env).objc.objects@,
            string_values::unit_views(parts@),
        ),
        ids@ == consecutive_ids(old(env).objc.objects@.len() as int, parts@.len()),
        final(env).mem == old(env).mem,
        final(env).autorelease_pool == old(env).autorelease_pool,
{
    let mut ids: Vec<Id> = Vec::new();
    let mut i: usize = 0;
    let ghost first = old(env).objc.objects@;
    assert(env.objc.objects@.take(first.len() as int) =~= first);
    while i < parts.len()
        invariant
            i <= parts@.len(),
            first == old(env).objc.objects@,
            first.len() + parts@.len() < u32::MAX,
            env.wf(),
            env.mem == old(env).mem,
            env.autorelease_pool == old(env).autorelease_pool,
            env.objc.objects@.len() == first.len() + i,
            env.objc.objects@.take(first.len() as int) == first,
            forall|k: int|
                0 <= k < i ==> {
                    &&& (#[trigger] env.objc.objects@[first.len() + k]).retain_count == Some(1u32)
                    &&& holds_string(
                        env.objc.objects@[first.len() + k],
                        StringView::Utf16(parts@[k]@),
                        false,
                    )
                },
            ids@ == consecutive_ids(first.len() as int, i as nat),
        decreases parts@.len() - i,
    {
        let ghost before = env.objc.objects@;
        let part = code_units::slice_units(parts[i].as_slice(), 0, parts[i].len());
        assert(part@ =~= parts@[i as int]@);
        let id: Id = from_u16_vec(env, part);
        ids.push(id);
        i = i + 1;
        proof {
            assert(ids@ =~= consecutive_ids(first.len() as int, i as nat));
            assert forall|k: int| 0 <= k < before.len() implies #[trigger] env.objc.objects@[k]
                == before[k] by {
                assert(env.objc.objects@.drop_last()[k] == before[k]);
            }
            assert(env.objc.objects@.take(first.len() as int) =~= first) by {
                assert forall|k: int| 0 <= k < first.len() implies env.objc.objects@[k]
                    == first[k] by {
                    assert(before.take(first.len() as int)[k] == first[k]);
                }
            }
        }
    }
    ids
}

/// An array of new strings, in the current pool.
pub open spec fn pooled_strings(
    before: Environment,
    after: Environment,
    id: Id,
    parts: Seq<Seq<u16>>,
) -> bool {
    &&& id == before.objc.objects@.len() + parts.len()
    &&& after.objc.objects@.len() == before.objc.objects@.len() + parts.len() + 1
    &&& strings_added(before.objc.objects@, after.objc.objects@.drop_last(), parts)
    &&& after.objc.objects@.last().retain_count == Some(1u32)
    &&& ns_array::holds_array(
        after.objc.objects@.last(),
        consecutive_ids(before.objc.objects@.len() as int, parts.len()),
        false,
        true,
    )
    &&& after.mem == before.mem
    &&& after.autorelease_pool@ == before.autorelease_pool@.push(id)
}

/// An array of the parts of a string that come from a split.
pub fn array_of_parts(env: &mut Environment, parts: &Vec<Vec<u16>>) -> (id: Id)
    requires
        old(env).wf(),
        old(env).has_room(parts@.len() as int + 1, 0),
    ensures
        final(env).wf(),
        pooled_strings(*old(env), *final(env), id, string_values::unit_views(parts@)),
{
    let ids = strings_from_parts(env, parts);
    let array: Id = ns_array::from_vec(env, ids);
    autorelease(env, array)
}

/// The parts of a string between separators, as an array of new strings in the
/// current pool. Nothing is returned where there is no room for them.
pub fn components_separated(env: &mut Environment, this: Id, separator: Id) -> (id: Option<Id>)
    requires
        old(env).wf(),
        is_string(old(env).objc.objects@, this),
        is_string(old(env).objc.objects@, separator),
        units_at(old(env).objc.objects@, separator).len() > 0,
    ensures
        final(env).wf(),
        ({
            let parts = string_values::components(
                units_at(old(env).objc.objects@, this),
                units_at(old(env).objc.objects@, separator),
                Seq::empty(),
            );
            match id {
                Some(array) => pooled_strings(*old(env), *final(env), array, parts),
                None => *final(env) == *old(env) && !old(env).has_room(parts.len() as int + 1, 0),
            }
        }),
{
    let units = collect_code_units(env, this);
    let sep = collect_code_units(env, separator);
    let parts = components_separated_by_string(&units, &sep);
    if parts.len() as u64 >= u32::MAX as u64 - 1 - env.objc.objects.len() as u64 {
        return None;
    }
    Some(array_of_parts(env, &parts))
}

/// A string object is UTF-16 now; nothing else has changed.
pub open spec fn converted(before: Environment, after: Environment, this: Id) -> bool {
    &&& string_replaced(
        before.objc.objects@,
        after.objc.objects@,
        this,
        StringView::Utf16(units_at(before.objc.objects@, this)),
    )
    &&& after.mem == before.mem
    &&& after.autorelease_pool == before.autorelease_pool
}

/// The parts of a string between members of a set, as an array of new strings in
/// the current pool; `member` tells for each unit whether it is in the set. The
/// string is UTF-16 from then on.
pub fn components_separated_by_members(env: &mut Environment, this: Id, member: &Vec<bool>) -> (id:
    Option<Id>)
    requires
        old(env).wf(),
        is_string(old(env).objc.objects@, this),
        member@.len() == units_at(old(env).objc.objects@, this).len(),
    ensures
        final(env).wf(),
        exists|mid: Environment|
            {
                let units = units_at(old(env).objc.objects@, this);
                let parts = string_values::split_parts(units, member@);
                &&& #[trigger] converted(*old(env), mid, this)
                &&& match id {
                    Some(array) => pooled_strings(mid, *final(env), array, parts),
                    None => *final(env) == mid && !mid.has_room(parts.len() as int + 1, 0),
                }
            },
{
    let units = units_in_place(env, this);
    let ghost mid = *env;
    let parts = string_values::split_units(&units, member);
    assert(converted(*old(env), mid, this));
    if parts.len() as u64 >= u32::MAX as u64 - 1 - env.objc.objects.len() as u64 {
        return None;
    }
    Some(array_of_parts(env, &parts))
}

/// A string without the members of a set at its ends: a copy where there are
/// none, else a new string; both in the current pool. `member` tells for each
/// unit whether it is in the set.
pub fn string_by_trimming(env: &mut Environment, this: Id, member: &Vec<bool>) -> (id: Id)
    requires
        old(env).wf(),
        old(env).has_room(1, 0),
        is_string(old(env).objc.objects@, this),
        objc::can_retain(old(env).objc.objects@, this),
        member@.len() == units_at(old(env).objc.objects@, this).len(),
        member@.len() <= u32::MAX,
    ensures
        final(env).wf(),
        ({
            let units = units_at(old(env).objc.objects@, this);
            let (start, end) = string_values::trimmed_ends(member@);
            exists|mid: Environment|
                {
                    &&& #[trigger] converted(*old(env), mid, this)
                    &&& if start == 0 && end == units.len() {
                        pooled_copy(mid, *final(env), this, id)
                    } else {
                        pooled_string(
                            mid,
                            *final(env),
                            id,
                            StringView::Utf16(units.subrange(start, end)),
                        )
                    }
                }
        }),
{
    let units = units_in_place(env, this);
    let ghost mid = *env;
    assert(converted(*old(env), mid, this));
    let (start, end): (usize, usize) = trimmed_range(member);
    if start == 0 && end == units.len() {
        let copy: Id = copy_string(env, this);
        autorelease(env, copy)
    } else {
        let part = code_units::slice_units(units.as_slice(), start, end);
        let new: Id = from_u16_vec(env, part);
        autorelease(env, new)
    }
}

/// Code units as guest memory holds them, low bytes first.
pub open spec fn unit_words(units: Seq<u16>) -> Seq<u8>
    decreases units.len(),
{
    if units.len() == 0 {
        Seq::empty()
    } else {
        unit_words(units.drop_last()) + mem::le_bytes(units.last() as int, 2)
    }
}

fn units_to_bytes(units: &Vec<u16>) -> (bytes: Vec<u8>)
    requires
        2 * units@.len() <= u32::MAX,
    ensures
        bytes@ == unit_words(units@),
        bytes@.len() == 2 * units@.len(),
{
    let mut out: Vec<u8> = Vec::new();
    let mut i: usize = 0;
    while i < units.len()
        invariant
            i <= units@.len(),
            out@ == unit_words(units@.take(i as int)),
            out@.len() == 2 * i,
        decreases units@.len() - i,
    {
        assert(units@.take(i + 1).drop_last() =~= units@.take(i as int));
        let word = mem::u16_le_bytes(units[i]);
        string_encoding::push_bytes(&mut out, &word);
        i = i + 1;
    }
    assert(units@.take(i as int) =~= units@);
    out
}

/// Writes the code units of a string to guest memory. The string is UTF-16 from
/// then on.
pub fn get_characters(env: &mut Environment, this: Id, buffer: u32)
    requires
        old(env).wf(),
        is_string(old(env).objc.objects@, this),
        old(env).mem.mapped(
            buffer as int,
            2 * units_at(old(env).objc.objects@, this).len() as int,
        ),
    ensures
        final(env).wf(),
        string_replaced(
            old(env).objc.objects@,
            final(env).objc.objects@,
            this,
            StringView::Utf16(units_at(old(env).objc.objects@, this)),
        ),
        final(env).mem.is_written(
            &old(env).mem,
            buffer as int,
            unit_words(units_at(old(env).objc.objects@, this)),
        ),
        final(env).autorelease_pool == old(env).autorelease_pool,
{
    let units = units_in_place(env, this);
    let bytes = units_to_bytes(&units);
    env.mem.write_bytes(buffer, &bytes);
}

/// The range of the lines that a range touches. The string is UTF-16 from then
/// on.
pub fn line_range_for_range(env: &mut Environment, this: Id, range: NSRange) -> (lines: NSRange)
    requires
        old(env).wf(),
        is_string(old(env).objc.objects@, this),
        range.location + range.length <= units_at(old(env).objc.objects@, this).len() <= u32::MAX,
    ensures
        final(env).wf(),
        string_replaced(
            old(env).objc.objects@,
            final(env).objc.objects@,
            this,
            StringView::Utf16(units_at(old(env).objc.objects@, this)),
        ),
        ({
            let units = units_at(old(env).objc.objects@, this);
            let (start, end, _) = code_units::line_bounds(
                units,
                range.location as int,
                range.length as int,
            );
            lines.location == start && lines.length == end - start
        }),
        final(env).mem == old(env).mem,
        final(env).autorelease_pool == old(env).autorelease_pool,
{
    let units = units_in_place(env, this);
    let (start, end, _): (u32, u32, u32) = line_range_helper(&units, range, true, true);
    proof {
        code_units::law_line_range_covers(units@, range.location as int, range.length as int);
    }
    NSRange { location: start, length: end - start }
}

/// Guest memory with a word written where an address is given.
pub open spec fn word_put(bytes: Seq<u8>, addr: u32, word: int) -> Seq<u8> {
    if addr == 0 {
        bytes
    } else {
        mem::splice(bytes, addr as int, mem::le_bytes(word, 4))
    }
}

pub fn write_word(env: &mut Environment, addr: u32, word: u32)
    requires
        old(env).wf(),
        addr == 0 || old(env).mem.mapped(addr as int, 4),
    ensures
        final(env).wf(),
        final(env).mem.bytes@ == word_put(old(env).mem.bytes@, addr, word as int),
        final(env).mem.bytes@.len() == old(env).mem.bytes@.len(),
        final(env).mem.null_segment_size == old(env).mem.null_segment_size,
        final(env).mem.allocations@ == old(env).mem.allocations@,
        final(env).objc == old(env).objc,
        final(env).autorelease_pool == old(env).autorelease_pool,
{
    if addr != 0 {
        env.mem.write_u32(addr, word);
    }
}

/// Writes where the lines that a range touches start, end and have their last
/// contents, as far as an address is given. The string is UTF-16 from then on.
pub fn get_line_start(
    env: &mut Environment,
    this: Id,
    start_ptr: u32,
    end_ptr: u32,
    contents_end_ptr: u32,
    range: NSRange,
)
    requires
        old(env).wf(),
        is_string(old(env).objc.objects@, this),
        range.location + range.length <= units_at(old(env).objc.objects@, this).len() <= u32::MAX,
        start_ptr == 0 || old(env).mem.mapped(start_ptr as int, 4),
        end_ptr == 0 || old(env).mem.mapped(end_ptr as int, 4),
        contents_end_ptr == 0 || old(env).mem.mapped(contents_end_ptr as int, 4),
    ensures
        final(env).wf(),
        string_replaced(
            old(env).objc.objects@,
            final(env).objc.objects@,
            this,
            StringView::Utf16(units_at(old(env).objc.objects@, this)),
        ),
        ({
            let units = units_at(old(env).objc.objects@, this);
            let (start, end, contents_end) = code_units::line_bounds(
                units,
                range.location as int,
                range.length as int,
            );
            final(env).mem.bytes@ == word_put(
                word_put(word_put(old(env).mem.bytes@, start_ptr, start), end_ptr, end),
                contents_end_ptr,
                contents_end,
            )
        }),
        final(env).mem.null_segment_size == old(env).mem.null_segment_size,
        final(env).mem.allocations@ == old(env).mem.allocations@,
        final(env).autorelease_pool == old(env).autorelease_pool,
{
    let units = units_in_place(env, this);
    let get_start: bool = start_ptr != 0;
    let get_end: bool = end_ptr != 0 || contents_end_ptr != 0;
    let (start, end, contents_end): (u32, u32, u32) = line_range_helper(
        &units,
        range,
        get_start,
        get_end,
    );
    write_word(env, start_ptr, start);
    write_word(env, end_ptr, end);
    write_word(env, contents_end_ptr, contents_end);
}

/// Words and units of a guest have their lowest byte first.
pub proof fn law_guest_numbers(bytes: Seq<u8>, at: int, n: int, i: int)
    requires
        0 <= at,
        0 <= i < n,
        at + 2 * n <= bytes.len(),
        at + 4 <= bytes.len(),
    ensures
        word_at(bytes, at) == bytes[at] + 0x100 * bytes[at + 1] + 0x1_0000 * bytes[at + 2]
            + 0x100_0000 * bytes[at + 3],
        guest_units(bytes, at, n).len() == n,
        guest_units(bytes, at, n)[i] == bytes[at + 2 * i] + 0x100 * bytes[at + 2 * i + 1],
{
    let (p, q, r, s) = (bytes[at], bytes[at + 1], bytes[at + 2], bytes[at + 3]);
    assert(bytes.subrange(at, at + 4) =~= seq![p, q, r, s]);
    mem::law_little_endian(p, q, r, s);
    let (a, b) = (bytes[at + 2 * i], bytes[at + 2 * i + 1]);
    assert(bytes.subrange(at + 2 * i, at + 2 * i + 2) =~= seq![a, b]);
    mem::law_little_endian(a, b, 0, 0);
}

/// A constant string has its flags behind its class, then where its data is and how long.
/// The flags tell UTF-8 from UTF-16, whose length is in units.
pub proof fn law_constant_string(bytes: Seq<u8>, null_size: int, at: int)
    ensures
        ({
            let flags = word_at(bytes, at + 4);
            let data = word_at(bytes, at + 8);
            let length = word_at(bytes, at + 12);
            &&& flags != 0x7c8 && flags != 0x7d0 ==> !constant_ok(bytes, null_size, at)
            &&& data < null_size ==> !constant_ok(bytes, null_size, at)
            &&& flags == 0x7c8 ==> constant_string(bytes, at) == StringView::Utf8(
                utf8::decode_utf8(bytes.subrange(data, data + length)),
            )
            &&& flags == 0x7c8 && data >= null_size ==> (constant_ok(bytes, null_size, at) <==> data
                + length <= bytes.len() && utf8::valid_utf8(bytes.subrange(data, data + length)))
            &&& flags == 0x7d0 ==> constant_string(bytes, at) == StringView::Utf16(
                guest_units(bytes, data, length),
            )
            &&& flags == 0x7d0 && data >= null_size ==> (constant_ok(bytes, null_size, at) <==> data
                + 2 * length <= bytes.len())
        }),
{
}

/// Each constant string gets the class of its encoding in its first four bytes, and no
/// other byte changes.
pub proof fn law_classes_written(
    bytes: Seq<u8>,
    base: int,
    n: nat,
    utf8_class: Id,
    utf16_class: Id,
    k: int,
    i: int,
)
    requires
        0 <= base,
        base + 16 * n <= bytes.len(),
        0 <= i < bytes.len(),
    ensures
        classes_written(bytes, base, n, utf8_class, utf16_class).len() == bytes.len(),
        0 <= k < n ==> word_at(
            classes_written(bytes, base, n, utf8_class, utf16_class),
            base + 16 * k,
        ) == if word_at(bytes, base + 16 * k + 4) == 0x7c8 {
            utf8_class
        } else {
            utf16_class
        },
        i < base || i >= base + 16 * n || (i - base) % 16 >= 4 ==> classes_written(
            bytes,
            base,
            n,
            utf8_class,
            utf16_class,
        )[i] == bytes[i],
    decreases n,
{
    if n > 0 {
        let m = (n - 1) as nat;
        law_classes_written(bytes, base, m, utf8_class, utf16_class, k, i);
        let before = classes_written(bytes, base, m, utf8_class, utf16_class);
        let at = base + 16 * m;
        assert forall|j: int| at <= j < at + 16 implies before[j] == bytes[j] by {
            law_classes_written(bytes, base, m, utf8_class, utf16_class, k, j);
        }
        assert(before.subrange(at + 4, at + 8) =~= bytes.subrange(at + 4, at + 8));
        let class = if word_at(before, at + 4) == CONSTANT_UTF8 {
            utf8_class
        } else {
            utf16_class
        };
        let new = mem::le_bytes(class as int, 4);
        assert(vstd::arithmetic::power::pow(256, 4) == 0x1_0000_0000) by {
            reveal_with_fuel(vstd::arithmetic::power::pow, 5);
        }
        mem::law_le_round_trip(class as int, 4);
        let after = mem::splice(before, at, new);
        assert(after.subrange(at, at + 4) =~= new);
        if 0 <= k < m {
            let place = base + 16 * k;
            assert(place + 4 <= at);
            assert(after.subrange(place, place + 4) =~= before.subrange(place, place + 4));
        }
    }
}

/// The new string that appending makes has the units of the one and then those of the
/// other, and these keep theirs.
pub proof fn law_appended(before: Seq<Object>, after: Seq<Object>, this: Id, other: Id)
    requires
        is_string(before, this),
        is_string(before, other),
        before.len() <= u32::MAX,
        appended(before, after, this, other),
    ensures
        units_at(after, before.len() as u32) == units_at(before, this) + units_at(before, other),
        units_at(after, this) == units_at(before, this),
        units_at(after, other) == units_at(before, other),
{
}

/// A copy of a string has its units. That of a mutable one is a new string, which does not
/// change with it, and any other string is its own copy.
pub proof fn law_copied(before: Environment, after: Environment, this: Id, id: Id)
    requires
        is_string(before.objc.objects@, this),
        before.objc.objects@.len() <= u32::MAX,
        pooled_copy(before, after, this, id),
    ensures
        units_at(after.objc.objects@, id) == units_at(before.objc.objects@, this),
        is_mutable_string(before.objc.objects@, this) ==> id != this && !is_mutable_string(
            after.objc.objects@,
            id,
        ),
        !is_mutable_string(before.objc.objects@, this) ==> id == this,
{
}

/// A deleted range is gone from the text, and what was around it is joined.
pub proof fn law_deleted(
    before: Environment,
    after: Environment,
    state: State,
    this: Id,
    front: Seq<u16>,
    gone: Seq<u16>,
    back: Seq<u16>,
)
    requires
        is_string(before.objc.objects@, this),
        units_at(before.objc.objects@, this) == front + gone + back,
        deleted(
            before,
            after,
            state,
            this,
            front.len() as int,
            (front.len() + gone.len()) as int,
        ),
    ensures
        text_at(after.objc.objects@, this) == string_encoding::units_text(front + back, 0),
        is_mutable_string(after.objc.objects@, this),
{
    let units = front + gone + back;
    assert(units.take(front.len() as int) =~= front);
    assert(units.skip((front.len() + gone.len()) as int) =~= back);
    assert(holds_string(
        after.objc.objects@[this as int],
        StringView::Utf8(string_encoding::units_text(front + back, 0)),
        true,
    ));
}

/// A terminator is a zero of the encoding behind the bytes: of four bytes in UTF-32, of two
/// in UTF-16, and else of one.
pub proof fn law_terminated(bytes: Seq<u8>, encoding: u32)
    ensures
        terminated(bytes, encoding, false) == bytes,
        encoding == 4 || encoding == 1 || encoding == 5 ==> terminated(bytes, encoding, true)
            == bytes.push(0),
        encoding == 10 || encoding == 0x9000_0100 || encoding == 0x9400_0100 ==> terminated(
            bytes,
            encoding,
            true,
        ) == bytes.push(0).push(0),
        encoding == 0x8c00_0100 || encoding == 0x9800_0100 || encoding == 0x9c00_0100 ==> terminated(
            bytes,
            encoding,
            true,
        ) == bytes.push(0).push(0).push(0).push(0),
{
    let one = bytes.push(0);
    let two = one.push(0);
    if encoding == 4 || encoding == 1 || encoding == 5 {
        assert(terminated(bytes, encoding, true) =~= one);
    }
    if encoding == 10 || encoding == 0x9000_0100 || encoding == 0x9400_0100 {
        assert(terminated(bytes, encoding, true) =~= two);
    }
    if encoding == 0x8c00_0100 || encoding == 0x9800_0100 || encoding == 0x9c00_0100 {
        assert(terminated(bytes, encoding, true) =~= two.push(0).push(0));
    }
}

/// Data of UTF-8, ASCII and Latin-1 counts the zero behind its text. Other data does not,
/// and has room for something even if it is empty.
pub proof fn law_data_sizes(len: nat, encoding: u32)
    ensures
        encoding == 1 || encoding == 4 || encoding == 5 ==> data_length(len, encoding) == len + 1
            && data_size(len, encoding) == len + 1,
        encoding != 1 && encoding != 4 && encoding != 5 ==> data_length(len, encoding) == len
            && data_size(len, encoding) == if len == 0 {
            1
        } else {
            len
        },
{
}

/// Units are written one by one, each with its lower byte first.
pub proof fn law_unit_words(a: Seq<u16>, b: Seq<u16>, unit: u16)
    ensures
        unit_words(a + b) == unit_words(a) + unit_words(b),
        unit_words(seq![unit]) == seq![(unit % 256) as u8, (unit / 256) as u8],
    decreases b.len(),
{
    assert(seq![unit].drop_last() =~= Seq::<u16>::empty());
    reveal_with_fuel(unit_words, 2);
    reveal_with_fuel(mem::le_bytes, 3);
    assert(unit_words(seq![unit]) =~= seq![(unit % 256) as u8, (unit / 256) as u8]);
    if b.len() == 0 {
        assert(a + b =~= a);
        assert(unit_words(a) + unit_words(b) =~= unit_words(a));
    } else {
        assert((a + b).drop_last() =~= a + b.drop_last());
        law_unit_words(a, b.drop_last(), unit);
        assert(unit_words(a + b) =~= unit_words(a) + unit_words(b));
    }
}

/// A word is put where it is asked for, and nowhere if there is no place for it.
pub proof fn law_word_put(bytes: Seq<u8>, addr: u32, word: int, i: int)
    requires
        addr + 4 <= bytes.len(),
        0 <= word < 0x1_0000_0000,
        0 <= i < bytes.len(),
    ensures
        word_put(bytes, 0, word) == bytes,
        addr != 0 ==> word_at(word_put(bytes, addr, word), addr as int) == word,
        addr != 0 && !(addr <= i < addr + 4) ==> word_put(bytes, addr, word)[i] == bytes[i],
{
    assert(vstd::arithmetic::power::pow(256, 4) == 0x1_0000_0000) by {
        reveal_with_fuel(vstd::arithmetic::power::pow, 5);
    }
    mem::law_le_round_trip(word, 4);
    if addr != 0 {
        assert(word_put(bytes, addr, word).subrange(addr as int, addr + 4) =~= mem::le_bytes(
            word,
            4,
        ));
    }
}

/// All matches are replaced, as the search for code units goes through them.
pub proof fn law_all_replaced(
    source: Seq<u16>,
    target: Seq<u16>,
    replacement: Seq<u16>,
    opts: code_units::CompareOptions,
    found: Option<usize>,
)
    requires
        code_units::search_result(source, target, opts, found),
        !opts.anchored,
        !opts.backwards,
    ensures
        found is None ==> all_replaced(source, target, replacement, opts) == source,
        found matches Some(at) ==> all_replaced(source, target, replacement, opts) == source.take(
            at as int,
        ) + replacement + all_replaced(
            source.skip(at + target.len()),
            target,
            replacement,
            opts,
        ),
{
    code_units::law_replace(source, target, replacement, opts, found);
}

/// A new string has its value, and one that is replaced has the new one; no other string
/// changes.
pub proof fn law_string_effects(
    before: Seq<Object>,
    after: Seq<Object>,
    value: StringView,
    mutable: bool,
    count: Option<u32>,
    this: Id,
    other: Id,
)
    requires
        0 < before.len() <= u32::MAX,
    ensures
        string_added(before, after, value, mutable, count) ==> {
            let id = before.len() as Id;
            &&& string_at(after, id) == Some(value)
            &&& is_mutable_string(after, id) == mutable
            &&& after[id as int].retain_count == count
            &&& other < id ==> string_at(after, other) == string_at(before, other)
        },
        is_string(before, this) && string_replaced(before, after, this, value) ==> {
            &&& string_at(after, this) == Some(value)
            &&& is_mutable_string(after, this) == is_mutable_string(before, this)
            &&& other != this ==> string_at(after, other) == string_at(before, other)
        },
{
    if string_added(before, after, value, mutable, count) && 0 < other < before.len() {
        assert(after.drop_last()[other as int] == before[other as int]);
    }
}

/// The parts that are put in an array are strings of their own, in their order.
pub proof fn law_parts_in_array(
    before: Environment,
    after: Environment,
    id: Id,
    parts: Seq<Seq<u16>>,
    i: int,
)
    requires
        0 < before.objc.objects@.len(),
        before.objc.objects@.len() + parts.len() <= u32::MAX,
        pooled_strings(before, after, id, parts),
        0 <= i < parts.len(),
    ensures
        ns_array::items_of(after.objc.objects@, id).len() == parts.len(),
        units_at(after.objc.objects@, ns_array::items_of(after.objc.objects@, id)[i]) == parts[i],
{
    let made = after.objc.objects@.drop_last();
    assert(holds_string(
        made[before.objc.objects@.len() + i],
        StringView::Utf16(parts[i]),
        false,
    ));
}

/// A deletion makes strings of what stands before and behind the range and of both joined.
/// Where one of the first two is empty, the constant empty string takes its place, which is
/// made only if there is none yet.
pub proof fn law_deletion_makes(front: Seq<u16>, gone: Seq<u16>, back: Seq<u16>, id: int)
    requires
        0 <= id,
        id + 1 <= u32::MAX,
    ensures
        ({
            let units = front + gone + back;
            let start = front.len() as int;
            let end = start + gone.len();
            let none = Seq::<u16>::empty();
            &&& front.len() > 0 && back.len() > 0 ==> parts_made(units, start, end, true) == seq![
                (front, Some(1u32)),
                (back, Some(1u32)),
                (front + back, Some(1u32)),
            ] && parts_made(units, start, end, false) == parts_made(units, start, end, true)
                && parts_pooled(units, start, end, true, id) == seq![id as Id, (id + 1) as Id]
            &&& front.len() > 0 && back.len() == 0 ==> parts_made(units, start, end, true) == seq![
                (front, Some(1u32)),
                (front, Some(1u32)),
            ] && parts_made(units, start, end, false) == seq![
                (front, Some(1u32)),
                (none, None),
                (front, Some(1u32)),
            ] && parts_pooled(units, start, end, true, id) == seq![id as Id]
            &&& front.len() == 0 && back.len() > 0 ==> parts_made(units, start, end, true) == seq![
                (back, Some(1u32)),
                (back, Some(1u32)),
            ] && parts_made(units, start, end, false) == seq![
                (none, None),
                (back, Some(1u32)),
                (back, Some(1u32)),
            ] && parts_pooled(units, start, end, true, id) == seq![id as Id] && parts_pooled(
                units,
                start,
                end,
                false,
                id,
            ) == seq![(id + 1) as Id]
            &&& front.len() == 0 && back.len() == 0 ==> parts_made(units, start, end, true) == seq![
                (none, Some(1u32)),
            ] && parts_made(units, start, end, false) == seq![(none, None), (none, Some(1u32))]
                && parts_pooled(units, start, end, true, id).len() == 0
        }),
{
    let units = front + gone + back;
    let start = front.len() as int;
    let end = start + gone.len();
    let none = Seq::<u16>::empty();
    assert(units.take(start) =~= front);
    assert(units.skip(end) =~= back);
    if back.len() == 0 {
        assert(front + back =~= front);
    }
    if front.len() == 0 {
        assert(front + back =~= back);
        assert(front =~= none);
    }
    if front.len() > 0 && back.len() > 0 {
        assert(parts_made(units, start, end, true) =~= seq![
            (front, Some(1u32)),
            (back, Some(1u32)),
            (front + back, Some(1u32)),
        ]);
        assert(parts_pooled(units, start, end, true, id) =~= seq![id as Id, (id + 1) as Id]);
    }
    if front.len() > 0 && back.len() == 0 {
        assert(parts_made(units, start, end, true) =~= seq![
            (front, Some(1u32)),
            (front, Some(1u32)),
        ]);
        assert(parts_made(units, start, end, false) =~= seq![
            (front, Some(1u32)),
            (none, None),
            (front, Some(1u32)),
        ]);
    }
    if front.len() == 0 && back.len() > 0 {
        assert(parts_made(units, start, end, true) =~= seq![
            (back, Some(1u32)),
            (back, Some(1u32)),
        ]);
        assert(parts_made(units, start, end, false) =~= seq![
            (none, None),
            (back, Some(1u32)),
            (back, Some(1u32)),
        ]);
    }
    if front.len() == 0 && back.len() == 0 {
        assert(back =~= none);
        assert(parts_made(units, start, end, true) =~= seq![(none, Some(1u32))]);
        assert(parts_made(units, start, end, false) =~= seq![(none, None), (none, Some(1u32))]);
    }
}

} // verus!
