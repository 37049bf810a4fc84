//! `NSKeyedUnarchiver`: reads objects out of a keyed archive. The archive is a
//! property list whose objects refer to each other by their numbers.
use crate::doubles;
use crate::doubles::{real_to_integer, signed_to_real, unsigned_to_real};
use crate::mem;
use crate::ns_data;
use crate::ns_data::new_nsdata;
use crate::ns_string;
use crate::ns_string::from_rust_string;
use crate::objc;
use crate::objc::{
    autorelease, release_each, retain, Environment, HostObject, Id, NumberValue, Object,
    StringHostObject, NIL,
};
use crate::plist_value;
use crate::plist_value::{parse_plist, PlistValue, PlistView};
use crate::string_encoding;
use crate::string_encoding::{bytes_between, StringView, NSUTF8StringEncoding};
use crate::text::{chars_of, same_chars};
use crate::time::apple_epoch;
use vstd::prelude::*;
use vstd::utf8;

verus! {

/// The objects of an archive.
pub open spec fn objects_of(plist: PlistView) -> Seq<PlistView> {
    match plist_value::value_of(plist, "$objects"@) {
        Some(PlistView::Array(objects)) => objects,
        _ => Seq::empty(),
    }
}

/// The property list is a keyed archive of the known version.
pub open spec fn is_archive(plist: PlistView) -> bool {
    &&& plist is Dictionary
    &&& plist_value::value_of(plist, "$version"@) matches Some(version)
        && plist_value::unsigned_of(version) == Some(100000u64)
    &&& plist_value::value_of(plist, "$archiver"@) == Some(PlistView::Str("NSKeyedArchiver"@))
    &&& plist_value::value_of(plist, "$objects"@) matches Some(PlistView::Array(objects))
}

/// The state of a reader.
pub struct NSKeyedUnarchiver {
    pub plist: PlistValue,
    /// The object that is being read; the top of the archive if there is none.
    pub current_key: Option<u64>,
    /// The objects that have been made so far, by their numbers.
    pub already_unarchived: Vec<Option<Id>>,
    pub delegate: Id,
    /// Guest buffers that live as long as the reader.
    pub temporary_buffers: Vec<u32>,
}

impl NSKeyedUnarchiver {
    /// There is a place for each object of the archive.
    pub open spec fn wf(&self) -> bool {
        &&& plist_value::value_of(self.plist@, "$objects"@) matches Some(PlistView::Array(objects))
        &&& self.already_unarchived@.len() == objects_of(self.plist@).len()
    }

    /// The dictionary that keys are looked up in.
    pub open spec fn scope(&self) -> Option<PlistView> {
        match self.current_key {
            Some(key) => if key < objects_of(self.plist@).len() {
                Some(objects_of(self.plist@)[key as int])
            } else {
                None
            },
            None => plist_value::value_of(self.plist@, "$top"@),
        }
    }

    /// The value of a key in the object that is being read.
    pub open spec fn value_for(&self, key: Seq<char>) -> Option<PlistView> {
        match self.scope() {
            Some(scope) => plist_value::value_of(scope, key),
            None => None,
        }
    }

    /// A reader for an archive that is given as a property list; nothing if it is
    /// no keyed archive.
    pub fn from_plist(plist: PlistValue) -> (reader: Option<NSKeyedUnarchiver>)
        ensures
            reader is Some <==> is_archive(plist@),
            reader matches Some(r) ==> {
                &&& r.wf()
                &&& r.plist@ == plist@
                &&& r.current_key is None
                &&& r.already_unarchived@ == Seq::new(
                    objects_of(plist@).len(),
                    |i: int| None::<Id>,
                )
                &&& r.delegate == NIL
                &&& r.temporary_buffers@.len() == 0
            },
    {
        if !plist.is_dictionary() {
            return None;
        }
        let version_ok: bool = match plist.get("$version") {
            Some(version) => match version.as_unsigned_integer() {
                Some(v) => v == 100000,
                None => false,
            },
            None => false,
        };
        if !version_ok {
            return None;
        }
        let archiver_ok: bool = match plist.get("$archiver") {
            Some(archiver) => match archiver.as_str() {
                Some(name) => same_chars(&chars_of(name.as_str()), &chars_of("NSKeyedArchiver")),
                None => false,
            },
            None => false,
        };
        if !archiver_ok {
            return None;
        }
        let count: usize = match plist.get("$objects") {
            Some(list) => match list.as_array() {
                Some(objects) => {
                    proof {
                        plist_value::lemma_plist_views(objects@);
                    }
                    objects.len()
                },
                None => {
                    return None;
                },
            },
            None => {
                return None;
            },
        };
        let mut already_unarchived: Vec<Option<Id>> = Vec::new();
        let mut i: usize = 0;
        while i < count
            invariant
                i <= count,
                already_unarchived@ == Seq::new(i as nat, |i: int| None::<Id>),
            decreases count - i,
        {
            already_unarchived.push(None);
            i = i + 1;
            assert(already_unarchived@ =~= Seq::new(i as nat, |i: int| None::<Id>));
        }
        Some(
            NSKeyedUnarchiver {
                plist,
                current_key: None,
                already_unarchived,
                delegate: NIL,
                temporary_buffers: Vec::new(),
            },
        )
    }

    /// A reader for an archive that is given by its bytes; nothing if they are no
    /// keyed archive.
    pub fn init_for_reading(bytes: &Vec<u8>) -> (reader: Option<NSKeyedUnarchiver>)
        ensures
            reader is Some <==> (plist_value::readable_document(bytes@) matches Some(plist)
                && is_archive(plist)),
            reader matches Some(r) ==> {
                &&& r.wf()
                &&& plist_value::readable_document(bytes@) == Some(r.plist@)
                &&& r.current_key is None
                &&& r.already_unarchived@ == Seq::new(
                    objects_of(r.plist@).len(),
                    |i: int| None::<Id>,
                )
            },
    {
        match parse_plist(bytes.as_slice()) {
            Some(plist) => NSKeyedUnarchiver::from_plist(plist),
            None => None,
        }
    }

    /// An object of the archive, by its number.
    fn object(&self, key: u64) -> (object: &PlistValue)
        requires
            self.wf(),
            key < self.already_unarchived.len(),
        ensures
            object@ == objects_of(self.plist@)[key as int],
    {
        match self.plist.get("$objects") {
            Some(list) => match list.as_array() {
                Some(objects) => {
                    proof {
                        plist_value::lemma_plist_views(objects@);
                    }
                    &objects[key as usize]
                },
                None => {
                    assert(false);
                    &self.plist
                },
            },
            None => {
                assert(false);
                &self.plist
            },
        }
    }

    /// The value of a key in the object that is being read.
    pub fn get_value_to_decode_for_key(&self, key: &str) -> (value: Option<&PlistValue>)
        requires
            self.wf(),
            self.scope() is Some,
        ensures
            match value {
                Some(v) => self.value_for(key@) == Some(v@),
                None => self.value_for(key@) is None,
            },
    {
        match self.current_key {
            Some(current) => {
                assert(current < self.already_unarchived.len());
                self.object(current).get(key)
            },
            None => match self.plist.get("$top") {
                Some(top) => top.get(key),
                None => None,
            },
        }
    }

    /// Whether there is a value for a key.
    pub fn contains_value_for_key(&self, key: &str) -> (found: bool)
        requires
            self.wf(),
            self.scope() is Some,
        ensures
            found == (self.value_for(key@) is Some),
    {
        self.get_value_to_decode_for_key(key).is_some()
    }
}

/// A value as an integer: real numbers lose their fraction, and truth values are
/// zero or one.
pub open spec fn int_of(value: PlistView) -> Option<i64> {
    match value {
        PlistView::Integer(v) => if i64::MIN <= v <= i64::MAX {
            Some(v as i64)
        } else {
            match plist_value::unsigned_of(value) {
                Some(u) => Some(wrapped(u)),
                None => None,
            }
        },
        PlistView::Real(bits) => Some(doubles::to_integer(bits) as i64),
        PlistView::Boolean(b) => Some(
            if b {
                1i64
            } else {
                0i64
            },
        ),
        _ => None,
    }
}

/// An unsigned number with its bits taken as those of a signed one.
pub open spec fn wrapped(u: u64) -> i64 {
    if u > i64::MAX {
        (u - 0x1_0000_0000_0000_0000) as i64
    } else {
        u as i64
    }
}

pub fn coerce_int(value: &PlistValue) -> (v: Option<i64>)
    ensures
        v == int_of(value@),
{
    if let Some(v) = value.as_signed_integer() {
        return Some(v);
    }
    if let Some(u) = value.as_unsigned_integer() {
        return Some(
            if u > i64::MAX as u64 {
                (u - 0x8000_0000_0000_0000) as i64 + i64::MIN
            } else {
                u as i64
            },
        );
    }
    match value {
        PlistValue::Real(bits) => Some(real_to_integer(*bits)),
        PlistValue::Boolean(b) => Some(
            if *b {
                1
            } else {
                0
            },
        ),
        _ => None,
    }
}

/// A value as the bits of a real number.
pub open spec fn real_of(value: PlistView) -> Option<int> {
    match value {
        PlistView::Real(bits) => Some(bits as int),
        PlistView::Integer(v) => if i64::MIN <= v <= u64::MAX {
            Some(doubles::of_integer(v))
        } else {
            None
        },
        _ => None,
    }
}

pub fn coerce_real(value: &PlistValue) -> (bits: Option<u64>)
    ensures
        match bits {
            Some(b) => real_of(value@) == Some(b as int),
            None => real_of(value@) is None,
        },
{
    if let Some(bits) = value.as_real() {
        return Some(bits);
    }
    if let Some(v) = value.as_signed_integer() {
        return Some(signed_to_real(v));
    }
    match value.as_unsigned_integer() {
        Some(u) => Some(unsigned_to_real(u)),
        None => None,
    }
}

impl NSKeyedUnarchiver {
    /// The integer of a key, or zero.
    pub fn decode_int64(&self, key: &str) -> (v: i64)
        requires
            self.wf(),
            self.scope() is Some,
        ensures
            v == match self.value_for(key@) {
                Some(value) => match int_of(value) {
                    Some(i) => i,
                    None => 0,
                },
                None => 0,
            },
    {
        match self.get_value_to_decode_for_key(key) {
            Some(value) => match coerce_int(value) {
                Some(i) => i,
                None => 0,
            },
            None => 0,
        }
    }

    /// The lower half of the integer of a key.
    pub fn decode_int32(&self, key: &str) -> (v: i32)
        requires
            self.wf(),
            self.scope() is Some,
        ensures
            v == low_half(
                match self.value_for(key@) {
                    Some(value) => match int_of(value) {
                        Some(i) => i as int,
                        None => 0,
                    },
                    None => 0,
                },
            ),
    {
        let wide: i64 = self.decode_int64(key);
        let low: i64 = crate::civil::floor_mod(wide, 0x1_0000_0000);
        if low >= 0x8000_0000 {
            (low - 0x1_0000_0000) as i32
        } else {
            low as i32
        }
    }

    /// The truth value of a key: whether its integer is not zero.
    pub fn decode_bool(&self, key: &str) -> (v: bool)
        requires
            self.wf(),
            self.scope() is Some,
        ensures
            v == (self.value_for(key@) matches Some(value) && int_of(value) matches Some(i) && i
                != 0),
    {
        self.decode_int64(key) != 0
    }

    /// The bits of the real number of a key, or of zero.
    pub fn decode_double(&self, key: &str) -> (bits: u64)
        requires
            self.wf(),
            self.scope() is Some,
        ensures
            bits == match self.value_for(key@) {
                Some(value) => match real_of(value) {
                    Some(b) => b,
                    None => 0,
                },
                None => 0,
            },
    {
        match self.get_value_to_decode_for_key(key) {
            Some(value) => match coerce_real(value) {
                Some(bits) => bits,
                None => 0,
            },
            None => 0,
        }
    }

    /// The number of the object that a key refers to; nothing where the key is
    /// missing or no reference.
    pub fn object_key_for_key(&self, key: &str) -> (uid: Option<u64>)
        requires
            self.wf(),
            self.scope() is Some,
        ensures
            match uid {
                Some(u) => self.value_for(key@) == Some(PlistView::Uid(u)),
                None => !(self.value_for(key@) matches Some(PlistView::Uid(u))),
            },
    {
        match self.get_value_to_decode_for_key(key) {
            Some(value) => value.as_uid(),
            None => None,
        }
    }
}

/// The lower 32 bits of a number, as a signed number.
pub open spec fn low_half(v: int) -> int {
    let low = v % 0x1_0000_0000;
    if low >= 0x8000_0000 {
        low - 0x1_0000_0000
    } else {
        low
    }
}

/// Seconds and nanoseconds as the bits of the nearest real number of seconds.
pub uninterp spec fn real_seconds(seconds: u64, nanos: u32) -> u64;

/// `Duration::as_secs_f64`, by the bits of the result. Only that the result
/// depends on nothing but the duration, and is not negative, is claimed.
#[verifier::external_body]
pub(crate) fn seconds_as_real(seconds: u64, nanos: u32) -> (bits: u64)
    requires
        nanos < 1_000_000_000,
    ensures
        bits == real_seconds(seconds, nanos),
        bits < 0x8000_0000_0000_0000,
{
    std::time::Duration::new(seconds, nanos).as_secs_f64().to_bits()
}

/// The distance of a date from the reference date: whether it is before that,
/// and by how many seconds and nanoseconds.
pub open spec fn since_reference(before: bool, seconds: u64, nanos: u32) -> (bool, int, int) {
    let n = nanos as int % 1_000_000_000;
    let epoch = 978_307_200int;
    if before {
        (
            true,
            if epoch + seconds > u64::MAX {
                u64::MAX as int
            } else {
                epoch + seconds
            },
            n,
        )
    } else if seconds >= epoch {
        (false, seconds - epoch, n)
    } else if n == 0 {
        (true, epoch - seconds, 0)
    } else {
        (true, epoch - seconds - 1, 1_000_000_000 - n)
    }
}

/// The bits of the number of seconds between the reference date and a date.
pub open spec fn interval_bits(before: bool, seconds: u64, nanos: u32) -> int {
    let (negative, s, n) = since_reference(before, seconds, nanos);
    let size = real_seconds(s as u64, n as u32);
    if negative {
        size + doubles::SIGN
    } else {
        size as int
    }
}

pub fn date_to_interval(before: bool, seconds: u64, nanos: u32) -> (bits: u64)
    ensures
        bits == interval_bits(before, seconds, nanos),
{
    let n: u32 = nanos % 1_000_000_000;
    let epoch: u64 = apple_epoch();
    if before {
        let total: u64 = if seconds > u64::MAX - epoch {
            u64::MAX
        } else {
            epoch + seconds
        };
        seconds_as_real(total, n) + doubles::SIGN
    } else if seconds >= epoch {
        seconds_as_real(seconds - epoch, n)
    } else if n == 0 {
        seconds_as_real(epoch - seconds, 0) + doubles::SIGN
    } else {
        seconds_as_real(epoch - seconds - 1, 1_000_000_000 - n) + doubles::SIGN
    }
}

/// The name of a class object.
pub open spec fn class_name_at(objects: Seq<Object>, id: int) -> Option<Seq<char>> {
    match objects[id].host {
        HostObject::Class(name) => Some(name@),
        _ => None,
    }
}

/// The first class of a name, or none.
pub open spec fn first_class(objects: Seq<Object>, name: Seq<char>, id: int) -> bool {
    &&& 0 < id <= objects.len()
    &&& id < objects.len() ==> class_name_at(objects, id) == Some(name)
    &&& forall|i: int| 0 < i < id ==> #[trigger] class_name_at(objects, i) != Some(name)
}

/// The class of a name is there, and was made if it was not there before.
pub open spec fn class_known(before: Environment, after: Environment, name: Seq<char>, class: Id) -> bool {
    &&& first_class(before.objc.objects@, name, class as int)
    &&& if class < before.objc.objects@.len() {
        after == before
    } else {
        &&& after.objc.objects@.len() == before.objc.objects@.len() + 1
        &&& after.objc.objects@.drop_last() == before.objc.objects@
        &&& after.objc.objects@.last().retain_count is None
        &&& class_name_at(after.objc.objects@, class as int) == Some(name)
        &&& after.mem == before.mem
        &&& after.autorelease_pool == before.autorelease_pool
    }
}

/// The class of a name, which is made where there is none.
pub fn get_known_class(env: &mut Environment, name: &String) -> (class: Id)
    requires
        old(env).wf(),
        old(env).has_room(1, 0),
    ensures
        final(env).wf(),
        class_known(*old(env), *final(env), name@, class),
{
    let wanted = chars_of(name.as_str());
    let mut i: usize = 1;
    while i < env.objc.objects.len()
        invariant
            1 <= i <= env.objc.objects@.len(),
            *env == *old(env),
            env.wf(),
            wanted@ == name@,
            forall|k: int|
                0 < k < i ==> #[trigger] class_name_at(env.objc.objects@, k) != Some(name@),
        decreases env.objc.objects@.len() - i,
    {
        if let HostObject::Class(n) = &env.objc.objects[i].host {
            if same_chars(n, &wanted) {
                return i as u32;
            }
        }
        i = i + 1;
    }
    let class: Id = env.objc.alloc_static_object(HostObject::Class(wanted));
    assert(env.objc.objects@.drop_last() =~= old(env).objc.objects@);
    class
}

/// What there is to do for an object of the archive: it is known already or
/// cannot be read, it is a plain value, or it is an instance of a class.
pub enum ArchiveCase {
    Known(Id),
    Value(PlistView),
    Instance(u64),
}

/// What there is to do for the object of a number.
pub open spec fn archive_case(plist: PlistView, made: Seq<Option<Id>>, key: u64) -> ArchiveCase {
    let objects = objects_of(plist);
    if key == 0 || key >= made.len() {
        ArchiveCase::Known(NIL)
    } else if let Some(existing) = made[key as int] {
        ArchiveCase::Known(existing)
    } else {
        let item = objects[key as int];
        match item {
            PlistView::Dictionary(_) => match plist_value::value_of(item, "$class"@) {
                Some(PlistView::Uid(class_key)) => if class_key >= made.len() {
                    ArchiveCase::Known(NIL)
                } else if made[class_key as int] is Some {
                    ArchiveCase::Instance(class_key)
                } else {
                    match plist_value::value_of(objects[class_key as int], "$classname"@) {
                        Some(PlistView::Str(name)) => ArchiveCase::Instance(class_key),
                        _ => ArchiveCase::Known(NIL),
                    }
                },
                _ => ArchiveCase::Known(NIL),
            },
            PlistView::Array(_) => ArchiveCase::Known(NIL),
            PlistView::Uid(_) => ArchiveCase::Known(NIL),
            PlistView::Unknown => ArchiveCase::Known(NIL),
            _ => ArchiveCase::Value(item),
        }
    }
}

/// The name of the class that an entry of the archive describes.
pub open spec fn class_name_of(plist: PlistView, class_key: u64) -> Seq<char> {
    (plist_value::value_of(objects_of(plist)[class_key as int], "$classname"@)->0)->Str_0
}

/// One object more with a reference, and nothing else has changed.
pub open spec fn object_added(before: Environment, after: Environment, host: HostObject) -> bool {
    &&& after.objc.objects@ == before.objc.objects@.push(Object { retain_count: Some(1), host })
    &&& after.mem == before.mem
    &&& after.autorelease_pool == before.autorelease_pool
}

/// The object of a plain value has been made.
pub open spec fn value_made(before: Environment, after: Environment, id: Id, value: PlistView) -> bool {
    &&& id == before.objc.objects@.len()
    &&& match value {
        PlistView::Str(s) => {
            &&& ns_string::string_added(
                before.objc.objects@,
                after.objc.objects@,
                StringView::Utf8(s),
                false,
                Some(1),
            )
            &&& after.mem == before.mem
            &&& after.autorelease_pool == before.autorelease_pool
        },
        PlistView::Integer(v) => object_added(
            before,
            after,
            HostObject::Number(
                if v <= i64::MAX {
                    NumberValue::Signed(v as i64)
                } else {
                    NumberValue::Unsigned(v as u64)
                },
            ),
        ),
        PlistView::Real(bits) => object_added(
            before,
            after,
            HostObject::Number(NumberValue::Real(bits)),
        ),
        PlistView::Boolean(b) => object_added(
            before,
            after,
            HostObject::Number(NumberValue::Bool(b)),
        ),
        PlistView::Date { before: earlier, seconds, nanos } => object_added(
            before,
            after,
            HostObject::Date(interval_bits(earlier, seconds, nanos) as u64),
        ),
        PlistView::Data(d) => ns_data::data_added(
            before,
            after,
            id,
            d,
            ns_data::at_least_one(d.len()),
            false,
        ),
        _ => false,
    }
}

/// Guest memory has room for the object of a plain value.
pub open spec fn value_fits(env: Environment, value: PlistView) -> bool {
    value matches PlistView::Data(d) ==> env.has_room(1, ns_data::at_least_one(d.len()) as int)
}

/// Whether guest memory has room for some bytes.
fn fits(env: &Environment, len: usize) -> (room: bool)
    requires
        env.wf(),
        env.has_room(1, 0),
    ensures
        room == env.has_room(1, ns_data::at_least_one(len as nat) as int),
{
    let size: u64 = if len == 0 {
        1
    } else {
        len as u64
    };
    size <= u32::MAX as u64 - env.mem.bytes.len() as u64
}

/// Makes the object of a plain value; nothing where guest memory has no room.
fn make_value(env: &mut Environment, value: &PlistValue) -> (id: Option<Id>)
    requires
        old(env).wf(),
        old(env).has_room(1, 0),
        !(value@ is Array) && !(value@ is Dictionary) && !(value@ is Uid) && !(value@ is Unknown),
    ensures
        final(env).wf(),
        match id {
            Some(i) => value_fits(*old(env), value@) && value_made(
                *old(env),
                *final(env),
                i,
                value@,
            ),
            None => !value_fits(*old(env), value@) && *final(env) == *old(env),
        },
{
    match value {
        PlistValue::Str(s) => Some(from_rust_string(env, s.clone())),
        PlistValue::Integer(v) => Some(
            env.objc.alloc_object(HostObject::Number(NumberValue::Signed(*v))),
        ),
        PlistValue::Unsigned(v) => {
            let number: NumberValue = if *v <= i64::MAX as u64 {
                NumberValue::Signed(*v as i64)
            } else {
                NumberValue::Unsigned(*v)
            };
            Some(env.objc.alloc_object(HostObject::Number(number)))
        },
        PlistValue::Real(bits) => Some(
            env.objc.alloc_object(HostObject::Number(NumberValue::Real(*bits))),
        ),
        PlistValue::Boolean(b) => Some(
            env.objc.alloc_object(HostObject::Number(NumberValue::Bool(*b))),
        ),
        PlistValue::Date { before, seconds, nanos } => Some(
            env.objc.alloc_object(
                HostObject::Date(date_to_interval(*before, *seconds, *nanos)),
            ),
        ),
        PlistValue::Data(bytes) => {
            if !fits(env, bytes.len()) {
                return None;
            }
            Some(new_nsdata(env, bytes, false))
        },
        _ => {
            assert(false);
            None
        },
    }
}

/// How far the reading of an object has come: it is there, or an instance of a
/// class is to be made and asked to read itself, or guest memory has no room.
pub enum UnarchiveStep {
    Done(Id),
    Init { class: Id, saved_key: Option<u64> },
    NoRoom,
}

impl NSKeyedUnarchiver {
    /// Only the objects that have been made and the current object differ.
    pub open spec fn same_archive(&self, other: &NSKeyedUnarchiver) -> bool {
        &&& self.plist@ == other.plist@
        &&& self.delegate == other.delegate
        &&& self.temporary_buffers == other.temporary_buffers
    }

    /// Begins to read the object of a number. A plain value is made at once; for
    /// an instance, the reader stands at its entry until `unarchive_finish`.
    pub fn unarchive_key(&mut self, env: &mut Environment, key: u64) -> (step: UnarchiveStep)
        requires
            old(self).wf(),
            old(env).wf(),
            old(env).has_room(1, 0),
        ensures
            final(self).wf(),
            final(env).wf(),
            final(self).same_archive(old(self)),
            match archive_case(old(self).plist@, old(self).already_unarchived@, key) {
                ArchiveCase::Known(id) => {
                    &&& step == UnarchiveStep::Done(id)
                    &&& *final(env) == *old(env)
                    &&& final(self).already_unarchived@ == old(self).already_unarchived@
                    &&& final(self).current_key == old(self).current_key
                },
                ArchiveCase::Value(value) => {
                    &&& final(self).current_key == old(self).current_key
                    &&& match step {
                        UnarchiveStep::Done(id) => {
                            &&& value_fits(*old(env), value)
                            &&& value_made(*old(env), *final(env), id, value)
                            &&& final(self).already_unarchived@
                                == old(self).already_unarchived@.update(key as int, Some(id))
                        },
                        UnarchiveStep::NoRoom => {
                            &&& !value_fits(*old(env), value)
                            &&& *final(env) == *old(env)
                            &&& final(self).already_unarchived@ == old(self).already_unarchived@
                        },
                        UnarchiveStep::Init { class, saved_key } => false,
                    }
                },
                ArchiveCase::Instance(class_key) => {
                    &&& step matches UnarchiveStep::Init { class, saved_key }
                    &&& saved_key == old(self).current_key
                    &&& final(self).current_key == Some(key)
                    &&& match old(self).already_unarchived@[class_key as int] {
                        Some(existing) => {
                            &&& class == existing
                            &&& *final(env) == *old(env)
                            &&& final(self).already_unarchived@ == old(self).already_unarchived@
                        },
                        None => {
                            &&& class_known(
                                *old(env),
                                *final(env),
                                class_name_of(old(self).plist@, class_key),
                                class,
                            )
                            &&& final(self).already_unarchived@
                                == old(self).already_unarchived@.update(
                                class_key as int,
                                Some(class),
                            )
                        },
                    }
                },
            },
    {
        if key == 0 {
            return UnarchiveStep::Done(NIL);
        }
        if key >= self.already_unarchived.len() as u64 {
            return UnarchiveStep::Done(NIL);
        }
        if let Some(existing) = self.already_unarchived[key as usize] {
            return UnarchiveStep::Done(existing);
        }
        let item = self.object(key);
        match item {
            PlistValue::Dictionary(_) => {
                let class_key: u64 = match item.get("$class") {
                    Some(value) => match value.as_uid() {
                        Some(uid) => uid,
                        None => {
                            return UnarchiveStep::Done(NIL);
                        },
                    },
                    None => {
                        return UnarchiveStep::Done(NIL);
                    },
                };
                if class_key >= self.already_unarchived.len() as u64 {
                    return UnarchiveStep::Done(NIL);
                }
                let saved_key: Option<u64> = self.current_key;
                if let Some(existing) = self.already_unarchived[class_key as usize] {
                    self.current_key = Some(key);
                    return UnarchiveStep::Init { class: existing, saved_key };
                }
                let class_name = match self.object(class_key).get("$classname") {
                    Some(value) => match value.as_str() {
                        Some(name) => name.clone(),
                        None => {
                            return UnarchiveStep::Done(NIL);
                        },
                    },
                    None => {
                        return UnarchiveStep::Done(NIL);
                    },
                };
                let class: Id = get_known_class(env, &class_name);
                self.already_unarchived.set(class_key as usize, Some(class));
                self.current_key = Some(key);
                UnarchiveStep::Init { class, saved_key }
            },
            PlistValue::Array(_) => UnarchiveStep::Done(NIL),
            PlistValue::Uid(_) => UnarchiveStep::Done(NIL),
            PlistValue::Unknown => UnarchiveStep::Done(NIL),
            _ => {
                match make_value(env, item) {
                    Some(id) => {
                        self.already_unarchived.set(key as usize, Some(id));
                        UnarchiveStep::Done(id)
                    },
                    None => UnarchiveStep::NoRoom,
                }
            },
        }
    }

    /// Ends the reading of an instance: the reader goes back to the entry where it
    /// stood, and the object is known from then on.
    pub fn unarchive_finish(&mut self, key: u64, saved_key: Option<u64>, object: Id) -> (id: Id)
        requires
            old(self).wf(),
            key < old(self).already_unarchived.len(),
        ensures
            final(self).wf(),
            final(self).same_archive(old(self)),
            id == object,
            final(self).current_key == saved_key,
            final(self).already_unarchived@ == old(self).already_unarchived@.update(
                key as int,
                Some(object),
            ),
    {
        self.current_key = saved_key;
        self.already_unarchived.set(key as usize, Some(object));
        object
    }
}

/// Once an object has been read, asking for it again gives the same object and
/// changes nothing.
pub proof fn law_object_is_read_once(
    plist: PlistView,
    made: Seq<Option<Id>>,
    key: u64,
    object: Id,
)
    requires
        0 < key < made.len(),
    ensures
        archive_case(plist, made.update(key as int, Some(object)), key) == ArchiveCase::Known(
            object,
        ),
{
}

/// The references in a list; other items are left out.
pub open spec fn uids_in(items: Seq<PlistView>) -> Seq<u64>
    decreases items.len(),
{
    if items.len() == 0 {
        Seq::empty()
    } else {
        let rest = uids_in(items.drop_last());
        match items.last() {
            PlistView::Uid(uid) => rest.push(uid),
            _ => rest,
        }
    }
}

/// The references that do not stand for `nil`.
pub open spec fn without_zeros(uids: Seq<u64>) -> Seq<u64>
    decreases uids.len(),
{
    if uids.len() == 0 {
        Seq::empty()
    } else {
        let rest = without_zeros(uids.drop_last());
        if uids.last() != 0 {
            rest.push(uids.last())
        } else {
            rest
        }
    }
}

/// Pairs of references neither of which stands for `nil`, as far as both lists
/// reach.
pub open spec fn pairs_of(keys: Seq<u64>, values: Seq<u64>, n: nat) -> Seq<(u64, u64)>
    decreases n,
{
    if n == 0 {
        Seq::empty()
    } else {
        let rest = pairs_of(keys, values, (n - 1) as nat);
        if keys[n - 1] != 0 && values[n - 1] != 0 {
            rest.push((keys[n - 1], values[n - 1]))
        } else {
            rest
        }
    }
}

pub open spec fn shorter(a: nat, b: nat) -> nat {
    if a < b {
        a
    } else {
        b
    }
}

/// How far the objects of an array have been read: the numbers of all of them, and
/// the objects of the first ones, each with a reference for the array.
pub struct ArrayReading {
    pub keys: Vec<u64>,
    pub objects: Vec<Id>,
}

impl ArrayReading {
    /// The number of the object that is to be read next; nothing when all have been
    /// read.
    pub fn next_key(&self) -> (key: Option<u64>)
        ensures
            key == if self.objects@.len() < self.keys@.len() {
                Some(self.keys@[self.objects@.len() as int])
            } else {
                None
            },
    {
        if self.objects.len() < self.keys.len() {
            Some(self.keys[self.objects.len()])
        } else {
            None
        }
    }

    /// Takes the object of the next number, behind those before it and with one more
    /// reference.
    pub fn take(&mut self, env: &mut Environment, object: Id)
        requires
            old(env).wf(),
            objc::can_retain(old(env).objc.objects@, object),
        ensures
            final(env).wf(),
            final(self).keys == old(self).keys,
            final(self).objects@ == old(self).objects@.push(object),
            final(env).objc.objects@ == objc::retained(old(env).objc.objects@, object),
            final(env).mem == old(env).mem,
            final(env).autorelease_pool == old(env).autorelease_pool,
    {
        retain(env, object);
        self.objects.push(object);
    }
}

impl NSKeyedUnarchiver {
    /// The references that the object being read holds under a key; none where
    /// there is no object, no such key or no list.
    pub open spec fn keys_under(&self, key: Seq<char>) -> Seq<u64> {
        match self.current_key {
            Some(current) => if current < objects_of(self.plist@).len() {
                match plist_value::value_of(objects_of(self.plist@)[current as int], key) {
                    Some(PlistView::Array(items)) => uids_in(items),
                    _ => Seq::empty(),
                }
            } else {
                Seq::empty()
            },
            None => Seq::empty(),
        }
    }

    pub fn keys_for_key(&self, key: &str) -> (uids: Vec<u64>)
        requires
            self.wf(),
        ensures
            uids@ == self.keys_under(key@),
    {
        let mut out: Vec<u64> = Vec::new();
        let current: u64 = match self.current_key {
            Some(current) => current,
            None => {
                return out;
            },
        };
        if current >= self.already_unarchived.len() as u64 {
            return out;
        }
        if let Some(value) = self.object(current).get(key) {
            if let Some(items) = value.as_array() {
                let ghost views = plist_value::plist_views(items@);
                proof {
                    plist_value::lemma_plist_views(items@);
                }
                let mut i: usize = 0;
                while i < items.len()
                    invariant
                        i <= items@.len(),
                        views.len() == items@.len(),
                        forall|k: int| 0 <= k < items@.len() ==> #[trigger] views[k] == items@[k]@,
                        out@ == uids_in(views.take(i as int)),
                    decreases items@.len() - i,
                {
                    assert(views.take(i + 1).drop_last() =~= views.take(i as int));
                    assert(views.take(i + 1).last() == items@[i as int]@);
                    if let Some(uid) = items[i].as_uid() {
                        out.push(uid);
                    }
                    i = i + 1;
                }
                assert(views.take(i as int) =~= views);
            }
        }
        out
    }

    /// The objects that an array holds, by their numbers.
    pub fn decode_current_array(&self) -> (uids: Vec<u64>)
        requires
            self.wf(),
        ensures
            uids@ == without_zeros(self.keys_under("NS.objects"@)),
    {
        let keys = self.keys_for_key("NS.objects");
        let mut out: Vec<u64> = Vec::new();
        let mut i: usize = 0;
        while i < keys.len()
            invariant
                i <= keys@.len(),
                out@ == without_zeros(keys@.take(i as int)),
            decreases keys@.len() - i,
        {
            assert(keys@.take(i + 1).drop_last() =~= keys@.take(i as int));
            if keys[i] != 0 {
                out.push(keys[i]);
            }
            i = i + 1;
        }
        assert(keys@.take(i as int) =~= keys@);
        out
    }

    /// Begins to read the objects that an array holds.
    pub fn begin_array(&self) -> (reading: ArrayReading)
        requires
            self.wf(),
        ensures
            reading.keys@ == without_zeros(self.keys_under("NS.objects"@)),
            reading.objects@ == Seq::<Id>::empty(),
    {
        ArrayReading { keys: self.decode_current_array(), objects: Vec::new() }
    }

    /// The keys and objects that a dictionary holds, by their numbers. A pair in
    /// which one is missing is left out.
    pub fn decode_current_dict(&self) -> (pairs: Vec<(u64, u64)>)
        requires
            self.wf(),
        ensures
            pairs@ == pairs_of(
                self.keys_under("NS.keys"@),
                self.keys_under("NS.objects"@),
                shorter(
                    self.keys_under("NS.keys"@).len(),
                    self.keys_under("NS.objects"@).len(),
                ),
            ),
    {
        let keys = self.keys_for_key("NS.keys");
        let values = self.keys_for_key("NS.objects");
        let n: usize = if keys.len() < values.len() {
            keys.len()
        } else {
            values.len()
        };
        let mut out: Vec<(u64, u64)> = Vec::new();
        let mut i: usize = 0;
        while i < n
            invariant
                i <= n,
                n <= keys@.len(),
                n <= values@.len(),
                out@ == pairs_of(keys@, values@, i as nat),
            decreases n - i,
        {
            if keys[i] != 0 && values[i] != 0 {
                out.push((keys[i], values[i]));
            }
            i = i + 1;
        }
        out
    }

    /// The date that is being read, as a new object. A date without a time is the
    /// reference date.
    pub fn decode_current_date(&self, env: &mut Environment) -> (id: Id)
        requires
            self.wf(),
            self.scope() is Some,
            old(env).wf(),
            old(env).has_room(1, 0),
        ensures
            final(env).wf(),
            id == old(env).objc.objects@.len(),
            object_added(
                *old(env),
                *final(env),
                HostObject::Date(
                    match self.value_for("NS.time"@) {
                        Some(PlistView::Real(bits)) => bits,
                        _ => 0,
                    },
                ),
            ),
    {
        let bits: u64 = match self.get_value_to_decode_for_key("NS.time") {
            Some(value) => match value.as_real() {
                Some(bits) => bits,
                None => 0,
            },
            None => 0,
        };
        env.objc.alloc_object(HostObject::Date(bits))
    }

    /// The bytes of the data that is being read.
    pub open spec fn current_data(&self) -> Seq<u8> {
        match self.value_for("NS.data"@) {
            Some(PlistView::Data(d)) => d,
            _ => Seq::empty(),
        }
    }

    /// The data that is being read, as a new mutable object; nothing where guest
    /// memory has no room for it.
    pub fn decode_current_data(&self, env: &mut Environment) -> (id: Option<Id>)
        requires
            self.wf(),
            self.scope() is Some,
            old(env).wf(),
            old(env).has_room(1, 0),
        ensures
            final(env).wf(),
            match id {
                Some(data) => ns_data::data_added(
                    *old(env),
                    *final(env),
                    data,
                    self.current_data(),
                    ns_data::at_least_one(self.current_data().len()),
                    true,
                ),
                None => *final(env) == *old(env) && !old(env).has_room(
                    1,
                    ns_data::at_least_one(self.current_data().len()) as int,
                ),
            },
    {
        let none: Vec<u8> = Vec::new();
        assert(none@ =~= Seq::empty());
        let bytes = match self.get_value_to_decode_for_key("NS.data") {
            Some(value) => match value.as_data() {
                Some(d) => d,
                None => &none,
            },
            None => &none,
        };
        if !fits(env, bytes.len()) {
            return None;
        }
        Some(new_nsdata(env, bytes, true))
    }

    /// The bytes of the string that is being read: those of the first of its two
    /// keys that is there, as far as they are data or a text.
    pub open spec fn current_string_bytes(&self) -> Seq<u8> {
        let value = if self.value_for("NS.bytes"@) is Some {
            self.value_for("NS.bytes"@)
        } else {
            self.value_for("NS.string"@)
        };
        match value {
            Some(PlistView::Data(d)) => d,
            Some(PlistView::Str(s)) => utf8::encode_utf8(s),
            _ => Seq::empty(),
        }
    }

    fn string_bytes(&self) -> (bytes: Vec<u8>)
        requires
            self.wf(),
            self.scope() is Some,
        ensures
            bytes@ == self.current_string_bytes(),
    {
        let value = match self.get_value_to_decode_for_key("NS.bytes") {
            Some(value) => Some(value),
            None => self.get_value_to_decode_for_key("NS.string"),
        };
        match value {
            Some(PlistValue::Data(d)) => {
                let copy = bytes_between(d.as_slice(), 0, d.len());
                assert(copy@ =~= d@);
                copy
            },
            Some(PlistValue::Str(s)) => {
                let all = s.as_str().as_bytes();
                let copy = bytes_between(all, 0, all.len());
                assert(copy@ =~= all@);
                copy
            },
            _ => {
                let none: Vec<u8> = Vec::new();
                assert(none@ =~= Seq::empty());
                none
            },
        }
    }

    /// The string that is being read, as a new object.
    pub fn decode_current_string(&self, env: &mut Environment) -> (string: Id)
        requires
            self.wf(),
            self.scope() is Some,
            old(env).wf(),
            old(env).has_room(1, 0),
        ensures
            final(env).wf(),
            string == old(env).objc.objects@.len(),
            exists|value: StringView|
                #[trigger] string_encoding::is_decoded(
                    self.current_string_bytes(),
                    NSUTF8StringEncoding,
                    Some(value),
                ) && ns_string::string_added(
                    old(env).objc.objects@,
                    final(env).objc.objects@,
                    value,
                    false,
                    Some(1),
                ),
            final(env).mem == old(env).mem,
            final(env).autorelease_pool == old(env).autorelease_pool,
    {
        let bytes = self.string_bytes();
        let value = match StringHostObject::decode(bytes.as_slice(), NSUTF8StringEncoding) {
            Some(value) => value,
            None => StringHostObject::Utf8(String::new()),
        };
        let ghost view = value@;
        let string: Id = env.objc.alloc_object(HostObject::Str { value, mutable: false });
        proof {
            assert(env.objc.objects@.drop_last() =~= old(env).objc.objects@);
            assert(string_encoding::is_decoded(
                self.current_string_bytes(),
                NSUTF8StringEncoding,
                Some(view),
            ));
        }
        string
    }

    /// The number that is being read: an integer, a real number or a truth value,
    /// whichever of its keys is the first with a usable value; else zero.
    pub open spec fn current_number(&self) -> NumberValue {
        match self.value_for("NS.intval"@) {
            Some(value) if plist_value::signed_of(value) is Some => NumberValue::Signed(
                plist_value::signed_of(value)->0,
            ),
            Some(value) if plist_value::unsigned_of(value) is Some => NumberValue::Unsigned(
                plist_value::unsigned_of(value)->0,
            ),
            Some(value) if int_of(value) is Some => NumberValue::Signed(int_of(value)->0),
            _ => match self.value_for("NS.dblval"@) {
                Some(value) if real_of(value) is Some => NumberValue::Real(real_of(value)->0 as u64),
                _ => match self.value_for("NS.boolval"@) {
                    Some(value) if int_of(value) is Some => NumberValue::Bool(
                        int_of(value)->0 != 0,
                    ),
                    _ => NumberValue::Signed(0),
                },
            },
        }
    }

    fn number(&self) -> (number: NumberValue)
        requires
            self.wf(),
            self.scope() is Some,
        ensures
            number == self.current_number(),
    {
        if let Some(value) = self.get_value_to_decode_for_key("NS.intval") {
            if let Some(v) = value.as_signed_integer() {
                return NumberValue::Signed(v);
            }
            if let Some(v) = value.as_unsigned_integer() {
                return NumberValue::Unsigned(v);
            }
            if let Some(v) = coerce_int(value) {
                return NumberValue::Signed(v);
            }
        }
        if let Some(value) = self.get_value_to_decode_for_key("NS.dblval") {
            if let Some(bits) = coerce_real(value) {
                return NumberValue::Real(bits);
            }
        }
        if let Some(value) = self.get_value_to_decode_for_key("NS.boolval") {
            if let Some(v) = coerce_int(value) {
                return NumberValue::Bool(v != 0);
            }
        }
        NumberValue::Signed(0)
    }

    /// The number that is being read, as a new object.
    pub fn decode_current_number(&self, env: &mut Environment) -> (id: Id)
        requires
            self.wf(),
            self.scope() is Some,
            old(env).wf(),
            old(env).has_room(1, 0),
        ensures
            final(env).wf(),
            id == old(env).objc.objects@.len(),
            object_added(*old(env), *final(env), HostObject::Number(self.current_number())),
    {
        let number: NumberValue = self.number();
        env.objc.alloc_object(HostObject::Number(number))
    }

    /// Copies the data of a key to guest memory, where it lives as long as the
    /// reader, and writes its length; the address of the copy. Where there is no
    /// data, the length is zero and there is no address. Nothing is returned where
    /// guest memory has no room.
    pub fn decode_bytes(&mut self, env: &mut Environment, key: &str, length: u32) -> (addr: Option<
        u32,
    >)
        requires
            old(self).wf(),
            old(self).scope() is Some,
            old(env).wf(),
            old(env).mem.mapped(length as int, 4),
        ensures
            final(self).wf(),
            final(env).wf(),
            final(self).plist@ == old(self).plist@,
            final(self).current_key == old(self).current_key,
            final(self).already_unarchived@ == old(self).already_unarchived@,
            final(self).delegate == old(self).delegate,
            final(env).objc == old(env).objc,
            final(env).autorelease_pool == old(env).autorelease_pool,
            match old(self).value_for(key@) {
                Some(PlistView::Data(d)) => if old(env).has_room(0, d.len() as int) {
                    &&& addr == Some(old(env).mem.bytes@.len() as u32)
                    &&& final(self).temporary_buffers@ == old(self).temporary_buffers@.push(
                        old(env).mem.bytes@.len() as u32,
                    )
                    &&& final(env).mem.bytes@ == mem::splice(
                        old(env).mem.bytes@ + d,
                        length as int,
                        mem::le_bytes(d.len() as int, 4),
                    )
                } else {
                    &&& addr is None
                    &&& *final(env) == *old(env)
                    &&& final(self).temporary_buffers@ == old(self).temporary_buffers@
                },
                _ => {
                    &&& addr == Some(0u32)
                    &&& final(env).mem.is_written(
                        &old(env).mem,
                        length as int,
                        mem::le_bytes(0, 4),
                    )
                    &&& final(self).temporary_buffers@ == old(self).temporary_buffers@
                },
            },
    {
        let found: Option<Vec<u8>> = match self.get_value_to_decode_for_key(key) {
            Some(value) => match value.as_data() {
                Some(d) => {
                    let copy = bytes_between(d.as_slice(), 0, d.len());
                    assert(copy@ =~= d@);
                    Some(copy)
                },
                None => None,
            },
            None => None,
        };
        match found {
            Some(data) => {
                if data.len() as u64 > u32::MAX as u64 - env.mem.bytes.len() as u64 {
                    return None;
                }
                let len: u32 = data.len() as u32;
                let addr: u32 = env.mem.allocate_with(&data, len);
                assert(mem::padded_with_zeros(data@, len as nat) =~= data@);
                self.temporary_buffers.push(addr);
                env.mem.write_u32(length, len);
                Some(addr)
            },
            None => {
                env.mem.write_u32(length, 0);
                Some(0)
            },
        }
    }

    /// Gives up what the reader owns: the objects that it has made and its guest
    /// buffers.
    pub fn dealloc(self, env: &mut Environment)
        requires
            old(env).wf(),
        ensures
            final(env).wf(),
            exists|mid: Environment|
                {
                    &&& #[trigger] objc::after_releases(
                        *old(env),
                        mid,
                        made_objects(self.already_unarchived@).reverse(),
                    )
                    &&& final(env).objc == mid.objc
                    &&& final(env).autorelease_pool == mid.autorelease_pool
                    &&& final(env).mem.bytes@ == mid.mem.bytes@
                    &&& final(env).mem.null_segment_size == mid.mem.null_segment_size
                    &&& final(env).mem.allocations@ == objc::left_after(
                        mid.mem.allocations@,
                        self.temporary_buffers@,
                    )
                },
    {
        let slots = self.already_unarchived;
        let buffers = self.temporary_buffers;
        let mut pending: Vec<Id> = Vec::new();
        let mut i: usize = slots.len();
        let ghost all = made_objects(slots@);
        assert(slots@.take(i as int) =~= slots@);
        assert(made_objects(slots@.take(i as int)) + pending@.reverse() =~= all);
        while i > 0
            invariant
                i <= slots@.len(),
                made_objects(slots@.take(i as int)) + pending@.reverse() == all,
            decreases i,
        {
            let ghost before = pending@;
            assert(slots@.take(i as int).drop_last() =~= slots@.take(i - 1));
            i = i - 1;
            if let Some(id) = slots[i] {
                pending.push(id);
                proof {
                    let front = made_objects(slots@.take(i as int));
                    assert(front.push(id) + before.reverse() =~= front + pending@.reverse());
                }
            }
        }
        proof {
            assert(slots@.take(0) =~= Seq::empty());
            assert(pending@.reverse() =~= all);
            assert(pending@ =~= all.reverse());
        }
        release_each(env, pending);
        let ghost mid = *env;
        let mut n: usize = 0;
        while n < buffers.len()
            invariant
                n <= buffers@.len(),
                env.wf(),
                env.objc == mid.objc,
                env.autorelease_pool == mid.autorelease_pool,
                env.mem.bytes@ == mid.mem.bytes@,
                env.mem.null_segment_size == mid.mem.null_segment_size,
                env.mem.allocations@ == objc::left_after(
                    mid.mem.allocations@,
                    buffers@.take(n as int),
                ),
            decreases buffers@.len() - n,
        {
            assert(buffers@.take(n + 1).drop_last() =~= buffers@.take(n as int));
            env.mem.free(buffers[n]);
            n = n + 1;
        }
        assert(buffers@.take(n as int) =~= buffers@);
        assert(objc::after_releases(*old(env), mid, made_objects(slots@).reverse()));
    }
}

/// The objects that have been made.
pub open spec fn made_objects(slots: Seq<Option<Id>>) -> Seq<Id>
    decreases slots.len(),
{
    if slots.len() == 0 {
        Seq::empty()
    } else {
        match slots.last() {
            Some(id) => made_objects(slots.drop_last()).push(id),
            None => made_objects(slots.drop_last()),
        }
    }
}

/// Hands an object that has been read to the caller: it gets one more reference,
/// which belongs to the current pool.
pub fn hand_out(env: &mut Environment, object: Id) -> (same: Id)
    requires
        old(env).wf(),
        objc::can_retain(old(env).objc.objects@, object),
    ensures
        final(env).wf(),
        same == object,
        final(env).objc.objects@ == objc::retained(old(env).objc.objects@, object),
        final(env).mem == old(env).mem,
        final(env).autorelease_pool@ == objc::pooled(
            old(env).autorelease_pool@,
            old(env).objc.objects@,
            object,
        ),
{
    proof {
        objc::lemma_retained_keeps(env.objc.objects@, object);
    }
    retain(env, object);
    autorelease(env, object)
}

/// The low half of an integer is the signed number of 32 bits that differs from it by a
/// multiple of 2^32.
pub proof fn law_low_half(v: int)
    ensures
        -0x8000_0000 <= low_half(v) < 0x8000_0000,
        (v - low_half(v)) % 0x1_0000_0000 == 0,
{
}

/// Integers are taken as they are, or as the signed number with the same 64 bits where
/// they are too large. Reals lose their fraction, a truth value is 1 or 0, and nothing
/// else is an integer.
pub proof fn law_int_of(v: int, bits: u64, text: Seq<char>, data: Seq<u8>, uid: u64)
    ensures
        -0x8000_0000_0000_0000 <= v < 0x8000_0000_0000_0000 ==> int_of(PlistView::Integer(v))
            == Some(v as i64),
        0x8000_0000_0000_0000 <= v < 0x1_0000_0000_0000_0000 ==> int_of(PlistView::Integer(v))
            == Some((v - 0x1_0000_0000_0000_0000) as i64),
        int_of(PlistView::Real(bits)) == Some(doubles::to_integer(bits) as i64),
        int_of(PlistView::Boolean(true)) == Some(1i64),
        int_of(PlistView::Boolean(false)) == Some(0i64),
        int_of(PlistView::Str(text)) is None && int_of(PlistView::Data(data)) is None && int_of(
            PlistView::Uid(uid),
        ) is None,
{
}

/// A real number keeps its bits, an integer has those of the nearest one, and nothing else
/// is a real number.
pub proof fn law_real_of(v: int, bits: u64, flag: bool, text: Seq<char>)
    ensures
        real_of(PlistView::Real(bits)) == Some(bits as int),
        -0x8000_0000_0000_0000 <= v < 0x1_0000_0000_0000_0000 ==> real_of(PlistView::Integer(v))
            == Some(doubles::of_integer(v)),
        real_of(PlistView::Boolean(flag)) is None && real_of(PlistView::Str(text)) is None,
{
}

/// A distance from the Unix epoch less that of the reference date is the distance from the
/// reference date, to the nanosecond, as long as it fits.
pub proof fn law_distances_add_up(before: bool, seconds: u64, nanos: u32)
    requires
        nanos < 1_000_000_000,
        before ==> seconds + 978_307_200 <= u64::MAX,
    ensures
        ({
            let (negative, s, n) = since_reference(before, seconds, nanos);
            let distance = if negative {
                -(1_000_000_000 * s + n)
            } else {
                1_000_000_000 * s + n
            };
            let from_epoch = if before {
                -(1_000_000_000 * seconds + nanos)
            } else {
                1_000_000_000 * seconds + nanos
            };
            &&& distance == from_epoch - 978_307_200_000_000_000
            &&& 0 <= s && 0 <= n < 1_000_000_000
        }),
{
}

/// An archive says which program wrote it, in which version, and lists its objects.
pub proof fn law_is_archive(plist: PlistView, objects: Seq<PlistView>, version: int)
    requires
        plist is Dictionary,
    ensures
        plist_value::value_of(plist, "$version"@) == Some(PlistView::Integer(100_000))
            && plist_value::value_of(plist, "$archiver"@) == Some(
            PlistView::Str("NSKeyedArchiver"@),
        ) && plist_value::value_of(plist, "$objects"@) == Some(PlistView::Array(objects))
            ==> is_archive(plist) && objects_of(plist) == objects,
        plist_value::value_of(plist, "$version"@) == Some(PlistView::Integer(version)) && version
            != 100_000 ==> !is_archive(plist),
        !(plist_value::value_of(plist, "$archiver"@) is Some) ==> !is_archive(plist),
        !(plist_value::value_of(plist, "$objects"@) is Some) ==> !is_archive(plist),
{
}

/// What a number of an archive stands for: 0 and numbers without an object for nothing,
/// and an object that has been made for itself. An object with a class that is known, or
/// whose name the archive holds, is an instance of it; plain values are taken as they are,
/// and anything else is nothing.
pub proof fn law_archive_case(
    plist: PlistView,
    made: Seq<Option<Id>>,
    key: u64,
    class_key: u64,
    name: Seq<char>,
    text: Seq<char>,
    v: int,
    items: Seq<PlistView>,
)
    requires
        made.len() == objects_of(plist).len(),
    ensures
        archive_case(plist, made, 0) == ArchiveCase::Known(0),
        key >= made.len() ==> archive_case(plist, made, key) == ArchiveCase::Known(0),
        0 < key < made.len() && made[key as int] is None ==> {
            let item = objects_of(plist)[key as int];
            let case = archive_case(plist, made, key);
            let class = plist_value::value_of(item, "$class"@);
            &&& item == PlistView::Str(text) ==> case == ArchiveCase::Value(item)
            &&& item == PlistView::Integer(v) ==> case == ArchiveCase::Value(item)
            &&& item == PlistView::Array(items) ==> case == ArchiveCase::Known(0)
            &&& item is Dictionary && class is None ==> case == ArchiveCase::Known(0)
            &&& item is Dictionary && class == Some(PlistView::Uid(class_key)) && class_key
                >= made.len() ==> case == ArchiveCase::Known(0)
            &&& item is Dictionary && class == Some(PlistView::Uid(class_key)) && class_key
                < made.len() && made[class_key as int] is Some ==> case == ArchiveCase::Instance(
                class_key,
            )
            &&& item is Dictionary && class == Some(PlistView::Uid(class_key)) && class_key
                < made.len() && made[class_key as int] is None ==> {
                let named = plist_value::value_of(
                    objects_of(plist)[class_key as int],
                    "$classname"@,
                );
                &&& named == Some(PlistView::Str(name)) ==> case == ArchiveCase::Instance(class_key)
                    && class_name_of(plist, class_key) == name
                &&& named is None ==> case == ArchiveCase::Known(0)
            }
        },
{
}

/// The numbers of objects are taken in their order, and anything else is left out.
pub proof fn law_uids_in(a: Seq<PlistView>, b: Seq<PlistView>, uid: u64, other: PlistView)
    requires
        !(other is Uid),
    ensures
        uids_in(a + b) == uids_in(a) + uids_in(b),
        uids_in(seq![PlistView::Uid(uid)]) == seq![uid],
        uids_in(seq![other]) == Seq::<u64>::empty(),
    decreases b.len(),
{
    assert(seq![PlistView::Uid(uid)].drop_last() =~= Seq::<PlistView>::empty());
    assert(seq![other].drop_last() =~= Seq::<PlistView>::empty());
    reveal_with_fuel(uids_in, 2);
    assert(uids_in(seq![PlistView::Uid(uid)]) =~= seq![uid]);
    if b.len() == 0 {
        assert(a + b =~= a);
        assert(uids_in(a) + uids_in(b) =~= uids_in(a));
    } else {
        assert((a + b).drop_last() =~= a + b.drop_last());
        law_uids_in(a, b.drop_last(), uid, other);
        if let PlistView::Uid(last) = b.last() {
            assert((uids_in(a) + uids_in(b.drop_last())).push(last) =~= uids_in(a) + uids_in(
                b.drop_last(),
            ).push(last));
        }
    }
}

/// Zeros are left out, and the other numbers keep their order.
pub proof fn law_without_zeros(a: Seq<u64>, b: Seq<u64>, uid: u64, i: int)
    ensures
        without_zeros(a + b) == without_zeros(a) + without_zeros(b),
        uid != 0 ==> without_zeros(seq![uid]) == seq![uid],
        without_zeros(seq![0u64]) == Seq::<u64>::empty(),
        0 <= i < without_zeros(b).len() ==> without_zeros(b)[i] != 0,
    decreases b.len(),
{
    assert(seq![uid].drop_last() =~= Seq::<u64>::empty());
    assert(seq![0u64].drop_last() =~= Seq::<u64>::empty());
    reveal_with_fuel(without_zeros, 2);
    assert(uid != 0 ==> without_zeros(seq![uid]) =~= seq![uid]);
    if b.len() == 0 {
        assert(a + b =~= a);
        assert(without_zeros(a) + without_zeros(b) =~= without_zeros(a));
    } else {
        assert((a + b).drop_last() =~= a + b.drop_last());
        law_without_zeros(a, b.drop_last(), uid, i);
        assert((without_zeros(a) + without_zeros(b.drop_last())).push(b.last()) =~= without_zeros(a)
            + without_zeros(b.drop_last()).push(b.last()));
    }
}

/// A key and a value of a dictionary belong together where both stand for an object.
pub proof fn law_pairs_of(keys: Seq<u64>, values: Seq<u64>, n: nat, i: int)
    requires
        n < keys.len(),
        n < values.len(),
    ensures
        keys[n as int] != 0 && values[n as int] != 0 ==> pairs_of(keys, values, n + 1) == pairs_of(
            keys,
            values,
            n,
        ).push((keys[n as int], values[n as int])),
        keys[n as int] == 0 || values[n as int] == 0 ==> pairs_of(keys, values, n + 1) == pairs_of(
            keys,
            values,
            n,
        ),
        0 <= i < pairs_of(keys, values, n).len() ==> pairs_of(keys, values, n)[i].0 != 0
            && pairs_of(keys, values, n)[i].1 != 0,
    decreases n,
{
    if n > 0 {
        law_pairs_of(keys, values, (n - 1) as nat, i);
    }
}

/// The objects that have been made are those of the slots that hold one, in order.
pub proof fn law_made_objects(a: Seq<Option<Id>>, b: Seq<Option<Id>>, id: Id)
    ensures
        made_objects(a + b) == made_objects(a) + made_objects(b),
        made_objects(seq![Some(id)]) == seq![id],
        made_objects(seq![None::<Id>]) == Seq::<Id>::empty(),
    decreases b.len(),
{
    assert(seq![Some(id)].drop_last() =~= Seq::<Option<Id>>::empty());
    assert(seq![None::<Id>].drop_last() =~= Seq::<Option<Id>>::empty());
    reveal_with_fuel(made_objects, 2);
    assert(made_objects(seq![Some(id)]) =~= seq![id]);
    if b.len() == 0 {
        assert(a + b =~= a);
        assert(made_objects(a) + made_objects(b) =~= made_objects(a));
    } else {
        assert((a + b).drop_last() =~= a + b.drop_last());
        law_made_objects(a, b.drop_last(), id);
        if let Some(last) = b.last() {
            assert((made_objects(a) + made_objects(b.drop_last())).push(last) =~= made_objects(a)
                + made_objects(b.drop_last()).push(last));
        }
    }
}

/// Values are looked up in the object that is being read, and in the top of the archive
/// where none is.
pub proof fn law_scope(reader: NSKeyedUnarchiver, key: Seq<char>, current: u64)
    ensures
        reader.current_key is None ==> (match plist_value::value_of(reader.plist@, "$top"@) {
            Some(top) => reader.value_for(key) == plist_value::value_of(top, key),
            None => reader.value_for(key) is None,
        }),
        reader.current_key == Some(current) && current < objects_of(reader.plist@).len()
            ==> reader.value_for(key) == plist_value::value_of(
            objects_of(reader.plist@)[current as int],
            key,
        ),
        reader.current_key == Some(current) && current >= objects_of(reader.plist@).len()
            ==> reader.value_for(key) is None,
{
}

/// The bytes of a string stand under one of two keys, as bytes or as text, and those under
/// the first go before. Data has one key only.
pub proof fn law_current_bytes(reader: NSKeyedUnarchiver, data: Seq<u8>, text: Seq<char>)
    ensures
        reader.value_for("NS.bytes"@) == Some(PlistView::Data(data))
            ==> reader.current_string_bytes() == data,
        reader.value_for("NS.bytes"@) is None && reader.value_for("NS.string"@) == Some(
            PlistView::Str(text),
        ) ==> reader.current_string_bytes() == utf8::encode_utf8(text),
        reader.value_for("NS.bytes"@) is None && reader.value_for("NS.string"@) is None
            ==> reader.current_string_bytes().len() == 0,
        reader.value_for("NS.data"@) == Some(PlistView::Data(data)) ==> reader.current_data()
            == data,
        reader.value_for("NS.data"@) is None ==> reader.current_data().len() == 0,
{
}

/// A number is an integer if it has one, else a real number, else a truth value, and zero
/// without any of these.
pub proof fn law_current_number(reader: NSKeyedUnarchiver, v: int, bits: u64, flag: bool)
    ensures
        reader.value_for("NS.intval"@) == Some(PlistView::Integer(v)) && -0x8000_0000_0000_0000 <= v
            < 0x8000_0000_0000_0000 ==> reader.current_number() == NumberValue::Signed(v as i64),
        reader.value_for("NS.intval"@) == Some(PlistView::Integer(v)) && 0x8000_0000_0000_0000 <= v
            < 0x1_0000_0000_0000_0000 ==> reader.current_number() == NumberValue::Unsigned(v as u64),
        reader.value_for("NS.intval"@) is None && reader.value_for("NS.dblval"@) == Some(
            PlistView::Real(bits),
        ) ==> reader.current_number() == NumberValue::Real(bits),
        reader.value_for("NS.intval"@) is None && reader.value_for("NS.dblval"@) is None
            && reader.value_for("NS.boolval"@) == Some(PlistView::Boolean(flag))
            ==> reader.current_number() == NumberValue::Bool(flag),
        reader.value_for("NS.intval"@) is None && reader.value_for("NS.dblval"@) is None
            && reader.value_for("NS.boolval"@) is None ==> reader.current_number()
            == NumberValue::Signed(0),
{
}

/// A number that is too large for its sign is the negative one with the same 64 bits.
pub proof fn law_wrapped(u: u64)
    ensures
        u < 0x8000_0000_0000_0000 ==> wrapped(u) == u,
        u >= 0x8000_0000_0000_0000 ==> wrapped(u) == u - 0x1_0000_0000_0000_0000,
{
}

} // verus!
