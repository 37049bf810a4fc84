//! `NSData` and `NSMutableData`: objects that hold bytes in guest memory.
use crate::code_units::NSRange;
use crate::mem;
use crate::ns_keyed_unarchiver;
use crate::objc;
use crate::objc::{autorelease, release, retain, Environment, HostObject, Id, Object, NIL};
use crate::plist_value;
use crate::plist_value::{insert_entry, PlistValue, PlistView};
use crate::string_encoding::{bytes_between, push_bytes, same_bytes};
use vstd::prelude::*;

verus! {

/// The buffer of a data object, its length, and whether the object frees it.
pub open spec fn data_at(objects: Seq<Object>, id: Id) -> Option<(u32, u32, bool)> {
    if 0 < id < objects.len() {
        match objects[id as int].host {
            HostObject::Data { bytes, length, free_when_done, mutable } => Some(
                (bytes, length, free_when_done),
            ),
            _ => None,
        }
    } else {
        None
    }
}

/// The object holds data whose bytes can be accessed.
pub open spec fn is_data(env: Environment, id: Id) -> bool {
    data_at(env.objc.objects@, id) matches Some((bytes, length, free)) && (length == 0
        || env.mem.mapped(bytes as int, length as int))
}

pub open spec fn length_of(env: Environment, id: Id) -> u32 {
    (data_at(env.objc.objects@, id)->0).1
}

/// The bytes of a data object.
pub open spec fn content_of(env: Environment, id: Id) -> Seq<u8> {
    match data_at(env.objc.objects@, id) {
        Some((bytes, length, free)) => env.mem.content(bytes, length),
        None => Seq::empty(),
    }
}

pub open spec fn is_mutable_data(objects: Seq<Object>, id: Id) -> bool {
    0 < id < objects.len() && (objects[id as int].host matches HostObject::Data {
        bytes,
        length,
        free_when_done,
        mutable,
    } && mutable)
}

/// The object with another buffer and length.
pub open spec fn with_buffer(objects: Seq<Object>, id: Id, bytes: int, length: int) -> Seq<Object> {
    objects.update(
        id as int,
        Object {
            retain_count: objects[id as int].retain_count,
            host: HostObject::Data {
                bytes: bytes as u32,
                length: length as u32,
                free_when_done: (data_at(objects, id)->0).2,
                mutable: is_mutable_data(objects, id),
            },
        },
    )
}

fn buffer_of(env: &Environment, id: Id) -> (r: (u32, u32, bool, bool))
    requires
        env.wf(),
        data_at(env.objc.objects@, id) is Some,
    ensures
        data_at(env.objc.objects@, id) == Some((r.0, r.1, r.2)),
        r.3 == is_mutable_data(env.objc.objects@, id),
{
    match &env.objc.objects[id as usize].host {
        HostObject::Data { bytes, length, free_when_done, mutable } => (
            *bytes,
            *length,
            *free_when_done,
            *mutable,
        ),
        _ => (0, 0, false, false),
    }
}

fn put_buffer(env: &mut Environment, id: Id, bytes: u32, length: u32)
    requires
        old(env).wf(),
        data_at(old(env).objc.objects@, id) is Some,
    ensures
        final(env).wf(),
        final(env).objc.objects@ == with_buffer(
            old(env).objc.objects@,
            id,
            bytes as int,
            length as int,
        ),
        final(env).mem == old(env).mem,
        final(env).autorelease_pool == old(env).autorelease_pool,
{
    let (_, _, free_when_done, mutable): (u32, u32, bool, bool) = buffer_of(env, id);
    let retain_count: Option<u32> = env.objc.objects[id as usize].retain_count;
    env.objc.objects.set(
        id as usize,
        Object {
            retain_count,
            host: HostObject::Data { bytes, length, free_when_done, mutable },
        },
    );
}

/// The bytes of a data object.
pub fn to_rust_slice(env: &Environment, data: Id) -> (bytes: Vec<u8>)
    requires
        env.wf(),
        is_data(*env, data),
    ensures
        bytes@ == content_of(*env, data),
{
    let (bytes, length, _, _): (u32, u32, bool, bool) = buffer_of(env, data);
    env.mem.read_content(bytes, length)
}

/// Writes a data object into its dictionary in an archive.
pub fn encode_with_coder(env: &Environment, this: Id, scope: &mut Vec<(String, PlistValue)>)
    requires
        env.wf(),
        is_data(*env, this),
    ensures
        plist_value::entry_views(final(scope)@) == plist_value::entry_put(
            plist_value::entry_views(old(scope)@),
            "NS.data"@,
            PlistView::Data(content_of(*env, this)),
        ),
{
    let bytes = to_rust_slice(env, this);
    insert_entry(scope, "NS.data", PlistValue::Data(bytes));
}

/// Data that was written into an archive is read back: the reader finds the same
/// bytes.
pub proof fn law_archived_data_is_read(
    reader: ns_keyed_unarchiver::NSKeyedUnarchiver,
    scope: Seq<(Seq<char>, PlistView)>,
    content: Seq<u8>,
)
    requires
        reader.scope() == Some(
            PlistView::Dictionary(
                plist_value::entry_put(scope, "NS.data"@, PlistView::Data(content)),
            ),
        ),
    ensures
        reader.current_data() == content,
{
    plist_value::law_put_is_found(scope, "NS.data"@, PlistView::Data(content), "NS.data"@);
}

/// A new data object with its own copy of some bytes, which the caller owns.
pub open spec fn data_added(
    before: Environment,
    after: Environment,
    id: Id,
    content: Seq<u8>,
    size: nat,
    mutable: bool,
) -> bool {
    &&& id == before.objc.objects@.len()
    &&& after.objc.objects@ == before.objc.objects@.push(
        Object {
            retain_count: Some(1),
            host: HostObject::Data {
                bytes: before.mem.bytes@.len() as u32,
                length: content.len() as u32,
                free_when_done: true,
                mutable,
            },
        },
    )
    &&& after.mem.bytes@ == before.mem.bytes@ + mem::padded_with_zeros(content, size)
    &&& after.mem.null_segment_size == before.mem.null_segment_size
    &&& after.mem.allocations@ == before.mem.allocations@.push(
        (before.mem.bytes@.len() as u32, size as u32),
    )
    &&& after.autorelease_pool == before.autorelease_pool
}

/// The length of a buffer that is never empty.
pub open spec fn at_least_one(len: nat) -> nat {
    if len == 0 {
        1
    } else {
        len
    }
}

/// Makes a data object with its own copy of some bytes. Its buffer has at least
/// one byte.
pub fn new_nsdata(env: &mut Environment, content: &Vec<u8>, mutable: bool) -> (id: Id)
    requires
        old(env).wf(),
        old(env).has_room(1, at_least_one(content@.len()) as int),
    ensures
        final(env).wf(),
        data_added(
            *old(env),
            *final(env),
            id,
            content@,
            at_least_one(content@.len()),
            mutable,
        ),
        is_data(*final(env), id),
        content_of(*final(env), id) == content@,
{
    let size: u32 = if content.len() == 0 {
        1
    } else {
        content.len() as u32
    };
    data_of_size(env, content, size, mutable)
}

fn data_of_size(env: &mut Environment, content: &Vec<u8>, size: u32, mutable: bool) -> (id: Id)
    requires
        old(env).wf(),
        old(env).has_room(1, size as int),
        content@.len() <= size,
    ensures
        final(env).wf(),
        data_added(*old(env), *final(env), id, content@, size as nat, mutable),
        is_data(*final(env), id),
        content_of(*final(env), id) == content@,
{
    let len: u32 = content.len() as u32;
    let bytes: u32 = env.mem.allocate_with(content, size);
    let id: Id = env.objc.alloc_object(
        HostObject::Data { bytes, length: len, free_when_done: true, mutable },
    );
    assert(content_of(*env, id) =~= content@);
    id
}

/// Makes a data object for a guest buffer, which is not copied, in the current
/// pool.
pub fn data_with_bytes_no_copy(env: &mut Environment, bytes: u32, length: u32, free: bool) -> (id:
    Id)
    requires
        old(env).wf(),
        old(env).has_room(1, 0),
    ensures
        final(env).wf(),
        id == old(env).objc.objects@.len(),
        final(env).objc.objects@ == old(env).objc.objects@.push(
            Object {
                retain_count: Some(1),
                host: HostObject::Data { bytes, length, free_when_done: free, mutable: false },
            },
        ),
        final(env).mem == old(env).mem,
        final(env).autorelease_pool@ == old(env).autorelease_pool@.push(id),
{
    let id: Id = env.objc.alloc_object(
        HostObject::Data { bytes, length, free_when_done: free, mutable: false },
    );
    autorelease(env, id)
}

/// Guest memory and a data object after the object has got a new buffer.
pub open spec fn moved_to(
    before: Environment,
    after: Environment,
    this: Id,
    content: Seq<u8>,
    size: nat,
    length: int,
) -> bool {
    &&& after.objc.objects@ == with_buffer(
        before.objc.objects@,
        this,
        before.mem.bytes@.len() as int,
        length,
    )
    &&& after.mem.bytes@ == before.mem.bytes@ + mem::padded_with_zeros(content, size)
    &&& after.mem.null_segment_size == before.mem.null_segment_size
    &&& after.mem.allocations@ == before.mem.allocations@.push(
        (before.mem.bytes@.len() as u32, size as u32),
    ).filter(mem::is_elsewhere((data_at(before.objc.objects@, this)->0).0))
    &&& after.autorelease_pool == before.autorelease_pool
}

/// Copies guest bytes to a new data object that holds none yet.
pub fn init_with_bytes(env: &mut Environment, this: Id, bytes: u32, length: u32) -> (id: Id)
    requires
        old(env).wf(),
        data_at(old(env).objc.objects@, this) matches Some((b, l, f)) && b == 0 && l == 0,
        length == 0 || old(env).mem.mapped(bytes as int, length as int),
        old(env).has_room(0, length as int),
    ensures
        final(env).wf(),
        id == this,
        final(env).objc.objects@ == with_buffer(
            old(env).objc.objects@,
            this,
            old(env).mem.bytes@.len() as int,
            length as int,
        ),
        final(env).mem.bytes@ == old(env).mem.bytes@ + old(env).mem.content(bytes, length),
        final(env).mem.null_segment_size == old(env).mem.null_segment_size,
        final(env).mem.allocations@ == old(env).mem.allocations@.push(
            (old(env).mem.bytes@.len() as u32, length),
        ),
        is_data(*final(env), this),
        content_of(*final(env), this) == old(env).mem.content(bytes, length),
        final(env).autorelease_pool == old(env).autorelease_pool,
{
    let content = env.mem.read_content(bytes, length);
    let copy: u32 = env.mem.allocate_with(&content, length);
    assert(mem::padded_with_zeros(content@, length as nat) =~= content@);
    put_buffer(env, this, copy, length);
    assert(content_of(*env, this) =~= content@);
    this
}

/// Fills a new data object with what was read from a file. Where nothing could be
/// read the object is released and `nil` returned.
pub fn init_with_contents(env: &mut Environment, this: Id, contents: &Option<Vec<u8>>) -> (id: Id)
    requires
        old(env).wf(),
        data_at(old(env).objc.objects@, this) matches Some((b, l, f)) && b == 0 && l == 0,
        contents matches Some(c) ==> old(env).has_room(0, c@.len() as int),
    ensures
        final(env).wf(),
        match contents {
            Some(c) => {
                &&& id == this
                &&& final(env).objc.objects@ == with_buffer(
                    old(env).objc.objects@,
                    this,
                    old(env).mem.bytes@.len() as int,
                    c@.len() as int,
                )
                &&& final(env).mem.bytes@ == old(env).mem.bytes@ + c@
                &&& final(env).mem.null_segment_size == old(env).mem.null_segment_size
                &&& final(env).mem.allocations@ == old(env).mem.allocations@.push(
                    (old(env).mem.bytes@.len() as u32, c@.len() as u32),
                )
                &&& is_data(*final(env), this)
                &&& content_of(*final(env), this) == c@
                &&& final(env).autorelease_pool == old(env).autorelease_pool
            },
            None => id == NIL && objc::after_releases(*old(env), *final(env), seq![this]),
        },
{
    match contents {
        Some(c) => {
            let len: u32 = c.len() as u32;
            let buffer: u32 = env.mem.allocate_with(c, len);
            assert(mem::padded_with_zeros(c@, len as nat) =~= c@);
            put_buffer(env, this, buffer, len);
            assert(content_of(*env, this) =~= c@);
            this
        },
        None => {
            release(env, this);
            NIL
        },
    }
}

/// Whether two data objects hold the same bytes; none is equal to `nil`.
pub fn is_equal_to_data(env: &Environment, this: Id, other: Id) -> (equal: bool)
    requires
        env.wf(),
        is_data(*env, this),
        other == NIL || is_data(*env, other),
    ensures
        equal == (other != NIL && content_of(*env, this) == content_of(*env, other)),
{
    if other == NIL {
        return false;
    }
    let a = to_rust_slice(env, this);
    let b = to_rust_slice(env, other);
    same_bytes(a.as_slice(), b.as_slice())
}

/// Where a range that is cut off at the end of the data starts, and its length.
pub open spec fn clipped(length: int, location: int, len: int) -> (int, int) {
    let start = if location < length {
        location
    } else {
        length
    };
    (
        start,
        if len < length - start {
            len
        } else {
            length - start
        },
    )
}

/// A new data object in the current pool with the bytes of a range, which is cut
/// off at the end of the data.
pub fn subdata_with_range(env: &mut Environment, this: Id, range: NSRange) -> (id: Id)
    requires
        old(env).wf(),
        is_data(*old(env), this),
        old(env).has_room(
            1,
            clipped(
                length_of(*old(env), this) as int,
                range.location as int,
                range.length as int,
            ).1,
        ),
    ensures
        final(env).wf(),
        id == old(env).objc.objects@.len(),
        final(env).autorelease_pool@ == old(env).autorelease_pool@.push(id),
        ({
            let (start, len) = clipped(
                length_of(*old(env), this) as int,
                range.location as int,
                range.length as int,
            );
            let buffer = old(env).mem.bytes@.len() as u32;
            let part = content_of(*old(env), this).subrange(start, start + len);
            &&& is_data(*final(env), id)
            &&& content_of(*final(env), id) == part
            &&& final(env).objc.objects@ == old(env).objc.objects@.push(
                Object {
                    retain_count: Some(1),
                    host: HostObject::Data {
                        bytes: buffer,
                        length: len as u32,
                        free_when_done: true,
                        mutable: false,
                    },
                },
            )
            &&& final(env).mem.bytes@ == old(env).mem.bytes@ + part
            &&& final(env).mem.null_segment_size == old(env).mem.null_segment_size
            &&& final(env).mem.allocations@ == old(env).mem.allocations@.push(
                (buffer, len as u32),
            )
        }),
{
    let (bytes, length, _, _): (u32, u32, bool, bool) = buffer_of(env, this);
    let start: u32 = if range.location < length {
        range.location
    } else {
        length
    };
    let len: u32 = if range.length < length - start {
        range.length
    } else {
        length - start
    };
    let ghost whole = content_of(*env, this);
    let part = if len == 0 {
        Vec::new()
    } else {
        env.mem.bytes_at(bytes + start, len)
    };
    assert(part@ =~= whole.subrange(start as int, start + len));
    let buffer: u32 = env.mem.allocate_with(&part, len);
    assert(mem::padded_with_zeros(part@, len as nat) =~= part@);
    let id: Id = data_with_bytes_no_copy(env, buffer, len, true);
    assert(content_of(*env, id) =~= part@);
    id
}

/// What is copied out of data for a range: bytes beyond the end are zero.
pub open spec fn bytes_for_range(content: Seq<u8>, location: int, len: int) -> Seq<u8> {
    Seq::new(
        len as nat,
        |i: int|
            if location + i < content.len() {
                content[location + i]
            } else {
                0u8
            },
    )
}

/// The bytes of a data object by the time they are copied to guest memory: a buffer for
/// more than there are is filled with zeros before, which may be where the data is.
pub open spec fn copied_content(env: Environment, this: Id, buffer: u32, range: NSRange) -> Seq<
    u8,
> {
    match data_at(env.objc.objects@, this) {
        Some((bytes, length, free)) => if length == 0 || range.location + range.length <= length {
            env.mem.content(bytes, length)
        } else {
            mem::splice(
                env.mem.bytes@,
                buffer as int,
                zeros(range.length as nat),
            ).subrange(bytes as int, bytes + length)
        },
        None => Seq::empty(),
    }
}

pub open spec fn zeros(n: nat) -> Seq<u8> {
    Seq::new(n, |i: int| 0u8)
}

fn new_zeros(n: u32) -> (bytes: Vec<u8>)
    ensures
        bytes@ == zeros(n as nat),
{
    let mut bytes: Vec<u8> = Vec::new();
    bytes.resize(n as usize, 0);
    assert(bytes@ =~= zeros(n as nat));
    bytes
}

/// Copies the bytes of a range to guest memory. What the range covers beyond the
/// end of the data is filled with zeros.
pub fn get_bytes_in_range(env: &mut Environment, this: Id, buffer: u32, range: NSRange)
    requires
        old(env).wf(),
        is_data(*old(env), this),
        range.length == 0 || old(env).mem.mapped(buffer as int, range.length as int),
    ensures
        final(env).wf(),
        range.length == 0 ==> *final(env) == *old(env),
        range.length > 0 ==> final(env).mem.is_written(
            &old(env).mem,
            buffer as int,
            bytes_for_range(
                copied_content(*old(env), this, buffer, range),
                range.location as int,
                range.length as int,
            ),
        ),
        final(env).objc == old(env).objc,
        final(env).autorelease_pool == old(env).autorelease_pool,
{
    if range.length == 0 {
        return;
    }
    let (bytes, length, _, _): (u32, u32, bool, bool) = buffer_of(env, this);
    let location: u32 = range.location;
    let ghost content = copied_content(*env, this, buffer, range);
    if location < length && range.length <= length - location {
        let part = env.mem.bytes_at(bytes + location, range.length);
        env.mem.write_bytes(buffer, &part);
        assert(part@ =~= bytes_for_range(content, location as int, range.length as int));
        return;
    }
    let none = new_zeros(range.length);
    env.mem.write_bytes(buffer, &none);
    let ghost cleared = env.mem.bytes@;
    let ghost wanted = bytes_for_range(content, location as int, range.length as int);
    if location < length {
        let part = env.mem.bytes_at(bytes + location, length - location);
        env.mem.write_bytes(buffer, &part);
        proof {
            assert(wanted =~= part@ + zeros((range.length - part@.len()) as nat));
            assert(env.mem.bytes@ =~= mem::splice(old(env).mem.bytes@, buffer as int, wanted));
        }
    } else {
        assert(wanted =~= zeros(range.length as nat));
    }
}

/// Copies the first bytes to guest memory, no more than there are.
pub fn get_bytes(env: &mut Environment, this: Id, buffer: u32, length: u32)
    requires
        old(env).wf(),
        is_data(*old(env), this),
        ({
            let len = if length < length_of(*old(env), this) {
                length
            } else {
                length_of(*old(env), this)
            };
            len == 0 || old(env).mem.mapped(buffer as int, len as int)
        }),
    ensures
        final(env).wf(),
        ({
            let len = if length < length_of(*old(env), this) {
                length
            } else {
                length_of(*old(env), this)
            };
            if len == 0 {
                *final(env) == *old(env)
            } else {
                final(env).mem.is_written(
                    &old(env).mem,
                    buffer as int,
                    content_of(*old(env), this).take(len as int),
                )
            }
        }),
        final(env).objc == old(env).objc,
        final(env).autorelease_pool == old(env).autorelease_pool,
{
    let (_, own, _, _): (u32, u32, bool, bool) = buffer_of(env, this);
    let len: u32 = if length < own {
        length
    } else {
        own
    };
    proof {
        let content = content_of(*env, this);
        let range = NSRange { location: 0, length: len };
        assert(copied_content(*env, this, buffer, range) == content);
        assert(bytes_for_range(content, 0, len as int) =~= content.take(len as int));
    }
    get_bytes_in_range(env, this, buffer, NSRange { location: 0, length: len });
}

/// Makes the data longer; the new bytes are zero.
pub fn increase_length_by(env: &mut Environment, this: Id, add_len: u32)
    requires
        old(env).wf(),
        is_data(*old(env), this),
        length_of(*old(env), this) + add_len <= u32::MAX,
        old(env).has_room(0, length_of(*old(env), this) + add_len),
    ensures
        final(env).wf(),
        moved_to(
            *old(env),
            *final(env),
            this,
            content_of(*old(env), this),
            (length_of(*old(env), this) + add_len) as nat,
            length_of(*old(env), this) + add_len,
        ),
        is_data(*final(env), this),
        content_of(*final(env), this) == mem::padded_with_zeros(
            content_of(*old(env), this),
            (length_of(*old(env), this) + add_len) as nat,
        ),
{
    let (bytes, length, _, _): (u32, u32, bool, bool) = buffer_of(env, this);
    let new_len: u32 = length + add_len;
    let new_bytes: u32 = env.mem.reallocate(bytes, length, new_len);
    put_buffer(env, this, new_bytes, new_len);
    assert(content_of(*env, this) =~= mem::padded_with_zeros(
        content_of(*old(env), this),
        new_len as nat,
    ));
}

/// Gives a data object a new buffer with some bytes.
fn replace_content(env: &mut Environment, this: Id, content: &Vec<u8>)
    requires
        old(env).wf(),
        is_data(*old(env), this),
        old(env).has_room(0, at_least_one(content@.len()) as int),
    ensures
        final(env).wf(),
        moved_to(
            *old(env),
            *final(env),
            this,
            content@,
            at_least_one(content@.len()),
            content@.len() as int,
        ),
        is_data(*final(env), this),
        content_of(*final(env), this) == content@,
{
    let (bytes, _, _, _): (u32, u32, bool, bool) = buffer_of(env, this);
    let len: u32 = content.len() as u32;
    let size: u32 = if len == 0 {
        1
    } else {
        len
    };
    let new_bytes: u32 = env.mem.allocate_with(content, size);
    env.mem.free(bytes);
    put_buffer(env, this, new_bytes, len);
    assert(content_of(*env, this) =~= content@);
}

/// Adds guest bytes at the end of the data.
pub fn append_bytes(env: &mut Environment, this: Id, bytes: u32, length: u32)
    requires
        old(env).wf(),
        is_data(*old(env), this),
        length == 0 || old(env).mem.mapped(bytes as int, length as int),
        length_of(*old(env), this) + length <= u32::MAX,
        old(env).has_room(0, length_of(*old(env), this) + length),
    ensures
        final(env).wf(),
        is_data(*final(env), this),
        content_of(*final(env), this) == content_of(*old(env), this) + old(env).mem.content(
            bytes,
            length,
        ),
        moved_to(
            *old(env),
            *final(env),
            this,
            content_of(*old(env), this) + old(env).mem.content(bytes, length),
            (length_of(*old(env), this) + length) as nat,
            length_of(*old(env), this) + length,
        ),
{
    let more = env.mem.read_content(bytes, length);
    let (_, old_len, _, _): (u32, u32, bool, bool) = buffer_of(env, this);
    let ghost before = content_of(*env, this);
    increase_length_by(env, this, length);
    let (new_bytes, _, _, _): (u32, u32, bool, bool) = buffer_of(env, this);
    let ghost grown = env.mem.bytes@;
    env.mem.write_bytes(new_bytes + old_len, &more);
    proof {
        assert(mem::padded_with_zeros(before + more@, (old_len + length) as nat) =~= before
            + more@);
        assert(env.mem.bytes@ =~= old(env).mem.bytes@ + (before + more@));
        assert(content_of(*env, this) =~= before + more@);
    }
}

/// The data after bytes have been written over a range. The data grows where the
/// range reaches beyond its end; a gap is filled with zeros.
pub open spec fn overwritten(content: Seq<u8>, location: int, new: Seq<u8>) -> Seq<u8> {
    let end = location + new.len();
    let size = if end > content.len() {
        end
    } else {
        content.len() as int
    };
    mem::splice(mem::padded_with_zeros(content, size as nat), location, new)
}

/// Writes guest bytes over a range of the data.
pub fn replace_bytes_in_range(env: &mut Environment, this: Id, range: NSRange, replacement: u32)
    requires
        old(env).wf(),
        is_data(*old(env), this),
        range.location + range.length <= u32::MAX,
        range.length == 0 || old(env).mem.mapped(replacement as int, range.length as int),
        range.location + range.length > length_of(*old(env), this) ==> old(env).has_room(
            0,
            range.location + range.length,
        ),
    ensures
        final(env).wf(),
        range.length == 0 ==> *final(env) == *old(env),
        range.length > 0 ==> ({
            let new = old(env).mem.content(replacement, range.length);
            let end = range.location + range.length;
            let content = overwritten(content_of(*old(env), this), range.location as int, new);
            &&& is_data(*final(env), this)
            &&& content_of(*final(env), this) == content
            &&& if end > length_of(*old(env), this) {
                moved_to(*old(env), *final(env), this, content, end as nat, end)
            } else {
                &&& final(env).mem.is_written(
                    &old(env).mem,
                    (data_at(old(env).objc.objects@, this)->0).0 + range.location,
                    new,
                )
                &&& final(env).objc == old(env).objc
                &&& final(env).autorelease_pool == old(env).autorelease_pool
            }
        }),
{
    if range.length == 0 {
        return;
    }
    let new = env.mem.read_content(replacement, range.length);
    let end: u32 = range.location + range.length;
    let (_, length, _, _): (u32, u32, bool, bool) = buffer_of(env, this);
    let ghost before = content_of(*env, this);
    if end > length {
        increase_length_by(env, this, end - length);
    } else {
        assert(mem::padded_with_zeros(before, length as nat) =~= before);
    }
    let (bytes, _, _, _): (u32, u32, bool, bool) = buffer_of(env, this);
    let ghost grown = content_of(*env, this);
    env.mem.write_bytes(bytes + range.location, &new);
    proof {
        let content = mem::splice(grown, range.location as int, new@);
        assert(content_of(*env, this) =~= content);
        if end > length {
            assert(mem::padded_with_zeros(content, end as nat) =~= content);
            assert(env.mem.bytes@ =~= old(env).mem.bytes@ + content);
        }
    }
}

/// The data with a range, cut off at the end, replaced by other bytes.
pub open spec fn replaced(content: Seq<u8>, location: int, len: int, new: Seq<u8>) -> Seq<u8> {
    let (start, covered) = clipped(content.len() as int, location, len);
    content.take(start) + new + content.skip(start + covered)
}

/// Puts guest bytes, or zeros where no address is given, in the place of a range.
pub fn replace_bytes_with_length(
    env: &mut Environment,
    this: Id,
    range: NSRange,
    replacement: u32,
    replacement_length: u32,
)
    requires
        old(env).wf(),
        is_data(*old(env), this),
        replacement_length == 0 || replacement == 0 || old(env).mem.mapped(
            replacement as int,
            replacement_length as int,
        ),
        old(env).has_room(
            0,
            at_least_one(
                replaced(
                    content_of(*old(env), this),
                    range.location as int,
                    range.length as int,
                    zeros(replacement_length as nat),
                ).len(),
            ) as int,
        ),
    ensures
        final(env).wf(),
        is_data(*final(env), this),
        ({
            let content = replaced(
                content_of(*old(env), this),
                range.location as int,
                range.length as int,
                if replacement == 0 {
                    zeros(replacement_length as nat)
                } else {
                    old(env).mem.content(replacement, replacement_length)
                },
            );
            &&& content_of(*final(env), this) == content
            &&& moved_to(
                *old(env),
                *final(env),
                this,
                content,
                at_least_one(content.len()),
                content.len() as int,
            )
        }),
{
    let content = to_rust_slice(env, this);
    let new = if replacement == 0 {
        new_zeros(replacement_length)
    } else {
        env.mem.read_content(replacement, replacement_length)
    };
    let total: usize = content.len();
    let start: usize = if (range.location as usize) < total {
        range.location as usize
    } else {
        total
    };
    let covered: usize = if (range.length as usize) < total - start {
        range.length as usize
    } else {
        total - start
    };
    let mut out = bytes_between(content.as_slice(), 0, start);
    push_bytes(&mut out, &new);
    let tail = bytes_between(content.as_slice(), start + covered, total);
    push_bytes(&mut out, &tail);
    assert(out@ =~= replaced(
        content@,
        range.location as int,
        range.length as int,
        new@,
    ));
    replace_content(env, this, &out);
}

/// The data cut off or filled with zeros to a length.
pub open spec fn resized(content: Seq<u8>, length: int) -> Seq<u8> {
    Seq::new(
        length as nat,
        |i: int|
            if i < content.len() {
                content[i]
            } else {
                0u8
            },
    )
}

/// Gives the data another length.
pub fn set_length(env: &mut Environment, this: Id, new_length: u32)
    requires
        old(env).wf(),
        is_data(*old(env), this),
        old(env).has_room(0, new_length as int),
    ensures
        final(env).wf(),
        is_data(*final(env), this),
        content_of(*final(env), this) == resized(content_of(*old(env), this), new_length as int),
        moved_to(
            *old(env),
            *final(env),
            this,
            resized(content_of(*old(env), this), new_length as int),
            new_length as nat,
            new_length as int,
        ),
{
    let (bytes, length, _, _): (u32, u32, bool, bool) = buffer_of(env, this);
    let kept: u32 = if length < new_length {
        length
    } else {
        new_length
    };
    let ghost before = content_of(*env, this);
    let new_bytes: u32 = env.mem.reallocate(bytes, kept, new_length);
    put_buffer(env, this, new_bytes, new_length);
    proof {
        let content = resized(before, new_length as int);
        assert(content_of(*env, this) =~= content);
        assert(mem::padded_with_zeros(content, new_length as nat) =~= content);
        assert(env.mem.bytes@ =~= old(env).mem.bytes@ + content);
    }
}

/// A copy of a data object: a mutable one is copied to a new object, another gets
/// one more reference.
pub fn copy_data(env: &mut Environment, this: Id) -> (id: Id)
    requires
        old(env).wf(),
        is_data(*old(env), this),
        objc::can_retain(old(env).objc.objects@, this),
        old(env).has_room(1, length_of(*old(env), this) as int),
    ensures
        final(env).wf(),
        is_mutable_data(old(env).objc.objects@, this) ==> data_added(
            *old(env),
            *final(env),
            id,
            content_of(*old(env), this),
            length_of(*old(env), this) as nat,
            false,
        ),
        !is_mutable_data(old(env).objc.objects@, this) ==> {
            &&& id == this
            &&& final(env).objc.objects@ == objc::retained(old(env).objc.objects@, this)
            &&& final(env).mem == old(env).mem
            &&& final(env).autorelease_pool == old(env).autorelease_pool
        },
{
    let (_, _, _, mutable): (u32, u32, bool, bool) = buffer_of(env, this);
    if mutable {
        let content = to_rust_slice(env, this);
        data_of_size(env, &content, content.len() as u32, false)
    } else {
        retain(env, this)
    }
}

/// A mutable copy of a data object.
pub fn mutable_copy_data(env: &mut Environment, this: Id) -> (id: Id)
    requires
        old(env).wf(),
        is_data(*old(env), this),
        old(env).has_room(1, length_of(*old(env), this) as int),
    ensures
        final(env).wf(),
        data_added(
            *old(env),
            *final(env),
            id,
            content_of(*old(env), this),
            length_of(*old(env), this) as nat,
            true,
        ),
{
    let content = to_rust_slice(env, this);
    data_of_size(env, &content, content.len() as u32, true)
}

/// Data that is appended is what a range behind the old end gives back.
pub proof fn law_append_then_read(content: Seq<u8>, new: Seq<u8>)
    ensures
        bytes_for_range(content + new, content.len() as int, new.len() as int) == new,
        replaced(content, content.len() as int, 0, new) == content + new,
        overwritten(content, content.len() as int, new) == content + new,
{
    assert(bytes_for_range(content + new, content.len() as int, new.len() as int) =~= new);
    assert(replaced(content, content.len() as int, 0, new) =~= content + new);
    assert(overwritten(content, content.len() as int, new) =~= content + new);
}

/// Bytes that have been written over a range are read from it, and the bytes
/// before it are as they were.
pub proof fn law_overwrite_then_read(content: Seq<u8>, location: int, new: Seq<u8>)
    requires
        0 <= location,
    ensures
        bytes_for_range(overwritten(content, location, new), location, new.len() as int) == new,
        forall|i: int|
            0 <= i < location && i < content.len() ==> #[trigger] overwritten(
                content,
                location,
                new,
            )[i] == content[i],
{
    assert(bytes_for_range(overwritten(content, location, new), location, new.len() as int)
        =~= new);
}

/// A range within data covers the bytes that are both in the range and in the data, and
/// where there are none it stands at the end of the data or at its own location.
pub proof fn law_clipped(length: int, location: int, len: int, i: int)
    requires
        0 <= length,
        0 <= location,
        0 <= len,
    ensures
        ({
            let (start, covered) = clipped(length, location, len);
            &&& 0 <= start && 0 <= covered && start + covered <= length
            &&& location <= length ==> start == location
            &&& location > length ==> start == length
            &&& start <= i < start + covered <==> location <= i < location + len && i < length
        }),
{
}

/// Data that is cut or grown keeps its first bytes and gets zeros behind them. Bytes of a
/// range that goes past the end read as if the data had been grown to it.
pub proof fn law_resized(content: Seq<u8>, location: int, len: int, i: int)
    requires
        0 <= location,
        0 <= len,
    ensures
        resized(content, len).len() == len,
        0 <= i < len && i < content.len() ==> resized(content, len)[i] == content[i],
        content.len() <= i < len ==> resized(content, len)[i] == 0,
        bytes_for_range(content, location, len) == resized(content, location + len).skip(location),
{
    assert(bytes_for_range(content, location, len) =~= resized(content, location + len).skip(
        location,
    ));
}

/// New bytes take the place of those that a range covers, and of none where the range is
/// behind the end.
pub proof fn law_replaced(before: Seq<u8>, covered: Seq<u8>, after: Seq<u8>, new: Seq<u8>, len: int)
    requires
        0 <= len,
    ensures
        replaced(
            before + covered + after,
            before.len() as int,
            covered.len() as int,
            new,
        ) == before + new + after,
        len >= covered.len() ==> replaced(before + covered, before.len() as int, len, new) == before
            + new,
        replaced(before, before.len() + len, len, new) == before + new,
{
    let whole = before + covered + after;
    assert(whole.take(before.len() as int) =~= before);
    assert(whole.skip((before.len() + covered.len()) as int) =~= after);
    if len >= covered.len() {
        let cut = before + covered;
        assert(cut.take(before.len() as int) =~= before);
        assert(replaced(cut, before.len() as int, len, new) =~= before + new);
    }
    assert(replaced(before, before.len() + len, len, new) =~= before + new);
}

/// Bytes that are written over data grow it where they go past its end, with zeros in a
/// gap, and leave all others as they were.
pub proof fn law_overwritten(content: Seq<u8>, location: int, new: Seq<u8>, i: int)
    requires
        0 <= location,
    ensures
        overwritten(content, location, new).len() == if location + new.len() > content.len() {
            location + new.len()
        } else {
            content.len() as int
        },
        0 <= i < new.len() ==> overwritten(content, location, new)[location + i] == new[i],
        0 <= i < content.len() && !(location <= i < location + new.len()) ==> overwritten(
            content,
            location,
            new,
        )[i] == content[i],
        content.len() <= i < location ==> overwritten(content, location, new)[i] == 0,
{
}

/// New data holds its content, in a buffer of its own that it frees, and the memory that
/// was there before does not change.
pub proof fn law_data_added(
    before: Environment,
    after: Environment,
    id: Id,
    content: Seq<u8>,
    size: nat,
    mutable: bool,
    i: int,
)
    requires
        0 < before.objc.objects@.len() <= u32::MAX,
        before.mem.bytes@.len() + size <= u32::MAX,
        content.len() <= size,
        data_added(before, after, id, content, size, mutable),
        0 <= i < before.mem.bytes@.len(),
    ensures
        content_of(after, id) == content,
        length_of(after, id) == content.len(),
        is_mutable_data(after.objc.objects@, id) == mutable,
        after.mem.bytes@[i] == before.mem.bytes@[i],
        objc::buffers_of(after.objc.objects@[id as int].host) == seq![
            before.mem.bytes@.len() as u32,
        ],
{
    assert(content_of(after, id) =~= content);
}

} // verus!
