//! `NSArray` and `NSMutableArray`.
use crate::code_units::{NSNotFound, NSRange};
use crate::mem;
use crate::ns_keyed_unarchiver;
use crate::objc;
use crate::objc::{
    autorelease, release, release_each, retain, Environment, HostObject, Id, Object, NIL,
};
use crate::plist_value;
use crate::plist_value::{insert_entry, PlistValue, PlistView};
use crate::text::{chars_of, push_all, string_of};
use vstd::prelude::*;

verus! {

/// The items of an array object; nothing for other objects.
pub open spec fn array_at(objects: Seq<Object>, id: Id) -> Option<Seq<Id>> {
    if 0 < id < objects.len() {
        match objects[id as int].host {
            HostObject::Array { items, mutable, retaining } => Some(items@),
            _ => None,
        }
    } else {
        None
    }
}

pub open spec fn is_array(objects: Seq<Object>, id: Id) -> bool {
    array_at(objects, id) is Some
}

pub open spec fn items_of(objects: Seq<Object>, id: Id) -> Seq<Id> {
    match array_at(objects, id) {
        Some(items) => items,
        None => Seq::empty(),
    }
}

pub open spec fn is_mutable_array(objects: Seq<Object>, id: Id) -> bool {
    0 < id < objects.len() && (objects[id as int].host matches HostObject::Array {
        items,
        mutable,
        retaining,
    } && mutable)
}

pub open spec fn is_retaining(objects: Seq<Object>, id: Id) -> bool {
    0 < id < objects.len() && (objects[id as int].host matches HostObject::Array {
        items,
        mutable,
        retaining,
    } && retaining)
}

pub open spec fn holds_array(object: Object, items: Seq<Id>, mutable: bool, retaining: bool) -> bool {
    object.host matches HostObject::Array { items: i, mutable: m, retaining: r } && i@ == items && m
        == mutable && r == retaining
}

/// One object more: an array that owns its items, with one reference.
pub open spec fn array_added(
    before: Environment,
    after: Environment,
    items: Seq<Id>,
    mutable: bool,
) -> bool {
    &&& after.objc.objects@.len() == before.objc.objects@.len() + 1
    &&& after.objc.objects@.drop_last() == before.objc.objects@
    &&& after.objc.objects@.last().retain_count == Some(1u32)
    &&& holds_array(after.objc.objects@.last(), items, mutable, true)
    &&& after.mem == before.mem
    &&& after.autorelease_pool == before.autorelease_pool
}

/// The array has other items now; nothing else has changed.
pub open spec fn array_replaced(
    before: Environment,
    after: Environment,
    this: Id,
    items: Seq<Id>,
) -> bool {
    &&& objc::others_kept(before.objc.objects@, after.objc.objects@, this)
    &&& after.objc.objects@[this as int].retain_count
        == before.objc.objects@[this as int].retain_count
    &&& holds_array(
        after.objc.objects@[this as int],
        items,
        is_mutable_array(before.objc.objects@, this),
        is_retaining(before.objc.objects@, this),
    )
    &&& after.mem == before.mem
    &&& after.autorelease_pool == before.autorelease_pool
}

/// Only references have been added.
pub open spec fn only_retained(before: Environment, after: Environment, ids: Seq<Id>) -> bool {
    &&& after.objc.objects@ == objc::all_retained(before.objc.objects@, ids)
    &&& after.mem == before.mem
    &&& after.autorelease_pool == before.autorelease_pool
}

/// Makes an array that takes over the references to its items.
pub fn from_vec(env: &mut Environment, objects: Vec<Id>) -> (id: Id)
    requires
        old(env).wf(),
        old(env).has_room(1, 0),
    ensures
        final(env).wf(),
        id == old(env).objc.objects@.len(),
        array_added(*old(env), *final(env), objects@, false),
        array_at(final(env).objc.objects@, id) == Some(objects@),
{
    let id: Id = env.objc.alloc_object(
        HostObject::Array { items: objects, mutable: false, retaining: true },
    );
    assert(env.objc.objects@.drop_last() =~= old(env).objc.objects@);
    id
}

/// Makes a mutable array that takes over the references to its items.
pub fn mutable_from_vec(env: &mut Environment, objects: Vec<Id>) -> (id: Id)
    requires
        old(env).wf(),
        old(env).has_room(1, 0),
    ensures
        final(env).wf(),
        id == old(env).objc.objects@.len(),
        array_added(*old(env), *final(env), objects@, true),
        array_at(final(env).objc.objects@, id) == Some(objects@),
{
    let id: Id = env.objc.alloc_object(
        HostObject::Array { items: objects, mutable: true, retaining: true },
    );
    assert(env.objc.objects@.drop_last() =~= old(env).objc.objects@);
    id
}

/// A copy of the items of an array.
pub fn array_items(env: &Environment, this: Id) -> (items: Vec<Id>)
    requires
        env.wf(),
        is_array(env.objc.objects@, this),
    ensures
        items@ == items_of(env.objc.objects@, this),
{
    let mut out: Vec<Id> = Vec::new();
    if let HostObject::Array { items, mutable, retaining } = &env.objc.objects[this as usize].host {
        objc::push_ids(&mut out, items);
        assert(out@ =~= items@);
    }
    out
}

pub fn count(env: &Environment, this: Id) -> (n: usize)
    requires
        env.wf(),
        is_array(env.objc.objects@, this),
    ensures
        n == items_of(env.objc.objects@, this).len(),
{
    match &env.objc.objects[this as usize].host {
        HostObject::Array { items, mutable, retaining } => items.len(),
        _ => 0,
    }
}

pub fn object_at_index(env: &Environment, this: Id, index: u32) -> (object: Id)
    requires
        env.wf(),
        is_array(env.objc.objects@, this),
        index < items_of(env.objc.objects@, this).len(),
    ensures
        object == items_of(env.objc.objects@, this)[index as int],
{
    match &env.objc.objects[this as usize].host {
        HostObject::Array { items, mutable, retaining } => items[index as usize],
        _ => NIL,
    }
}

/// The first item, or `nil`.
pub fn first_object(env: &Environment, this: Id) -> (object: Id)
    requires
        env.wf(),
        is_array(env.objc.objects@, this),
    ensures
        object == if items_of(env.objc.objects@, this).len() == 0 {
            NIL
        } else {
            items_of(env.objc.objects@, this)[0]
        },
{
    let items = array_items(env, this);
    if items.len() == 0 {
        NIL
    } else {
        items[0]
    }
}

/// The last item, or `nil`.
pub fn last_object(env: &Environment, this: Id) -> (object: Id)
    requires
        env.wf(),
        is_array(env.objc.objects@, this),
    ensures
        object == if items_of(env.objc.objects@, this).len() == 0 {
            NIL
        } else {
            items_of(env.objc.objects@, this).last()
        },
{
    let items = array_items(env, this);
    if items.len() == 0 {
        NIL
    } else {
        items[items.len() - 1]
    }
}

/// The index of the first item that is equal to an object, where `equal` tells
/// for each item whether it is; `NSNotFound` if there is none.
pub fn index_of_object(equal: &Vec<bool>) -> (index: u32)
    requires
        equal@.len() <= NSNotFound,
    ensures
        index < equal@.len() ==> equal@[index as int],
        index >= equal@.len() ==> index == NSNotFound,
        forall|i: int| 0 <= i < equal@.len() && i < index ==> !#[trigger] equal@[i],
{
    let mut i: u32 = 0;
    while (i as usize) < equal.len()
        invariant
            i <= equal@.len() <= NSNotFound,
            forall|j: int| 0 <= j < i ==> !#[trigger] equal@[j],
        decreases equal@.len() - i,
    {
        if equal[i as usize] {
            return i;
        }
        i = i + 1;
    }
    NSNotFound
}

/// Whether an item is equal to an object.
pub fn contains_object(equal: &Vec<bool>) -> (found: bool)
    requires
        equal@.len() <= NSNotFound,
    ensures
        found == equal@.contains(true),
{
    let index: u32 = index_of_object(equal);
    proof {
        if index < equal@.len() {
            assert(equal@[index as int]);
        } else if equal@.contains(true) {
            let k = choose|k: int| 0 <= k < equal@.len() && equal@[k] == true;
            assert(!equal@[k]);
        }
    }
    index != NSNotFound
}

/// The objects before the first `nil`.
pub open spec fn before_nil(ids: Seq<Id>) -> Seq<Id>
    decreases ids.len(),
{
    if ids.len() == 0 || ids[0] == NIL {
        Seq::empty()
    } else {
        seq![ids[0]] + before_nil(ids.drop_first())
    }
}

pub fn ids_before_nil(ids: &Vec<Id>) -> (kept: Vec<Id>)
    ensures
        kept@ == before_nil(ids@),
{
    let mut out: Vec<Id> = Vec::new();
    let mut i: usize = 0;
    assert(ids@.skip(0) =~= ids@);
    while i < ids.len() && ids[i] != NIL
        invariant
            i <= ids@.len(),
            out@ + before_nil(ids@.skip(i as int)) == before_nil(ids@),
        decreases ids@.len() - i,
    {
        let ghost before = out@;
        let ghost rest = ids@.skip(i as int);
        assert(rest[0] == ids@[i as int]);
        assert(rest.drop_first() =~= ids@.skip(i + 1));
        out.push(ids[i]);
        i = i + 1;
        assert(before + (seq![rest[0]] + before_nil(ids@.skip(i as int))) =~= out@ + before_nil(
            ids@.skip(i as int),
        ));
    }
    assert(out@ + Seq::<Id>::empty() =~= out@);
    out
}

/// The objects of an argument list that ends with `nil`, each with one more
/// reference.
pub fn retained_objects_from_varargs(env: &mut Environment, args: &Vec<Id>) -> (objects: Vec<Id>)
    requires
        old(env).wf(),
        objc::can_retain_all(old(env).objc.objects@, before_nil(args@)),
    ensures
        final(env).wf(),
        objects@ == before_nil(args@),
        only_retained(*old(env), *final(env), objects@),
{
    let objects = ids_before_nil(args);
    objc::retain_each(env, &objects);
    objects
}

/// The references stored at an address.
pub open spec fn guest_ids(bytes: Seq<u8>, at: int, n: int) -> Seq<Id> {
    Seq::new(n as nat, |i: int| mem::le_value(bytes.subrange(at + 4 * i, at + 4 * i + 4)) as u32)
}

/// The objects of a guest array of references, each with one more reference.
pub fn retained_objects_from_ptr(env: &mut Environment, objects_ptr: u32, count: u32) -> (objects:
    Vec<Id>)
    requires
        old(env).wf(),
        old(env).mem.mapped(objects_ptr as int, 4 * count),
        objc::can_retain_all(
            old(env).objc.objects@,
            guest_ids(old(env).mem.bytes@, objects_ptr as int, count as int),
        ),
    ensures
        final(env).wf(),
        objects@ == guest_ids(old(env).mem.bytes@, objects_ptr as int, count as int),
        only_retained(*old(env), *final(env), objects@),
{
    let mut out: Vec<Id> = Vec::new();
    let mut i: u32 = 0;
    while i < count
        invariant
            i <= count,
            *env == *old(env),
            env.wf(),
            env.mem.mapped(objects_ptr as int, 4 * count),
            out@ == guest_ids(env.mem.bytes@, objects_ptr as int, i as int),
        decreases count - i,
    {
        out.push(env.mem.read_u32(objects_ptr + 4 * i));
        i = i + 1;
        assert(out@ =~= guest_ids(env.mem.bytes@, objects_ptr as int, i as int));
    }
    objc::retain_each(env, &out);
    out
}

/// Copies references to a new guest buffer, from which a guest class can be given
/// them. There is room for one at least.
pub fn guest_buffer_of(env: &mut Environment, objects: &Vec<Id>) -> (buffer: u32)
    requires
        old(env).wf(),
        objects.len() < 0x4000_0000,
        old(env).has_room(0, 4 * objects@.len() as int + 4),
    ensures
        final(env).wf(),
        buffer == old(env).mem.bytes@.len(),
        guest_ids(final(env).mem.bytes@, buffer as int, objects@.len() as int) == objects@,
        final(env).mem.bytes@.take(buffer as int) == old(env).mem.bytes@,
        final(env).mem.allocations@ == old(env).mem.allocations@.push(
            (
                buffer,
                if objects@.len() == 0 {
                    4
                } else {
                    (4 * objects@.len()) as u32
                },
            ),
        ),
        final(env).mem.null_segment_size == old(env).mem.null_segment_size,
        final(env).objc == old(env).objc,
        final(env).autorelease_pool == old(env).autorelease_pool,
{
    let count: u32 = objects.len() as u32;
    let size: u32 = if count == 0 {
        4
    } else {
        4 * count
    };
    let buffer: u32 = env.mem.allocate(size);
    assert(env.mem.bytes@.take(buffer as int) =~= old(env).mem.bytes@);
    let mut i: u32 = 0;
    while i < count
        invariant
            i <= count,
            count == objects@.len(),
            size >= 4 * count,
            env.wf(),
            env.mem.mapped(buffer as int, size as int),
            buffer == old(env).mem.bytes@.len(),
            guest_ids(env.mem.bytes@, buffer as int, i as int) == objects@.take(i as int),
            env.mem.bytes@.take(buffer as int) == old(env).mem.bytes@,
            env.mem.allocations@ == old(env).mem.allocations@.push((buffer, size)),
            env.mem.null_segment_size == old(env).mem.null_segment_size,
            env.objc == old(env).objc,
            env.autorelease_pool == old(env).autorelease_pool,
        decreases count - i,
    {
        let ghost before = env.mem;
        env.mem.write_u32(buffer + 4 * i, objects[i as usize]);
        proof {
            mem::law_write_read_u32(before, env.mem, (buffer + 4 * i) as u32, objects@[i as int]);
            assert(env.mem.bytes@.take(buffer as int) =~= before.bytes@.take(buffer as int));
            assert forall|k: int| 0 <= k <= i implies guest_ids(
                env.mem.bytes@,
                buffer as int,
                i + 1,
            )[k] == objects@[k] by {
                let at = buffer + 4 * k;
                if k < i {
                    assert(env.mem.bytes@.subrange(at, at + 4) =~= before.bytes@.subrange(
                        at,
                        at + 4,
                    ));
                    assert(guest_ids(before.bytes@, buffer as int, i as int)[k]
                        == objects@.take(i as int)[k]);
                }
            }
            assert(guest_ids(env.mem.bytes@, buffer as int, i + 1) =~= objects@.take(i + 1));
        }
        i = i + 1;
    }
    assert(objects@.take(count as int) =~= objects@);
    buffer
}

/// Gives an array other items. The references are not touched.
fn put_items(env: &mut Environment, this: Id, items: Vec<Id>)
    requires
        old(env).wf(),
        is_array(old(env).objc.objects@, this),
    ensures
        final(env).wf(),
        array_replaced(*old(env), *final(env), this, items@),
        array_at(final(env).objc.objects@, this) == Some(items@),
{
    let i: usize = this as usize;
    let flags: (bool, bool) = match &env.objc.objects[i].host {
        HostObject::Array { items, mutable, retaining } => (*mutable, *retaining),
        _ => (false, false),
    };
    let retain_count: Option<u32> = env.objc.objects[i].retain_count;
    env.objc.objects.set(
        i,
        Object {
            retain_count,
            host: HostObject::Array { items, mutable: flags.0, retaining: flags.1 },
        },
    );
}

/// Fills a new array with the items that a walk over another collection gives,
/// up to the first `nil`.
pub fn init_with_array(env: &mut Environment, this: Id, walked: &Vec<Id>) -> (id: Id)
    requires
        old(env).wf(),
        is_array(old(env).objc.objects@, this),
        objc::can_retain_all(old(env).objc.objects@, before_nil(walked@)),
    ensures
        final(env).wf(),
        id == this,
        exists|mid: Environment|
            #[trigger] only_retained(*old(env), mid, before_nil(walked@)) && array_replaced(
                mid,
                *final(env),
                this,
                before_nil(walked@),
            ),
{
    let objects = ids_before_nil(walked);
    objc::retain_each(env, &objects);
    proof {
        objc::lemma_all_retained_keeps(old(env).objc.objects@, objects@);
        assert(only_retained(*old(env), *env, before_nil(walked@)));
    }
    put_items(env, this, objects);
    this
}

/// Fills a new array with the objects that were read from an archive. It takes over
/// the references to them.
pub fn init_with_coder_inner(env: &mut Environment, arr: Id, objects: Vec<Id>) -> (id: Id)
    requires
        old(env).wf(),
        is_array(old(env).objc.objects@, arr),
        array_at(old(env).objc.objects@, arr) == Some(Seq::<Id>::empty()),
    ensures
        final(env).wf(),
        id == arr,
        array_replaced(*old(env), *final(env), arr, objects@),
        array_at(final(env).objc.objects@, arr) == Some(objects@),
{
    put_items(env, arr, objects);
    arr
}

/// References to objects of an archive, by their numbers.
pub open spec fn references(uids: Seq<u64>) -> Seq<PlistView> {
    Seq::new(uids.len(), |i: int| PlistView::Uid(uids[i]))
}

/// Puts the references to the objects of an array into the dictionary that stands
/// for it in an archive.
pub fn encode_with_coder_inner(scope: &mut Vec<(String, PlistValue)>, uids: &Vec<u64>)
    ensures
        plist_value::entry_views(final(scope)@) == plist_value::entry_put(
            plist_value::entry_views(old(scope)@),
            "NS.objects"@,
            PlistView::Array(references(uids@)),
        ),
{
    let mut encoded: Vec<PlistValue> = Vec::new();
    let mut i: usize = 0;
    while i < uids.len()
        invariant
            i <= uids@.len(),
            encoded@.len() == i,
            forall|k: int| 0 <= k < i ==> #[trigger] encoded@[k] == PlistValue::Uid(uids@[k]),
        decreases uids@.len() - i,
    {
        encoded.push(PlistValue::Uid(uids[i]));
        i = i + 1;
    }
    proof {
        plist_value::lemma_plist_views(encoded@);
        assert(plist_value::plist_views(encoded@) =~= references(uids@));
    }
    insert_entry(scope, "NS.objects", PlistValue::Array(encoded));
}

/// An array that was written into an archive is read back: the reader gets the
/// references to its objects, in their order.
pub proof fn law_encoded_array_is_read(
    reader: ns_keyed_unarchiver::NSKeyedUnarchiver,
    number: u64,
    scope: Seq<(Seq<char>, PlistView)>,
    uids: Seq<u64>,
)
    requires
        reader.current_key == Some(number),
        number < ns_keyed_unarchiver::objects_of(reader.plist@).len(),
        ns_keyed_unarchiver::objects_of(reader.plist@)[number as int] == PlistView::Dictionary(
            plist_value::entry_put(scope, "NS.objects"@, PlistView::Array(references(uids))),
        ),
        forall|i: int| 0 <= i < uids.len() ==> #[trigger] uids[i] != 0,
    ensures
        ns_keyed_unarchiver::without_zeros(reader.keys_under("NS.objects"@)) == uids,
{
    plist_value::law_put_is_found(
        scope,
        "NS.objects"@,
        PlistView::Array(references(uids)),
        "NS.objects"@,
    );
    lemma_references_read(uids);
}

proof fn lemma_references_read(uids: Seq<u64>)
    requires
        forall|i: int| 0 <= i < uids.len() ==> #[trigger] uids[i] != 0,
    ensures
        ns_keyed_unarchiver::uids_in(references(uids)) == uids,
        ns_keyed_unarchiver::without_zeros(uids) == uids,
    decreases uids.len(),
{
    if uids.len() > 0 {
        lemma_references_read(uids.drop_last());
        assert(references(uids).drop_last() =~= references(uids.drop_last()));
        assert(uids.drop_last().push(uids.last()) =~= uids);
    }
}

/// A copy with own references to the items.
pub open spec fn array_copied(
    before: Environment,
    after: Environment,
    items: Seq<Id>,
    mutable: bool,
) -> bool {
    exists|mid: Environment|
        #[trigger] only_retained(before, mid, items) && array_added(mid, after, items, mutable)
}

fn new_array_of(env: &mut Environment, items: Vec<Id>, mutable: bool) -> (id: Id)
    requires
        old(env).wf(),
        old(env).has_room(1, 0),
        objc::can_retain_all(old(env).objc.objects@, items@),
    ensures
        final(env).wf(),
        id == old(env).objc.objects@.len(),
        array_copied(*old(env), *final(env), items@, mutable),
        array_at(final(env).objc.objects@, id) == Some(items@),
        final(env).objc.objects@[id as int].retain_count == Some(1u32),
        final(env).autorelease_pool == old(env).autorelease_pool,
        final(env).mem == old(env).mem,
{
    objc::retain_each(env, &items);
    proof {
        objc::lemma_all_retained_keeps(old(env).objc.objects@, items@);
        assert(only_retained(*old(env), *env, items@));
    }
    if mutable {
        mutable_from_vec(env, items)
    } else {
        from_vec(env, items)
    }
}

/// A mutable array with the same items. The caller owns it.
pub fn mutable_copy_inner(env: &mut Environment, this: Id) -> (id: Id)
    requires
        old(env).wf(),
        old(env).has_room(1, 0),
        is_array(old(env).objc.objects@, this),
        objc::can_retain_all(
            old(env).objc.objects@,
            items_of(old(env).objc.objects@, this),
        ),
    ensures
        final(env).wf(),
        id == old(env).objc.objects@.len(),
        array_copied(*old(env), *final(env), items_of(old(env).objc.objects@, this), true),
{
    let items = array_items(env, this);
    new_array_of(env, items, true)
}

/// A copy of an array: a mutable one is copied to a new array, another gets one
/// more reference.
pub fn copy_array(env: &mut Environment, this: Id) -> (id: Id)
    requires
        old(env).wf(),
        old(env).has_room(1, 0),
        is_array(old(env).objc.objects@, this),
        objc::can_retain(old(env).objc.objects@, this),
        objc::can_retain_all(
            old(env).objc.objects@,
            items_of(old(env).objc.objects@, this),
        ),
    ensures
        final(env).wf(),
        is_mutable_array(old(env).objc.objects@, this) ==> id == old(env).objc.objects@.len()
            && array_copied(
            *old(env),
            *final(env),
            items_of(old(env).objc.objects@, this),
            false,
        ),
        !is_mutable_array(old(env).objc.objects@, this) ==> {
            &&& id == this
            &&& final(env).objc.objects@ == objc::retained(old(env).objc.objects@, this)
            &&& final(env).mem == old(env).mem
            &&& final(env).autorelease_pool == old(env).autorelease_pool
        },
{
    let mutable: bool = match &env.objc.objects[this as usize].host {
        HostObject::Array { items, mutable, retaining } => *mutable,
        _ => false,
    };
    if mutable {
        let items = array_items(env, this);
        new_array_of(env, items, false)
    } else {
        retain(env, this)
    }
}

/// A new array in the current pool, with own references to its items.
pub open spec fn pooled_array(
    before: Environment,
    after: Environment,
    id: Id,
    items: Seq<Id>,
) -> bool {
    &&& id == before.objc.objects@.len()
    &&& exists|mid: Environment|
        #[trigger] array_copied(before, mid, items, false) && after.objc == mid.objc && after.mem
            == mid.mem
    &&& after.autorelease_pool@ == before.autorelease_pool@.push(id)
}

/// The objects after an array has been put into the pool.
pub proof fn lemma_pooled_array(before: Environment, after: Environment, id: Id, items: Seq<Id>)
    requires
        pooled_array(before, after, id, items),
        before.objc.wf(),
        before.objc.objects@.len() < u32::MAX,
    ensures
        after.objc.objects@.len() == before.objc.objects@.len() + 1,
        after.objc.objects@.drop_last() == objc::all_retained(before.objc.objects@, items),
        after.objc.objects@.last().retain_count == Some(1u32),
        array_at(after.objc.objects@, id) == Some(items),
        after.mem == before.mem,
{
    let mid = choose|mid: Environment|
        #[trigger] array_copied(before, mid, items, false) && after.objc == mid.objc && after.mem
            == mid.mem;
    let retained = choose|retained: Environment|
        #[trigger] only_retained(before, retained, items) && array_added(
            retained,
            mid,
            items,
            false,
        );
    objc::lemma_all_retained_keeps(before.objc.objects@, items);
    assert(array_added(retained, mid, items, false));
}

pub(crate) fn new_pooled_array(env: &mut Environment, items: Vec<Id>) -> (id: Id)
    requires
        old(env).wf(),
        old(env).has_room(1, 0),
        objc::can_retain_all(old(env).objc.objects@, items@),
    ensures
        final(env).wf(),
        pooled_array(*old(env), *final(env), id, items@),
{
    let ghost wanted = items@;
    let id: Id = new_array_of(env, items, false);
    let ghost mid = *env;
    let pooled: Id = autorelease(env, id);
    assert(array_copied(*old(env), mid, wanted, false));
    pooled
}

/// The items that a range covers; a range that reaches beyond the array is cut
/// off.
pub open spec fn covered(items: Seq<Id>, location: int, length: int) -> Seq<Id> {
    let start = if location < items.len() {
        location
    } else {
        items.len() as int
    };
    let end = if location + length < items.len() {
        location + length
    } else {
        items.len() as int
    };
    items.subrange(start, end)
}

/// The items that a range covers, as a new array in the current pool.
pub fn subarray_with_range(env: &mut Environment, this: Id, range: NSRange) -> (id: Id)
    requires
        old(env).wf(),
        old(env).has_room(1, 0),
        is_array(old(env).objc.objects@, this),
        objc::can_retain_all(
            old(env).objc.objects@,
            items_of(old(env).objc.objects@, this),
        ),
    ensures
        final(env).wf(),
        pooled_array(
            *old(env),
            *final(env),
            id,
            covered(
                items_of(old(env).objc.objects@, this),
                range.location as int,
                range.length as int,
            ),
        ),
{
    let items = array_items(env, this);
    let len: usize = items.len();
    let location: usize = range.location as usize;
    let start: usize = if location < len {
        location
    } else {
        len
    };
    let end: usize = if (range.length as usize) < len - start {
        start + range.length as usize
    } else {
        len
    };
    let mut part: Vec<Id> = Vec::new();
    let mut i: usize = start;
    while i < end
        invariant
            start <= i <= end <= items@.len(),
            part@ == items@.subrange(start as int, i as int),
        decreases end - i,
    {
        part.push(items[i]);
        i = i + 1;
        assert(part@ =~= items@.subrange(start as int, i as int));
    }
    assert(part@ =~= items@.subrange(start as int, end as int));
    new_pooled_array(env, part)
}

/// The items for which a test is true.
pub open spec fn chosen(items: Seq<Id>, keep: Seq<bool>) -> Seq<Id>
    decreases items.len(),
{
    if items.len() == 0 || keep.len() < items.len() {
        Seq::empty()
    } else {
        let rest = chosen(items.drop_last(), keep);
        if keep[items.len() - 1] {
            rest.push(items.last())
        } else {
            rest
        }
    }
}

proof fn lemma_chosen_len(items: Seq<Id>, keep: Seq<bool>)
    ensures
        chosen(items, keep).len() <= items.len(),
    decreases items.len(),
{
    if items.len() > 0 && keep.len() >= items.len() {
        lemma_chosen_len(items.drop_last(), keep);
    }
}

/// The items for which a predicate is true, as a new array in the current pool;
/// `keep` tells for each item what the predicate says.
pub fn filtered_array(env: &mut Environment, this: Id, keep: &Vec<bool>) -> (id: Id)
    requires
        old(env).wf(),
        old(env).has_room(1, 0),
        is_array(old(env).objc.objects@, this),
        keep@.len() == items_of(old(env).objc.objects@, this).len(),
        objc::can_retain_all(
            old(env).objc.objects@,
            items_of(old(env).objc.objects@, this),
        ),
    ensures
        final(env).wf(),
        pooled_array(
            *old(env),
            *final(env),
            id,
            chosen(items_of(old(env).objc.objects@, this), keep@),
        ),
{
    let items = array_items(env, this);
    let mut kept: Vec<Id> = Vec::new();
    let mut i: usize = 0;
    while i < items.len()
        invariant
            i <= items@.len(),
            keep@.len() == items@.len(),
            kept@ == chosen(items@.take(i as int), keep@),
        decreases items@.len() - i,
    {
        assert(items@.take(i + 1).drop_last() =~= items@.take(i as int));
        if keep[i] {
            kept.push(items[i]);
        }
        i = i + 1;
    }
    assert(items@.take(i as int) =~= items@);
    proof {
        lemma_chosen_len(items@, keep@);
    }
    new_pooled_array(env, kept)
}

/// Whether two arrays have the same number of items and equal ones, where
/// `equal` tells for each pair whether it is.
pub fn is_equal_to_array(count: u32, other_count: u32, equal: &Vec<bool>) -> (same: bool)
    requires
        count == other_count ==> equal@.len() == count,
    ensures
        same == (count == other_count && !equal@.contains(false)),
{
    if count != other_count {
        return false;
    }
    let mut i: usize = 0;
    while i < equal.len()
        invariant
            i <= equal@.len(),
            forall|j: int| 0 <= j < i ==> #[trigger] equal@[j],
        decreases equal@.len() - i,
    {
        if !equal[i] {
            assert(equal@[i as int] == false);
            return false;
        }
        i = i + 1;
    }
    true
}

/// A reference that is added only where it is owned.
pub open spec fn if_owned(owned: bool, object: Id) -> Seq<Id> {
    if owned {
        seq![object]
    } else {
        Seq::empty()
    }
}

/// References have been added, and then the array has got other items.
pub open spec fn retained_and_replaced(
    before: Environment,
    after: Environment,
    added: Seq<Id>,
    this: Id,
    items: Seq<Id>,
) -> bool {
    exists|mid: Environment|
        #[trigger] only_retained(before, mid, added) && array_replaced(mid, after, this, items)
}

/// The array has got other items, and then references have been taken away,
/// the last one first.
pub open spec fn replaced_and_released(
    before: Environment,
    after: Environment,
    this: Id,
    items: Seq<Id>,
    pending: Seq<Id>,
) -> bool {
    exists|mid: Environment|
        #[trigger] array_replaced(before, mid, this, items) && objc::after_releases(
            mid,
            after,
            pending,
        )
}

proof fn lemma_retained_single(objects: Seq<Object>, id: Id)
    ensures
        objc::all_retained(objects, seq![id]) == objc::retained(objects, id),
        objc::all_retained(objects, Seq::empty()) == objects,
{
    reveal_with_fuel(objc::all_retained, 2);
    assert(seq![id].drop_last() =~= Seq::<Id>::empty());
}

/// Whether an array owns its items.
fn owns_items(env: &Environment, this: Id) -> (owns: bool)
    requires
        env.wf(),
        is_array(env.objc.objects@, this),
    ensures
        owns == is_retaining(env.objc.objects@, this),
{
    match &env.objc.objects[this as usize].host {
        HostObject::Array { items, mutable, retaining } => *retaining,
        _ => false,
    }
}

/// Adds an item at the end. An array that does not own its items does not
/// touch the reference.
pub fn add_object(env: &mut Environment, this: Id, object: Id)
    requires
        old(env).wf(),
        is_array(old(env).objc.objects@, this),
        objc::can_retain(old(env).objc.objects@, object),
    ensures
        final(env).wf(),
        retained_and_replaced(
            *old(env),
            *final(env),
            if_owned(is_retaining(old(env).objc.objects@, this), object),
            this,
            items_of(old(env).objc.objects@, this).push(object),
        ),
        array_at(final(env).objc.objects@, this) == Some(
            items_of(old(env).objc.objects@, this).push(object),
        ),
{
    let owns: bool = owns_items(env, this);
    let mut items = array_items(env, this);
    proof {
        lemma_retained_single(env.objc.objects@, object);
        objc::lemma_retained_keeps(env.objc.objects@, object);
    }
    if owns {
        retain(env, object);
    }
    assert(only_retained(*old(env), *env, if_owned(owns, object)));
    items.push(object);
    put_items(env, this, items);
}

/// Adds the items that a walk over another collection gives, up to the first
/// `nil`.
pub fn add_objects_from_array(env: &mut Environment, this: Id, walked: &Vec<Id>)
    requires
        old(env).wf(),
        is_array(old(env).objc.objects@, this),
        is_retaining(old(env).objc.objects@, this),
        objc::can_retain_all(old(env).objc.objects@, before_nil(walked@)),
    ensures
        final(env).wf(),
        retained_and_replaced(
            *old(env),
            *final(env),
            before_nil(walked@),
            this,
            items_of(old(env).objc.objects@, this) + before_nil(walked@),
        ),
{
    let mut items = array_items(env, this);
    let more = ids_before_nil(walked);
    proof {
        objc::lemma_all_retained_keeps(env.objc.objects@, more@);
    }
    objc::retain_each(env, &more);
    assert(only_retained(*old(env), *env, more@));
    objc::push_ids(&mut items, &more);
    put_items(env, this, items);
}

/// Puts an item before an index.
pub fn insert_object(env: &mut Environment, this: Id, object: Id, index: u32)
    requires
        old(env).wf(),
        is_array(old(env).objc.objects@, this),
        index <= items_of(old(env).objc.objects@, this).len(),
        objc::can_retain(old(env).objc.objects@, object),
    ensures
        final(env).wf(),
        retained_and_replaced(
            *old(env),
            *final(env),
            seq![object],
            this,
            items_of(old(env).objc.objects@, this).insert(index as int, object),
        ),
{
    let mut items = array_items(env, this);
    proof {
        lemma_retained_single(env.objc.objects@, object);
        objc::lemma_retained_keeps(env.objc.objects@, object);
    }
    retain(env, object);
    assert(only_retained(*old(env), *env, seq![object]));
    items.insert(index as usize, object);
    put_items(env, this, items);
}

/// Takes the item at an index out. An array that does not own its items does
/// not touch the reference.
pub fn remove_object_at_index(env: &mut Environment, this: Id, index: u32)
    requires
        old(env).wf(),
        is_array(old(env).objc.objects@, this),
        index < items_of(old(env).objc.objects@, this).len(),
    ensures
        final(env).wf(),
        replaced_and_released(
            *old(env),
            *final(env),
            this,
            items_of(old(env).objc.objects@, this).remove(index as int),
            if_owned(
                is_retaining(old(env).objc.objects@, this),
                items_of(old(env).objc.objects@, this)[index as int],
            ),
        ),
{
    let owns: bool = owns_items(env, this);
    let mut items = array_items(env, this);
    let object: Id = items.remove(index as usize);
    put_items(env, this, items);
    let ghost mid = *env;
    let mut pending: Vec<Id> = Vec::new();
    if owns {
        pending.push(object);
    }
    assert(pending@ =~= if_owned(owns, object));
    release_each(env, pending);
    assert(array_replaced(
        *old(env),
        mid,
        this,
        items_of(old(env).objc.objects@, this).remove(index as int),
    ));
}

/// Takes the last item out.
pub fn remove_last_object(env: &mut Environment, this: Id)
    requires
        old(env).wf(),
        is_array(old(env).objc.objects@, this),
        0 < items_of(old(env).objc.objects@, this).len() <= u32::MAX,
    ensures
        final(env).wf(),
        replaced_and_released(
            *old(env),
            *final(env),
            this,
            items_of(old(env).objc.objects@, this).drop_last(),
            if_owned(
                is_retaining(old(env).objc.objects@, this),
                items_of(old(env).objc.objects@, this).last(),
            ),
        ),
{
    let last: usize = count(env, this) - 1;
    assert(items_of(old(env).objc.objects@, this).remove(last as int) =~= items_of(
        old(env).objc.objects@,
        this,
    ).drop_last());
    remove_object_at_index(env, this, last as u32);
}

/// Puts another object in the place of an item.
pub fn replace_object_at_index(env: &mut Environment, this: Id, index: u32, object: Id)
    requires
        old(env).wf(),
        is_array(old(env).objc.objects@, this),
        index < items_of(old(env).objc.objects@, this).len(),
        objc::can_retain(old(env).objc.objects@, object),
    ensures
        final(env).wf(),
        exists|mid: Environment|
            {
                &&& #[trigger] only_retained(*old(env), mid, seq![object])
                &&& replaced_and_released(
                    mid,
                    *final(env),
                    this,
                    items_of(old(env).objc.objects@, this).update(index as int, object),
                    seq![items_of(old(env).objc.objects@, this)[index as int]],
                )
            },
{
    let mut items = array_items(env, this);
    let old_object: Id = items[index as usize];
    proof {
        lemma_retained_single(env.objc.objects@, object);
        objc::lemma_retained_keeps(env.objc.objects@, object);
    }
    retain(env, object);
    let ghost retained = *env;
    assert(only_retained(*old(env), retained, seq![object]));
    items.set(index as usize, object);
    put_items(env, this, items);
    let ghost mid = *env;
    assert(array_replaced(
        retained,
        mid,
        this,
        items_of(old(env).objc.objects@, this).update(index as int, object),
    ));
    release(env, old_object);
}

/// Exchanges two items.
pub fn exchange_objects(env: &mut Environment, this: Id, index1: u32, index2: u32)
    requires
        old(env).wf(),
        is_array(old(env).objc.objects@, this),
        index1 < items_of(old(env).objc.objects@, this).len(),
        index2 < items_of(old(env).objc.objects@, this).len(),
    ensures
        final(env).wf(),
        array_replaced(
            *old(env),
            *final(env),
            this,
            swapped(items_of(old(env).objc.objects@, this), index1 as int, index2 as int),
        ),
        array_at(final(env).objc.objects@, this) == Some(
            swapped(items_of(old(env).objc.objects@, this), index1 as int, index2 as int),
        ),
{
    let mut items = array_items(env, this);
    let first: Id = items[index1 as usize];
    let second: Id = items[index2 as usize];
    items.set(index1 as usize, second);
    items.set(index2 as usize, first);
    put_items(env, this, items);
}

/// The sequence with two places exchanged.
pub open spec fn swapped(items: Seq<Id>, i: int, j: int) -> Seq<Id> {
    items.update(i, items[j]).update(j, items[i])
}

/// Exchanging two items twice gives the first order back, and no exchange
/// changes which items there are.
pub proof fn law_exchange(items: Seq<Id>, i: int, j: int)
    requires
        0 <= i < items.len(),
        0 <= j < items.len(),
    ensures
        swapped(swapped(items, i, j), i, j) == items,
        swapped(items, i, j).to_multiset() == items.to_multiset(),
{
    broadcast use vstd::seq_lib::group_to_multiset_ensures;

    assert(swapped(swapped(items, i, j), i, j) =~= items);
    let once = items.update(i, items[j]);
    vstd::seq_lib::to_multiset_update(items, i, items[j]);
    vstd::seq_lib::to_multiset_update(once, j, items[i]);
    assert(items.contains(items[i]));
    assert(swapped(items, i, j).to_multiset() =~= items.to_multiset());
}

/// Takes all items out and gives their references up, the first one first.
pub fn remove_all_objects(env: &mut Environment, this: Id)
    requires
        old(env).wf(),
        is_array(old(env).objc.objects@, this),
    ensures
        final(env).wf(),
        replaced_and_released(
            *old(env),
            *final(env),
            this,
            Seq::empty(),
            items_of(old(env).objc.objects@, this).reverse(),
        ),
{
    let items = array_items(env, this);
    let pending = reversed(&items);
    put_items(env, this, Vec::new());
    assert(array_replaced(*old(env), *env, this, Seq::empty()));
    release_each(env, pending);
}

fn reversed(items: &Vec<Id>) -> (out: Vec<Id>)
    ensures
        out@ == items@.reverse(),
{
    let mut out: Vec<Id> = Vec::new();
    let mut i: usize = items.len();
    while i > 0
        invariant
            i <= items@.len(),
            out@.len() == items@.len() - i,
            forall|j: int| 0 <= j < out@.len() ==> #[trigger] out@[j] == items@.reverse()[j],
        decreases i,
    {
        i = i - 1;
        out.push(items[i]);
    }
    assert(out@ =~= items@.reverse());
    out
}

/// The indices at which there is an equal item.
pub open spec fn equal_indices(equal: Seq<bool>) -> Seq<u32>
    decreases equal.len(),
{
    if equal.len() == 0 {
        Seq::empty()
    } else {
        let rest = equal_indices(equal.drop_last());
        if equal.last() {
            rest.push((equal.len() - 1) as u32)
        } else {
            rest
        }
    }
}

/// The item at an index has been taken out.
pub open spec fn removed_at(before: Environment, after: Environment, this: Id, index: u32) -> bool {
    &&& is_array(before.objc.objects@, this)
    &&& index < items_of(before.objc.objects@, this).len()
    &&& replaced_and_released(
        before,
        after,
        this,
        items_of(before.objc.objects@, this).remove(index as int),
        if_owned(
            is_retaining(before.objc.objects@, this),
            items_of(before.objc.objects@, this)[index as int],
        ),
    )
}

/// The items at some indices have been taken out, one by one, the last index
/// first.
pub open spec fn removed_each(
    before: Environment,
    after: Environment,
    this: Id,
    indices: Seq<u32>,
) -> bool
    decreases indices.len(),
{
    if indices.len() == 0 {
        after == before
    } else {
        exists|mid: Environment|
            removed_each(before, mid, this, indices.drop_first()) && #[trigger] removed_at(
                mid,
                after,
                this,
                indices[0],
            )
    }
}

/// Takes out all items that are equal to an object, the last one first; `equal`
/// tells for each item whether it is. Returns how many there were. The walk ends
/// early if the array itself is deallocated with an item.
pub fn remove_object(env: &mut Environment, this: Id, equal: &Vec<bool>) -> (removed: usize)
    requires
        old(env).wf(),
        is_array(old(env).objc.objects@, this),
        equal@.len() == items_of(old(env).objc.objects@, this).len(),
        equal@.len() <= u32::MAX,
    ensures
        final(env).wf(),
        removed <= equal_indices(equal@).len(),
        removed_each(
            *old(env),
            *final(env),
            this,
            equal_indices(equal@).skip(equal_indices(equal@).len() - removed),
        ),
        removed < equal_indices(equal@).len() ==> !(is_array(final(env).objc.objects@, this)
            && equal_indices(equal@)[equal_indices(equal@).len() - removed - 1] < items_of(
            final(env).objc.objects@,
            this,
        ).len()),
{
    let mut indices: Vec<u32> = Vec::new();
    let mut i: usize = 0;
    while i < equal.len()
        invariant
            i <= equal@.len() <= u32::MAX,
            indices@ == equal_indices(equal@.take(i as int)),
        decreases equal@.len() - i,
    {
        assert(equal@.take(i + 1).drop_last() =~= equal@.take(i as int));
        if equal[i] {
            indices.push(i as u32);
        }
        i = i + 1;
    }
    assert(equal@.take(i as int) =~= equal@);
    let total: usize = indices.len();
    let mut left: usize = total;
    assert(indices@.skip(total as int) =~= Seq::<u32>::empty());
    while left > 0
        invariant
            left <= total,
            total == indices@.len(),
            indices@ == equal_indices(equal@),
            env.wf(),
            removed_each(*old(env), *env, this, indices@.skip(left as int)),
        decreases left,
    {
        let index: u32 = indices[left - 1];
        if !is_array_object(env, this) || index as usize >= count(env, this) {
            return total - left;
        }
        let ghost before = *env;
        remove_object_at_index(env, this, index);
        left = left - 1;
        proof {
            let rest = indices@.skip(left as int);
            assert(rest.drop_first() =~= indices@.skip(left + 1));
            assert(rest[0] == index);
            assert(removed_each(*old(env), before, this, rest.drop_first()));
            assert(removed_at(before, *env, this, index));
        }
    }
    total
}

fn is_array_object(env: &Environment, this: Id) -> (yes: bool)
    requires
        env.wf(),
    ensures
        yes == is_array(env.objc.objects@, this),
{
    if this == NIL || this as usize >= env.objc.objects.len() {
        return false;
    }
    match &env.objc.objects[this as usize].host {
        HostObject::Array { items, mutable, retaining } => true,
        _ => false,
    }
}

/// The items after a sorting routine has exchanged some of them.
pub open spec fn all_swapped(items: Seq<Id>, swaps: Seq<(u32, u32)>) -> Seq<Id>
    decreases swaps.len(),
{
    if swaps.len() == 0 {
        items
    } else {
        swapped(
            all_swapped(items, swaps.drop_last()),
            swaps.last().0 as int,
            swaps.last().1 as int,
        )
    }
}

pub open spec fn swaps_fit(swaps: Seq<(u32, u32)>, len: int) -> bool {
    forall|i: int| 0 <= i < swaps.len() ==> (#[trigger] swaps[i]).0 < len && swaps[i].1 < len
}

/// Puts the items in the order that a sorting routine has found, given by the
/// exchanges it made.
pub fn sort_by_swaps(env: &mut Environment, this: Id, swaps: &Vec<(u32, u32)>)
    requires
        old(env).wf(),
        is_array(old(env).objc.objects@, this),
        swaps_fit(swaps@, items_of(old(env).objc.objects@, this).len() as int),
    ensures
        final(env).wf(),
        array_replaced(
            *old(env),
            *final(env),
            this,
            all_swapped(items_of(old(env).objc.objects@, this), swaps@),
        ),
{
    let mut items = array_items(env, this);
    let ghost first = items@;
    let mut i: usize = 0;
    while i < swaps.len()
        invariant
            i <= swaps@.len(),
            swaps_fit(swaps@, first.len() as int),
            items@.len() == first.len(),
            items@ == all_swapped(first, swaps@.take(i as int)),
        decreases swaps@.len() - i,
    {
        assert(swaps@.take(i + 1).drop_last() =~= swaps@.take(i as int));
        assert(swaps@[i as int].0 < first.len() && swaps@[i as int].1 < first.len());
        let (l, r): (u32, u32) = swaps[i];
        let left: Id = items[l as usize];
        let right: Id = items[r as usize];
        items.set(l as usize, right);
        items.set(r as usize, left);
        i = i + 1;
    }
    assert(swaps@.take(i as int) =~= swaps@);
    put_items(env, this, items);
}

/// Sorting changes the order of the items and nothing else.
pub proof fn law_sort_is_permutation(items: Seq<Id>, swaps: Seq<(u32, u32)>)
    requires
        swaps_fit(swaps, items.len() as int),
    ensures
        all_swapped(items, swaps).to_multiset() == items.to_multiset(),
        all_swapped(items, swaps).len() == items.len(),
    decreases swaps.len(),
{
    if swaps.len() > 0 {
        assert forall|i: int| 0 <= i < swaps.len() - 1 implies (
        #[trigger] swaps.drop_last()[i]).0 < items.len() && swaps.drop_last()[i].1
            < items.len() by {
            assert(swaps[i].0 < items.len());
        }
        law_sort_is_permutation(items, swaps.drop_last());
        assert(swaps[swaps.len() - 1].0 < items.len());
        law_exchange(
            all_swapped(items, swaps.drop_last()),
            swaps.last().0 as int,
            swaps.last().1 as int,
        );
    }
}

/// A walk over items in the current pool, which keeps the array alive.
pub open spec fn enumerator_added(
    before: Environment,
    after: Environment,
    id: Id,
    array: Id,
    items: Seq<Id>,
) -> bool {
    &&& id == before.objc.objects@.len()
    &&& after.objc.objects@.len() == before.objc.objects@.len() + 1
    &&& after.objc.objects@.drop_last() == objc::retained(before.objc.objects@, array)
    &&& after.objc.objects@.last().retain_count == Some(1u32)
    &&& after.objc.objects@.last().host matches HostObject::Enumerator { array: a, items: i, next }
        && a == array && i@ == items && next == 0
    &&& after.mem == before.mem
    &&& after.autorelease_pool@ == before.autorelease_pool@.push(id)
}

fn object_enumerator_inner_helper(env: &mut Environment, array: Id, items: Vec<Id>) -> (id: Id)
    requires
        old(env).wf(),
        old(env).has_room(1, 0),
        objc::can_retain(old(env).objc.objects@, array),
    ensures
        final(env).wf(),
        enumerator_added(*old(env), *final(env), id, array, items@),
{
    proof {
        objc::lemma_retained_keeps(env.objc.objects@, array);
    }
    retain(env, array);
    let ghost retained = env.objc.objects@;
    let id: Id = env.objc.alloc_object(HostObject::Enumerator { array, items, next: 0 });
    assert(env.objc.objects@.drop_last() =~= retained);
    autorelease(env, id)
}

/// A walk over the items of an array from the first to the last.
pub fn object_enumerator_inner(env: &mut Environment, this: Id) -> (id: Id)
    requires
        old(env).wf(),
        old(env).has_room(1, 0),
        is_array(old(env).objc.objects@, this),
        objc::can_retain(old(env).objc.objects@, this),
    ensures
        final(env).wf(),
        enumerator_added(
            *old(env),
            *final(env),
            id,
            this,
            items_of(old(env).objc.objects@, this),
        ),
{
    let items = array_items(env, this);
    object_enumerator_inner_helper(env, this, items)
}

/// A walk over the items of an array from the last to the first.
pub fn reverse_object_enumerator_inner(env: &mut Environment, this: Id) -> (id: Id)
    requires
        old(env).wf(),
        old(env).has_room(1, 0),
        is_array(old(env).objc.objects@, this),
        objc::can_retain(old(env).objc.objects@, this),
    ensures
        final(env).wf(),
        enumerator_added(
            *old(env),
            *final(env),
            id,
            this,
            items_of(old(env).objc.objects@, this).reverse(),
        ),
{
    let items = array_items(env, this);
    let backwards = reversed(&items);
    object_enumerator_inner_helper(env, this, backwards)
}

/// The array, the items and the position of a walk.
pub open spec fn walk_at(objects: Seq<Object>, id: Id) -> Option<(Id, Seq<Id>, usize)> {
    if 0 < id < objects.len() {
        match objects[id as int].host {
            HostObject::Enumerator { array, items, next } => Some((array, items@, next)),
            _ => None,
        }
    } else {
        None
    }
}

/// The next item of a walk, or `nil` when it is over.
pub fn next_object(env: &mut Environment, this: Id) -> (object: Id)
    requires
        old(env).wf(),
        walk_at(old(env).objc.objects@, this) is Some,
    ensures
        final(env).wf(),
        objc::others_kept(old(env).objc.objects@, final(env).objc.objects@, this),
        final(env).objc.objects@[this as int].retain_count
            == old(env).objc.objects@[this as int].retain_count,
        final(env).mem == old(env).mem,
        final(env).autorelease_pool == old(env).autorelease_pool,
        ({
            let (array, items, next) = walk_at(old(env).objc.objects@, this)->0;
            if next < items.len() {
                &&& object == items[next as int]
                &&& walk_at(final(env).objc.objects@, this) == Some(
                    (array, items, (next + 1) as usize),
                )
            } else {
                object == NIL && *final(env) == *old(env)
            }
        }),
{
    let i: usize = this as usize;
    let mut copy: Vec<Id> = Vec::new();
    let mut array: Id = NIL;
    let mut next: usize = 0;
    if let HostObject::Enumerator { array: a, items, next: n } = &env.objc.objects[i].host {
        objc::push_ids(&mut copy, items);
        assert(copy@ =~= items@);
        array = *a;
        next = *n;
    }
    if next >= copy.len() {
        return NIL;
    }
    let object: Id = copy[next];
    let retain_count: Option<u32> = env.objc.objects[i].retain_count;
    env.objc.objects.set(
        i,
        Object {
            retain_count,
            host: HostObject::Enumerator { array, items: copy, next: next + 1 },
        },
    );
    object
}

/// A walk has come to its end, which is behind the first `nil` if there is one.
pub open spec fn walk_ended(before: Environment, after: Environment, id: Id) -> bool {
    &&& objc::others_kept(before.objc.objects@, after.objc.objects@, id)
    &&& after.objc.objects@[id as int].retain_count == before.objc.objects@[id as int].retain_count
    &&& after.mem == before.mem
    &&& after.autorelease_pool == before.autorelease_pool
    &&& walk_at(before.objc.objects@, id) matches Some((array, items, next)) && walk_at(
        after.objc.objects@,
        id,
    ) == Some(
        (
            array,
            items,
            if before_nil(items).len() < items.len() {
                (before_nil(items).len() + 1) as usize
            } else {
                items.len() as usize
            },
        ),
    )
}

proof fn lemma_before_nil(ids: Seq<Id>, n: int)
    requires
        0 <= n <= ids.len(),
        forall|i: int| 0 <= i < n ==> #[trigger] ids[i] != NIL,
        n < ids.len() ==> ids[n] == NIL,
    ensures
        before_nil(ids) == ids.take(n),
    decreases n,
{
    if n == 0 {
        assert(ids.take(0) =~= Seq::empty());
    } else {
        let rest = ids.drop_first();
        assert(ids[0] != NIL);
        assert forall|i: int| 0 <= i < n - 1 implies #[trigger] rest[i] != NIL by {
            assert(rest[i] == ids[i + 1]);
        }
        lemma_before_nil(rest, n - 1);
        assert(seq![ids[0]] + rest.take(n - 1) =~= ids.take(n));
    }
}

/// Takes a walk that has just begun to its end.
pub fn walk_to_end(env: &mut Environment, this: Id) -> (objects: Vec<Id>)
    requires
        old(env).wf(),
        walk_at(old(env).objc.objects@, this) matches Some((array, items, next)) && next == 0,
    ensures
        final(env).wf(),
        walk_ended(*old(env), *final(env), this),
        objects@ == before_nil((walk_at(old(env).objc.objects@, this)->0).1),
{
    let mut objects: Vec<Id> = Vec::new();
    let ghost array = (walk_at(env.objc.objects@, this)->0).0;
    let ghost items = (walk_at(env.objc.objects@, this)->0).1;
    proof {
        assert(items.take(0) =~= Seq::empty());
        if let HostObject::Enumerator { array, items: held, next } =
            env.objc.objects@[this as int].host {
            assert(held.len() <= usize::MAX);
        }
    }
    loop
        invariant
            env.wf(),
            objc::others_kept(old(env).objc.objects@, env.objc.objects@, this),
            env.objc.objects@[this as int].retain_count == old(
                env,
            ).objc.objects@[this as int].retain_count,
            env.mem == old(env).mem,
            env.autorelease_pool == old(env).autorelease_pool,
            walk_at(old(env).objc.objects@, this) == Some((array, items, 0usize)),
            objects@.len() <= items.len(),
            walk_at(env.objc.objects@, this) == Some((array, items, objects@.len() as usize)),
            items.len() <= usize::MAX,
            objects@ == items.take(objects@.len() as int),
            forall|i: int| 0 <= i < objects@.len() ==> #[trigger] items[i] != NIL,
        decreases items.len() - objects@.len(),
    {
        let object: Id = next_object(env, this);
        if object == NIL {
            proof {
                lemma_before_nil(items, objects@.len() as int);
            }
            return objects;
        }
        objects.push(object);
        assert(objects@ =~= items.take(objects@.len() as int));
    }
}

pub open spec fn text_views(texts: Seq<String>) -> Seq<Seq<char>> {
    Seq::new(texts.len(), |i: int| texts[i]@)
}

/// One line for each item.
pub open spec fn description_lines(items: Seq<Seq<char>>) -> Seq<char>
    decreases items.len(),
{
    if items.len() == 0 {
        Seq::empty()
    } else {
        description_lines(items.drop_last()) + seq!['\t'] + items.last() + seq![',', '\n']
    }
}

/// The description of an array, from those of its items: one indented line for
/// each, in brackets.
pub fn build_description(items: &Vec<String>) -> (description: String)
    ensures
        description@ == seq!['(', '\n'] + description_lines(text_views(items@)) + seq![')'],
{
    let mut out: Vec<char> = Vec::new();
    out.push('(');
    out.push('\n');
    assert(out@ =~= seq!['(', '\n'] + description_lines(text_views(items@.take(0))));
    let mut i: usize = 0;
    while i < items.len()
        invariant
            i <= items@.len(),
            out@ == seq!['(', '\n'] + description_lines(text_views(items@.take(i as int))),
        decreases items@.len() - i,
    {
        let ghost before = out@;
        let line = chars_of(items[i].as_str());
        out.push('\t');
        push_all(&mut out, &line);
        out.push(',');
        out.push('\n');
        proof {
            let views = text_views(items@.take(i + 1));
            assert(views.drop_last() =~= text_views(items@.take(i as int)));
            assert(views.last() == items@[i as int]@);
            assert(out@ =~= before + seq!['\t'] + items@[i as int]@ + seq![',', '\n']);
            assert(out@ =~= seq!['(', '\n'] + description_lines(views));
        }
        i = i + 1;
    }
    assert(items@.take(i as int) =~= items@);
    out.push(')');
    assert(out@ =~= seq!['(', '\n'] + description_lines(text_views(items@)) + seq![')']);
    string_of(&out)
}

/// The texts with a separator between each two.
pub open spec fn joined(texts: Seq<Seq<char>>, separator: Seq<char>) -> Seq<char>
    decreases texts.len(),
{
    if texts.len() == 0 {
        Seq::empty()
    } else if texts.len() == 1 {
        texts[0]
    } else {
        joined(texts.drop_last(), separator) + separator + texts.last()
    }
}

/// Joins the descriptions of the items with a separator.
pub fn components_joined_by_string(items: &Vec<String>, separator: &str) -> (text: String)
    ensures
        text@ == joined(text_views(items@), separator@),
{
    let between = chars_of(separator);
    let mut out: Vec<char> = Vec::new();
    assert(out@ =~= joined(text_views(items@.take(0)), separator@));
    let mut i: usize = 0;
    while i < items.len()
        invariant
            i <= items@.len(),
            between@ == separator@,
            out@ == joined(text_views(items@.take(i as int)), separator@),
        decreases items@.len() - i,
    {
        let ghost before = out@;
        if i > 0 {
            push_all(&mut out, &between);
        }
        let part = chars_of(items[i].as_str());
        push_all(&mut out, &part);
        proof {
            let views = text_views(items@.take(i + 1));
            assert(views.drop_last() =~= text_views(items@.take(i as int)));
            assert(views.last() == items@[i as int]@);
            if i == 0 {
                assert(before =~= Seq::<char>::empty());
                assert(out@ =~= items@[0]@);
            } else {
                assert(out@ =~= before + separator@ + items@[i as int]@);
            }
        }
        i = i + 1;
    }
    assert(items@.take(i as int) =~= items@);
    string_of(&out)
}

/// A list of objects ends at the first `nil`.
pub proof fn law_list_ends_at_nil(ids: Seq<Id>, rest: Seq<Id>)
    requires
        forall|i: int| 0 <= i < ids.len() ==> #[trigger] ids[i] != 0,
    ensures
        before_nil(ids.push(0) + rest) == ids,
        before_nil(ids) == ids,
    decreases ids.len(),
{
    let whole = ids.push(0) + rest;
    if ids.len() > 0 {
        let next = ids.drop_first();
        assert(whole[0] == ids[0]);
        assert(whole.drop_first() =~= next.push(0) + rest);
        law_list_ends_at_nil(next, rest);
        assert(seq![ids[0]] + next =~= ids);
    } else {
        assert(whole[0] == 0);
        assert(ids =~= Seq::empty());
    }
}

/// The objects of a guest's array follow each other in four bytes each, the lowest first.
pub proof fn law_guest_ids(bytes: Seq<u8>, at: int, n: int, i: int)
    requires
        0 <= at,
        0 <= i < n,
        at + 4 * n <= bytes.len(),
    ensures
        guest_ids(bytes, at, n).len() == n,
        guest_ids(bytes, at, n)[i] == bytes[at + 4 * i] + 0x100 * bytes[at + 4 * i + 1] + 0x1_0000
            * bytes[at + 4 * i + 2] + 0x100_0000 * bytes[at + 4 * i + 3],
{
    let k = at + 4 * i;
    let (p, q, r, s) = (bytes[k], bytes[k + 1], bytes[k + 2], bytes[k + 3]);
    assert(bytes.subrange(k, k + 4) =~= seq![p, q, r, s]);
    mem::law_little_endian(p, q, r, s);
}

/// A range covers the items that it has within the array.
pub proof fn law_covered(items: Seq<Id>, location: int, length: int, k: int)
    requires
        0 <= location,
        0 <= length,
    ensures
        location >= items.len() ==> covered(items, location, length).len() == 0,
        location + length <= items.len() ==> covered(items, location, length).len() == length,
        location < items.len() < location + length ==> covered(items, location, length).len()
            == items.len() - location,
        0 <= k < covered(items, location, length).len() ==> covered(items, location, length)[k]
            == items[location + k],
{
}

/// Items are chosen one by one, in their order.
pub proof fn law_chosen(a: Seq<Id>, b: Seq<Id>, keep: Seq<bool>, more: Seq<bool>, item: Id)
    requires
        keep.len() == a.len(),
        more.len() == b.len(),
    ensures
        chosen(a + b, keep + more) == chosen(a, keep) + chosen(b, more),
        chosen(seq![item], seq![true]) == seq![item],
        chosen(seq![item], seq![false]) == Seq::<Id>::empty(),
    decreases b.len(),
{
    assert(seq![item].drop_last() =~= Seq::<Id>::empty());
    reveal_with_fuel(chosen, 2);
    assert(chosen(seq![item], seq![true]) =~= seq![item]);
    if b.len() == 0 {
        assert(a + b =~= a);
        assert(keep + more =~= keep);
        assert(chosen(a, keep) + chosen(b, more) =~= chosen(a, keep));
    } else {
        let fewer = more.drop_last();
        let rest = b.drop_last();
        law_chosen(a, rest, keep, fewer, item);
        assert((a + b).drop_last() =~= a + rest);
        lemma_chosen_prefix(a + rest, keep + fewer, more.last());
        assert((keep + fewer).push(more.last()) =~= keep + more);
        lemma_chosen_prefix(rest, fewer, more.last());
        assert(fewer.push(more.last()) =~= more);
        assert((keep + more)[(a + b).len() - 1] == more.last());
        assert((chosen(a, keep) + chosen(rest, fewer)).push(b.last()) =~= chosen(a, keep) + chosen(
            rest,
            fewer,
        ).push(b.last()));
    }
}

proof fn lemma_chosen_prefix(items: Seq<Id>, keep: Seq<bool>, last: bool)
    requires
        keep.len() >= items.len(),
    ensures
        chosen(items, keep.push(last)) == chosen(items, keep),
    decreases items.len(),
{
    if items.len() > 0 {
        lemma_chosen_prefix(items.drop_last(), keep, last);
    }
}

/// An exchange puts each of the two items in the place of the other, and moves no other.
pub proof fn law_exchanged_places(items: Seq<Id>, i: int, j: int, k: int)
    requires
        0 <= i < items.len(),
        0 <= j < items.len(),
        0 <= k < items.len(),
    ensures
        swapped(items, i, j)[i] == items[j],
        swapped(items, i, j)[j] == items[i],
        k != i && k != j ==> swapped(items, i, j)[k] == items[k],
{
}

/// Exchanges are made one after the other.
pub proof fn law_exchanges_in_order(
    items: Seq<Id>,
    first: Seq<(u32, u32)>,
    second: Seq<(u32, u32)>,
    one: (u32, u32),
)
    ensures
        all_swapped(items, first + second) == all_swapped(all_swapped(items, first), second),
        all_swapped(items, seq![one]) == swapped(items, one.0 as int, one.1 as int),
    decreases second.len(),
{
    assert(seq![one].drop_last() =~= Seq::<(u32, u32)>::empty());
    reveal_with_fuel(all_swapped, 2);
    if second.len() == 0 {
        assert(first + second =~= first);
    } else {
        assert((first + second).drop_last() =~= first + second.drop_last());
        law_exchanges_in_order(items, first, second.drop_last(), one);
    }
}

/// The indices of equal items are those at which an item is equal, each once and in
/// ascending order.
pub proof fn law_equal_indices(equal: Seq<bool>, i: int, j: int)
    requires
        equal.len() <= u32::MAX,
    ensures
        0 <= i < equal_indices(equal).len() ==> equal_indices(equal)[i] < equal.len()
            && equal[equal_indices(equal)[i] as int],
        0 <= i < j < equal_indices(equal).len() ==> equal_indices(equal)[i] < equal_indices(
            equal,
        )[j],
        0 <= i < equal.len() && equal[i] ==> equal_indices(equal).contains(i as u32),
    decreases equal.len(),
{
    if equal.len() > 0 {
        let rest = equal.drop_last();
        let before = equal_indices(rest);
        law_equal_indices(rest, i, j);
        if equal.last() {
            let last = (equal.len() - 1) as u32;
            if 0 <= i < before.len() {
                assert(equal_indices(equal)[i] == before[i]);
            }
            assert(equal_indices(equal)[before.len() as int] == last);
            if 0 <= i < rest.len() && equal[i] {
                let k = choose|k: int| 0 <= k < before.len() && before[k] == i as u32;
                assert(equal_indices(equal)[k] == i as u32);
            }
        }
    }
}

/// Each item is described on a line of its own, behind a tab and before a comma.
pub proof fn law_description_lines(a: Seq<Seq<char>>, b: Seq<Seq<char>>, item: Seq<char>)
    ensures
        description_lines(a + b) == description_lines(a) + description_lines(b),
        description_lines(seq![item]) == seq!['\t'] + item + seq![',', '\n'],
    decreases b.len(),
{
    assert(seq![item].drop_last() =~= Seq::<Seq<char>>::empty());
    reveal_with_fuel(description_lines, 2);
    assert(description_lines(seq![item]) =~= seq!['\t'] + item + seq![',', '\n']);
    if b.len() == 0 {
        assert(a + b =~= a);
        assert(description_lines(a) + description_lines(b) =~= description_lines(a));
    } else {
        assert((a + b).drop_last() =~= a + b.drop_last());
        law_description_lines(a, b.drop_last(), item);
        assert(description_lines(a + b) =~= description_lines(a) + description_lines(b));
    }
}

/// A separator stands between any two texts that are joined, and nowhere else.
pub proof fn law_joined(a: Seq<Seq<char>>, b: Seq<Seq<char>>, text: Seq<char>, separator: Seq<char>)
    ensures
        a.len() > 0 && b.len() > 0 ==> joined(a + b, separator) == joined(a, separator) + separator
            + joined(b, separator),
        joined(seq![text], separator) == text,
        joined(Seq::empty(), separator) == Seq::<char>::empty(),
    decreases b.len(),
{
    if a.len() > 0 && b.len() > 0 {
        assert((a + b).drop_last() =~= a + b.drop_last());
        if b.len() == 1 {
            assert(a + b.drop_last() =~= a);
        } else {
            law_joined(a, b.drop_last(), text, separator);
        }
        assert(joined(a + b, separator) =~= joined(a, separator) + separator + joined(
            b,
            separator,
        ));
    }
}

/// A new array holds its items, owns them and can be changed only if it is mutable; one
/// whose items are replaced holds the new ones, and no other array changes.
pub proof fn law_array_effects(
    before: Environment,
    after: Environment,
    items: Seq<Id>,
    mutable: bool,
    this: Id,
    other: Id,
)
    requires
        0 < before.objc.objects@.len() <= u32::MAX,
    ensures
        array_added(before, after, items, mutable) ==> {
            let id = before.objc.objects@.len() as Id;
            &&& items_of(after.objc.objects@, id) == items
            &&& is_mutable_array(after.objc.objects@, id) == mutable
            &&& is_retaining(after.objc.objects@, id)
            &&& other < id ==> items_of(after.objc.objects@, other) == items_of(
                before.objc.objects@,
                other,
            )
        },
        is_array(before.objc.objects@, this) && array_replaced(before, after, this, items) ==> {
            &&& items_of(after.objc.objects@, this) == items
            &&& is_mutable_array(after.objc.objects@, this) == is_mutable_array(
                before.objc.objects@,
                this,
            )
            &&& other != this ==> items_of(after.objc.objects@, other) == items_of(
                before.objc.objects@,
                other,
            )
        },
{
    if array_added(before, after, items, mutable) && 0 < other < before.objc.objects@.len() {
        assert(after.objc.objects@.drop_last()[other as int] == before.objc.objects@[other as int]);
    }
}

/// An object that leaves an array which does not own it changes nothing else.
pub proof fn law_removed_at(before: Environment, after: Environment, this: Id, index: u32)
    requires
        removed_at(before, after, this, index),
        !is_retaining(before.objc.objects@, this),
    ensures
        items_of(after.objc.objects@, this) == items_of(before.objc.objects@, this).remove(
            index as int,
        ),
        after.objc.objects@.len() == before.objc.objects@.len(),
{
    let items = items_of(before.objc.objects@, this).remove(index as int);
    let mid = choose|mid: Environment|
        #[trigger] array_replaced(before, mid, this, items) && objc::after_releases(
            mid,
            after,
            Seq::empty(),
        );
    assert(array_replaced(before, mid, this, items));
}

} // verus!
