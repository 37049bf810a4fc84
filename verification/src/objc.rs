//! Guest objects: the table of objects, their reference counts, and the
//! environment that framework functions work in.
use crate::cg_context::CGContextHostObject;
use crate::mem;
use crate::mem::Mem;
use vstd::prelude::*;

verus! {

/// A reference to a guest object; zero is `nil`.
pub type Id = u32;

pub const NIL: Id = 0;

/// How a time zone finds its offset from GMT.
#[derive(Clone, Copy, Debug, PartialEq, Eq, Structural)]
pub enum TimeZoneKind {
    /// The rules of the host's zone.
    Local,
    /// The same offset in seconds at all times.
    Fixed(i32),
}

/// The value of a number object. A real number is held by its bits.
#[derive(Clone, Copy, Debug, PartialEq, Eq, Structural)]
pub enum NumberValue {
    Signed(i64),
    Unsigned(u64),
    Real(u64),
    Bool(bool),
}

/// The contents of a string object.
pub enum StringHostObject {
    Utf8(String),
    /// Not necessarily well-formed: surrogates may be unpaired.
    Utf16(Vec<u16>),
}

/// What an object holds on the host's side.
pub enum HostObject {
    /// The slot of an object that has been deallocated.
    Freed,
    /// A class, with its name.
    Class(Vec<char>),
    /// An instance of a guest class.
    Instance(Id),
    Str { value: StringHostObject, mutable: bool },
    Array { items: Vec<Id>, mutable: bool, retaining: bool },
    /// Walks over the items that an array had when the walk began.
    Enumerator { array: Id, items: Vec<Id>, next: usize },
    /// The members of a set.
    Members { items: Vec<Id>, mutable: bool },
    /// Bytes in guest memory, which the object may own.
    Data { bytes: u32, length: u32, free_when_done: bool, mutable: bool },
    /// Seconds since the reference date, as the bits of a double.
    Date(u64),
    Number(NumberValue),
    TimeZone { name: Id, kind: TimeZoneKind },
    NSError { domain: Id, code: i32 },
    /// Name, reason and user info of an exception.
    Exception { name: Id, reason: Id, user_info: Id },
    /// A connection with its delegate and its request.
    Connection { delegate: Id, request: Id },
    /// The status code of a response.
    HttpResponse(i32),
    /// One end of a pair of streams.
    Stream { pair: u32, is_write: bool },
    /// A graphics context.
    Context(CGContextHostObject),
}

pub struct Object {
    /// Nothing stands for an object that lives forever.
    pub retain_count: Option<u32>,
    pub host: HostObject,
}

/// The table of objects. The first slot belongs to `nil` and is never live.
pub struct ObjC {
    pub objects: Vec<Object>,
}

/// The objects that are released when an object is deallocated.
pub open spec fn owned_by(host: HostObject) -> Seq<Id> {
    match host {
        HostObject::Array { items, mutable, retaining } => if retaining {
            items@
        } else {
            Seq::empty()
        },
        HostObject::Enumerator { array, items, next } => seq![array],
        HostObject::Members { items, mutable } => items@,
        HostObject::TimeZone { name, kind } => seq![name],
        HostObject::NSError { domain, code } => seq![domain],
        HostObject::Exception { name, reason, user_info } => seq![user_info, reason, name],
        HostObject::Connection { delegate, request } => seq![request, delegate],
        HostObject::Context(context) => seq![context.font],
        _ => Seq::empty(),
    }
}

/// The guest buffers that are freed when an object is deallocated.
pub open spec fn buffers_of(host: HostObject) -> Seq<u32> {
    match host {
        HostObject::Data { bytes, length, free_when_done, mutable } => if free_when_done {
            seq![bytes]
        } else {
            Seq::empty()
        },
        HostObject::Context(context) => if context.bitmap.data_is_owned {
            seq![context.bitmap.data]
        } else {
            Seq::empty()
        },
        _ => Seq::empty(),
    }
}

pub open spec fn is_live(objects: Seq<Object>, id: Id) -> bool {
    0 < id < objects.len() && objects[id as int].host !is Freed
}

/// The sum of all reference counts.
pub open spec fn total_count(objects: Seq<Object>) -> int
    decreases objects.len(),
{
    if objects.len() == 0 {
        0
    } else {
        total_count(objects.drop_last()) + match objects.last().retain_count {
            Some(n) => n as int,
            None => 0,
        }
    }
}

pub open spec fn with_count(object: Object, n: int) -> Object {
    Object { retain_count: Some(n as u32), host: object.host }
}

pub open spec fn freed_slot() -> Object {
    Object { retain_count: None, host: HostObject::Freed }
}

/// Releases the pending objects, the last one first, and those that are
/// released in turn because their owner is deallocated: the objects left, and
/// the guest buffers to free.
pub open spec fn released(objects: Seq<Object>, pending: Seq<Id>, buffers: Seq<u32>) -> (
    Seq<Object>,
    Seq<u32>,
)
    decreases total_count(objects), pending.len(),
{
    if pending.len() == 0 {
        (objects, buffers)
    } else {
        let id = pending.last();
        let rest = pending.drop_last();
        if !is_live(objects, id) {
            released(objects, rest, buffers)
        } else {
            proof {
                lemma_total_count_update(objects, id as int, freed_slot());
                if let Some(n) = objects[id as int].retain_count {
                    lemma_total_count_update(
                        objects,
                        id as int,
                        with_count(objects[id as int], n - 1),
                    );
                }
                lemma_total_count_nonnegative(objects.update(id as int, freed_slot()));
            }
            match objects[id as int].retain_count {
                None => released(objects, rest, buffers),
                Some(n) => if n > 1 {
                    released(
                        objects.update(id as int, with_count(objects[id as int], n - 1)),
                        rest,
                        buffers,
                    )
                } else if n == 1 {
                    released(
                        objects.update(id as int, freed_slot()),
                        rest + owned_by(objects[id as int].host),
                        buffers + buffers_of(objects[id as int].host),
                    )
                } else {
                    released(objects, rest, buffers)
                },
            }
        }
    }
}

pub open spec fn count_value(object: Object) -> int {
    match object.retain_count {
        Some(n) => n as int,
        None => 0,
    }
}

pub proof fn lemma_total_count_nonnegative(objects: Seq<Object>)
    ensures
        total_count(objects) >= 0,
    decreases objects.len(),
{
    if objects.len() > 0 {
        lemma_total_count_nonnegative(objects.drop_last());
    }
}

pub proof fn lemma_total_count_update(objects: Seq<Object>, i: int, object: Object)
    requires
        0 <= i < objects.len(),
    ensures
        total_count(objects.update(i, object)) == total_count(objects) - count_value(objects[i])
            + count_value(object),
        total_count(objects) >= count_value(objects[i]),
    decreases objects.len(),
{
    let updated = objects.update(i, object);
    if i == objects.len() - 1 {
        assert(updated.drop_last() =~= objects.drop_last());
        lemma_total_count_nonnegative(objects.drop_last());
    } else {
        assert(updated.drop_last() =~= objects.drop_last().update(i, object));
        lemma_total_count_update(objects.drop_last(), i, object);
    }
}

/// All objects but `id` are as before.
pub open spec fn others_kept(before: Seq<Object>, after: Seq<Object>, id: Id) -> bool {
    &&& before.len() == after.len()
    &&& forall|i: int| 0 <= i < before.len() && i != id ==> after[i] == #[trigger] before[i]
}

pub fn push_ids(out: &mut Vec<Id>, more: &Vec<Id>)
    ensures
        final(out)@ == old(out)@ + more@,
{
    let mut i: usize = 0;
    while i < more.len()
        invariant
            i <= more@.len(),
            out@ == old(out)@ + more@.take(i as int),
        decreases more@.len() - i,
    {
        out.push(more[i]);
        i = i + 1;
        assert(out@ =~= old(out)@ + more@.take(i as int));
    }
    assert(more@.take(i as int) =~= more@);
}

impl HostObject {
    fn owned(&self) -> (ids: Vec<Id>)
        ensures
            ids@ == owned_by(*self),
    {
        let mut out: Vec<Id> = Vec::new();
        match self {
            HostObject::Array { items, mutable, retaining } => {
                if *retaining {
                    push_ids(&mut out, items);
                }
            },
            HostObject::Enumerator { array, items, next } => {
                out.push(*array);
            },
            HostObject::Members { items, mutable } => {
                push_ids(&mut out, items);
            },
            HostObject::TimeZone { name, kind } => {
                out.push(*name);
            },
            HostObject::NSError { domain, code } => {
                out.push(*domain);
            },
            HostObject::Context(context) => {
                out.push(context.font);
            },
            HostObject::Connection { delegate, request } => {
                out.push(*request);
                out.push(*delegate);
            },
            HostObject::Exception { name, reason, user_info } => {
                out.push(*user_info);
                out.push(*reason);
                out.push(*name);
            },
            _ => {},
        }
        assert(out@ =~= owned_by(*self));
        out
    }
}

impl ObjC {
    /// The slot of `nil` is there and not live, and references fit.
    pub open spec fn wf(&self) -> bool {
        &&& 1 <= self.objects@.len() < u32::MAX
        &&& self.objects@[0].host is Freed
    }

    pub fn new() -> (objc: ObjC)
        ensures
            objc.wf(),
            objc.objects@ == seq![freed_slot()],
    {
        let mut objects: Vec<Object> = Vec::new();
        objects.push(Object { retain_count: None, host: HostObject::Freed });
        assert(objects@ =~= seq![freed_slot()]);
        ObjC { objects }
    }

    /// Whether the reference is to a live object.
    pub fn is_object(&self, id: Id) -> (live: bool)
        ensures
            live == is_live(self.objects@, id),
    {
        if id == 0 || id as usize >= self.objects.len() {
            return false;
        }
        match &self.objects[id as usize].host {
            HostObject::Freed => false,
            _ => true,
        }
    }

    /// Adds an object with one reference.
    pub fn alloc_object(&mut self, host: HostObject) -> (id: Id)
        requires
            old(self).wf(),
            old(self).objects@.len() + 1 < u32::MAX,
        ensures
            final(self).wf(),
            id == old(self).objects@.len(),
            final(self).objects@ == old(self).objects@.push(
                Object { retain_count: Some(1), host },
            ),
    {
        let id: Id = self.objects.len() as u32;
        self.objects.push(Object { retain_count: Some(1), host });
        id
    }

    /// Adds an object that lives forever.
    pub fn alloc_static_object(&mut self, host: HostObject) -> (id: Id)
        requires
            old(self).wf(),
            old(self).objects@.len() + 1 < u32::MAX,
        ensures
            final(self).wf(),
            id == old(self).objects@.len(),
            final(self).objects@ == old(self).objects@.push(Object { retain_count: None, host }),
    {
        let id: Id = self.objects.len() as u32;
        self.objects.push(Object { retain_count: None, host });
        id
    }

    /// Adds a reference. Nothing happens to `nil` and to objects that live
    /// forever.
    pub fn retain(&mut self, id: Id) -> (same: Id)
        requires
            old(self).wf(),
            can_retain(old(self).objects@, id),
        ensures
            final(self).wf(),
            same == id,
            final(self).objects@ == retained(old(self).objects@, id),
    {
        if self.is_object(id) {
            let i: usize = id as usize;
            if let Some(n) = self.objects[i].retain_count {
                let object = &mut self.objects[i];
                object.retain_count = Some(n + 1);
            }
        }
        assert(self.objects@ =~= retained(old(self).objects@, id));
        id
    }

    /// Takes one reference away from each pending object, the last one first;
    /// an object without references is deallocated, and what it owns is
    /// released in turn. Returns the guest buffers that are to be freed.
    pub fn release_all(&mut self, pending: Vec<Id>) -> (buffers: Vec<u32>)
        requires
            old(self).wf(),
        ensures
            final(self).wf(),
            final(self).objects@.len() == old(self).objects@.len(),
            (final(self).objects@, buffers@) == released(
                old(self).objects@,
                pending@,
                Seq::empty(),
            ),
    {
        let mut queue: Vec<Id> = pending;
        let mut buffers: Vec<u32> = Vec::new();
        while queue.len() > 0
            invariant
                self.wf(),
                self.objects@.len() == old(self).objects@.len(),
                released(self.objects@, queue@, buffers@) == released(
                    old(self).objects@,
                    pending@,
                    Seq::empty(),
                ),
            decreases total_count(self.objects@), queue@.len(),
        {
            let ghost before = self.objects@;
            let ghost waiting = queue@;
            let ghost freed = buffers@;
            let id: Id = match queue.pop() {
                Some(id) => id,
                None => 0,
            };
            assert(queue@ =~= waiting.drop_last());
            if self.is_object(id) {
                let i: usize = id as usize;
                proof {
                    lemma_total_count_update(before, i as int, freed_slot());
                    if let Some(n) = before[i as int].retain_count {
                        lemma_total_count_update(
                            before,
                            i as int,
                            with_count(before[i as int], n - 1),
                        );
                    }
                    lemma_total_count_nonnegative(before.update(i as int, freed_slot()));
                }
                match self.objects[i].retain_count {
                    None => {},
                    Some(n) => {
                        if n > 1 {
                            let object = &mut self.objects[i];
                            object.retain_count = Some(n - 1);
                            assert(self.objects@ =~= before.update(
                                i as int,
                                with_count(before[i as int], n - 1),
                            ));
                        } else if n == 1 {
                            let owned = self.objects[i].host.owned();
                            push_ids(&mut queue, &owned);
                            match &self.objects[i].host {
                                HostObject::Data { bytes, length, free_when_done, mutable } => {
                                    if *free_when_done {
                                        buffers.push(*bytes);
                                    }
                                },
                                HostObject::Context(context) => {
                                    if context.bitmap.data_is_owned {
                                        buffers.push(context.bitmap.data);
                                    }
                                },
                                _ => {},
                            }
                            assert(buffers@ =~= freed + buffers_of(before[i as int].host));
                            self.objects.set(
                                i,
                                Object { retain_count: None, host: HostObject::Freed },
                            );
                            assert(self.objects@ =~= before.update(i as int, freed_slot()));
                            assert(queue@ =~= waiting.drop_last() + owned_by(before[i as int].host));
                        }
                    },
                }
            }
        }
        buffers
    }
}

pub open spec fn can_retain(objects: Seq<Object>, id: Id) -> bool {
    is_live(objects, id) ==> (objects[id as int].retain_count matches Some(n) ==> n < u32::MAX)
}

/// The objects with one more reference to `id`.
pub open spec fn retained(objects: Seq<Object>, id: Id) -> Seq<Object> {
    if is_live(objects, id) {
        match objects[id as int].retain_count {
            Some(n) => objects.update(id as int, with_count(objects[id as int], n + 1)),
            None => objects,
        }
    } else {
        objects
    }
}

/// The objects with one more reference to each of `ids`.
pub open spec fn all_retained(objects: Seq<Object>, ids: Seq<Id>) -> Seq<Object>
    decreases ids.len(),
{
    if ids.len() == 0 {
        objects
    } else {
        retained(all_retained(objects, ids.drop_last()), ids.last())
    }
}

/// All references of a list can be added without an overflow.
pub open spec fn can_retain_all(objects: Seq<Object>, ids: Seq<Id>) -> bool {
    forall|i: int|
        0 <= i < objects.len() ==> (#[trigger] objects[i].retain_count matches Some(n) ==> n
            + ids.len() <= u32::MAX)
}

/// A reference that is added and released again leaves all objects as they
/// were.
pub proof fn law_retain_release(objects: Seq<Object>, id: Id)
    requires
        can_retain(objects, id),
        is_live(objects, id) ==> (objects[id as int].retain_count matches Some(n) ==> n >= 1),
    ensures
        released(retained(objects, id), seq![id], Seq::empty()) == (objects, Seq::<u32>::empty()),
{
    reveal_with_fuel(released, 3);
    let after = retained(objects, id);
    assert(seq![id].drop_last() =~= Seq::<Id>::empty());
    if is_live(objects, id) {
        if let Some(n) = objects[id as int].retain_count {
            assert(after.update(id as int, with_count(after[id as int], n as int)) =~= objects);
        }
    }
}

/// Adding references changes no object's contents and no other count.
pub proof fn lemma_retained_keeps(objects: Seq<Object>, id: Id)
    ensures
        retained(objects, id).len() == objects.len(),
        forall|i: int|
            0 <= i < objects.len() ==> (#[trigger] retained(objects, id)[i]).host
                == objects[i].host,
        forall|i: int|
            0 <= i < objects.len() && i != id ==> #[trigger] retained(objects, id)[i] == objects[i],
        forall|i: int|
            0 <= i < objects.len() ==> count_value(#[trigger] retained(objects, id)[i])
                <= count_value(objects[i]) + 1,
        forall|i: int|
            0 <= i < objects.len() ==> ((#[trigger] retained(objects, id)[i]).retain_count is None
                <==> objects[i].retain_count is None),
{
}

/// Taking references away leaves each object's contents as they were, or
/// deallocates it.
pub proof fn lemma_released_keeps(objects: Seq<Object>, pending: Seq<Id>, buffers: Seq<u32>)
    ensures
        released(objects, pending, buffers).0.len() == objects.len(),
        forall|i: int|
            0 <= i < objects.len() ==> (#[trigger] released(objects, pending, buffers).0[i]).host
                == objects[i].host || released(objects, pending, buffers).0[i].host is Freed,
    decreases total_count(objects), pending.len(),
{
    if pending.len() > 0 {
        let id = pending.last();
        let rest = pending.drop_last();
        if !is_live(objects, id) {
            lemma_released_keeps(objects, rest, buffers);
        } else {
            lemma_total_count_update(objects, id as int, freed_slot());
            lemma_total_count_nonnegative(objects.update(id as int, freed_slot()));
            match objects[id as int].retain_count {
                None => lemma_released_keeps(objects, rest, buffers),
                Some(n) => {
                    lemma_total_count_update(
                        objects,
                        id as int,
                        with_count(objects[id as int], n - 1),
                    );
                    if n > 1 {
                        lemma_released_keeps(
                            objects.update(id as int, with_count(objects[id as int], n - 1)),
                            rest,
                            buffers,
                        );
                    } else if n == 1 {
                        lemma_released_keeps(
                            objects.update(id as int, freed_slot()),
                            rest + owned_by(objects[id as int].host),
                            buffers + buffers_of(objects[id as int].host),
                        );
                    } else {
                        lemma_released_keeps(objects, rest, buffers);
                    }
                },
            }
        }
    }
}

/// The host-side state that framework functions work on.
pub struct Environment {
    pub mem: Mem,
    pub objc: ObjC,
    /// Objects that are released when the current pool is drained.
    pub autorelease_pool: Vec<Id>,
}

impl Environment {
    pub open spec fn wf(&self) -> bool {
        &&& self.mem.wf()
        &&& self.mem.null_segment_size <= self.mem.bytes@.len()
        &&& self.objc.wf()
    }

    /// There is room for `objects` more objects and `bytes` more bytes of guest
    /// memory.
    pub open spec fn has_room(&self, objects: int, bytes: int) -> bool {
        &&& self.objc.objects@.len() + objects < u32::MAX
        &&& self.mem.bytes@.len() + bytes <= u32::MAX
    }

    pub fn new(null_segment_size: u32) -> (env: Environment)
        ensures
            env.wf(),
            env.objc.objects@ == seq![freed_slot()],
            env.mem.null_segment_size == null_segment_size,
            env.autorelease_pool@.len() == 0,
    {
        Environment {
            mem: Mem::new(null_segment_size),
            objc: ObjC::new(),
            autorelease_pool: Vec::new(),
        }
    }
}

/// Adds a reference to an object.
pub fn retain(env: &mut Environment, id: Id) -> (same: Id)
    requires
        old(env).wf(),
        can_retain(old(env).objc.objects@, id),
    ensures
        final(env).wf(),
        same == id,
        final(env).objc.objects@ == retained(old(env).objc.objects@, id),
        final(env).mem == old(env).mem,
        final(env).autorelease_pool == old(env).autorelease_pool,
{
    env.objc.retain(id)
}

/// Adding references to a list of objects changes no object's contents.
pub proof fn lemma_all_retained_keeps(objects: Seq<Object>, ids: Seq<Id>)
    ensures
        all_retained(objects, ids).len() == objects.len(),
        forall|i: int|
            0 <= i < objects.len() ==> (#[trigger] all_retained(objects, ids)[i]).host
                == objects[i].host,
        forall|i: int|
            0 <= i < objects.len() ==> count_value(#[trigger] all_retained(objects, ids)[i])
                <= count_value(objects[i]) + ids.len(),
        forall|i: int|
            0 <= i < objects.len() ==> ((#[trigger] all_retained(objects, ids)[i]).retain_count
                is None <==> objects[i].retain_count is None),
    decreases ids.len(),
{
    if ids.len() > 0 {
        lemma_all_retained_keeps(objects, ids.drop_last());
        lemma_retained_keeps(all_retained(objects, ids.drop_last()), ids.last());
    }
}

/// Adds a reference to each of some objects.
pub fn retain_each(env: &mut Environment, ids: &Vec<Id>)
    requires
        old(env).wf(),
        can_retain_all(old(env).objc.objects@, ids@),
    ensures
        final(env).wf(),
        final(env).objc.objects@ == all_retained(old(env).objc.objects@, ids@),
        final(env).objc.objects@.len() == old(env).objc.objects@.len(),
        final(env).mem == old(env).mem,
        final(env).autorelease_pool == old(env).autorelease_pool,
{
    let mut i: usize = 0;
    while i < ids.len()
        invariant
            i <= ids@.len(),
            env.wf(),
            can_retain_all(old(env).objc.objects@, ids@),
            env.objc.objects@ == all_retained(old(env).objc.objects@, ids@.take(i as int)),
            env.objc.objects@.len() == old(env).objc.objects@.len(),
            env.mem == old(env).mem,
            env.autorelease_pool == old(env).autorelease_pool,
        decreases ids@.len() - i,
    {
        proof {
            let id = ids@[i as int];
            lemma_all_retained_keeps(old(env).objc.objects@, ids@.take(i as int));
            assert(ids@.take(i + 1).drop_last() =~= ids@.take(i as int));
            if is_live(env.objc.objects@, id) {
                let first = old(env).objc.objects@[id as int];
                assert(first.retain_count matches Some(n) ==> n + ids@.len() <= u32::MAX);
                assert(count_value(env.objc.objects@[id as int]) <= count_value(first) + i);
            }
            lemma_retained_keeps(env.objc.objects@, id);
        }
        env.objc.retain(ids[i]);
        i = i + 1;
    }
    assert(ids@.take(i as int) =~= ids@);
}

/// The allocations that are left after some buffers have been freed.
pub open spec fn left_after(allocations: Seq<(u32, u32)>, buffers: Seq<u32>) -> Seq<(u32, u32)>
    decreases buffers.len(),
{
    if buffers.len() == 0 {
        allocations
    } else {
        left_after(allocations, buffers.drop_last()).filter(mem::is_elsewhere(buffers.last()))
    }
}

/// The pending objects have lost one reference each, the last one first, and
/// what was deallocated with them is gone.
pub open spec fn after_releases(before: Environment, after: Environment, pending: Seq<Id>) -> bool {
    &&& after.objc.objects@ == released(before.objc.objects@, pending, Seq::empty()).0
    &&& after.objc.objects@.len() == before.objc.objects@.len()
    &&& after.mem.bytes@ == before.mem.bytes@
    &&& after.mem.null_segment_size == before.mem.null_segment_size
    &&& after.mem.allocations@ == left_after(
        before.mem.allocations@,
        released(before.objc.objects@, pending, Seq::empty()).1,
    )
    &&& after.autorelease_pool == before.autorelease_pool
}

/// Takes a reference away from an object.
pub fn release(env: &mut Environment, id: Id)
    requires
        old(env).wf(),
    ensures
        final(env).wf(),
        after_releases(*old(env), *final(env), seq![id]),
{
    let mut pending: Vec<Id> = Vec::new();
    pending.push(id);
    assert(pending@ =~= seq![id]);
    release_each(env, pending);
}

/// Takes a reference away from each of some objects, the last one first.
pub fn release_each(env: &mut Environment, pending: Vec<Id>)
    requires
        old(env).wf(),
    ensures
        final(env).wf(),
        after_releases(*old(env), *final(env), pending@),
{
    let buffers = env.objc.release_all(pending);
    let mut i: usize = 0;
    while i < buffers.len()
        invariant
            i <= buffers@.len(),
            env.wf(),
            env.objc.objects@ == released(old(env).objc.objects@, pending@, Seq::empty()).0,
            env.objc.objects@.len() == old(env).objc.objects@.len(),
            buffers@ == released(old(env).objc.objects@, pending@, Seq::empty()).1,
            env.mem.bytes@ == old(env).mem.bytes@,
            env.mem.null_segment_size == old(env).mem.null_segment_size,
            env.mem.allocations@ == left_after(
                old(env).mem.allocations@,
                buffers@.take(i as int),
            ),
            env.autorelease_pool == old(env).autorelease_pool,
        decreases buffers@.len() - i,
    {
        assert(buffers@.take(i + 1).drop_last() =~= buffers@.take(i as int));
        assert(buffers@.take(i + 1).last() == buffers@[i as int]);
        env.mem.free(buffers[i]);
        i = i + 1;
    }
    assert(buffers@.take(i as int) =~= buffers@);
}

/// The pool after a reference has been left to it. `nil` and objects that live forever
/// stay out of it.
pub open spec fn pooled(pool: Seq<Id>, objects: Seq<Object>, id: Id) -> Seq<Id> {
    if is_live(objects, id) && objects[id as int].retain_count is Some {
        pool.push(id)
    } else {
        pool
    }
}

/// Leaves the reference to the current pool.
pub fn autorelease(env: &mut Environment, id: Id) -> (same: Id)
    requires
        old(env).wf(),
    ensures
        final(env).wf(),
        same == id,
        final(env).objc == old(env).objc,
        final(env).mem == old(env).mem,
        final(env).autorelease_pool@ == pooled(
            old(env).autorelease_pool@,
            old(env).objc.objects@,
            id,
        ),
{
    if env.objc.is_object(id) {
        if let Some(_) = env.objc.objects[id as usize].retain_count {
            env.autorelease_pool.push(id);
        }
    }
    id
}

/// A retained object counts one reference more, an object that lives forever does not
/// count, and no other object changes.
pub proof fn law_retained(objects: Seq<Object>, id: Id, n: u32, i: int)
    requires
        0 < id < objects.len(),
        0 <= i < objects.len(),
    ensures
        !(objects[id as int].host is Freed) && objects[id as int].retain_count == Some(n) && n
            < u32::MAX ==> retained(objects, id)[id as int].retain_count == Some((n + 1) as u32)
            && retained(objects, id)[id as int].host == objects[id as int].host,
        objects[id as int].retain_count is None ==> retained(objects, id) == objects,
        objects[id as int].host is Freed ==> retained(objects, id) == objects,
        retained(objects, 0) == objects,
        i != id ==> retained(objects, id)[i] == objects[i],
        retained(objects, id).len() == objects.len(),
{
}

/// Objects are retained one after the other.
pub proof fn law_all_retained(objects: Seq<Object>, a: Seq<Id>, b: Seq<Id>, id: Id)
    ensures
        all_retained(objects, a + b) == all_retained(all_retained(objects, a), b),
        all_retained(objects, seq![id]) == retained(objects, id),
    decreases b.len(),
{
    assert(seq![id].drop_last() =~= Seq::<Id>::empty());
    reveal_with_fuel(all_retained, 2);
    if b.len() == 0 {
        assert(a + b =~= a);
    } else {
        assert((a + b).drop_last() =~= a + b.drop_last());
        law_all_retained(objects, a, b.drop_last(), id);
    }
}

/// A release takes one reference back. With the last one the object is gone, its buffer is
/// freed and what it owns is released in turn; an object that lives forever, that is gone
/// or that is `nil` is left alone.
pub proof fn law_released(objects: Seq<Object>, pending: Seq<Id>, id: Id, buffers: Seq<u32>, n: u32)
    ensures
        released(objects, Seq::empty(), buffers) == (objects, buffers),
        released(objects, pending.push(0), buffers) == released(objects, pending, buffers),
        0 < id < objects.len() && !(objects[id as int].host is Freed) ==> {
            let object = objects[id as int];
            let after = released(objects, pending.push(id), buffers);
            &&& object.retain_count is None ==> after == released(objects, pending, buffers)
            &&& object.retain_count == Some(n) && n > 1 ==> after == released(
                objects.update(
                    id as int,
                    Object { retain_count: Some((n - 1) as u32), host: object.host },
                ),
                pending,
                buffers,
            )
            &&& object.retain_count == Some(1u32) ==> after == released(
                objects.update(
                    id as int,
                    Object { retain_count: None, host: HostObject::Freed },
                ),
                pending + owned_by(object.host),
                buffers + buffers_of(object.host),
            )
        },
        id >= objects.len() || (0 < id && objects[id as int].host is Freed) ==> released(
            objects,
            pending.push(id),
            buffers,
        ) == released(objects, pending, buffers),
{
    assert(pending.push(id).last() == id);
    assert(pending.push(id).drop_last() =~= pending);
    assert(pending.push(0).last() == 0);
    assert(pending.push(0).drop_last() =~= pending);
}

/// What the objects of the library own.
pub proof fn law_owned(items: Vec<Id>, mutable: bool, a: Id, b: Id, next: usize, code: i32, n: u32)
    ensures
        owned_by(HostObject::Array { items, mutable, retaining: true }) == items@,
        owned_by(HostObject::Array { items, mutable, retaining: false }).len() == 0,
        owned_by(HostObject::Enumerator { array: a, items, next }) == seq![a],
        owned_by(HostObject::Members { items, mutable }) == items@,
        owned_by(HostObject::TimeZone { name: a, kind: TimeZoneKind::Local }) == seq![a],
        owned_by(HostObject::NSError { domain: a, code }) == seq![a],
        owned_by(HostObject::Connection { delegate: a, request: b }).to_multiset() =~= seq![
            a,
            b,
        ].to_multiset(),
        buffers_of(HostObject::Data { bytes: n, length: n, free_when_done: true, mutable })
            == seq![n],
        buffers_of(
            HostObject::Data { bytes: n, length: n, free_when_done: false, mutable },
        ).len() == 0,
{
    let x = owned_by(HostObject::Connection { delegate: a, request: b });
    vstd::seq_lib::to_multiset_build(seq![b], a);
    broadcast use vstd::seq_lib::group_to_multiset_ensures;
    broadcast use vstd::multiset::group_multiset_axioms;
    assert(x =~= Seq::empty().push(b).push(a));
    assert(seq![a, b] =~= Seq::empty().push(a).push(b));
    assert(x.to_multiset() =~= seq![a, b].to_multiset());
}

/// An object waits in the pool only if it can be released from there.
pub proof fn law_pooled(pool: Seq<Id>, objects: Seq<Object>, id: Id)
    requires
        0 < id < objects.len(),
    ensures
        !(objects[id as int].host is Freed) && objects[id as int].retain_count is Some ==> pooled(
            pool,
            objects,
            id,
        ) == pool.push(id),
        objects[id as int].host is Freed || objects[id as int].retain_count is None ==> pooled(
            pool,
            objects,
            id,
        ) == pool,
        pooled(pool, objects, 0) == pool,
{
}

/// Of the allocations those are left whose address is not among the buffers.
pub proof fn law_left_after(allocations: Seq<(u32, u32)>, buffers: Seq<u32>, a: (u32, u32))
    ensures
        left_after(allocations, buffers).contains(a) <==> allocations.contains(a)
            && !buffers.contains(a.0),
    decreases buffers.len(),
{
    if buffers.len() > 0 {
        let rest = buffers.drop_last();
        let last = buffers.last();
        law_left_after(allocations, rest, a);
        let before = left_after(allocations, rest);
        let keep = mem::is_elsewhere(last);
        if before.filter(keep).contains(a) {
            before.lemma_filter_contains_rev(keep, a);
            let k = choose|k: int|
                0 <= k < before.filter(keep).len() && before.filter(keep)[k] == a;
            before.lemma_filter_pred(keep, k);
        }
        if before.contains(a) && keep(a) {
            let k = choose|k: int| 0 <= k < before.len() && before[k] == a;
            before.lemma_filter_contains(keep, k);
        }
        assert(buffers.contains(a.0) <==> rest.contains(a.0) || a.0 == last) by {
            if buffers.contains(a.0) {
                let k = choose|k: int| 0 <= k < buffers.len() && buffers[k] == a.0;
                if k < rest.len() {
                    assert(rest[k] == a.0);
                }
            }
            if rest.contains(a.0) {
                let k = choose|k: int| 0 <= k < rest.len() && rest[k] == a.0;
                assert(buffers[k] == a.0);
            }
            assert(buffers[buffers.len() - 1] == last);
        }
    }
}

} // verus!
