//! `NSSet` and `NSMutableSet`. Which objects are equal is decided by the objects
//! themselves; here each object comes with the number of its class of equals.
use crate::ns_array;
use crate::objc;
use crate::objc::{
    push_ids, release_each, retain, retain_each, Environment, HostObject, Id, Object,
    NIL,
};
use vstd::prelude::*;

verus! {

/// The members of a set object; nothing for other objects.
pub open spec fn set_at(objects: Seq<Object>, id: Id) -> Option<Seq<Id>> {
    if 0 < id < objects.len() {
        match objects[id as int].host {
            HostObject::Members { items, mutable } => Some(items@),
            _ => None,
        }
    } else {
        None
    }
}

pub open spec fn is_set(objects: Seq<Object>, id: Id) -> bool {
    set_at(objects, id) is Some
}

pub open spec fn members_of(objects: Seq<Object>, id: Id) -> Seq<Id> {
    match set_at(objects, id) {
        Some(items) => items,
        None => Seq::empty(),
    }
}

pub open spec fn is_mutable_set(objects: Seq<Object>, id: Id) -> bool {
    0 < id < objects.len() && (objects[id as int].host matches HostObject::Members { items, mutable }
        && mutable)
}

pub open spec fn holds_set(object: Object, members: Seq<Id>, mutable: bool) -> bool {
    object.host matches HostObject::Members { items: i, mutable: m } && i@ == members && m
        == mutable
}

/// The set has other members now; nothing else has changed.
pub open spec fn set_replaced(
    before: Environment,
    after: Environment,
    this: Id,
    members: Seq<Id>,
) -> bool {
    &&& objc::others_kept(before.objc.objects@, after.objc.objects@, this)
    &&& after.objc.objects@[this as int].retain_count
        == before.objc.objects@[this as int].retain_count
    &&& holds_set(
        after.objc.objects@[this as int],
        members,
        is_mutable_set(before.objc.objects@, this),
    )
    &&& after.mem == before.mem
    &&& after.autorelease_pool == before.autorelease_pool
}

/// The objects of a list that are equal to none before them and to none that has
/// been seen.
pub open spec fn new_members(seen: Set<u32>, objects: Seq<Id>, classes: Seq<u32>) -> Seq<Id>
    decreases objects.len(),
{
    if objects.len() == 0 {
        Seq::empty()
    } else if seen.contains(classes[0]) {
        new_members(seen, objects.drop_first(), classes.drop_first())
    } else {
        seq![objects[0]] + new_members(
            seen.insert(classes[0]),
            objects.drop_first(),
            classes.drop_first(),
        )
    }
}

/// The classes of the objects that are new.
pub open spec fn new_classes(seen: Set<u32>, classes: Seq<u32>) -> Seq<u32>
    decreases classes.len(),
{
    if classes.len() == 0 {
        Seq::empty()
    } else if seen.contains(classes[0]) {
        new_classes(seen, classes.drop_first())
    } else {
        seq![classes[0]] + new_classes(seen.insert(classes[0]), classes.drop_first())
    }
}

/// No two objects that are new are equal, and none is equal to one that has been
/// seen: each class of equals has at most one member.
pub proof fn law_members_are_distinct(seen: Set<u32>, classes: Seq<u32>)
    ensures
        new_classes(seen, classes).no_duplicates(),
        forall|i: int|
            0 <= i < new_classes(seen, classes).len() ==> !seen.contains(
                #[trigger] new_classes(seen, classes)[i],
            ),
        forall|c: u32|
            classes.contains(c) && !seen.contains(c) ==> #[trigger] new_classes(
                seen,
                classes,
            ).contains(c),
    decreases classes.len(),
{
    if classes.len() > 0 {
        let first = classes[0];
        let rest = classes.drop_first();
        assert(classes =~= seq![first] + rest);
        if seen.contains(first) {
            law_members_are_distinct(seen, rest);
            assert forall|c: u32| classes.contains(c) && !seen.contains(c) implies new_classes(
                seen,
                classes,
            ).contains(c) by {
                let k = choose|k: int| 0 <= k < classes.len() && classes[k] == c;
                assert(rest[k - 1] == c);
            }
        } else {
            let more = new_classes(seen.insert(first), rest);
            law_members_are_distinct(seen.insert(first), rest);
            let all = seq![first] + more;
            assert(new_classes(seen, classes) == all);
            assert forall|i: int, j: int|
                0 <= i < all.len() && 0 <= j < all.len() && i != j implies all[i] != all[j] by {
                if i == 0 {
                    assert(all[j] == more[j - 1]);
                } else if j == 0 {
                    assert(all[i] == more[i - 1]);
                } else {
                    assert(all[i] == more[i - 1] && all[j] == more[j - 1]);
                }
            }
            assert forall|i: int| 0 <= i < all.len() implies !seen.contains(#[trigger] all[i]) by {
                if i > 0 {
                    assert(all[i] == more[i - 1]);
                }
            }
            assert forall|c: u32| classes.contains(c) && !seen.contains(c) implies all.contains(
                c,
            ) by {
                let k = choose|k: int| 0 <= k < classes.len() && classes[k] == c;
                if k == 0 {
                    assert(all[0] == c);
                } else if c == first {
                    assert(all[0] == c);
                } else {
                    assert(rest[k - 1] == c);
                    assert(more.contains(c));
                    let m = choose|m: int| 0 <= m < more.len() && more[m] == c;
                    assert(all[m + 1] == c);
                }
            }
        }
    }
}

/// The objects of a list that are equal to none before them and to none of
/// `seen`.
pub fn distinct_objects(seen: &Vec<u32>, objects: &Vec<Id>, classes: &Vec<u32>) -> (new: Vec<Id>)
    requires
        classes@.len() == objects@.len(),
    ensures
        new@ == new_members(seen@.to_set(), objects@, classes@),
        new@.len() <= objects@.len(),
{
    let mut known: Vec<u32> = Vec::new();
    push_ids(&mut known, seen);
    assert(known@ =~= seen@);
    let mut out: Vec<Id> = Vec::new();
    let mut i: usize = 0;
    assert(objects@.skip(0) =~= objects@ && classes@.skip(0) =~= classes@);
    assert(out@ + new_members(known@.to_set(), objects@.skip(0), classes@.skip(0)) =~= new_members(
        seen@.to_set(),
        objects@,
        classes@,
    ));
    while i < objects.len()
        invariant
            i <= objects@.len(),
            classes@.len() == objects@.len(),
            out@.len() <= i,
            out@ + new_members(
                known@.to_set(),
                objects@.skip(i as int),
                classes@.skip(i as int),
            ) == new_members(seen@.to_set(), objects@, classes@),
        decreases objects@.len() - i,
    {
        let class: u32 = classes[i];
        let ghost before = out@;
        let ghost rest = objects@.skip(i as int);
        let ghost rest_classes = classes@.skip(i as int);
        assert(rest[0] == objects@[i as int] && rest_classes[0] == class);
        assert(rest.drop_first() =~= objects@.skip(i + 1));
        assert(rest_classes.drop_first() =~= classes@.skip(i + 1));
        let is_known: bool = has_class(&known, class);
        if !is_known {
            let ghost known_before = known@;
            known.push(class);
            out.push(objects[i]);
            proof {
                assert(known@.to_set() =~= known_before.to_set().insert(class)) by {
                    assert forall|c: u32| known@.contains(c) == (known_before.contains(c) || c
                        == class) by {
                        if known_before.contains(c) {
                            let k = choose|k: int|
                                0 <= k < known_before.len() && known_before[k] == c;
                            assert(known@[k] == c);
                        }
                        if c == class {
                            assert(known@[known@.len() - 1] == c);
                        }
                        if known@.contains(c) && c != class {
                            let k = choose|k: int| 0 <= k < known@.len() && known@[k] == c;
                            assert(known_before[k] == c);
                        }
                    }
                }
                let tail = new_members(
                    known@.to_set(),
                    objects@.skip(i + 1),
                    classes@.skip(i + 1),
                );
                assert(before + (seq![rest[0]] + tail) =~= out@ + tail);
            }
        }
        i = i + 1;
    }
    assert(objects@.skip(i as int).len() == 0);
    assert(out@ + Seq::<Id>::empty() =~= out@);
    out
}

fn has_class(known: &Vec<u32>, class: u32) -> (found: bool)
    ensures
        found == known@.to_set().contains(class),
{
    let mut i: usize = 0;
    while i < known.len()
        invariant
            i <= known@.len(),
            forall|j: int| 0 <= j < i ==> #[trigger] known@[j] != class,
        decreases known@.len() - i,
    {
        if known[i] == class {
            assert(known@.contains(class));
            return true;
        }
        i = i + 1;
    }
    assert(!known@.contains(class));
    false
}

/// One object more: a set with own references to its members.
pub open spec fn set_added(
    before: Environment,
    after: Environment,
    members: Seq<Id>,
    mutable: bool,
) -> bool {
    &&& after.objc.objects@.len() == before.objc.objects@.len() + 1
    &&& after.objc.objects@.drop_last() == objc::all_retained(before.objc.objects@, members)
    &&& after.objc.objects@.last().retain_count == Some(1u32)
    &&& holds_set(after.objc.objects@.last(), members, mutable)
    &&& after.mem == before.mem
    &&& after.autorelease_pool == before.autorelease_pool
}

fn new_set(env: &mut Environment, members: Vec<Id>, mutable: bool) -> (id: Id)
    requires
        old(env).wf(),
        old(env).has_room(1, 0),
        objc::can_retain_all(old(env).objc.objects@, members@),
    ensures
        final(env).wf(),
        id == old(env).objc.objects@.len(),
        set_added(*old(env), *final(env), members@, mutable),
{
    retain_each(env, &members);
    let ghost retained = env.objc.objects@;
    let id: Id = env.objc.alloc_object(HostObject::Members { items: members, mutable });
    assert(env.objc.objects@.drop_last() =~= retained);
    id
}

/// Makes a set of the first object and of those that follow in an argument list
/// that ends with `nil`. The first object is a member even if it is `nil`.
/// `classes` holds the class of equals of each of them.
pub fn set_from_objects(
    env: &mut Environment,
    first: Id,
    rest: &Vec<Id>,
    classes: &Vec<u32>,
    mutable: bool,
) -> (id: Id)
    requires
        old(env).wf(),
        old(env).has_room(1, 0),
        classes@.len() == 1 + ns_array::before_nil(rest@).len(),
        objc::can_retain_all(
            old(env).objc.objects@,
            seq![first] + ns_array::before_nil(rest@),
        ),
    ensures
        final(env).wf(),
        id == old(env).objc.objects@.len(),
        set_added(
            *old(env),
            *final(env),
            new_members(Set::empty(), seq![first] + ns_array::before_nil(rest@), classes@),
            mutable,
        ),
{
    let mut objects: Vec<Id> = Vec::new();
    objects.push(first);
    let more = ns_array::ids_before_nil(rest);
    push_ids(&mut objects, &more);
    assert(objects@ =~= seq![first] + ns_array::before_nil(rest@));
    let seen: Vec<u32> = Vec::new();
    assert(seen@.to_set() =~= Set::<u32>::empty());
    let members = distinct_objects(&seen, &objects, classes);
    new_set(env, members, mutable)
}

/// Makes a set of the objects that a walk over another collection gives, up to
/// the first `nil`. The walk has been made before.
pub fn set_from_collection(
    env: &mut Environment,
    walked: &Vec<Id>,
    classes: &Vec<u32>,
    mutable: bool,
) -> (id: Id)
    requires
        old(env).wf(),
        old(env).has_room(1, 0),
        classes@.len() == ns_array::before_nil(walked@).len(),
        objc::can_retain_all(old(env).objc.objects@, ns_array::before_nil(walked@)),
    ensures
        final(env).wf(),
        id == old(env).objc.objects@.len(),
        set_added(
            *old(env),
            *final(env),
            new_members(Set::empty(), ns_array::before_nil(walked@), classes@),
            mutable,
        ),
{
    let objects = ns_array::ids_before_nil(walked);
    let seen: Vec<u32> = Vec::new();
    assert(seen@.to_set() =~= Set::<u32>::empty());
    let members = distinct_objects(&seen, &objects, classes);
    new_set(env, members, mutable)
}

/// A copy of the members of a set.
pub fn set_members(env: &Environment, this: Id) -> (members: Vec<Id>)
    requires
        env.wf(),
        is_set(env.objc.objects@, this),
    ensures
        members@ == members_of(env.objc.objects@, this),
{
    let mut out: Vec<Id> = Vec::new();
    if let HostObject::Members { items, mutable } = &env.objc.objects[this as usize].host {
        push_ids(&mut out, items);
        assert(out@ =~= items@);
    }
    out
}

/// The number of members.
pub fn count(env: &Environment, this: Id) -> (n: usize)
    requires
        env.wf(),
        is_set(env.objc.objects@, this),
    ensures
        n == members_of(env.objc.objects@, this).len(),
{
    set_members(env, this).len()
}

/// Some member, or `nil` if there is none.
pub fn any_object(env: &Environment, this: Id) -> (object: Id)
    requires
        env.wf(),
        is_set(env.objc.objects@, this),
    ensures
        members_of(env.objc.objects@, this).len() == 0 ==> object == NIL,
        members_of(env.objc.objects@, this).len() > 0 ==> members_of(
            env.objc.objects@,
            this,
        ).contains(object),
{
    let members = set_members(env, this);
    if members.len() == 0 {
        NIL
    } else {
        assert(members@.contains(members@[0]));
        members[0]
    }
}

/// All members, as a new array in the current pool.
pub fn all_objects(env: &mut Environment, this: Id) -> (id: Id)
    requires
        old(env).wf(),
        old(env).has_room(1, 0),
        is_set(old(env).objc.objects@, this),
        objc::can_retain_all(
            old(env).objc.objects@,
            members_of(old(env).objc.objects@, this),
        ),
    ensures
        final(env).wf(),
        ns_array::pooled_array(
            *old(env),
            *final(env),
            id,
            members_of(old(env).objc.objects@, this),
        ),
{
    let members = set_members(env, this);
    ns_array::new_pooled_array(env, members)
}

/// A walk over the members of a set: over a new array of them, which is in the current
/// pool too.
pub open spec fn walk_begun(
    before: Environment,
    after: Environment,
    id: Id,
    members: Seq<Id>,
) -> bool {
    exists|listed: Environment|
        #[trigger] ns_array::pooled_array(
            before,
            listed,
            before.objc.objects@.len() as Id,
            members,
        ) && ns_array::enumerator_added(
            listed,
            after,
            id,
            before.objc.objects@.len() as Id,
            members,
        )
}

/// A walk over the members of a set.
pub fn object_enumerator(env: &mut Environment, this: Id) -> (id: Id)
    requires
        old(env).wf(),
        old(env).has_room(2, 0),
        is_set(old(env).objc.objects@, this),
        objc::can_retain_all(
            old(env).objc.objects@,
            members_of(old(env).objc.objects@, this),
        ),
    ensures
        final(env).wf(),
        walk_begun(*old(env), *final(env), id, members_of(old(env).objc.objects@, this)),
{
    let array: Id = all_objects(env, this);
    proof {
        ns_array::lemma_pooled_array(
            *old(env),
            *env,
            array,
            members_of(old(env).objc.objects@, this),
        );
        objc::lemma_all_retained_keeps(
            old(env).objc.objects@,
            members_of(old(env).objc.objects@, this),
        );
        assert(ns_array::pooled_array(
            *old(env),
            *env,
            old(env).objc.objects@.len() as Id,
            members_of(old(env).objc.objects@, this),
        ));
    }
    ns_array::object_enumerator_inner(env, array)
}

/// Whether an object is equal to a member, where `equal` tells for each member that a
/// walk gives whether it is.
pub fn contains_object(equal: &Vec<bool>) -> (found: bool)
    ensures
        found == equal@.contains(true),
{
    let mut i: usize = 0;
    while i < equal.len()
        invariant
            i <= equal@.len(),
            forall|j: int| 0 <= j < i ==> !#[trigger] equal@[j],
        decreases equal@.len() - i,
    {
        if equal[i] {
            assert(equal@[i as int] == true);
            return true;
        }
        i = i + 1;
    }
    false
}

fn put_members(env: &mut Environment, this: Id, members: Vec<Id>)
    requires
        old(env).wf(),
        is_set(old(env).objc.objects@, this),
    ensures
        final(env).wf(),
        set_replaced(*old(env), *final(env), this, members@),
        set_at(final(env).objc.objects@, this) == Some(members@),
{
    let i: usize = this as usize;
    let was_mutable: bool = match &env.objc.objects[i].host {
        HostObject::Members { items, mutable } => *mutable,
        _ => false,
    };
    let retain_count: Option<u32> = env.objc.objects[i].retain_count;
    env.objc.objects.set(
        i,
        Object {
            retain_count,
            host: HostObject::Members { items: members, mutable: was_mutable },
        },
    );
}

/// References have been added, and then the set has got other members.
pub open spec fn retained_and_replaced(
    before: Environment,
    after: Environment,
    added: Seq<Id>,
    this: Id,
    members: Seq<Id>,
) -> bool {
    exists|mid: Environment|
        #[trigger] ns_array::only_retained(before, mid, added) && set_replaced(
            mid,
            after,
            this,
            members,
        )
}

/// The set has got other members, and then references have been taken away, the
/// last one first.
pub open spec fn replaced_and_released(
    before: Environment,
    after: Environment,
    this: Id,
    members: Seq<Id>,
    pending: Seq<Id>,
) -> bool {
    exists|mid: Environment|
        #[trigger] set_replaced(before, mid, this, members) && objc::after_releases(
            mid,
            after,
            pending,
        )
}

/// Adds the objects that a walk over another set gives, up to the first `nil`,
/// as far as they are equal to no member. The walk has been made before. The classes of
/// equals of the members and of the objects are given.
pub fn union_set(
    env: &mut Environment,
    this: Id,
    member_classes: &Vec<u32>,
    walked: &Vec<Id>,
    classes: &Vec<u32>,
)
    requires
        old(env).wf(),
        is_set(old(env).objc.objects@, this),
        classes@.len() == ns_array::before_nil(walked@).len(),
        objc::can_retain_all(old(env).objc.objects@, ns_array::before_nil(walked@)),
    ensures
        final(env).wf(),
        ({
            let new = new_members(
                member_classes@.to_set(),
                ns_array::before_nil(walked@),
                classes@,
            );
            retained_and_replaced(
                *old(env),
                *final(env),
                new,
                this,
                members_of(old(env).objc.objects@, this) + new,
            )
        }),
{
    let objects = ns_array::ids_before_nil(walked);
    let new = distinct_objects(member_classes, &objects, classes);
    let mut members = set_members(env, this);
    proof {
        objc::lemma_all_retained_keeps(env.objc.objects@, new@);
    }
    retain_each(env, &new);
    assert(ns_array::only_retained(*old(env), *env, new@));
    push_ids(&mut members, &new);
    put_members(env, this, members);
}

/// Adds an object that is equal to no member; `class` and `member_classes` are
/// the classes of equals.
pub fn add_object(
    env: &mut Environment,
    this: Id,
    member_classes: &Vec<u32>,
    object: Id,
    class: u32,
)
    requires
        old(env).wf(),
        is_set(old(env).objc.objects@, this),
        objc::can_retain_all(old(env).objc.objects@, seq![object]),
    ensures
        final(env).wf(),
        ({
            let new = new_members(member_classes@.to_set(), seq![object], seq![class]);
            retained_and_replaced(
                *old(env),
                *final(env),
                new,
                this,
                members_of(old(env).objc.objects@, this) + new,
            )
        }),
{
    let mut objects: Vec<Id> = Vec::new();
    objects.push(object);
    let mut classes: Vec<u32> = Vec::new();
    classes.push(class);
    assert(objects@ =~= seq![object] && classes@ =~= seq![class]);
    let new = distinct_objects(member_classes, &objects, &classes);
    let mut members = set_members(env, this);
    proof {
        objc::lemma_all_retained_keeps(env.objc.objects@, new@);
    }
    retain_each(env, &new);
    assert(ns_array::only_retained(*old(env), *env, new@));
    push_ids(&mut members, &new);
    put_members(env, this, members);
}

/// The members that are equal to one of some objects, or to none of them.
pub open spec fn with_class_in(
    members: Seq<Id>,
    member_classes: Seq<u32>,
    classes: Set<u32>,
    inside: bool,
) -> Seq<Id>
    decreases members.len(),
{
    if members.len() == 0 {
        Seq::empty()
    } else {
        let rest = with_class_in(
            members.drop_last(),
            member_classes.drop_last(),
            classes,
            inside,
        );
        if classes.contains(member_classes.last()) == inside {
            rest.push(members.last())
        } else {
            rest
        }
    }
}

/// Members have been taken out of a set. All members of the other set are in an array in
/// the current pool, which was made before.
pub open spec fn is_minus(
    before: Environment,
    after: Environment,
    this: Id,
    other: Seq<Id>,
    kept: Seq<Id>,
    gone: Seq<Id>,
) -> bool {
    exists|listed: Environment|
        #[trigger] ns_array::pooled_array(
            before,
            listed,
            before.objc.objects@.len() as Id,
            other,
        ) && replaced_and_released(listed, after, this, kept, gone)
}

/// Takes out the members that are equal to one of another set, and gives their
/// references up. Nothing happens if there is no other set. The classes of equals of the
/// members of both are given.
pub fn minus_set(
    env: &mut Environment,
    this: Id,
    other: Id,
    member_classes: &Vec<u32>,
    classes: &Vec<u32>,
)
    requires
        old(env).wf(),
        old(env).has_room(1, 0),
        is_set(old(env).objc.objects@, this),
        other == NIL || is_set(old(env).objc.objects@, other),
        objc::can_retain_all(
            old(env).objc.objects@,
            members_of(old(env).objc.objects@, other),
        ),
        member_classes@.len() == members_of(old(env).objc.objects@, this).len(),
        classes@.len() == members_of(old(env).objc.objects@, other).len(),
    ensures
        final(env).wf(),
        other == NIL ==> *final(env) == *old(env),
        other != NIL ==> is_minus(
            *old(env),
            *final(env),
            this,
            members_of(old(env).objc.objects@, other),
            with_class_in(
                members_of(old(env).objc.objects@, this),
                member_classes@,
                classes@.to_set(),
                false,
            ),
            with_class_in(
                members_of(old(env).objc.objects@, this),
                member_classes@,
                classes@.to_set(),
                true,
            ),
        ),
{
    if other == NIL {
        return;
    }
    let members = set_members(env, this);
    let array: Id = all_objects(env, other);
    let ghost listed = *env;
    proof {
        let others = members_of(old(env).objc.objects@, other);
        ns_array::lemma_pooled_array(*old(env), listed, array, others);
        objc::lemma_all_retained_keeps(old(env).objc.objects@, others);
        assert(listed.objc.objects@[this as int] == listed.objc.objects@.drop_last()[this as int]);
    }
    let mut kept: Vec<Id> = Vec::new();
    let mut gone: Vec<Id> = Vec::new();
    let mut i: usize = 0;
    while i < members.len()
        invariant
            i <= members@.len(),
            member_classes@.len() == members@.len(),
            kept@ == with_class_in(
                members@.take(i as int),
                member_classes@.take(i as int),
                classes@.to_set(),
                false,
            ),
            gone@ == with_class_in(
                members@.take(i as int),
                member_classes@.take(i as int),
                classes@.to_set(),
                true,
            ),
        decreases members@.len() - i,
    {
        assert(members@.take(i + 1).drop_last() =~= members@.take(i as int));
        assert(member_classes@.take(i + 1).drop_last() =~= member_classes@.take(i as int));
        if has_class(classes, member_classes[i]) {
            gone.push(members[i]);
        } else {
            kept.push(members[i]);
        }
        i = i + 1;
    }
    assert(members@.take(i as int) =~= members@);
    assert(member_classes@.take(i as int) =~= member_classes@);
    let ghost left = kept@;
    let ghost lost = gone@;
    put_members(env, this, kept);
    assert(set_replaced(listed, *env, this, left));
    release_each(env, gone);
    assert(replaced_and_released(listed, *env, this, left, lost));
    assert(ns_array::pooled_array(
        *old(env),
        listed,
        old(env).objc.objects@.len() as Id,
        members_of(old(env).objc.objects@, other),
    ));
}

/// Takes all members out and gives their references up.
pub fn remove_all_objects(env: &mut Environment, this: Id)
    requires
        old(env).wf(),
        is_set(old(env).objc.objects@, this),
    ensures
        final(env).wf(),
        replaced_and_released(
            *old(env),
            *final(env),
            this,
            Seq::empty(),
            members_of(old(env).objc.objects@, this),
        ),
{
    let members = set_members(env, this);
    put_members(env, this, Vec::new());
    assert(set_replaced(*old(env), *env, this, Seq::empty()));
    release_each(env, members);
}

/// A set has been made of the members of another one, of which an array in the current
/// pool was made before.
pub open spec fn set_copied(
    before: Environment,
    after: Environment,
    id: Id,
    members: Seq<Id>,
) -> bool {
    &&& id == before.objc.objects@.len() + 1
    &&& exists|listed: Environment|
        #[trigger] ns_array::pooled_array(
            before,
            listed,
            before.objc.objects@.len() as Id,
            members,
        ) && set_added(listed, after, members, false)
}

/// A copy of a set: a mutable one is copied to a new set, another gets one more
/// reference.
pub fn copy_set(env: &mut Environment, this: Id) -> (id: Id)
    requires
        old(env).wf(),
        old(env).has_room(2, 0),
        is_set(old(env).objc.objects@, this),
        objc::can_retain(old(env).objc.objects@, this),
        objc::can_retain_all(
            old(env).objc.objects@,
            members_of(old(env).objc.objects@, this) + members_of(old(env).objc.objects@, this),
        ),
        members_of(old(env).objc.objects@, this).len() < u32::MAX,
    ensures
        final(env).wf(),
        is_mutable_set(old(env).objc.objects@, this) ==> set_copied(
            *old(env),
            *final(env),
            id,
            members_of(old(env).objc.objects@, this),
        ),
        !is_mutable_set(old(env).objc.objects@, this) ==> {
            &&& id == this
            &&& final(env).objc.objects@ == objc::retained(old(env).objc.objects@, this)
            &&& final(env).mem == old(env).mem
            &&& final(env).autorelease_pool == old(env).autorelease_pool
        },
{
    let mutable: bool = match &env.objc.objects[this as usize].host {
        HostObject::Members { items, mutable } => *mutable,
        _ => false,
    };
    if mutable {
        let members = set_members(env, this);
        proof {
            lemma_can_retain_twice(env.objc.objects@, members@, members@);
        }
        let array: Id = all_objects(env, this);
        let ghost listed = *env;
        proof {
            ns_array::lemma_pooled_array(*old(env), listed, array, members@);
            lemma_retained_listed(
                old(env).objc.objects@,
                listed.objc.objects@,
                members@,
                members@,
            );
            assert(ns_array::pooled_array(
                *old(env),
                listed,
                old(env).objc.objects@.len() as Id,
                members@,
            ));
        }
        new_set(env, members, false)
    } else {
        retain(env, this)
    }
}

proof fn lemma_can_retain_twice(objects: Seq<Object>, first: Seq<Id>, second: Seq<Id>)
    requires
        objc::can_retain_all(objects, first + second),
    ensures
        objc::can_retain_all(objects, first),
        objc::can_retain_all(objects, second),
        objc::can_retain_all(objc::all_retained(objects, first), second),
{
    objc::lemma_all_retained_keeps(objects, first);
    let after = objc::all_retained(objects, first);
    assert forall|i: int| 0 <= i < after.len() implies (
    #[trigger] after[i].retain_count matches Some(n) ==> n + second.len() <= u32::MAX) by {
        assert(objects[i].retain_count matches Some(n) ==> n + (first + second).len() <= u32::MAX);
        assert(objc::count_value(after[i]) <= objc::count_value(objects[i]) + first.len());
        assert(after[i].retain_count is None <==> objects[i].retain_count is None);
    }
}

/// References can still be added after other ones have been and an object with a single
/// reference has been added.
proof fn lemma_retained_listed(
    before: Seq<Object>,
    after: Seq<Object>,
    first: Seq<Id>,
    second: Seq<Id>,
)
    requires
        after.len() == before.len() + 1,
        after.drop_last() == objc::all_retained(before, first),
        after.last().retain_count == Some(1u32),
        objc::can_retain_all(before, first + second),
        second.len() < u32::MAX,
    ensures
        objc::can_retain_all(after, second),
{
    lemma_can_retain_twice(before, first, second);
    assert forall|i: int| 0 <= i < after.len() implies (
    #[trigger] after[i].retain_count matches Some(n) ==> n + second.len() <= u32::MAX) by {
        if i < before.len() {
            assert(after.drop_last()[i].retain_count == after[i].retain_count);
        }
    }
}

proof fn lemma_walk_begun(before: Environment, after: Environment, id: Id, members: Seq<Id>)
    requires
        before.objc.wf(),
        before.objc.objects@.len() + 1 < u32::MAX,
        walk_begun(before, after, id, members),
    ensures
        id == before.objc.objects@.len() + 1,
        after.objc.objects@.len() == before.objc.objects@.len() + 2,
        ns_array::walk_at(after.objc.objects@, id) matches Some((array, items, next)) && items
            == members && next == 0,
        forall|i: int|
            0 <= i < before.objc.objects@.len() ==> (#[trigger] after.objc.objects@[i]).host
                == before.objc.objects@[i].host,
        forall|i: int|
            0 <= i < before.objc.objects@.len() ==> objc::count_value(
                #[trigger] after.objc.objects@[i],
            ) <= objc::count_value(before.objc.objects@[i]) + members.len(),
        forall|i: int|
            0 <= i < before.objc.objects@.len() ==> ((
            #[trigger] after.objc.objects@[i]).retain_count is None
                <==> before.objc.objects@[i].retain_count is None),
        forall|i: int|
            before.objc.objects@.len() <= i < after.objc.objects@.len() ==> objc::count_value(
                #[trigger] after.objc.objects@[i],
            ) <= 2,
{
    let array = before.objc.objects@.len() as Id;
    let listed = choose|listed: Environment|
        #[trigger] ns_array::pooled_array(before, listed, array, members)
            && ns_array::enumerator_added(listed, after, id, array, members);
    ns_array::lemma_pooled_array(before, listed, array, members);
    objc::lemma_all_retained_keeps(before.objc.objects@, members);
    objc::lemma_retained_keeps(listed.objc.objects@, array);
    assert forall|i: int| 0 <= i < before.objc.objects@.len() implies (
    #[trigger] after.objc.objects@[i]) == objc::all_retained(
        before.objc.objects@,
        members,
    )[i] by {
        assert(after.objc.objects@[i] == after.objc.objects@.drop_last()[i]);
        assert(listed.objc.objects@[i] == listed.objc.objects@.drop_last()[i]);
    }
    assert(after.objc.objects@[array as int] == after.objc.objects@.drop_last()[array as int]);
}

proof fn lemma_before_nil_is_shorter(ids: Seq<Id>)
    ensures
        ns_array::before_nil(ids).len() <= ids.len(),
    decreases ids.len(),
{
    if ids.len() > 0 {
        lemma_before_nil_is_shorter(ids.drop_first());
    }
}

/// A walk has begun and come to its end.
pub open spec fn walked_over(
    before: Environment,
    after: Environment,
    members: Seq<Id>,
) -> bool {
    exists|begun: Environment|
        #[trigger] walk_begun(
            before,
            begun,
            (before.objc.objects@.len() + 1) as Id,
            members,
        ) && ns_array::walk_ended(begun, after, (before.objc.objects@.len() + 1) as Id)
}

/// A mutable set has been made, and the objects that a walk over another set gives, up
/// to `nil`, have been added to it.
pub open spec fn mutably_copied(
    before: Environment,
    after: Environment,
    id: Id,
    members: Seq<Id>,
) -> bool {
    &&& id == before.objc.objects@.len()
    &&& exists|made: Environment, walked: Environment|
        #[trigger] set_added(before, made, Seq::empty(), true) && #[trigger] walked_over(
            made,
            walked,
            members,
        ) && retained_and_replaced(
            walked,
            after,
            ns_array::before_nil(members),
            id,
            ns_array::before_nil(members),
        )
}

/// A mutable set with the members that a walk gives, up to `nil`. The caller owns
/// it.
pub fn mutable_copy_set(env: &mut Environment, this: Id) -> (id: Id)
    requires
        old(env).wf(),
        old(env).has_room(3, 0),
        is_set(old(env).objc.objects@, this),
        objc::can_retain_all(
            old(env).objc.objects@,
            members_of(old(env).objc.objects@, this) + ns_array::before_nil(
                members_of(old(env).objc.objects@, this),
            ),
        ),
        2 * members_of(old(env).objc.objects@, this).len() + 2 <= u32::MAX,
    ensures
        final(env).wf(),
        mutably_copied(
            *old(env),
            *final(env),
            id,
            members_of(old(env).objc.objects@, this),
        ),
{
    let ghost before = *env;
    let ghost members = members_of(env.objc.objects@, this);
    let ghost kept = ns_array::before_nil(members);
    proof {
        lemma_can_retain_twice(before.objc.objects@, members, kept);
        assert(objc::all_retained(before.objc.objects@, Seq::empty()) == before.objc.objects@);
    }
    let id: Id = new_set(env, Vec::new(), true);
    let ghost made = *env;
    proof {
        assert(made.objc.objects@.drop_last()[this as int] == before.objc.objects@[this as int]);
        assert(Seq::<Id>::empty() + members =~= members);
        lemma_retained_listed(
            before.objc.objects@,
            made.objc.objects@,
            Seq::empty(),
            members,
        );
    }
    let walk: Id = object_enumerator(env, this);
    let ghost begun = *env;
    proof {
        lemma_walk_begun(made, begun, walk, members);
        assert(begun.objc.objects@[id as int].host == made.objc.objects@[id as int].host);
    }
    let objects = ns_array::walk_to_end(env, walk);
    let ghost walked = *env;
    proof {
        lemma_before_nil_is_shorter(members);
        assert forall|i: int| 0 <= i < walked.objc.objects@.len() implies (
        #[trigger] walked.objc.objects@[i].retain_count matches Some(n) ==> n + kept.len()
            <= u32::MAX) by {
            assert(walked.objc.objects@[i].retain_count == begun.objc.objects@[i].retain_count) by {
                if i != walk {
                    assert(walked.objc.objects@[i] == begun.objc.objects@[i]);
                }
            }
            if i < before.objc.objects@.len() {
                assert(before.objc.objects@[i].retain_count matches Some(n) ==> n + (members
                    + kept).len() <= u32::MAX);
                assert(made.objc.objects@.drop_last()[i] == made.objc.objects@[i]);
            }
        }
        objc::lemma_all_retained_keeps(walked.objc.objects@, kept);
        assert(walk_begun(made, begun, (made.objc.objects@.len() + 1) as Id, members));
        assert(walked_over(made, walked, members));
    }
    retain_each(env, &objects);
    assert(ns_array::only_retained(walked, *env, kept));
    put_members(env, id, objects);
    id
}

/// An object is a new member where none before it, of those that were there or of those
/// that came, is equal to it; the new members keep the order in which they came.
pub proof fn law_new_member(seen: Set<u32>, objects: Seq<Id>, classes: Seq<u32>, object: Id, c: u32)
    requires
        classes.len() == objects.len(),
    ensures
        new_members(seen, objects.push(object), classes.push(c)) == if seen.contains(c)
            || classes.contains(c) {
            new_members(seen, objects, classes)
        } else {
            new_members(seen, objects, classes).push(object)
        },
        new_classes(seen, classes.push(c)) == if seen.contains(c) || classes.contains(c) {
            new_classes(seen, classes)
        } else {
            new_classes(seen, classes).push(c)
        },
        new_members(seen, Seq::empty(), Seq::empty()) == Seq::<Id>::empty(),
    decreases objects.len(),
{
    let more = objects.push(object);
    let more_classes = classes.push(c);
    if objects.len() == 0 {
        assert(more[0] == object && more_classes[0] == c);
        assert(more.drop_first() =~= objects);
        assert(more_classes.drop_first() =~= classes);
        reveal_with_fuel(new_members, 2);
        reveal_with_fuel(new_classes, 2);
        assert(!classes.contains(c));
        assert(!seen.contains(c) ==> new_members(seen, more, more_classes) =~= seq![object]);
        assert(!seen.contains(c) ==> new_classes(seen, more_classes) =~= seq![c]);
    } else {
        let first = classes[0];
        let (rest, rest_classes) = (objects.drop_first(), classes.drop_first());
        assert(more.drop_first() =~= rest.push(object));
        assert(more_classes.drop_first() =~= rest_classes.push(c));
        assert(more[0] == objects[0] && more_classes[0] == first);
        assert(classes.contains(c) <==> first == c || rest_classes.contains(c)) by {
            if classes.contains(c) {
                let k = choose|k: int| 0 <= k < classes.len() && classes[k] == c;
                if k > 0 {
                    assert(rest_classes[k - 1] == c);
                }
            }
            if rest_classes.contains(c) {
                let k = choose|k: int| 0 <= k < rest_classes.len() && rest_classes[k] == c;
                assert(classes[k + 1] == c);
            }
            assert(classes[0] == first);
        }
        if seen.contains(first) {
            law_new_member(seen, rest, rest_classes, object, c);
        } else {
            law_new_member(seen.insert(first), rest, rest_classes, object, c);
            let tail = new_members(seen.insert(first), rest, rest_classes);
            assert(seq![objects[0]] + tail.push(object) =~= (seq![objects[0]] + tail).push(object));
            let class_tail = new_classes(seen.insert(first), rest_classes);
            assert(seq![first] + class_tail.push(c) =~= (seq![first] + class_tail).push(c));
        }
    }
}

/// Members are told apart one by one: each is either inside or outside, and they keep
/// their order.
pub proof fn law_members_told_apart(
    a: Seq<Id>,
    a_classes: Seq<u32>,
    b: Seq<Id>,
    b_classes: Seq<u32>,
    classes: Set<u32>,
    inside: bool,
    member: Id,
    c: u32,
)
    requires
        a.len() == a_classes.len(),
        b.len() == b_classes.len(),
    ensures
        with_class_in(a + b, a_classes + b_classes, classes, inside) == with_class_in(
            a,
            a_classes,
            classes,
            inside,
        ) + with_class_in(b, b_classes, classes, inside),
        with_class_in(seq![member], seq![c], classes, true) == if classes.contains(c) {
            seq![member]
        } else {
            Seq::empty()
        },
        with_class_in(seq![member], seq![c], classes, false) == if classes.contains(c) {
            Seq::empty()
        } else {
            seq![member]
        },
        with_class_in(b, b_classes, classes, true).len() + with_class_in(
            b,
            b_classes,
            classes,
            false,
        ).len() == b.len(),
    decreases b.len(),
{
    assert(seq![member].drop_last() =~= Seq::<Id>::empty());
    reveal_with_fuel(with_class_in, 2);
    assert(Seq::<Id>::empty().push(member) =~= seq![member]);
    if b.len() == 0 {
        assert(a + b =~= a);
        assert(a_classes + b_classes =~= a_classes);
        assert(with_class_in(a, a_classes, classes, inside) + with_class_in(
            b,
            b_classes,
            classes,
            inside,
        ) =~= with_class_in(a, a_classes, classes, inside));
    } else {
        let (rest, rest_classes) = (b.drop_last(), b_classes.drop_last());
        assert((a + b).drop_last() =~= a + rest);
        assert((a_classes + b_classes).drop_last() =~= a_classes + rest_classes);
        law_members_told_apart(
            a,
            a_classes,
            rest,
            rest_classes,
            classes,
            inside,
            member,
            c,
        );
        let left = with_class_in(a, a_classes, classes, inside);
        let right = with_class_in(rest, rest_classes, classes, inside);
        assert((left + right).push(b.last()) =~= left + right.push(b.last()));
    }
}

/// A new set holds its members and can be changed only if it is mutable; one whose members
/// are replaced holds the new ones, and no other set changes.
pub proof fn law_set_effects(
    before: Environment,
    after: Environment,
    members: Seq<Id>,
    mutable: bool,
    this: Id,
    other: Id,
)
    requires
        0 < before.objc.objects@.len() <= u32::MAX,
    ensures
        set_added(before, after, members, mutable) ==> {
            let id = before.objc.objects@.len() as Id;
            members_of(after.objc.objects@, id) == members && is_mutable_set(
                after.objc.objects@,
                id,
            ) == mutable
        },
        is_set(before.objc.objects@, this) && set_replaced(before, after, this, members) ==> {
            &&& members_of(after.objc.objects@, this) == members
            &&& is_mutable_set(after.objc.objects@, this) == is_mutable_set(
                before.objc.objects@,
                this,
            )
            &&& other != this ==> members_of(after.objc.objects@, other) == members_of(
                before.objc.objects@,
                other,
            )
        },
{
}

} // verus!
