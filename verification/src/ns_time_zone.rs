//! `NSTimeZone`: offsets from GMT.
use crate::ns_string;
use crate::objc;
use crate::objc::{Environment, HostObject, Id, Object, TimeZoneKind, NIL};
use crate::text::{chars_of, same_chars};
use vstd::prelude::*;

verus! {

/// The rules of the host's time zone: the offset before the first transition,
/// and for each transition the second from which its offset holds.
pub struct LocalZone {
    pub name: Vec<char>,
    pub base_offset: i32,
    pub transitions: Vec<(i64, i32)>,
}

/// The offset of the last transition that is not after `t`.
pub open spec fn transition_offset(transitions: Seq<(i64, i32)>, base: i32, t: int) -> i32
    decreases transitions.len(),
{
    if transitions.len() == 0 {
        base
    } else if transitions.last().0 <= t {
        transitions.last().1
    } else {
        transition_offset(transitions.drop_last(), base, t)
    }
}

impl LocalZone {
    /// The offset from GMT at a second since the epoch.
    pub open spec fn offset_at(&self, t: int) -> i32 {
        transition_offset(self.transitions@, self.base_offset, t)
    }

    /// The offset from GMT at a wall-clock time: the offset that holds once the
    /// time is corrected by a first guess.
    pub open spec fn wall_offset(&self, local: int) -> i32 {
        self.offset_at(local - self.offset_at(local))
    }

    pub fn local_utc_offset_at(&self, unix_secs: i64) -> (offset: i32)
        ensures
            offset == self.offset_at(unix_secs as int),
    {
        let mut n: usize = self.transitions.len();
        assert(self.transitions@.take(n as int) =~= self.transitions@);
        while n > 0
            invariant
                n <= self.transitions@.len(),
                transition_offset(
                    self.transitions@.take(n as int),
                    self.base_offset,
                    unix_secs as int,
                ) == self.offset_at(unix_secs as int),
            decreases n,
        {
            let last: (i64, i32) = self.transitions[n - 1];
            assert(self.transitions@.take(n as int).last() == last);
            assert(self.transitions@.take(n as int).drop_last() =~= self.transitions@.take(
                n - 1,
            ));
            if last.0 <= unix_secs {
                return last.1;
            }
            n = n - 1;
        }
        self.base_offset
    }

    pub fn local_utc_offset_for_wall_clock(&self, local_secs: i64) -> (offset: i32)
        requires
            i64::MIN <= local_secs - self.offset_at(local_secs as int) <= i64::MAX,
        ensures
            offset == self.wall_offset(local_secs as int),
    {
        let guess: i32 = self.local_utc_offset_at(local_secs);
        self.local_utc_offset_at(local_secs - guess as i64)
    }
}

pub open spec fn kind_offset(kind: TimeZoneKind, zone: &LocalZone, t: int) -> i32 {
    match kind {
        TimeZoneKind::Local => zone.offset_at(t),
        TimeZoneKind::Fixed(offset) => offset,
    }
}

pub fn kind_offset_at(kind: TimeZoneKind, zone: &LocalZone, unix_secs: i64) -> (offset: i32)
    ensures
        offset == kind_offset(kind, zone, unix_secs as int),
{
    match kind {
        TimeZoneKind::Local => zone.local_utc_offset_at(unix_secs),
        TimeZoneKind::Fixed(offset) => offset,
    }
}

/// The kind of a time zone object.
pub open spec fn zone_kind(objects: Seq<Object>, tz: Id) -> Option<TimeZoneKind> {
    if 0 < tz < objects.len() {
        match objects[tz as int].host {
            HostObject::TimeZone { name, kind } => Some(kind),
            _ => None,
        }
    } else {
        None
    }
}

/// The kind of a time zone, if the object is one of this library's.
pub fn time_zone_kind(env: &Environment, tz: Id) -> (kind: Option<TimeZoneKind>)
    ensures
        kind == zone_kind(env.objc.objects@, tz),
{
    if tz == NIL || tz as usize >= env.objc.objects.len() {
        return None;
    }
    match &env.objc.objects[tz as usize].host {
        HostObject::TimeZone { name, kind } => Some(*kind),
        _ => None,
    }
}

/// The offset of a time zone object; `nil` stands for GMT, and an object of
/// another class answers for itself.
pub open spec fn gmt_offset(
    objects: Seq<Object>,
    zone: &LocalZone,
    tz: Id,
    t: int,
    reply: i32,
) -> i32 {
    if tz == NIL {
        0
    } else {
        match zone_kind(objects, tz) {
            Some(kind) => kind_offset(kind, zone, t),
            None => reply,
        }
    }
}

/// The offset from GMT of a time zone at a second since the epoch. `reply` is
/// what an object of a guest class answers to `secondsFromGMT`.
pub fn seconds_from_gmt_at_unix(
    env: &Environment,
    zone: &LocalZone,
    tz: Id,
    unix_secs: i64,
    reply: i32,
) -> (offset: i32)
    ensures
        offset == gmt_offset(env.objc.objects@, zone, tz, unix_secs as int, reply),
{
    if tz == NIL {
        return 0;
    }
    match time_zone_kind(env, tz) {
        Some(kind) => kind_offset_at(kind, zone, unix_secs),
        None => reply,
    }
}

/// The offset from GMT of a time zone at a wall-clock time.
pub fn seconds_from_gmt_for_wall_clock(
    env: &Environment,
    zone: &LocalZone,
    tz: Id,
    local_secs: i64,
    reply: i32,
) -> (offset: i32)
    requires
        i64::MIN <= local_secs - gmt_offset(
            env.objc.objects@,
            zone,
            tz,
            local_secs as int,
            reply,
        ) <= i64::MAX,
    ensures
        offset == gmt_offset(
            env.objc.objects@,
            zone,
            tz,
            local_secs - gmt_offset(env.objc.objects@, zone, tz, local_secs as int, reply),
            reply,
        ),
{
    let guess: i32 = seconds_from_gmt_at_unix(env, zone, tz, local_secs, reply);
    seconds_from_gmt_at_unix(env, zone, tz, local_secs - guess as i64, reply)
}

/// The kind of zone that a name stands for: the host's zone under its own
/// region name, an offset that the name spells out, or else GMT.
pub open spec fn kind_of_name(
    name: Seq<char>,
    zone: &LocalZone,
    spelled_offset: Option<i32>,
) -> TimeZoneKind {
    if name.contains('/') && name == zone.name@ {
        TimeZoneKind::Local
    } else {
        match spelled_offset {
            Some(offset) => TimeZoneKind::Fixed(offset),
            None => TimeZoneKind::Fixed(0),
        }
    }
}

/// The kind of zone that a name stands for. `spelled_offset` is the offset that it
/// spells out, if it does.
pub fn kind_for_name(name: &Vec<char>, zone: &LocalZone, spelled_offset: Option<i32>) -> (kind:
    TimeZoneKind)
    ensures
        kind == kind_of_name(name@, zone, spelled_offset),
{
    let mut has_slash: bool = false;
    let mut i: usize = 0;
    while i < name.len()
        invariant
            i <= name@.len(),
            has_slash == exists|j: int| 0 <= j < i && name@[j] == '/',
        decreases name@.len() - i,
    {
        if name[i] == '/' {
            has_slash = true;
        }
        i = i + 1;
    }
    if has_slash && same_chars(name, &zone.name) {
        return TimeZoneKind::Local;
    }
    match spelled_offset {
        Some(offset) => TimeZoneKind::Fixed(offset),
        None => TimeZoneKind::Fixed(0),
    }
}

/// Makes a time zone object that takes over the reference to its name.
pub fn alloc_time_zone(env: &mut Environment, name: Id, kind: TimeZoneKind) -> (tz: Id)
    requires
        old(env).wf(),
        old(env).has_room(1, 0),
    ensures
        final(env).wf(),
        tz == old(env).objc.objects@.len(),
        final(env).objc.objects@ == old(env).objc.objects@.push(
            Object { retain_count: Some(1), host: HostObject::TimeZone { name, kind } },
        ),
        zone_kind(final(env).objc.objects@, tz) == Some(kind),
        final(env).mem == old(env).mem,
        final(env).autorelease_pool == old(env).autorelease_pool,
{
    env.objc.alloc_object(HostObject::TimeZone { name, kind })
}

/// Names a new time zone object, which keeps the name. Without a name it is released
/// again.
pub fn init_with_name(
    env: &mut Environment,
    zone: &LocalZone,
    this: Id,
    tz_name: Id,
    spelled_offset: Option<i32>,
) -> (id: Id)
    requires
        old(env).wf(),
        zone_kind(old(env).objc.objects@, this) is Some,
        tz_name == NIL || ns_string::is_string(old(env).objc.objects@, tz_name),
        objc::can_retain(old(env).objc.objects@, tz_name),
    ensures
        final(env).wf(),
        if tz_name == NIL {
            id == NIL && objc::after_releases(*old(env), *final(env), seq![this])
        } else {
            let kind = kind_of_name(
                ns_string::text_at(old(env).objc.objects@, tz_name),
                zone,
                spelled_offset,
            );
            &&& id == this
            &&& final(env).objc.objects@ == objc::retained(
                old(env).objc.objects@,
                tz_name,
            ).update(
                this as int,
                Object {
                    retain_count: old(env).objc.objects@[this as int].retain_count,
                    host: HostObject::TimeZone { name: tz_name, kind },
                },
            )
            &&& final(env).mem == old(env).mem
            &&& final(env).autorelease_pool == old(env).autorelease_pool
        },
{
    if tz_name == NIL {
        objc::release(env, this);
        return NIL;
    }
    let name = chars_of(ns_string::to_rust_string(env, tz_name).as_str());
    let kind = kind_for_name(&name, zone, spelled_offset);
    objc::retain(env, tz_name);
    let i: usize = this as usize;
    let retain_count: Option<u32> = env.objc.objects[i].retain_count;
    env.objc.objects.set(
        i,
        Object { retain_count, host: HostObject::TimeZone { name: tz_name, kind } },
    );
    this
}

/// The time zone that is handed out as the system's.
pub struct State {
    pub system_time_zone: Option<Id>,
}

/// The system's time zone, made on first use and kept.
pub fn system_time_zone(env: &mut Environment, state: &mut State, name: Id) -> (tz: Id)
    requires
        old(env).wf(),
        old(env).has_room(1, 0),
    ensures
        final(env).wf(),
        final(state).system_time_zone == Some(tz),
        match old(state).system_time_zone {
            Some(kept) => tz == kept && *final(env) == *old(env),
            None => tz == old(env).objc.objects@.len() && final(env).objc.objects@
                == old(env).objc.objects@.push(
                Object {
                    retain_count: Some(1),
                    host: HostObject::TimeZone { name, kind: TimeZoneKind::Local },
                },
            ) && final(env).mem == old(env).mem && final(env).autorelease_pool
                == old(env).autorelease_pool,
        },
{
    if let Some(kept) = state.system_time_zone {
        return kept;
    }
    let tz: Id = alloc_time_zone(env, name, TimeZoneKind::Local);
    state.system_time_zone = Some(tz);
    tz
}

/// A zone with a fixed offset has that offset at every wall-clock time.
pub proof fn law_fixed_zone_offset(
    objects: Seq<Object>,
    zone: &LocalZone,
    tz: Id,
    offset: i32,
    t: int,
    reply: i32,
)
    requires
        tz != NIL,
        zone_kind(objects, tz) == Some(TimeZoneKind::Fixed(offset)),
    ensures
        gmt_offset(objects, zone, tz, t, reply) == offset,
        gmt_offset(
            objects,
            zone,
            tz,
            t - gmt_offset(objects, zone, tz, t, reply),
            reply,
        ) == offset,
{
}

/// A wall-clock time is converted back to the second it came from, where the zone
/// has the same offset at that second and at the wall-clock time taken as a second.
/// Only close to a change of the offset it may not.
pub proof fn law_wall_clock_round_trip(zone: &LocalZone, t: int)
    requires
        zone.offset_at(t) == zone.offset_at(t + zone.offset_at(t)),
    ensures
        t + zone.offset_at(t) - zone.wall_offset(t + zone.offset_at(t)) == t,
{
}

/// The offset at a second is that of the latest transition up to it, where transitions
/// stand in the order of time, and the first offset before all of them.
pub proof fn law_latest_transition_holds(zone: &LocalZone, t: int, i: int)
    requires
        forall|j: int, k: int|
            0 <= j < k < zone.transitions@.len() ==> (#[trigger] zone.transitions@[j]).0 < (
            #[trigger] zone.transitions@[k]).0,
    ensures
        0 <= i < zone.transitions@.len() && zone.transitions@[i].0 <= t && (i + 1
            < zone.transitions@.len() ==> t < zone.transitions@[i + 1].0) ==> zone.offset_at(t)
            == zone.transitions@[i].1,
        (zone.transitions@.len() == 0 || t < zone.transitions@[0].0) ==> zone.offset_at(t)
            == zone.base_offset,
{
    lemma_latest_transition(zone.transitions@, zone.base_offset, t, i);
}

proof fn lemma_latest_transition(transitions: Seq<(i64, i32)>, base: i32, t: int, i: int)
    requires
        forall|j: int, k: int|
            0 <= j < k < transitions.len() ==> (#[trigger] transitions[j]).0 < (
            #[trigger] transitions[k]).0,
    ensures
        0 <= i < transitions.len() && transitions[i].0 <= t && (i + 1 < transitions.len() ==> t
            < transitions[i + 1].0) ==> transition_offset(transitions, base, t)
            == transitions[i].1,
        (transitions.len() == 0 || t < transitions[0].0) ==> transition_offset(
            transitions,
            base,
            t,
        ) == base,
    decreases transitions.len(),
{
    if transitions.len() > 0 {
        let rest = transitions.drop_last();
        lemma_latest_transition(rest, base, t, i);
        let last = transitions.len() - 1;
        if 0 <= i < last {
            assert(transitions[i + 1].0 <= transitions[last].0);
        }
        if last > 0 {
            assert(transitions[0].0 < transitions[last].0);
            assert(rest[0] == transitions[0]);
        }
    }
}

/// Around a single change of the offset a wall-clock time is converted back to the second
/// it came from, unless that is closer to the change than the two offsets are apart.
pub proof fn law_wall_clock_near_change(zone: &LocalZone, t: int)
    requires
        zone.transitions@.len() == 1,
        ({
            let (change, after) = zone.transitions@[0];
            if t < change {
                t + zone.base_offset - after < change
            } else {
                t + after - zone.base_offset >= change
            }
        }),
    ensures
        ({
            let (change, after) = zone.transitions@[0];
            let offset = if t < change {
                zone.base_offset
            } else {
                after
            };
            zone.wall_offset(t + offset) == offset
        }),
{
    reveal_with_fuel(transition_offset, 2);
}

/// The zone of an object has the offset that it names, or that of the host where it
/// stands for the host's zone. `nil` is GMT, and an object of another class answers for
/// itself.
pub proof fn law_zone_offset(
    objects: Seq<Object>,
    zone: &LocalZone,
    tz: Id,
    t: int,
    reply: i32,
    name: Id,
    offset: i32,
)
    requires
        0 < tz < objects.len(),
    ensures
        gmt_offset(objects, zone, 0, t, reply) == 0,
        objects[tz as int].host == (HostObject::TimeZone { name, kind: TimeZoneKind::Local })
            ==> gmt_offset(objects, zone, tz, t, reply) == zone.offset_at(t),
        objects[tz as int].host == (HostObject::TimeZone {
            name,
            kind: TimeZoneKind::Fixed(offset),
        }) ==> gmt_offset(objects, zone, tz, t, reply) == offset,
        !(objects[tz as int].host is TimeZone) ==> gmt_offset(objects, zone, tz, t, reply) == reply,
{
}

/// A zone is the host's where it has the region name of the host's. Else it has the
/// offset that its name spells out, and that of GMT without one.
pub proof fn law_zone_name(name: Seq<char>, zone: &LocalZone, spelled: Option<i32>, i: int)
    ensures
        name == zone.name@ && 0 <= i < name.len() && name[i] == '/' ==> kind_of_name(
            name,
            zone,
            spelled,
        ) is Local,
        name != zone.name@ || (forall|j: int| 0 <= j < name.len() ==> name[j] != '/')
            ==> kind_of_name(name, zone, spelled) == TimeZoneKind::Fixed(
            if spelled is Some {
                spelled->0
            } else {
                0
            },
        ),
{
}

} // verus!
