//! `NSURLConnection`: connections of a guest that is offline, but for the list of
//! servers that it is given.
use crate::mem;
use crate::ns_data;
use crate::ns_string;
use crate::ns_string::{get_static_str, State};
use crate::objc;
use crate::objc::{autorelease, release, retain, Environment, HostObject, Id, Object, NIL};
use vstd::prelude::*;

verus! {

pub const NSURLErrorNotConnectedToInternet: i32 = -1009;

/// A message to the delegate of a connection.
#[derive(Clone, Copy, Debug, PartialEq, Eq, Structural)]
pub enum ConnectionEvent {
    DidReceiveResponse,
    DidReceiveData(Id),
    DidFinishLoading,
    DidFail(Id),
}

/// Which messages a delegate responds to.
#[derive(Clone, Copy, Debug, PartialEq, Eq, Structural)]
pub struct Responds {
    pub receive_response: bool,
    pub receive_data: bool,
    pub finish_loading: bool,
    pub fail: bool,
}

/// A data object in the current pool with its own copy of some bytes.
pub open spec fn pooled_copy(before: Environment, after: Environment, id: Id, content: Seq<u8>) -> bool {
    &&& id == before.objc.objects@.len()
    &&& after.objc.objects@ == before.objc.objects@.push(
        Object {
            retain_count: Some(1),
            host: HostObject::Data {
                bytes: before.mem.bytes@.len() as u32,
                length: content.len() as u32,
                free_when_done: true,
                mutable: false,
            },
        },
    )
    &&& after.mem.bytes@ == before.mem.bytes@ + content
    &&& after.mem.null_segment_size == before.mem.null_segment_size
    &&& after.mem.allocations@ == before.mem.allocations@.push(
        (before.mem.bytes@.len() as u32, content.len() as u32),
    )
    &&& after.autorelease_pool@ == before.autorelease_pool@.push(id)
}

/// A data object in the current pool with its own copy of some bytes.
pub fn nsdata_from_bytes(env: &mut Environment, bytes: &Vec<u8>) -> (id: Id)
    requires
        old(env).wf(),
        old(env).has_room(1, bytes@.len() as int),
    ensures
        final(env).wf(),
        pooled_copy(*old(env), *final(env), id, bytes@),
        ns_data::is_data(*final(env), id),
        ns_data::content_of(*final(env), id) == bytes@,
{
    let len: u32 = bytes.len() as u32;
    let buffer: u32 = env.mem.allocate_with(bytes, len);
    assert(mem::padded_with_zeros(bytes@, len as nat) =~= bytes@);
    let id: Id = ns_data::data_with_bytes_no_copy(env, buffer, len, true);
    assert(ns_data::content_of(*env, id) =~= bytes@);
    id
}

/// The messages that deliver a body, as far as the delegate responds to them.
pub open spec fn delivery(data: Id, responds: Responds) -> Seq<ConnectionEvent> {
    let response = if responds.receive_response {
        seq![ConnectionEvent::DidReceiveResponse]
    } else {
        Seq::empty()
    };
    let body = if responds.receive_data {
        seq![ConnectionEvent::DidReceiveData(data)]
    } else {
        Seq::empty()
    };
    let end = if responds.finish_loading {
        seq![ConnectionEvent::DidFinishLoading]
    } else {
        Seq::empty()
    };
    response + body + end
}

/// Delivers a body to the delegate of a connection: the messages to send, in
/// order. Without a delegate nothing happens.
pub fn deliver_serverlist(
    env: &mut Environment,
    delegate: Id,
    responds: Responds,
    body: &Vec<u8>,
) -> (events: Vec<ConnectionEvent>)
    requires
        old(env).wf(),
        old(env).has_room(1, body@.len() as int),
    ensures
        final(env).wf(),
        delegate == NIL ==> events@.len() == 0 && *final(env) == *old(env),
        delegate != NIL ==> {
            &&& pooled_copy(
                *old(env),
                *final(env),
                old(env).objc.objects@.len() as u32,
                body@,
            )
            &&& events@ == delivery(old(env).objc.objects@.len() as u32, responds)
        },
{
    let mut events: Vec<ConnectionEvent> = Vec::new();
    if delegate == NIL {
        return events;
    }
    let data: Id = nsdata_from_bytes(env, body);
    if responds.receive_response {
        events.push(ConnectionEvent::DidReceiveResponse);
    }
    if responds.receive_data {
        events.push(ConnectionEvent::DidReceiveData(data));
    }
    if responds.finish_loading {
        events.push(ConnectionEvent::DidFinishLoading);
    }
    assert(events@ =~= delivery(data, responds));
    events
}

/// An error object in the current pool that says that there is no connection to
/// the internet.
pub open spec fn offline_error(
    before: Environment,
    after: Environment,
    pool: State,
    after_pool: State,
    error: Id,
) -> bool {
    exists|mid: Environment|
        {
            &&& #[trigger] ns_string::static_str(
                before,
                mid,
                pool,
                after_pool,
                "NSURLErrorDomain"@,
                domain_of(after, error),
            )
            &&& error == mid.objc.objects@.len()
            &&& after.objc.objects@ == mid.objc.objects@.push(
                Object {
                    retain_count: Some(1),
                    host: HostObject::NSError {
                        domain: domain_of(after, error),
                        code: NSURLErrorNotConnectedToInternet,
                    },
                },
            )
            &&& after.mem == mid.mem
            &&& after.autorelease_pool@ == mid.autorelease_pool@.push(error)
        }
}

/// The domain of an error object.
pub open spec fn domain_of(env: Environment, error: Id) -> Id {
    match env.objc.objects@[error as int].host {
        HostObject::NSError { domain, code } => domain,
        _ => NIL,
    }
}

fn new_offline_error(env: &mut Environment, pool: &mut State) -> (error: Id)
    requires
        old(env).wf(),
        old(env).has_room(2, 0),
        old(pool).wf(old(env).objc.objects@),
    ensures
        final(env).wf(),
        offline_error(*old(env), *final(env), *old(pool), *final(pool), error),
        final(env).objc.objects@.len() <= old(env).objc.objects@.len() + 2,
        final(env).mem == old(env).mem,
{
    let domain: Id = get_static_str(env, pool, "NSURLErrorDomain");
    let ghost mid = *env;
    let error: Id = env.objc.alloc_object(
        HostObject::NSError { domain, code: NSURLErrorNotConnectedToInternet },
    );
    let pooled: Id = autorelease(env, error);
    assert(ns_string::static_str(
        *old(env),
        mid,
        *old(pool),
        *pool,
        "NSURLErrorDomain"@,
        domain_of(*env, pooled),
    ));
    pooled
}

/// Tells the delegate of a connection that there is no connection to the internet:
/// the message to send, if it responds to it.
pub fn fail_offline(
    env: &mut Environment,
    pool: &mut State,
    delegate: Id,
    responds: Responds,
) -> (event: Option<ConnectionEvent>)
    requires
        old(env).wf(),
        old(env).has_room(2, 0),
        old(pool).wf(old(env).objc.objects@),
    ensures
        final(env).wf(),
        match event {
            Some(e) => {
                &&& delegate != NIL && responds.fail
                &&& e matches ConnectionEvent::DidFail(error)
                &&& offline_error(*old(env), *final(env), *old(pool), *final(pool), error)
            },
            None => {
                &&& delegate == NIL || !responds.fail
                &&& *final(env) == *old(env)
                &&& *final(pool) == *old(pool)
            },
        },
{
    if delegate == NIL || !responds.fail {
        return None;
    }
    let error: Id = new_offline_error(env, pool);
    Some(ConnectionEvent::DidFail(error))
}

/// The delegate and the request of a connection.
pub open spec fn connection_at(objects: Seq<Object>, id: Id) -> Option<(Id, Id)> {
    if 0 < id < objects.len() {
        match objects[id as int].host {
            HostObject::Connection { delegate, request } => Some((delegate, request)),
            _ => None,
        }
    } else {
        None
    }
}

pub open spec fn with_connection(objects: Seq<Object>, id: Id, delegate: Id, request: Id) -> Seq<
    Object,
> {
    objects.update(
        id as int,
        Object {
            retain_count: objects[id as int].retain_count,
            host: HostObject::Connection { delegate, request },
        },
    )
}

fn put_connection(env: &mut Environment, id: Id, delegate: Id, request: Id)
    requires
        old(env).wf(),
        connection_at(old(env).objc.objects@, id) is Some,
    ensures
        final(env).wf(),
        final(env).objc.objects@ == with_connection(
            old(env).objc.objects@,
            id,
            delegate,
            request,
        ),
        final(env).mem == old(env).mem,
        final(env).autorelease_pool == old(env).autorelease_pool,
{
    let retain_count: Option<u32> = env.objc.objects[id as usize].retain_count;
    env.objc.objects.set(
        id as usize,
        Object { retain_count, host: HostObject::Connection { delegate, request } },
    );
}

/// Gives a new connection its request and its delegate, which it keeps alive.
pub fn init_with_request(env: &mut Environment, this: Id, request: Id, delegate: Id) -> (id: Id)
    requires
        old(env).wf(),
        connection_at(old(env).objc.objects@, this) is Some,
        objc::can_retain_all(old(env).objc.objects@, seq![delegate, request]),
    ensures
        final(env).wf(),
        id == this,
        final(env).objc.objects@ == with_connection(
            objc::retained(objc::retained(old(env).objc.objects@, delegate), request),
            this,
            delegate,
            request,
        ),
        final(env).mem == old(env).mem,
        final(env).autorelease_pool == old(env).autorelease_pool,
{
    proof {
        let objects = env.objc.objects@;
        objc::lemma_retained_keeps(objects, delegate);
        objc::lemma_retained_keeps(objc::retained(objects, delegate), request);
        if objc::is_live(objects, delegate) {
            assert(objects[delegate as int].retain_count matches Some(n) ==> n + 2 <= u32::MAX);
        }
        if objc::is_live(objects, request) {
            assert(objects[request as int].retain_count matches Some(n) ==> n + 2 <= u32::MAX);
            assert(objc::count_value(objc::retained(objects, delegate)[request as int])
                <= objc::count_value(objects[request as int]) + 1);
        }
    }
    retain(env, delegate);
    retain(env, request);
    put_connection(env, this, delegate, request);
    this
}

/// Gives the delegate of a connection up, and no message is sent to it any more.
pub fn cancel(env: &mut Environment, this: Id)
    requires
        old(env).wf(),
        connection_at(old(env).objc.objects@, this) is Some,
        connection_at(
            objc::released(
                old(env).objc.objects@,
                seq![(connection_at(old(env).objc.objects@, this)->0).0],
                Seq::empty(),
            ).0,
            this,
        ) is Some,
    ensures
        final(env).wf(),
        ({
            let (delegate, request) = connection_at(old(env).objc.objects@, this)->0;
            if delegate == NIL {
                *final(env) == *old(env)
            } else {
                &&& final(env).objc.objects@ == with_connection(
                    objc::released(old(env).objc.objects@, seq![delegate], Seq::empty()).0,
                    this,
                    NIL,
                    (connection_at(
                        objc::released(old(env).objc.objects@, seq![delegate], Seq::empty()).0,
                        this,
                    )->0).1,
                )
                &&& final(env).mem.bytes@ == old(env).mem.bytes@
                &&& final(env).mem.null_segment_size == old(env).mem.null_segment_size
                &&& final(env).mem.allocations@ == objc::left_after(
                    old(env).mem.allocations@,
                    objc::released(old(env).objc.objects@, seq![delegate], Seq::empty()).1,
                )
                &&& final(env).autorelease_pool == old(env).autorelease_pool
            }
        }),
{
    let delegate: Id = match &env.objc.objects[this as usize].host {
        HostObject::Connection { delegate, request } => *delegate,
        _ => NIL,
    };
    if delegate != NIL {
        release(env, delegate);
        let request: Id = match &env.objc.objects[this as usize].host {
            HostObject::Connection { delegate, request } => *request,
            _ => NIL,
        };
        put_connection(env, this, NIL, request);
    }
}

/// Answers a request at once. With a body it is given as data, and the response
/// has the status 200; without one the guest is offline. The response and the
/// error are written where addresses are given.
pub fn send_synchronous_request(
    env: &mut Environment,
    pool: &mut State,
    body: &Option<Vec<u8>>,
    response: u32,
    out_error: u32,
) -> (data: Id)
    requires
        old(env).wf(),
        old(pool).wf(old(env).objc.objects@),
        response == 0 || old(env).mem.mapped(response as int, 4),
        out_error == 0 || old(env).mem.mapped(out_error as int, 4),
        old(env).has_room(
            2,
            match body {
                Some(b) => b@.len() as int,
                None => 0,
            },
        ),
    ensures
        final(env).wf(),
        final(env).mem.null_segment_size == old(env).mem.null_segment_size,
        match body {
            Some(b) => {
                let first = old(env).objc.objects@.len();
                let with_body = old(env).mem.bytes@ + b@;
                let with_response = ns_string::word_put(with_body, response, (first + 1) as int);
                &&& data == first
                &&& final(env).mem.bytes@ == ns_string::word_put(with_response, out_error, 0)
                &&& final(env).objc.objects@[data as int] == (Object {
                    retain_count: Some(1),
                    host: HostObject::Data {
                        bytes: old(env).mem.bytes@.len() as u32,
                        length: b@.len() as u32,
                        free_when_done: true,
                        mutable: false,
                    },
                })
                &&& final(env).objc.objects@.take(first as int) == old(env).objc.objects@
                &&& final(env).mem.allocations@ == old(env).mem.allocations@.push(
                    (old(env).mem.bytes@.len() as u32, b@.len() as u32),
                )
                &&& *final(pool) == *old(pool)
                &&& final(env).autorelease_pool@ == if response == 0 {
                    old(env).autorelease_pool@.push(data)
                } else {
                    old(env).autorelease_pool@.push(data).push((first + 1) as Id)
                }
                &&& response == 0 ==> final(env).objc.objects@.len() == first + 1
                &&& response != 0 ==> {
                    &&& final(env).objc.objects@.len() == first + 2
                    &&& final(env).objc.objects@.last() == (Object {
                        retain_count: Some(1),
                        host: HostObject::HttpResponse(200),
                    })
                }
            },
            None => {
                &&& data == NIL
                &&& final(env).mem.allocations@ == old(env).mem.allocations@
                &&& out_error == 0 ==> {
                    &&& *final(pool) == *old(pool)
                    &&& final(env).autorelease_pool == old(env).autorelease_pool
                    &&& final(env).objc == old(env).objc
                    &&& final(env).mem.bytes@ == ns_string::word_put(
                        old(env).mem.bytes@,
                        response,
                        0,
                    )
                }
                &&& out_error != 0 ==> exists|mid: Environment, after: Environment, error: Id|
                    {
                        &&& #[trigger] offline_error(mid, after, *old(pool), *final(pool), error)
                        &&& mid.objc == old(env).objc
                        &&& mid.autorelease_pool == old(env).autorelease_pool
                        &&& final(env).autorelease_pool == after.autorelease_pool
                        &&& mid.mem.bytes@ == ns_string::word_put(
                            old(env).mem.bytes@,
                            response,
                            0,
                        )
                        &&& final(env).objc == after.objc
                        &&& final(env).mem.bytes@ == ns_string::word_put(
                            after.mem.bytes@,
                            out_error,
                            error as int,
                        )
                    }
            },
        },
{
    let ghost first = old(env).objc.objects@;
    match body {
        Some(b) => {
            let data: Id = nsdata_from_bytes(env, b);
            if response != 0 {
                let made: Id = env.objc.alloc_object(HostObject::HttpResponse(200));
                autorelease(env, made);
                ns_string::write_word(env, response, made);
            }
            ns_string::write_word(env, out_error, NIL);
            assert(env.objc.objects@.take(first.len() as int) =~= first);
            data
        },
        None => {
            ns_string::write_word(env, response, NIL);
            if out_error != 0 {
                let ghost mid = *env;
                let error: Id = new_offline_error(env, pool);
                let ghost after = *env;
                assert(offline_error(mid, after, *old(pool), *pool, error));
                ns_string::write_word(env, out_error, error);
            }
            NIL
        },
    }
}

/// A delegate is told of the response, then of the data, then of the end, each where it
/// answers to that, and of nothing else.
pub proof fn law_delivery(data: Id, responds: Responds, i: int, j: int)
    ensures
        responds.receive_response <==> delivery(data, responds).contains(
            ConnectionEvent::DidReceiveResponse,
        ),
        responds.receive_data <==> delivery(data, responds).contains(
            ConnectionEvent::DidReceiveData(data),
        ),
        responds.finish_loading <==> delivery(data, responds).contains(
            ConnectionEvent::DidFinishLoading,
        ),
        0 <= i < delivery(data, responds).len() ==> (delivery(data, responds)[i]
            is DidReceiveResponse || delivery(data, responds)[i] == ConnectionEvent::DidReceiveData(
            data,
        ) || delivery(data, responds)[i] is DidFinishLoading),
        0 <= i < j < delivery(data, responds).len() ==> !(delivery(data, responds)[i]
            is DidFinishLoading) && !(delivery(data, responds)[j] is DidReceiveResponse),
        delivery(data, responds).len() <= 3,
{
    let events = delivery(data, responds);
    let first: int = if responds.receive_response {
        1
    } else {
        0
    };
    let second: int = if responds.receive_data {
        first + 1
    } else {
        first
    };
    if responds.receive_response {
        assert(events[0] is DidReceiveResponse);
    }
    if responds.receive_data {
        assert(events[first] == ConnectionEvent::DidReceiveData(data));
    }
    if responds.finish_loading {
        assert(events[second] is DidFinishLoading);
    }
}

} // verus!
