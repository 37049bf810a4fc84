//! `CFStream`: pairs of streams to a host, and the events that their clients are
//! told of.
use crate::mem;
use crate::objc::{Environment, HostObject, Id, Object, NIL};
use vstd::prelude::*;

verus! {

/// The events: a stream is open, has bytes, takes bytes, has failed, has ended.
pub const EV_OPEN: u32 = 1;

pub const EV_HASBYTES: u32 = 2;

pub const EV_CANACCEPT: u32 = 4;

pub const EV_ERROR: u32 = 8;

pub const EV_END: u32 = 16;

/// The states of a stream.
pub const ST_NOTOPEN: i32 = 0;

pub const ST_OPENING: i32 = 1;

pub const ST_OPEN: i32 = 2;

pub const ST_ATEND: i32 = 5;

pub const ST_CLOSED: i32 = 6;

pub const ST_ERROR: i32 = 7;

/// The client of one end of a pair: a guest function, the events it wants to know
/// of, and a word that it is given.
#[derive(Clone, Copy, Debug, PartialEq, Eq, Structural)]
pub struct StreamClient {
    pub callback: u32,
    pub flags: u32,
    pub info: u32,
}

/// A pair of streams over one socket.
pub struct StreamPair {
    pub host: String,
    pub port: u16,
    /// Whether there is a socket.
    pub socket: bool,
    pub opened: bool,
    pub connected: bool,
    pub error: bool,
    pub eof: bool,
    pub closed: bool,
    pub read_ref: Id,
    pub write_ref: Id,
    pub reader: StreamClient,
    pub writer: StreamClient,
    pub scheduled: bool,
    pub open_fired_read: bool,
    pub open_fired_write: bool,
    pub end_fired: bool,
}

/// All pairs, by their numbers.
pub struct State {
    pub pairs: Vec<StreamPair>,
}

/// The pair and the end of it that a stream object stands for.
pub open spec fn stream_at(objects: Seq<Object>, id: Id) -> Option<(u32, bool)> {
    if 0 < id < objects.len() {
        match objects[id as int].host {
            HostObject::Stream { pair, is_write } => Some((pair, is_write)),
            _ => None,
        }
    } else {
        None
    }
}

/// A stream object, or `nil`.
pub open spec fn stream_or_nil(objects: Seq<Object>, id: Id) -> bool {
    id == NIL || stream_at(objects, id) is Some
}

pub fn pair_id_of(env: &Environment, stream: Id) -> (found: Option<(u32, bool)>)
    requires
        env.wf(),
        stream_or_nil(env.objc.objects@, stream),
    ensures
        found == stream_at(env.objc.objects@, stream),
{
    if stream == NIL {
        return None;
    }
    match &env.objc.objects[stream as usize].host {
        HostObject::Stream { pair, is_write } => Some((*pair, *is_write)),
        _ => None,
    }
}

/// The word that a client context holds for its callback; zero without a context.
pub fn context_info(env: &Environment, context: u32) -> (info: u32)
    requires
        env.wf(),
        context == 0 || (context <= u32::MAX - 4 && env.mem.mapped(context + 4, 4)),
    ensures
        info == if context == 0 {
            0
        } else {
            mem::le_value(env.mem.span(context + 4, 4))
        },
{
    if context == 0 {
        0
    } else {
        env.mem.read_u32(context + 4)
    }
}

/// A client that wants to know nothing.
pub open spec fn no_client() -> StreamClient {
    StreamClient { callback: 0, flags: 0, info: 0 }
}

/// A pair that has just been made.
pub open spec fn is_new_pair(
    pair: StreamPair,
    host: Seq<char>,
    port: u16,
    read_ref: Id,
    write_ref: Id,
) -> bool {
    &&& pair.host@ == host
    &&& pair.port == port
    &&& pair.read_ref == read_ref
    &&& pair.write_ref == write_ref
    &&& !pair.socket && !pair.opened && !pair.connected && !pair.error && !pair.eof && !pair.closed
    &&& pair.reader == no_client() && pair.writer == no_client()
    &&& !pair.scheduled && !pair.open_fired_read && !pair.open_fired_write && !pair.end_fired
}

/// Guest memory with a reference written where an address is given.
pub open spec fn id_put(bytes: Seq<u8>, addr: u32, id: int) -> Seq<u8> {
    if addr == 0 {
        bytes
    } else {
        mem::splice(bytes, addr as int, mem::le_bytes(id, 4))
    }
}

/// Makes a pair of streams to a host, not yet open, and writes the references to
/// its two ends where addresses are given.
pub fn CFStreamCreatePairWithSocketToHost(
    env: &mut Environment,
    state: &mut State,
    host: String,
    port: u32,
    read_stream_out: u32,
    write_stream_out: u32,
)
    requires
        old(env).wf(),
        old(env).has_room(2, 0),
        old(state).pairs@.len() < u32::MAX,
        read_stream_out == 0 || old(env).mem.mapped(read_stream_out as int, 4),
        write_stream_out == 0 || old(env).mem.mapped(write_stream_out as int, 4),
    ensures
        final(env).wf(),
        ({
            let n = old(state).pairs@.len() as u32;
            let first = old(env).objc.objects@.len();
            &&& final(env).objc.objects@ == old(env).objc.objects@.push(
                Object {
                    retain_count: Some(1),
                    host: HostObject::Stream { pair: n, is_write: false },
                },
            ).push(
                Object {
                    retain_count: Some(1),
                    host: HostObject::Stream { pair: n, is_write: true },
                },
            )
            &&& final(state).pairs@.len() == n + 1
            &&& final(state).pairs@.drop_last() == old(state).pairs@
            &&& is_new_pair(
                final(state).pairs@.last(),
                host@,
                (port % 0x1_0000) as u16,
                first as u32,
                (first + 1) as u32,
            )
            &&& final(env).mem.bytes@ == id_put(
                id_put(old(env).mem.bytes@, read_stream_out, first as int),
                write_stream_out,
                first as int + 1,
            )
        }),
        final(env).mem.null_segment_size == old(env).mem.null_segment_size,
        final(env).mem.allocations@ == old(env).mem.allocations@,
        final(env).autorelease_pool == old(env).autorelease_pool,
{
    let pair: u32 = state.pairs.len() as u32;
    let read_ref: Id = env.objc.alloc_object(HostObject::Stream { pair, is_write: false });
    let write_ref: Id = env.objc.alloc_object(HostObject::Stream { pair, is_write: true });
    let client = StreamClient { callback: 0, flags: 0, info: 0 };
    let ghost before = state.pairs@;
    state.pairs.push(
        StreamPair {
            host,
            port: (port % 0x1_0000) as u16,
            socket: false,
            opened: false,
            connected: false,
            error: false,
            eof: false,
            closed: false,
            read_ref,
            write_ref,
            reader: client,
            writer: client,
            scheduled: false,
            open_fired_read: false,
            open_fired_write: false,
            end_fired: false,
        },
    );
    assert(state.pairs@.drop_last() =~= before);
    if read_stream_out != 0 {
        env.mem.write_u32(read_stream_out, read_ref);
    }
    if write_stream_out != 0 {
        env.mem.write_u32(write_stream_out, write_ref);
    }
}

/// All pairs but one are as before.
pub open spec fn others_kept(before: Seq<StreamPair>, after: Seq<StreamPair>, pair: u32) -> bool {
    &&& after.len() == before.len()
    &&& forall|i: int| 0 <= i < before.len() && i != pair ==> #[trigger] after[i] == before[i]
}

impl State {
    pub fn new() -> (state: State)
        ensures
            state.pairs@.len() == 0,
    {
        State { pairs: Vec::new() }
    }

    /// Sets the client of one end of a pair. Nothing happens for an unknown pair.
    pub fn set_client(&mut self, pair: u32, is_write: bool, client: StreamClient)
        ensures
            pair >= old(self).pairs@.len() ==> final(self).pairs@ == old(self).pairs@,
            pair < old(self).pairs@.len() ==> final(self).pairs@ == old(self).pairs@.update(
                pair as int,
                if is_write {
                    StreamPair { writer: client, ..old(self).pairs@[pair as int] }
                } else {
                    StreamPair { reader: client, ..old(self).pairs@[pair as int] }
                },
            ),
    {
        if (pair as usize) < self.pairs.len() {
            let p = &mut self.pairs[pair as usize];
            if is_write {
                p.writer = client;
            } else {
                p.reader = client;
            }
        }
    }

    /// Lets a run loop drive a pair.
    pub fn schedule(&mut self, pair: u32)
        ensures
            pair >= old(self).pairs@.len() ==> final(self).pairs@ == old(self).pairs@,
            pair < old(self).pairs@.len() ==> final(self).pairs@ == old(self).pairs@.update(
                pair as int,
                StreamPair { scheduled: true, ..old(self).pairs@[pair as int] },
            ),
    {
        if (pair as usize) < self.pairs.len() {
            let p = &mut self.pairs[pair as usize];
            p.scheduled = true;
        }
    }

    /// Whether a pair has to be connected before it is open. Without access to the
    /// network no pair is ever connected.
    pub fn needs_connection(&self, pair: u32, network_access: bool) -> (needs: bool)
        ensures
            needs == (network_access && pair < self.pairs@.len()
                && !self.pairs@[pair as int].connected && !self.pairs@[pair as int].error),
    {
        if network_access && (pair as usize) < self.pairs.len() {
            !self.pairs[pair as usize].connected && !self.pairs[pair as usize].error
        } else {
            false
        }
    }

    /// Notes how an attempt to connect a pair has ended. Without access to the network
    /// there is none, and the pair stays as it is.
    pub fn ensure_connected(&mut self, pair: u32, network_access: bool, succeeded: bool)
        ensures
            pair >= old(self).pairs@.len() ==> final(self).pairs@ == old(self).pairs@,
            pair < old(self).pairs@.len() ==> final(self).pairs@ == old(self).pairs@.update(
                pair as int,
                connected_pair(old(self).pairs@[pair as int], network_access, succeeded),
            ),
    {
        if self.needs_connection(pair, network_access) {
            let p = &mut self.pairs[pair as usize];
            if succeeded {
                p.socket = true;
                p.connected = true;
            } else {
                p.error = true;
            }
        }
        assert(self.pairs@ =~= if pair < old(self).pairs@.len() {
            old(self).pairs@.update(
                pair as int,
                connected_pair(old(self).pairs@[pair as int], network_access, succeeded),
            )
        } else {
            old(self).pairs@
        });
    }

    /// Opens a pair; whether it has not failed.
    pub fn open(&mut self, pair: u32) -> (ok: bool)
        ensures
            pair >= old(self).pairs@.len() ==> !ok && final(self).pairs@ == old(self).pairs@,
            pair < old(self).pairs@.len() ==> {
                &&& ok == !old(self).pairs@[pair as int].error
                &&& final(self).pairs@ == old(self).pairs@.update(
                    pair as int,
                    StreamPair { opened: true, ..old(self).pairs@[pair as int] },
                )
            },
    {
        if (pair as usize) < self.pairs.len() {
            let p = &mut self.pairs[pair as usize];
            p.opened = true;
            !p.error
        } else {
            false
        }
    }

    /// Closes both ends of a pair.
    pub fn close_pair(&mut self, pair: u32)
        ensures
            pair >= old(self).pairs@.len() ==> final(self).pairs@ == old(self).pairs@,
            pair < old(self).pairs@.len() ==> final(self).pairs@ == old(self).pairs@.update(
                pair as int,
                closed_pair(old(self).pairs@[pair as int]),
            ),
    {
        if (pair as usize) < self.pairs.len() {
            let p = &mut self.pairs[pair as usize];
            p.socket = false;
            p.closed = true;
            p.connected = false;
        }
    }

    /// Whether bytes can be written to a pair.
    pub fn can_accept_bytes(&self, pair: u32) -> (can: bool)
        ensures
            can == (pair < self.pairs@.len() && self.pairs@[pair as int].connected
                && !self.pairs@[pair as int].error && !self.pairs@[pair as int].closed),
            can == (pair < self.pairs@.len() && accepts(self.pairs@[pair as int])),
    {
        if (pair as usize) < self.pairs.len() {
            let p = &self.pairs[pair as usize];
            p.connected && !p.error && !p.closed
        } else {
            false
        }
    }

    /// The state of a pair. A failure comes before an end by closing, that before
    /// an end of the data, and that before how far the pair is open.
    pub fn status(&self, pair: u32) -> (status: i32)
        ensures
            status == if pair < self.pairs@.len() {
                pair_status(self.pairs@[pair as int])
            } else {
                ST_ERROR
            },
    {
        if (pair as usize) < self.pairs.len() {
            let p = &self.pairs[pair as usize];
            if p.error {
                ST_ERROR
            } else if p.closed {
                ST_CLOSED
            } else if p.eof {
                ST_ATEND
            } else if p.connected {
                ST_OPEN
            } else if p.opened {
                ST_OPENING
            } else {
                ST_NOTOPEN
            }
        } else {
            ST_ERROR
        }
    }
}

pub open spec fn connected_pair(
    pair: StreamPair,
    network_access: bool,
    succeeded: bool,
) -> StreamPair {
    if !network_access || pair.connected || pair.error {
        pair
    } else if succeeded {
        StreamPair { socket: true, connected: true, ..pair }
    } else {
        StreamPair { error: true, ..pair }
    }
}

pub open spec fn closed_pair(pair: StreamPair) -> StreamPair {
    StreamPair { socket: false, closed: true, connected: false, ..pair }
}

pub open spec fn pair_status(pair: StreamPair) -> i32 {
    if pair.error {
        ST_ERROR
    } else if pair.closed {
        ST_CLOSED
    } else if pair.eof {
        ST_ATEND
    } else if pair.connected {
        ST_OPEN
    } else if pair.opened {
        ST_OPENING
    } else {
        ST_NOTOPEN
    }
}

/// What a socket says when it is read or written.
pub enum SocketReply {
    /// Bytes that have been read, or how many have been written.
    Read(Vec<u8>),
    Written(u32),
    WouldBlock,
    Failed,
}

/// Whether bytes can be written to a pair.
pub open spec fn accepts(pair: StreamPair) -> bool {
    pair.connected && !pair.error && !pair.closed
}

/// What a read gives: the number of bytes, zero at the end of the data or where
/// there are none yet, and -1 for a failure.
pub open spec fn read_result(reply: SocketReply) -> int {
    match reply {
        SocketReply::Read(bytes) => bytes@.len() as int,
        SocketReply::Failed => -1,
        _ => 0,
    }
}

/// Hands what has been read from a socket to the guest. An empty read is the end
/// of the data.
pub fn CFReadStreamRead(
    env: &mut Environment,
    state: &mut State,
    stream: Id,
    buffer: u32,
    reply: &SocketReply,
) -> (n: i32)
    requires
        old(env).wf(),
        stream_or_nil(old(env).objc.objects@, stream),
        reply matches SocketReply::Read(bytes) ==> bytes@.len() <= i32::MAX && (bytes@.len() == 0
            || old(env).mem.mapped(buffer as int, bytes@.len() as int)),
    ensures
        final(env).wf(),
        final(env).objc == old(env).objc,
        final(env).autorelease_pool == old(env).autorelease_pool,
        match stream_at(old(env).objc.objects@, stream) {
            Some((pair, is_write)) if pair < old(state).pairs@.len()
                && old(state).pairs@[pair as int].socket => {
                &&& n == read_result(*reply)
                &&& final(state).pairs@ == old(state).pairs@.update(
                    pair as int,
                    match reply {
                        SocketReply::Read(bytes) if bytes@.len() == 0 => StreamPair {
                            eof: true,
                            ..old(state).pairs@[pair as int]
                        },
                        SocketReply::Failed => StreamPair {
                            error: true,
                            ..old(state).pairs@[pair as int]
                        },
                        _ => old(state).pairs@[pair as int],
                    },
                )
                &&& match reply {
                    SocketReply::Read(bytes) if bytes@.len() > 0 => final(env).mem.is_written(
                        &old(env).mem,
                        buffer as int,
                        bytes@,
                    ),
                    _ => final(env).mem == old(env).mem,
                }
            },
            _ => n == -1 && *final(env) == *old(env) && final(state).pairs@ == old(state).pairs@,
        },
{
    let pair: u32 = match pair_id_of(env, stream) {
        Some((pair, _)) => pair,
        None => {
            return -1;
        },
    };
    if pair as usize >= state.pairs.len() || !state.pairs[pair as usize].socket {
        return -1;
    }
    match reply {
        SocketReply::Read(bytes) => {
            if bytes.len() == 0 {
                let p = &mut state.pairs[pair as usize];
                p.eof = true;
                0
            } else {
                env.mem.write_bytes(buffer, bytes);
                assert(state.pairs@ =~= old(state).pairs@.update(
                    pair as int,
                    old(state).pairs@[pair as int],
                ));
                bytes.len() as i32
            }
        },
        SocketReply::Failed => {
            let p = &mut state.pairs[pair as usize];
            p.error = true;
            -1
        },
        _ => {
            assert(state.pairs@ =~= old(state).pairs@.update(
                pair as int,
                old(state).pairs@[pair as int],
            ));
            0
        },
    }
}

/// Notes how a write to a socket has ended: the number of bytes that it took, zero
/// where it takes none now, and -1 for a failure or where there is no socket.
pub fn CFWriteStreamWrite(
    env: &Environment,
    state: &mut State,
    stream: Id,
    reply: &SocketReply,
) -> (n: i32)
    requires
        env.wf(),
        stream_or_nil(env.objc.objects@, stream),
        reply matches SocketReply::Written(count) ==> count <= i32::MAX,
    ensures
        match stream_at(env.objc.objects@, stream) {
            Some((pair, is_write)) if pair < old(state).pairs@.len()
                && old(state).pairs@[pair as int].socket => {
                &&& n == match reply {
                    SocketReply::Written(count) => *count as int,
                    SocketReply::Failed => -1,
                    _ => 0,
                }
                &&& final(state).pairs@ == old(state).pairs@.update(
                    pair as int,
                    match reply {
                        SocketReply::Failed => StreamPair {
                            error: true,
                            ..old(state).pairs@[pair as int]
                        },
                        _ => old(state).pairs@[pair as int],
                    },
                )
            },
            _ => n == -1 && final(state).pairs@ == old(state).pairs@,
        },
{
    let pair: u32 = match pair_id_of(env, stream) {
        Some((pair, _)) => pair,
        None => {
            return -1;
        },
    };
    if pair as usize >= state.pairs.len() || !state.pairs[pair as usize].socket {
        return -1;
    }
    match reply {
        SocketReply::Failed => {
            let p = &mut state.pairs[pair as usize];
            p.error = true;
            -1
        },
        SocketReply::Written(count) => {
            assert(state.pairs@ =~= old(state).pairs@.update(
                pair as int,
                old(state).pairs@[pair as int],
            ));
            *count as i32
        },
        _ => {
            assert(state.pairs@ =~= old(state).pairs@.update(
                pair as int,
                old(state).pairs@[pair as int],
            ));
            0
        },
    }
}

/// What a look at a socket shows.
#[derive(Clone, Copy, Debug, PartialEq, Eq, Structural)]
pub enum Peek {
    Bytes,
    Eof,
    Failure,
    Nothing,
}

/// The pair of a stream, where it is known.
pub open spec fn known_pair(objects: Seq<Object>, pairs: Seq<StreamPair>, stream: Id) -> Option<
    u32,
> {
    match stream_at(objects, stream) {
        Some((pair, is_write)) if pair < pairs.len() => Some(pair),
        _ => None,
    }
}

fn known_pair_of(env: &Environment, state: &State, stream: Id) -> (pair: Option<u32>)
    requires
        env.wf(),
        stream_or_nil(env.objc.objects@, stream),
    ensures
        pair == known_pair(env.objc.objects@, state.pairs@, stream),
{
    match pair_id_of(env, stream) {
        Some((pair, _)) => if (pair as usize) < state.pairs.len() {
            Some(pair)
        } else {
            None
        },
        None => None,
    }
}

/// The client that a function, its events and a context make.
pub open spec fn client_of(env: Environment, flags: u32, callback: u32, context: u32) -> StreamClient {
    StreamClient {
        callback,
        flags,
        info: if context == 0 {
            0
        } else {
            mem::le_value(env.mem.span(context + 4, 4)) as u32
        },
    }
}

/// Sets the client of the reading end of a stream's pair.
pub fn CFReadStreamSetClient(
    env: &Environment,
    state: &mut State,
    stream: Id,
    flags: u32,
    callback: u32,
    context: u32,
) -> (ok: bool)
    requires
        env.wf(),
        stream_or_nil(env.objc.objects@, stream),
        context == 0 || (context <= u32::MAX - 4 && env.mem.mapped(context + 4, 4)),
    ensures
        ok,
        final(state).pairs@ == match known_pair(env.objc.objects@, old(state).pairs@, stream) {
            Some(pair) => old(state).pairs@.update(
                pair as int,
                (StreamPair {
                    reader: client_of(*env, flags, callback, context),
                    ..old(state).pairs@[pair as int]
                }),
            ),
            None => old(state).pairs@,
        },
{
    let info: u32 = context_info(env, context);
    if let Some(pair) = known_pair_of(env, state, stream) {
        state.set_client(pair, false, StreamClient { callback, flags, info });
    }
    true
}

/// Sets the client of the writing end of a stream's pair.
pub fn CFWriteStreamSetClient(
    env: &Environment,
    state: &mut State,
    stream: Id,
    flags: u32,
    callback: u32,
    context: u32,
) -> (ok: bool)
    requires
        env.wf(),
        stream_or_nil(env.objc.objects@, stream),
        context == 0 || (context <= u32::MAX - 4 && env.mem.mapped(context + 4, 4)),
    ensures
        ok,
        final(state).pairs@ == match known_pair(env.objc.objects@, old(state).pairs@, stream) {
            Some(pair) => old(state).pairs@.update(
                pair as int,
                (StreamPair {
                    writer: client_of(*env, flags, callback, context),
                    ..old(state).pairs@[pair as int]
                }),
            ),
            None => old(state).pairs@,
        },
{
    let info: u32 = context_info(env, context);
    if let Some(pair) = known_pair_of(env, state, stream) {
        state.set_client(pair, true, StreamClient { callback, flags, info });
    }
    true
}

/// The pairs when the pair of a stream has been scheduled.
pub open spec fn pairs_scheduled(
    objects: Seq<Object>,
    pairs: Seq<StreamPair>,
    stream: Id,
) -> Seq<StreamPair> {
    match known_pair(objects, pairs, stream) {
        Some(pair) => pairs.update(
            pair as int,
            StreamPair { scheduled: true, ..pairs[pair as int] },
        ),
        None => pairs,
    }
}

/// Lets a run loop drive the pair of a stream.
pub fn CFReadStreamScheduleWithRunLoop(env: &Environment, state: &mut State, stream: Id)
    requires
        env.wf(),
        stream_or_nil(env.objc.objects@, stream),
    ensures
        final(state).pairs@ == pairs_scheduled(env.objc.objects@, old(state).pairs@, stream),
{
    if let Some(pair) = known_pair_of(env, state, stream) {
        state.schedule(pair);
    }
}

/// Lets a run loop drive the pair of a stream.
pub fn CFWriteStreamScheduleWithRunLoop(env: &Environment, state: &mut State, stream: Id)
    requires
        env.wf(),
        stream_or_nil(env.objc.objects@, stream),
    ensures
        final(state).pairs@ == pairs_scheduled(env.objc.objects@, old(state).pairs@, stream),
{
    if let Some(pair) = known_pair_of(env, state, stream) {
        state.schedule(pair);
    }
}

/// A pair that has been opened, where `connected` says how an attempt to connect it
/// ends.
pub open spec fn opened_pair(
    pair: StreamPair,
    network_access: bool,
    connected: bool,
) -> StreamPair {
    StreamPair { opened: true, ..connected_pair(pair, network_access, connected) }
}

fn open_stream(
    env: &Environment,
    state: &mut State,
    stream: Id,
    network_access: bool,
    connected: bool,
) -> (ok: bool)
    requires
        env.wf(),
        stream_or_nil(env.objc.objects@, stream),
    ensures
        match known_pair(env.objc.objects@, old(state).pairs@, stream) {
            Some(pair) => {
                let opened = opened_pair(old(state).pairs@[pair as int], network_access, connected);
                ok == !opened.error && final(state).pairs@ == old(state).pairs@.update(
                    pair as int,
                    opened,
                )
            },
            None => !ok && final(state).pairs@ == old(state).pairs@,
        },
{
    match known_pair_of(env, state, stream) {
        Some(pair) => {
            state.ensure_connected(pair, network_access, connected);
            let ok: bool = state.open(pair);
            assert(state.pairs@ =~= old(state).pairs@.update(
                pair as int,
                opened_pair(old(state).pairs@[pair as int], network_access, connected),
            ));
            ok
        },
        None => false,
    }
}

/// Opens the pair of a stream; whether it has not failed. `connected` says how an
/// attempt to connect it ends, which is made where the pair needs it.
pub fn CFReadStreamOpen(
    env: &Environment,
    state: &mut State,
    stream: Id,
    network_access: bool,
    connected: bool,
) -> (ok: bool)
    requires
        env.wf(),
        stream_or_nil(env.objc.objects@, stream),
    ensures
        match known_pair(env.objc.objects@, old(state).pairs@, stream) {
            Some(pair) => {
                let opened = opened_pair(old(state).pairs@[pair as int], network_access, connected);
                ok == !opened.error && final(state).pairs@ == old(state).pairs@.update(
                    pair as int,
                    opened,
                )
            },
            None => !ok && final(state).pairs@ == old(state).pairs@,
        },
{
    open_stream(env, state, stream, network_access, connected)
}

/// Opens the pair of a stream; whether it has not failed. `connected` says how an
/// attempt to connect it ends, which is made where the pair needs it.
pub fn CFWriteStreamOpen(
    env: &Environment,
    state: &mut State,
    stream: Id,
    network_access: bool,
    connected: bool,
) -> (ok: bool)
    requires
        env.wf(),
        stream_or_nil(env.objc.objects@, stream),
    ensures
        match known_pair(env.objc.objects@, old(state).pairs@, stream) {
            Some(pair) => {
                let opened = opened_pair(old(state).pairs@[pair as int], network_access, connected);
                ok == !opened.error && final(state).pairs@ == old(state).pairs@.update(
                    pair as int,
                    opened,
                )
            },
            None => !ok && final(state).pairs@ == old(state).pairs@,
        },
{
    open_stream(env, state, stream, network_access, connected)
}

/// Closes both ends of the pair of a stream.
pub fn CFReadStreamClose(env: &Environment, state: &mut State, stream: Id)
    requires
        env.wf(),
        stream_or_nil(env.objc.objects@, stream),
    ensures
        final(state).pairs@ == match known_pair(env.objc.objects@, old(state).pairs@, stream) {
            Some(pair) => old(state).pairs@.update(
                pair as int,
                closed_pair(old(state).pairs@[pair as int]),
            ),
            None => old(state).pairs@,
        },
{
    if let Some(pair) = known_pair_of(env, state, stream) {
        state.close_pair(pair);
    }
}

/// Closes both ends of the pair of a stream.
pub fn CFWriteStreamClose(env: &Environment, state: &mut State, stream: Id)
    requires
        env.wf(),
        stream_or_nil(env.objc.objects@, stream),
    ensures
        final(state).pairs@ == match known_pair(env.objc.objects@, old(state).pairs@, stream) {
            Some(pair) => old(state).pairs@.update(
                pair as int,
                closed_pair(old(state).pairs@[pair as int]),
            ),
            None => old(state).pairs@,
        },
{
    if let Some(pair) = known_pair_of(env, state, stream) {
        state.close_pair(pair);
    }
}

/// Whether there are bytes to read, where `seen` is what a look at the socket of the
/// pair shows.
pub fn CFReadStreamHasBytesAvailable(
    env: &Environment,
    state: &State,
    stream: Id,
    seen: Peek,
) -> (available: bool)
    requires
        env.wf(),
        stream_or_nil(env.objc.objects@, stream),
    ensures
        available == (known_pair(env.objc.objects@, state.pairs@, stream) matches Some(pair)
            && state.pairs@[pair as int].socket && seen == Peek::Bytes),
{
    match known_pair_of(env, state, stream) {
        Some(pair) => state.pairs[pair as usize].socket && seen == Peek::Bytes,
        None => false,
    }
}

/// Whether a stream takes bytes.
pub fn CFWriteStreamCanAcceptBytes(env: &Environment, state: &State, stream: Id) -> (can: bool)
    requires
        env.wf(),
        stream_or_nil(env.objc.objects@, stream),
    ensures
        can == (known_pair(env.objc.objects@, state.pairs@, stream) matches Some(pair)
            && state.pairs@[pair as int].connected && !state.pairs@[pair as int].error
            && !state.pairs@[pair as int].closed),
{
    match known_pair_of(env, state, stream) {
        Some(pair) => state.can_accept_bytes(pair),
        None => false,
    }
}

/// The state of a stream; one that is not known has failed.
pub fn stream_status(env: &Environment, state: &State, stream: Id) -> (status: i32)
    requires
        env.wf(),
        stream_or_nil(env.objc.objects@, stream),
    ensures
        status == match known_pair(env.objc.objects@, state.pairs@, stream) {
            Some(pair) => pair_status(state.pairs@[pair as int]),
            None => ST_ERROR,
        },
{
    match known_pair_of(env, state, stream) {
        Some(pair) => state.status(pair),
        None => ST_ERROR,
    }
}

/// The parts of a round over a pair.
#[derive(Clone, Copy, Debug, PartialEq, Eq, Structural)]
pub enum DrivePhase {
    OpenRead,
    OpenWrite,
    Look,
    Seen,
    Accept,
}

/// How far a round over the pairs has come. Pairs that are made during the round
/// are not part of it.
#[derive(Clone, Copy, Debug, PartialEq, Eq, Structural)]
pub struct DriveCursor {
    pub pair: usize,
    pub count: usize,
    pub phase: DrivePhase,
}

/// What a round asks for: a call of a guest function, a look at a socket, or
/// nothing more.
#[derive(Clone, Copy, Debug, PartialEq, Eq, Structural)]
pub enum DriveAction {
    Fire { callback: u32, stream: Id, event: u32, info: u32 },
    Look(usize),
    Finished,
}

pub open spec fn next_cursor(cursor: DriveCursor) -> DriveCursor {
    match cursor.phase {
        DrivePhase::OpenRead => DriveCursor { phase: DrivePhase::OpenWrite, ..cursor },
        DrivePhase::OpenWrite => DriveCursor { phase: DrivePhase::Look, ..cursor },
        DrivePhase::Look => DriveCursor { phase: DrivePhase::Accept, ..cursor },
        DrivePhase::Seen => DriveCursor { phase: DrivePhase::Accept, ..cursor },
        DrivePhase::Accept => DriveCursor {
            pair: (cursor.pair + 1) as usize,
            phase: DrivePhase::OpenRead,
            ..cursor
        },
    }
}

pub open spec fn phase_number(phase: DrivePhase) -> int {
    match phase {
        DrivePhase::OpenRead => 4,
        DrivePhase::OpenWrite => 3,
        DrivePhase::Look => 2,
        DrivePhase::Seen => 1,
        DrivePhase::Accept => 0,
    }
}

/// The call of a client for an event; nothing without a function or a stream.
pub open spec fn fired(client: StreamClient, stream: Id, event: u32) -> Option<DriveAction> {
    if client.callback == 0 || stream == NIL {
        None
    } else {
        Some(
            DriveAction::Fire { callback: client.callback, stream, event, info: client.info },
        )
    }
}

/// What a phase does to its pair and what it asks for.
pub open spec fn phase_step(pair: StreamPair, index: usize, phase: DrivePhase, seen: Peek) -> (
    StreamPair,
    Option<DriveAction>,
) {
    match phase {
        DrivePhase::OpenRead => if pair.connected && pair.scheduled && !pair.open_fired_read
            && pair.reader.flags & EV_OPEN != 0 {
            (
                StreamPair { open_fired_read: true, ..pair },
                fired(pair.reader, pair.read_ref, EV_OPEN),
            )
        } else {
            (pair, None)
        },
        DrivePhase::OpenWrite => if pair.connected && pair.scheduled && !pair.open_fired_write
            && pair.writer.flags & EV_OPEN != 0 {
            (
                StreamPair { open_fired_write: true, ..pair },
                fired(pair.writer, pair.write_ref, EV_OPEN),
            )
        } else {
            (pair, None)
        },
        DrivePhase::Look => if pair.connected && pair.scheduled && pair.open_fired_read
            && !pair.error && !pair.eof && !pair.closed && pair.reader.flags & (EV_HASBYTES | EV_END
            | EV_ERROR) != 0 && pair.socket {
            (pair, Some(DriveAction::Look(index)))
        } else {
            (pair, None)
        },
        DrivePhase::Seen => match seen {
            Peek::Bytes => (
                pair,
                if pair.reader.flags & EV_HASBYTES != 0 {
                    fired(pair.reader, pair.read_ref, EV_HASBYTES)
                } else {
                    None
                },
            ),
            Peek::Eof => (
                StreamPair { eof: true, end_fired: true, ..pair },
                if pair.reader.flags & EV_END != 0 {
                    fired(pair.reader, pair.read_ref, EV_END)
                } else {
                    None
                },
            ),
            Peek::Failure => (
                StreamPair { error: true, ..pair },
                if pair.reader.flags & EV_ERROR != 0 {
                    fired(pair.reader, pair.read_ref, EV_ERROR)
                } else {
                    None
                },
            ),
            Peek::Nothing => (pair, None),
        },
        DrivePhase::Accept => if pair.connected && pair.scheduled && pair.open_fired_write
            && !pair.error && !pair.closed && pair.writer.flags & EV_CANACCEPT != 0 {
            (pair, fired(pair.writer, pair.write_ref, EV_CANACCEPT))
        } else {
            (pair, None)
        },
    }
}

/// The cursor after a phase has asked for something.
pub open spec fn cursor_after(cursor: DriveCursor, action: DriveAction) -> DriveCursor {
    match action {
        DriveAction::Look(_) => DriveCursor { phase: DrivePhase::Seen, ..cursor },
        _ => next_cursor(cursor),
    }
}

/// The rest of a round up to the next thing that it asks for: the pairs after it,
/// what is asked for, and where the round goes on.
pub open spec fn driven(pairs: Seq<StreamPair>, cursor: DriveCursor, seen: Peek) -> (
    Seq<StreamPair>,
    DriveAction,
    DriveCursor,
)
    decreases cursor.count - cursor.pair, phase_number(cursor.phase),
{
    if cursor.pair >= cursor.count || cursor.pair >= pairs.len() {
        (pairs, DriveAction::Finished, cursor)
    } else {
        let (after, action) = phase_step(
            pairs[cursor.pair as int],
            cursor.pair,
            cursor.phase,
            seen,
        );
        let updated = pairs.update(cursor.pair as int, after);
        match action {
            Some(a) => (updated, a, cursor_after(cursor, a)),
            None => driven(updated, next_cursor(cursor), seen),
        }
    }
}

fn client_call(client: StreamClient, stream: Id, event: u32) -> (action: Option<DriveAction>)
    ensures
        action == fired(client, stream, event),
{
    if client.callback == 0 || stream == NIL {
        None
    } else {
        Some(
            DriveAction::Fire { callback: client.callback, stream, event, info: client.info },
        )
    }
}

fn advance(cursor: DriveCursor) -> (next: DriveCursor)
    requires
        cursor.pair < cursor.count,
    ensures
        next == next_cursor(cursor),
{
    match cursor.phase {
        DrivePhase::OpenRead => DriveCursor {
            pair: cursor.pair,
            count: cursor.count,
            phase: DrivePhase::OpenWrite,
        },
        DrivePhase::OpenWrite => DriveCursor {
            pair: cursor.pair,
            count: cursor.count,
            phase: DrivePhase::Look,
        },
        DrivePhase::Look => DriveCursor {
            pair: cursor.pair,
            count: cursor.count,
            phase: DrivePhase::Accept,
        },
        DrivePhase::Seen => DriveCursor {
            pair: cursor.pair,
            count: cursor.count,
            phase: DrivePhase::Accept,
        },
        DrivePhase::Accept => DriveCursor {
            pair: cursor.pair + 1,
            count: cursor.count,
            phase: DrivePhase::OpenRead,
        },
    }
}

impl State {
    /// The start of a round over all pairs that there are now.
    pub fn begin_round(&self) -> (cursor: DriveCursor)
        ensures
            cursor == (DriveCursor {
                pair: 0,
                count: self.pairs@.len() as usize,
                phase: DrivePhase::OpenRead,
            }),
    {
        DriveCursor { pair: 0, count: self.pairs.len(), phase: DrivePhase::OpenRead }
    }

    fn run_phase(&mut self, index: usize, phase: DrivePhase, seen: Peek) -> (action: Option<
        DriveAction,
    >)
        requires
            index < old(self).pairs@.len(),
        ensures
            ({
                let (after, asked) = phase_step(
                    old(self).pairs@[index as int],
                    index,
                    phase,
                    seen,
                );
                &&& final(self).pairs@ == old(self).pairs@.update(index as int, after)
                &&& action == asked
            }),
    {
        let p = &mut self.pairs[index];
        let reader: StreamClient = p.reader;
        let writer: StreamClient = p.writer;
        let mut action: Option<DriveAction> = None;
        match phase {
            DrivePhase::OpenRead => {
                if p.connected && p.scheduled && !p.open_fired_read && reader.flags & EV_OPEN
                    != 0 {
                    p.open_fired_read = true;
                    action = client_call(reader, p.read_ref, EV_OPEN);
                }
            },
            DrivePhase::OpenWrite => {
                if p.connected && p.scheduled && !p.open_fired_write && writer.flags & EV_OPEN
                    != 0 {
                    p.open_fired_write = true;
                    action = client_call(writer, p.write_ref, EV_OPEN);
                }
            },
            DrivePhase::Look => {
                if p.connected && p.scheduled && p.open_fired_read && !p.error && !p.eof
                    && !p.closed && reader.flags & (EV_HASBYTES | EV_END | EV_ERROR) != 0
                    && p.socket {
                    action = Some(DriveAction::Look(index));
                }
            },
            DrivePhase::Seen => {
                match seen {
                    Peek::Bytes => {
                        if reader.flags & EV_HASBYTES != 0 {
                            action = client_call(reader, p.read_ref, EV_HASBYTES);
                        }
                    },
                    Peek::Eof => {
                        p.eof = true;
                        p.end_fired = true;
                        if reader.flags & EV_END != 0 {
                            action = client_call(reader, p.read_ref, EV_END);
                        }
                    },
                    Peek::Failure => {
                        p.error = true;
                        if reader.flags & EV_ERROR != 0 {
                            action = client_call(reader, p.read_ref, EV_ERROR);
                        }
                    },
                    Peek::Nothing => {},
                }
            },
            DrivePhase::Accept => {
                if p.connected && p.scheduled && p.open_fired_write && !p.error && !p.closed
                    && writer.flags & EV_CANACCEPT != 0 {
                    action = client_call(writer, p.write_ref, EV_CANACCEPT);
                }
            },
        }
        assert(self.pairs@ =~= old(self).pairs@.update(
            index as int,
            phase_step(old(self).pairs@[index as int], index, phase, seen).0,
        ));
        action
    }

    /// Goes on with a round up to the next thing that it asks for. `seen` is what a
    /// look at a socket has shown, where the last thing was that.
    pub fn drive_streams(&mut self, cursor: DriveCursor, seen: Peek) -> (r: (
        DriveAction,
        DriveCursor,
    ))
        ensures
            (final(self).pairs@, r.0, r.1) == driven(old(self).pairs@, cursor, seen),
    {
        let mut at: DriveCursor = cursor;
        while at.pair < at.count && at.pair < self.pairs.len()
            invariant
                driven(self.pairs@, at, seen) == driven(old(self).pairs@, cursor, seen),
            decreases at.count - at.pair, phase_number(at.phase),
        {
            let action: Option<DriveAction> = self.run_phase(at.pair, at.phase, seen);
            match action {
                Some(a) => {
                    let next: DriveCursor = match a {
                        DriveAction::Look(_) => DriveCursor {
                            pair: at.pair,
                            count: at.count,
                            phase: DrivePhase::Seen,
                        },
                        _ => advance(at),
                    };
                    return (a, next);
                },
                None => {
                    at = advance(at);
                },
            }
        }
        (DriveAction::Finished, at)
    }
}

/// A stream is reported as open at most once: the event comes only for a pair that
/// had not been reported, and it is noted.
pub proof fn law_open_is_fired_once(pair: StreamPair, index: usize, phase: DrivePhase, seen: Peek)
    ensures
        ({
            let (after, action) = phase_step(pair, index, phase, seen);
            &&& pair.open_fired_read ==> after.open_fired_read
            &&& pair.open_fired_write ==> after.open_fired_write
            &&& action matches Some(DriveAction::Fire { callback, stream, event, info }) ==> (event
                == EV_OPEN ==> {
                ||| phase == DrivePhase::OpenRead && !pair.open_fired_read && after.open_fired_read
                ||| phase == DrivePhase::OpenWrite && !pair.open_fired_write
                    && after.open_fired_write
            })
        }),
{
}

/// No event comes from a pair that is closed but for one that a look at its socket
/// had shown before.
pub proof fn law_closed_pair_is_silent(pair: StreamPair, index: usize, phase: DrivePhase, seen: Peek)
    requires
        phase != DrivePhase::Seen,
    ensures
        phase_step(closed_pair(pair), index, phase, seen) == (
            closed_pair(pair),
            None::<DriveAction>,
        ),
{
}

/// Without access to the network a pair that is not connected stays so, whatever is
/// said of an attempt.
pub proof fn law_offline_pair_is_not_connected(pair: StreamPair, succeeded: bool)
    ensures
        opened_pair(pair, false, succeeded) == (StreamPair { opened: true, ..pair }),
{
}

/// A closed pair counts as closed unless it has failed, and a failure is never
/// forgotten.
pub proof fn law_status(pair: StreamPair, index: usize, phase: DrivePhase, seen: Peek)
    ensures
        pair_status(closed_pair(pair)) == if pair.error {
            ST_ERROR
        } else {
            ST_CLOSED
        },
        pair_status(pair) == ST_ERROR ==> pair_status(
            phase_step(pair, index, phase, seen).0,
        ) == ST_ERROR && pair_status(closed_pair(pair)) == ST_ERROR,
        pair_status(pair) == ST_ERROR ==> pair_status(connected_pair(pair, true, true)) == ST_ERROR,
{
}

/// An event that a client is told of: the pair, which end of it, what the client wanted
/// to know of, whether the pair was connected and scheduled, and the call. There is no
/// call without a function.
pub struct Notice {
    pub pair: usize,
    pub is_write: bool,
    pub event: u32,
    pub flags: u32,
    pub is_live: bool,
    pub call: Option<DriveAction>,
}

pub open spec fn read_notice(pair: StreamPair, index: usize, event: u32) -> Option<Notice> {
    if pair.reader.flags & event != 0 {
        Some(
            Notice {
                pair: index,
                is_write: false,
                event,
                flags: pair.reader.flags,
                is_live: pair.connected && pair.scheduled,
                call: fired(pair.reader, pair.read_ref, event),
            },
        )
    } else {
        None
    }
}

pub open spec fn write_notice(pair: StreamPair, index: usize, event: u32) -> Option<Notice> {
    if pair.writer.flags & event != 0 {
        Some(
            Notice {
                pair: index,
                is_write: true,
                event,
                flags: pair.writer.flags,
                is_live: pair.connected && pair.scheduled,
                call: fired(pair.writer, pair.write_ref, event),
            },
        )
    } else {
        None
    }
}

/// The event of a phase.
pub open spec fn phase_notice(pair: StreamPair, index: usize, phase: DrivePhase, seen: Peek) -> Option<
    Notice,
> {
    match phase {
        DrivePhase::OpenRead => if pair.connected && pair.scheduled && !pair.open_fired_read {
            read_notice(pair, index, EV_OPEN)
        } else {
            None
        },
        DrivePhase::OpenWrite => if pair.connected && pair.scheduled && !pair.open_fired_write {
            write_notice(pair, index, EV_OPEN)
        } else {
            None
        },
        DrivePhase::Look => None,
        DrivePhase::Seen => match seen {
            Peek::Bytes => read_notice(pair, index, EV_HASBYTES),
            Peek::Eof => read_notice(pair, index, EV_END),
            Peek::Failure => read_notice(pair, index, EV_ERROR),
            Peek::Nothing => None,
        },
        DrivePhase::Accept => if pair.connected && pair.scheduled && pair.open_fired_write
            && !pair.error && !pair.closed {
            write_notice(pair, index, EV_CANACCEPT)
        } else {
            None
        },
    }
}

/// A phase asks for the call of its event, and for nothing else but a look.
pub proof fn law_phase_calls_for_its_event(
    pair: StreamPair,
    index: usize,
    phase: DrivePhase,
    seen: Peek,
)
    ensures
        phase != DrivePhase::Look ==> phase_step(pair, index, phase, seen).1 == match phase_notice(
            pair,
            index,
            phase,
            seen,
        ) {
            Some(notice) => notice.call,
            None => None,
        },
        phase == DrivePhase::Look ==> !(phase_step(pair, index, phase, seen).1 matches Some(
            DriveAction::Fire { callback, stream, event, info },
        )),
{
}

pub open spec fn with_notice(notices: Seq<Notice>, notice: Option<Notice>) -> Seq<Notice> {
    match notice {
        Some(n) => notices.push(n),
        None => notices,
    }
}

/// The events of a round up to the next thing that it asks for, behind earlier ones.
pub open spec fn driven_notices(
    pairs: Seq<StreamPair>,
    cursor: DriveCursor,
    seen: Peek,
    notices: Seq<Notice>,
) -> Seq<Notice>
    decreases cursor.count - cursor.pair, phase_number(cursor.phase),
{
    if cursor.pair >= cursor.count || cursor.pair >= pairs.len() {
        notices
    } else {
        let pair = pairs[cursor.pair as int];
        let (after, action) = phase_step(pair, cursor.pair, cursor.phase, seen);
        let more = with_notice(notices, phase_notice(pair, cursor.pair, cursor.phase, seen));
        match action {
            Some(a) => more,
            None => driven_notices(
                pairs.update(cursor.pair as int, after),
                next_cursor(cursor),
                seen,
                more,
            ),
        }
    }
}

/// What there is between two calls: the pairs, where the round is, whether a look at a
/// socket was asked for last, and all events so far.
pub struct DriveRun {
    pub pairs: Seq<StreamPair>,
    pub cursor: DriveCursor,
    pub looked: bool,
    pub notices: Seq<Notice>,
}

/// Nothing has been reported of a pair.
pub open spec fn is_unreported(pair: StreamPair) -> bool {
    !pair.open_fired_read && !pair.open_fired_write
}

pub open spec fn begins(run: DriveRun) -> bool {
    &&& run.notices.len() == 0
    &&& !run.looked
    &&& run.cursor.phase == DrivePhase::OpenRead
    &&& forall|i: int| 0 <= i < run.pairs.len() ==> is_unreported(#[trigger] run.pairs[i])
}

/// What clients, the guest and sockets may do to the pairs between two calls: make new
/// ones, and change all of a pair but what was reported of it; an end of the data and a
/// failure stay.
pub open spec fn pairs_changed(before: Seq<StreamPair>, after: Seq<StreamPair>) -> bool {
    &&& before.len() <= after.len()
    &&& forall|i: int|
        0 <= i < before.len() ==> {
            &&& (#[trigger] after[i]).open_fired_read == before[i].open_fired_read
            &&& after[i].open_fired_write == before[i].open_fired_write
            &&& before[i].error ==> after[i].error
            &&& before[i].eof ==> after[i].eof
        }
    &&& forall|i: int| before.len() <= i < after.len() ==> is_unreported(#[trigger] after[i])
}

/// One step of a run: a new round, a call, or a change of the pairs. After a look was
/// asked for, the next call comes at once, and only it is told what was seen.
pub open spec fn run_step(before: DriveRun, after: DriveRun) -> bool {
    ||| !before.looked && after == (DriveRun {
        cursor: DriveCursor {
            pair: 0,
            count: before.pairs.len() as usize,
            phase: DrivePhase::OpenRead,
        },
        ..before
    })
    ||| !before.looked && pairs_changed(before.pairs, after.pairs) && after == (DriveRun {
        pairs: after.pairs,
        ..before
    })
    ||| exists|seen: Peek|
        {
            let (pairs, action, cursor) = #[trigger] driven(before.pairs, before.cursor, seen);
            &&& before.looked || seen == Peek::Nothing
            &&& after == (DriveRun {
                pairs,
                cursor,
                looked: action is Look,
                notices: driven_notices(before.pairs, before.cursor, seen, before.notices),
            })
        }
}

pub open spec fn is_drive_run(runs: Seq<DriveRun>) -> bool {
    &&& runs.len() > 0
    &&& begins(runs[0])
    &&& forall|i: int| 0 < i < runs.len() ==> run_step(runs[i - 1], #[trigger] runs[i])
}

pub open spec fn is_opening(notice: Notice, pair: int, is_write: bool) -> bool {
    notice.pair == pair && notice.is_write == is_write && notice.event == EV_OPEN
}

/// One of the first `n` events is that an end of a pair is open.
pub open spec fn opened_before(notices: Seq<Notice>, n: int, pair: int, is_write: bool) -> bool {
    exists|i: int| 0 <= i < n && is_opening(#[trigger] notices[i], pair, is_write)
}

pub open spec fn is_ending(notice: Notice, pair: int) -> bool {
    notice.pair == pair && (notice.event == EV_END || notice.event == EV_ERROR)
}

/// Events as clients may rely on them: they come only from pairs that are connected and
/// scheduled, and only where the client wants to know of them; an end of a pair is
/// reported as open once, and before anything else; the end of the data and a failure
/// come once, and not both.
pub open spec fn is_orderly(notices: Seq<Notice>) -> bool {
    &&& forall|i: int|
        0 <= i < notices.len() ==> (#[trigger] notices[i]).is_live && notices[i].flags
            & notices[i].event != 0
    &&& forall|i: int|
        0 <= i < notices.len() ==> ((#[trigger] notices[i]).event == EV_OPEN) != opened_before(
            notices,
            i,
            notices[i].pair as int,
            notices[i].is_write,
        )
    &&& forall|i: int, j: int|
        0 <= i < j < notices.len() ==> !(is_ending(
            #[trigger] notices[i],
            notices[i].pair as int,
        ) && is_ending(#[trigger] notices[j], notices[i].pair as int))
}

/// Whatever happens between the calls, clients are told of events in their order.
pub proof fn law_events_are_orderly(runs: Seq<DriveRun>)
    requires
        is_drive_run(runs),
    ensures
        is_orderly(runs.last().notices),
{
    lemma_run_invariant(runs, runs.len() - 1);
}

/// All that is done to a pair between two calls is such a change: another client, its
/// schedule, a connection, its opening and closing, and what a read or a write notes.
pub proof fn law_pair_changes(
    pairs: Seq<StreamPair>,
    i: int,
    client: StreamClient,
    network_access: bool,
    connected: bool,
)
    requires
        0 <= i < pairs.len(),
    ensures
        pairs_changed(pairs, pairs),
        pairs_changed(pairs, pairs.update(i, (StreamPair { reader: client, ..pairs[i] }))),
        pairs_changed(pairs, pairs.update(i, (StreamPair { writer: client, ..pairs[i] }))),
        pairs_changed(pairs, pairs.update(i, (StreamPair { scheduled: true, ..pairs[i] }))),
        pairs_changed(pairs, pairs.update(i, connected_pair(pairs[i], network_access, connected))),
        pairs_changed(pairs, pairs.update(i, opened_pair(pairs[i], network_access, connected))),
        pairs_changed(pairs, pairs.update(i, closed_pair(pairs[i]))),
        pairs_changed(pairs, pairs.update(i, (StreamPair { eof: true, ..pairs[i] }))),
        pairs_changed(pairs, pairs.update(i, (StreamPair { error: true, ..pairs[i] }))),
{
}

/// What has been reported is noted in the pairs.
spec fn is_noted(pairs: Seq<StreamPair>, notices: Seq<Notice>) -> bool {
    &&& is_orderly(notices)
    &&& forall|k: int| 0 <= k < notices.len() ==> (#[trigger] notices[k]).pair < pairs.len()
    &&& forall|p: int|
        0 <= p < pairs.len() ==> {
            &&& (#[trigger] pairs[p]).open_fired_read == opened_before(
                notices,
                notices.len() as int,
                p,
                false,
            )
            &&& pairs[p].open_fired_write == opened_before(
                notices,
                notices.len() as int,
                p,
                true,
            )
        }
    &&& forall|k: int|
        0 <= k < notices.len() && is_ending(
            #[trigger] notices[k],
            notices[k].pair as int,
        ) ==> pairs[notices[k].pair as int].error || pairs[notices[k].pair as int].eof
}

/// A pair at whose socket there is a look.
spec fn is_looked_at(pair: StreamPair) -> bool {
    pair.connected && pair.scheduled && pair.open_fired_read && !pair.error && !pair.eof
}

spec fn invariant_of(run: DriveRun) -> bool {
    &&& is_noted(run.pairs, run.notices)
    &&& run.looked == (run.cursor.phase == DrivePhase::Seen)
    &&& run.looked ==> run.cursor.pair < run.cursor.count && run.cursor.pair < run.pairs.len()
        && is_looked_at(run.pairs[run.cursor.pair as int])
}

proof fn lemma_run_invariant(runs: Seq<DriveRun>, i: int)
    requires
        is_drive_run(runs),
        0 <= i < runs.len(),
    ensures
        invariant_of(runs[i]),
    decreases i,
{
    if i == 0 {
        let run = runs[0];
        assert forall|p: int| 0 <= p < run.pairs.len() implies {
            &&& (#[trigger] run.pairs[p]).open_fired_read == opened_before(
                run.notices,
                run.notices.len() as int,
                p,
                false,
            )
            &&& run.pairs[p].open_fired_write == opened_before(
                run.notices,
                run.notices.len() as int,
                p,
                true,
            )
        } by {
            assert(is_unreported(run.pairs[p]));
        }
    } else {
        lemma_run_invariant(runs, i - 1);
        let before = runs[i - 1];
        let after = runs[i];
        assert(run_step(before, after));
        if !before.looked && pairs_changed(before.pairs, after.pairs) && after == (DriveRun {
            pairs: after.pairs,
            ..before
        }) {
            lemma_change_keeps_notes(before.pairs, after.pairs, before.notices);
        } else if !(!before.looked && after == (DriveRun {
            cursor: DriveCursor {
                pair: 0,
                count: before.pairs.len() as usize,
                phase: DrivePhase::OpenRead,
            },
            ..before
        })) {
            let seen = choose|seen: Peek|
                {
                    let (pairs, action, cursor) = #[trigger] driven(
                        before.pairs,
                        before.cursor,
                        seen,
                    );
                    &&& before.looked || seen == Peek::Nothing
                    &&& after == (DriveRun {
                        pairs,
                        cursor,
                        looked: action is Look,
                        notices: driven_notices(before.pairs, before.cursor, seen, before.notices),
                    })
                };
            lemma_driven_notes(before.pairs, before.cursor, seen, before.notices);
        }
    }
}

proof fn lemma_change_keeps_notes(
    before: Seq<StreamPair>,
    after: Seq<StreamPair>,
    notices: Seq<Notice>,
)
    requires
        is_noted(before, notices),
        pairs_changed(before, after),
    ensures
        is_noted(after, notices),
{
    assert forall|p: int| 0 <= p < after.len() implies {
        &&& (#[trigger] after[p]).open_fired_read == opened_before(
            notices,
            notices.len() as int,
            p,
            false,
        )
        &&& after[p].open_fired_write == opened_before(notices, notices.len() as int, p, true)
    } by {
        if p < before.len() {
            assert(after[p].open_fired_read == before[p].open_fired_read);
        } else {
            assert(is_unreported(after[p]));
            assert forall|i: int, w: bool|
                #![trigger is_opening(notices[i], p, w)]
                0 <= i < notices.len() implies !is_opening(notices[i], p, w) by {
                assert(notices[i].pair < before.len());
            }
        }
    }
    assert forall|k: int|
        0 <= k < notices.len() && is_ending(
            #[trigger] notices[k],
            notices[k].pair as int,
        ) implies after[notices[k].pair as int].error || after[notices[k].pair as int].eof by {
        let p = notices[k].pair as int;
        assert(notices[k].pair < before.len());
        assert(after[p].open_fired_read == before[p].open_fired_read);
    }
}

proof fn lemma_opened_push(notices: Seq<Notice>, notice: Notice, pair: int, is_write: bool)
    ensures
        opened_before(notices.push(notice), notices.len() as int + 1, pair, is_write) == (
        opened_before(notices, notices.len() as int, pair, is_write) || is_opening(
            notice,
            pair,
            is_write,
        )),
{
    let more = notices.push(notice);
    if opened_before(notices, notices.len() as int, pair, is_write) {
        let i = choose|i: int|
            0 <= i < notices.len() && is_opening(#[trigger] notices[i], pair, is_write);
        assert(is_opening(more[i], pair, is_write));
    }
    if is_opening(notice, pair, is_write) {
        assert(is_opening(more[notices.len() as int], pair, is_write));
    }
    if opened_before(more, notices.len() as int + 1, pair, is_write) {
        let i = choose|i: int|
            0 <= i < more.len() && is_opening(#[trigger] more[i], pair, is_write);
        if i < notices.len() {
            assert(is_opening(notices[i], pair, is_write));
        }
    }
}

proof fn lemma_opened_prefix(notices: Seq<Notice>, notice: Notice, n: int, pair: int, is_write: bool)
    requires
        0 <= n <= notices.len(),
    ensures
        opened_before(notices.push(notice), n, pair, is_write) == opened_before(
            notices,
            n,
            pair,
            is_write,
        ),
{
    let more = notices.push(notice);
    if opened_before(notices, n, pair, is_write) {
        let i = choose|i: int| 0 <= i < n && is_opening(#[trigger] notices[i], pair, is_write);
        assert(is_opening(more[i], pair, is_write));
    }
    if opened_before(more, n, pair, is_write) {
        let i = choose|i: int| 0 <= i < n && is_opening(#[trigger] more[i], pair, is_write);
        assert(is_opening(notices[i], pair, is_write));
    }
}

proof fn lemma_orderly_push(notices: Seq<Notice>, notice: Notice)
    requires
        is_orderly(notices),
        notice.is_live,
        notice.flags & notice.event != 0,
        (notice.event == EV_OPEN) != opened_before(
            notices,
            notices.len() as int,
            notice.pair as int,
            notice.is_write,
        ),
        is_ending(notice, notice.pair as int) ==> forall|k: int|
            0 <= k < notices.len() ==> !is_ending(#[trigger] notices[k], notice.pair as int),
    ensures
        is_orderly(notices.push(notice)),
{
    let more = notices.push(notice);
    let len = notices.len() as int;
    assert forall|i: int| 0 <= i < more.len() implies (#[trigger] more[i]).is_live && more[i].flags
        & more[i].event != 0 by {
        if i < len {
            assert(more[i] == notices[i]);
        }
    }
    assert forall|i: int| 0 <= i < more.len() implies ((#[trigger] more[i]).event == EV_OPEN)
        != opened_before(more, i, more[i].pair as int, more[i].is_write) by {
        lemma_opened_prefix(notices, notice, i, more[i].pair as int, more[i].is_write);
        if i < len {
            assert(more[i] == notices[i]);
        }
    }
    assert forall|i: int, j: int| 0 <= i < j < more.len() implies !(is_ending(
        #[trigger] more[i],
        more[i].pair as int,
    ) && is_ending(#[trigger] more[j], more[i].pair as int)) by {
        assert(more[i] == notices[i]);
        if j < len {
            assert(more[j] == notices[j]);
        }
    }
}

proof fn lemma_phase_notes(
    pairs: Seq<StreamPair>,
    index: usize,
    phase: DrivePhase,
    seen: Peek,
    notices: Seq<Notice>,
)
    requires
        is_noted(pairs, notices),
        index < pairs.len(),
        phase == DrivePhase::Seen ==> is_looked_at(pairs[index as int]),
    ensures
        ({
            let pair = pairs[index as int];
            let (after, action) = phase_step(pair, index, phase, seen);
            &&& is_noted(
                pairs.update(index as int, after),
                with_notice(notices, phase_notice(pair, index, phase, seen)),
            )
            &&& action matches Some(DriveAction::Look(at)) ==> phase == DrivePhase::Look
                && is_looked_at(after)
        }),
{
    let pair = pairs[index as int];
    let after = phase_step(pair, index, phase, seen).0;
    let updated = pairs.update(index as int, after);
    let len = notices.len() as int;
    match phase_notice(pair, index, phase, seen) {
        Some(notice) => {
            let more = notices.push(notice);
            if is_ending(notice, notice.pair as int) {
                assert forall|k: int| 0 <= k < notices.len() implies !is_ending(
                    #[trigger] notices[k],
                    notice.pair as int,
                ) by {
                    if is_ending(notices[k], notice.pair as int) {
                        assert(is_ending(notices[k], notices[k].pair as int));
                    }
                }
            }
            lemma_orderly_push(notices, notice);
            assert forall|k: int| 0 <= k < more.len() implies (#[trigger] more[k]).pair
                < updated.len() by {
                if k < len {
                    assert(more[k] == notices[k]);
                }
            }
            assert forall|p: int| 0 <= p < updated.len() implies {
                &&& (#[trigger] updated[p]).open_fired_read == opened_before(
                    more,
                    more.len() as int,
                    p,
                    false,
                )
                &&& updated[p].open_fired_write == opened_before(
                    more,
                    more.len() as int,
                    p,
                    true,
                )
            } by {
                lemma_opened_push(notices, notice, p, false);
                lemma_opened_push(notices, notice, p, true);
                assert(pairs[p].open_fired_read == opened_before(notices, len, p, false));
            }
            assert forall|k: int|
                0 <= k < more.len() && is_ending(
                    #[trigger] more[k],
                    more[k].pair as int,
                ) implies updated[more[k].pair as int].error || updated[more[k].pair as int].eof by {
                if k < len {
                    assert(more[k] == notices[k]);
                    assert(is_ending(notices[k], notices[k].pair as int));
                }
            }
        },
        None => {
            lemma_unreported_phase(pair, index, phase, seen);
            assert forall|p: int| 0 <= p < updated.len() implies {
                &&& (#[trigger] updated[p]).open_fired_read == opened_before(
                    notices,
                    len,
                    p,
                    false,
                )
                &&& updated[p].open_fired_write == opened_before(notices, len, p, true)
            } by {
                assert(pairs[p].open_fired_read == opened_before(notices, len, p, false));
            }
            assert forall|k: int|
                0 <= k < notices.len() && is_ending(
                    #[trigger] notices[k],
                    notices[k].pair as int,
                ) implies updated[notices[k].pair as int].error
                || updated[notices[k].pair as int].eof by {}
        },
    }
}

proof fn lemma_unreported_phase(pair: StreamPair, index: usize, phase: DrivePhase, seen: Peek)
    requires
        phase_notice(pair, index, phase, seen) is None,
    ensures
        ({
            let after = phase_step(pair, index, phase, seen).0;
            &&& after.open_fired_read == pair.open_fired_read
            &&& after.open_fired_write == pair.open_fired_write
            &&& pair.error ==> after.error
            &&& pair.eof ==> after.eof
        }),
{
}

proof fn lemma_driven_notes(
    pairs: Seq<StreamPair>,
    cursor: DriveCursor,
    seen: Peek,
    notices: Seq<Notice>,
)
    requires
        is_noted(pairs, notices),
        cursor.phase == DrivePhase::Seen ==> cursor.pair < cursor.count && cursor.pair
            < pairs.len() && is_looked_at(pairs[cursor.pair as int]),
    ensures
        ({
            let (after, action, next) = driven(pairs, cursor, seen);
            &&& is_noted(after, driven_notices(pairs, cursor, seen, notices))
            &&& (action is Look) == (next.phase == DrivePhase::Seen)
            &&& action is Look ==> next.pair < next.count && next.pair < after.len()
                && is_looked_at(after[next.pair as int])
        }),
    decreases cursor.count - cursor.pair, phase_number(cursor.phase),
{
    if cursor.pair < cursor.count && cursor.pair < pairs.len() {
        lemma_phase_notes(pairs, cursor.pair, cursor.phase, seen, notices);
        let pair = pairs[cursor.pair as int];
        let (after, action) = phase_step(pair, cursor.pair, cursor.phase, seen);
        if action is None {
            lemma_driven_notes(
                pairs.update(cursor.pair as int, after),
                next_cursor(cursor),
                seen,
                with_notice(notices, phase_notice(pair, cursor.pair, cursor.phase, seen)),
            );
        }
    }
}

/// A stream that failed says so first, then that it has been closed, then that it is at
/// its end; after that it is open once connected, and opening until that.
pub proof fn law_status_codes(pair: StreamPair)
    ensures
        pair.error <==> pair_status(pair) == 7,
        !pair.error && pair.closed <==> pair_status(pair) == 6,
        !pair.error && !pair.closed && pair.eof <==> pair_status(pair) == 5,
        !pair.error && !pair.closed && !pair.eof && pair.connected <==> pair_status(pair) == 2,
        !pair.error && !pair.closed && !pair.eof && !pair.connected && pair.opened <==> pair_status(
            pair,
        ) == 1,
        !pair.error && !pair.closed && !pair.eof && !pair.connected && !pair.opened <==> pair_status(
            pair,
        ) == 0,
{
}

/// A pair is connected at most once and never after it failed: a success gives it a
/// socket, and a failure is kept.
pub proof fn law_connect(pair: StreamPair, network_access: bool, succeeded: bool)
    ensures
        ({
            let after = connected_pair(pair, network_access, succeeded);
            let tried = network_access && !pair.connected && !pair.error;
            &&& after.connected == (pair.connected || (tried && succeeded))
            &&& after.socket == (pair.socket || (tried && succeeded))
            &&& after.error == (pair.error || (tried && !succeeded))
            &&& after == (StreamPair {
                connected: after.connected,
                socket: after.socket,
                error: after.error,
                ..pair
            })
        }),
        ({
            let after = opened_pair(pair, network_access, succeeded);
            after.opened && after == (StreamPair {
                opened: true,
                ..connected_pair(pair, network_access, succeeded)
            })
        }),
        ({
            let after = closed_pair(pair);
            !after.socket && !after.connected && after.closed && after.error == pair.error
                && after.eof == pair.eof && after.opened == pair.opened
        }),
{
}

/// Whether a client asks for an event.
pub open spec fn wants(client: StreamClient, event: u32) -> bool {
    event > 0 && client.flags / event % 2 == 1
}

/// Whether a client can be called with events of a stream.
pub open spec fn can_be_called(client: StreamClient, stream: Id) -> bool {
    client.callback != 0 && stream != 0
}

proof fn lemma_wants(client: StreamClient)
    ensures
        client.flags & 1 != 0 <==> wants(client, 1),
        client.flags & 2 != 0 <==> wants(client, 2),
        client.flags & 4 != 0 <==> wants(client, 4),
        client.flags & 8 != 0 <==> wants(client, 8),
        client.flags & 16 != 0 <==> wants(client, 16),
        client.flags & (2u32 | 16 | 8) != 0 <==> wants(client, 2) || wants(client, 8) || wants(
            client,
            16,
        ),
{
    let flags = client.flags;
    assert((flags & 1 != 0 <==> flags / 1 % 2 == 1) && (flags & 2 != 0 <==> flags / 2 % 2 == 1) && (
    flags & 4 != 0 <==> flags / 4 % 2 == 1) && (flags & 8 != 0 <==> flags / 8 % 2 == 1) && (flags
        & 16 != 0 <==> flags / 16 % 2 == 1) && (flags & (2u32 | 16 | 8) != 0 <==> flags / 2 % 2 == 1
        || flags / 8 % 2 == 1 || flags / 16 % 2 == 1)) by (bit_vector);
}

/// The two streams of a connected pair that is scheduled are reported open, each once and
/// to its own client, if that asks for it.
pub proof fn law_open_events(pair: StreamPair, index: usize, seen: Peek)
    ensures
        ({
            let (after, action) = phase_step(pair, index, DrivePhase::OpenRead, seen);
            let due = pair.connected && pair.scheduled && !pair.open_fired_read && wants(
                pair.reader,
                1,
            );
            &&& after == (StreamPair { open_fired_read: pair.open_fired_read || due, ..pair })
            &&& action == if due && can_be_called(pair.reader, pair.read_ref) {
                Some(
                    DriveAction::Fire {
                        callback: pair.reader.callback,
                        stream: pair.read_ref,
                        event: 1,
                        info: pair.reader.info,
                    },
                )
            } else {
                None
            }
        }),
        ({
            let (after, action) = phase_step(pair, index, DrivePhase::OpenWrite, seen);
            let due = pair.connected && pair.scheduled && !pair.open_fired_write && wants(
                pair.writer,
                1,
            );
            &&& after == (StreamPair { open_fired_write: pair.open_fired_write || due, ..pair })
            &&& action == if due && can_be_called(pair.writer, pair.write_ref) {
                Some(
                    DriveAction::Fire {
                        callback: pair.writer.callback,
                        stream: pair.write_ref,
                        event: 1,
                        info: pair.writer.info,
                    },
                )
            } else {
                None
            }
        }),
{
    lemma_wants(pair.reader);
    lemma_wants(pair.writer);
}

/// The socket is looked at for a reader that has been told of the opening and asks for
/// bytes, the end or errors, until one of the last two has come. What was seen is reported
/// with the event that stands for it, if that is asked for, and the end and a failure are
/// kept either way.
pub proof fn law_read_events(pair: StreamPair, index: usize, seen: Peek)
    ensures
        ({
            let (after, action) = phase_step(pair, index, DrivePhase::Look, seen);
            &&& after == pair
            &&& action == if pair.connected && pair.scheduled && pair.open_fired_read && pair.socket
                && !pair.error && !pair.eof && !pair.closed && (wants(pair.reader, 2) || wants(
                pair.reader,
                8,
            ) || wants(pair.reader, 16)) {
                Some(DriveAction::Look(index))
            } else {
                None
            }
        }),
        ({
            let (after, action) = phase_step(pair, index, DrivePhase::Seen, seen);
            let event: u32 = match seen {
                Peek::Bytes => 2,
                Peek::Eof => 16,
                Peek::Failure => 8,
                Peek::Nothing => 0,
            };
            &&& after == (StreamPair {
                eof: pair.eof || seen is Eof,
                end_fired: pair.end_fired || seen is Eof,
                error: pair.error || seen is Failure,
                ..pair
            })
            &&& action == if event != 0 && wants(pair.reader, event) && can_be_called(
                pair.reader,
                pair.read_ref,
            ) {
                Some(
                    DriveAction::Fire {
                        callback: pair.reader.callback,
                        stream: pair.read_ref,
                        event,
                        info: pair.reader.info,
                    },
                )
            } else {
                None
            }
        }),
{
    lemma_wants(pair.reader);
}

/// A writer that has been told of the opening is told on every turn that it can write, if
/// it asks for that, as long as nothing failed and the pair is not closed.
pub proof fn law_write_events(pair: StreamPair, index: usize, seen: Peek)
    ensures
        ({
            let (after, action) = phase_step(pair, index, DrivePhase::Accept, seen);
            &&& after == pair
            &&& action == if pair.connected && pair.scheduled && pair.open_fired_write
                && !pair.error && !pair.closed && wants(pair.writer, 4) && can_be_called(
                pair.writer,
                pair.write_ref,
            ) {
                Some(
                    DriveAction::Fire {
                        callback: pair.writer.callback,
                        stream: pair.write_ref,
                        event: 4,
                        info: pair.writer.info,
                    },
                )
            } else {
                None
            }
        }),
{
    lemma_wants(pair.writer);
}

/// A pair that is not connected, or not scheduled, is passed over on a turn.
pub proof fn law_idle_pair_is_passed(pairs: Seq<StreamPair>, cursor: DriveCursor, seen: Peek)
    requires
        cursor.pair < cursor.count,
        cursor.pair < pairs.len(),
        cursor.phase == DrivePhase::OpenRead,
        !pairs[cursor.pair as int].connected || !pairs[cursor.pair as int].scheduled,
    ensures
        driven(pairs, cursor, seen) == driven(
            pairs,
            DriveCursor {
                pair: (cursor.pair + 1) as usize,
                count: cursor.count,
                phase: DrivePhase::OpenRead,
            },
            seen,
        ),
{
    let pair = pairs[cursor.pair as int];
    assert(pairs.update(cursor.pair as int, pair) =~= pairs);
    let second = DriveCursor { phase: DrivePhase::OpenWrite, ..cursor };
    let third = DriveCursor { phase: DrivePhase::Look, ..cursor };
    let fourth = DriveCursor { phase: DrivePhase::Accept, ..cursor };
    assert(driven(pairs, cursor, seen) == driven(pairs, second, seen));
    assert(driven(pairs, second, seen) == driven(pairs, third, seen));
    assert(driven(pairs, third, seen) == driven(pairs, fourth, seen));
}

/// A turn ends when it has come to the end of the pairs, and an action leaves off where
/// the turn goes on: behind a look its result is taken, then the writer has its turn, and
/// then the next pair.
pub proof fn law_turn_goes_on(pairs: Seq<StreamPair>, cursor: DriveCursor, seen: Peek)
    ensures
        cursor.pair >= cursor.count || cursor.pair >= pairs.len() ==> driven(pairs, cursor, seen)
            == (pairs, DriveAction::Finished, cursor),
        cursor.pair < cursor.count && cursor.pair < pairs.len() ==> {
            let (after, action) = phase_step(
                pairs[cursor.pair as int],
                cursor.pair,
                cursor.phase,
                seen,
            );
            action is Some ==> {
                let (pairs_after, done, next) = driven(pairs, cursor, seen);
                &&& pairs_after == pairs.update(cursor.pair as int, after)
                &&& Some(done) == action
                &&& next.count == cursor.count
                &&& cursor.phase is OpenRead ==> next.phase is OpenWrite && next.pair == cursor.pair
                &&& cursor.phase is OpenWrite ==> next.phase is Look && next.pair == cursor.pair
                &&& cursor.phase is Look ==> next.phase is Seen && next.pair == cursor.pair
                &&& cursor.phase is Seen ==> next.phase is Accept && next.pair == cursor.pair
                &&& cursor.phase is Accept ==> next.phase is OpenRead && next.pair == cursor.pair + 1
            }
        },
{
}

/// A read hands out as many bytes as came, none where there are none yet, and -1 where it
/// failed.
pub proof fn law_read_result(bytes: Vec<u8>, n: u32)
    ensures
        read_result(SocketReply::Read(bytes)) == bytes@.len(),
        read_result(SocketReply::Failed) == -1,
        read_result(SocketReply::WouldBlock) == 0,
        read_result(SocketReply::Written(n)) == 0,
{
}

/// A client is told the pointer that its context holds behind the first four bytes, and
/// none without a context.
pub proof fn law_client(env: Environment, flags: u32, callback: u32, context: u32)
    requires
        context + 8 <= env.mem.bytes@.len(),
    ensures
        client_of(env, flags, callback, 0).info == 0,
        client_of(env, flags, callback, context).flags == flags,
        client_of(env, flags, callback, context).callback == callback,
        context != 0 ==> client_of(env, flags, callback, context).info == env.mem.bytes@[context
            + 4] + 0x100 * env.mem.bytes@[context + 5] + 0x1_0000 * env.mem.bytes@[context + 6]
            + 0x100_0000 * env.mem.bytes@[context + 7],
{
    let b = env.mem.bytes@;
    let (p, q, r, s) = (b[context + 4], b[context + 5], b[context + 6], b[context + 7]);
    assert(env.mem.span(context + 4, 4) =~= seq![p, q, r, s]);
    mem::law_little_endian(p, q, r, s);
}

/// An identifier is put where it is asked for, with its lowest byte first, and nowhere if
/// there is no place for it.
pub proof fn law_id_put(bytes: Seq<u8>, addr: u32, id: int, i: int)
    requires
        addr + 4 <= bytes.len(),
        0 <= id < 0x1_0000_0000,
        0 <= i < bytes.len(),
    ensures
        id_put(bytes, 0, id) == bytes,
        addr != 0 && !(addr <= i < addr + 4) ==> id_put(bytes, addr, id)[i] == bytes[i],
        addr != 0 ==> id_put(bytes, addr, id)[addr as int] == id % 256,
        addr != 0 ==> id_put(bytes, addr, id)[addr + 1] == id / 256 % 256,
        addr != 0 ==> id_put(bytes, addr, id)[addr + 2] == id / 65_536 % 256,
        addr != 0 ==> id_put(bytes, addr, id)[addr + 3] == id / 16_777_216 % 256,
{
    reveal_with_fuel(mem::le_bytes, 5);
    let new = mem::le_bytes(id, 4);
    assert(new.len() == 4);
    assert(new[0] == id % 256);
    assert(new[1] == id / 256 % 256);
    assert(id / 256 / 256 == id / 65_536);
    assert(id / 65_536 / 256 == id / 16_777_216);
    assert(new[2] == id / 65_536 % 256);
    assert(new[3] == id / 16_777_216 % 256);
}

/// Bytes can be written as long as the stream is open, or at the end of what it reads.
pub proof fn law_accepts(pair: StreamPair)
    ensures
        pair_status(pair) == 2 ==> accepts(pair),
        accepts(pair) ==> pair_status(pair) == 2 || pair_status(pair) == 5,
        pair_status(pair) == 5 ==> accepts(pair) == pair.connected,
        !accepts(closed_pair(pair)),
{
}

/// A new pair is not open, has no clients and has reported nothing; it is scheduled by
/// either of its streams, and that changes nothing else.
pub proof fn law_new_pair(
    pair: StreamPair,
    host: Seq<char>,
    port: u16,
    objects: Seq<Object>,
    pairs: Seq<StreamPair>,
    reader: Id,
    writer: Id,
    number: u32,
    k: int,
)
    requires
        0 < reader < objects.len(),
        0 < writer < objects.len(),
        objects[reader as int].host == (HostObject::Stream { pair: number, is_write: false }),
        objects[writer as int].host == (HostObject::Stream { pair: number, is_write: true }),
        number < pairs.len(),
        0 <= k < pairs.len(),
    ensures
        is_new_pair(pair, host, port, reader, writer) ==> pair_status(pair) == 0 && !accepts(pair)
            && pair.reader.callback == 0 && pair.writer.callback == 0 && !pair.scheduled,
        pairs_scheduled(objects, pairs, reader)[k].scheduled == (pairs[k].scheduled || k == number),
        pairs_scheduled(objects, pairs, writer) == pairs_scheduled(objects, pairs, reader),
        pairs_scheduled(objects, pairs, 0) == pairs,
        k != number ==> pairs_scheduled(objects, pairs, reader)[k] == pairs[k],
{
}

/// A new pair knows where it leads, and which streams are its ends.
pub proof fn law_pair_ends(pair: StreamPair, host: Seq<char>, port: u16, reader: Id, writer: Id)
    ensures
        is_new_pair(pair, host, port, reader, writer) ==> pair.host@ == host && pair.port == port
            && pair.read_ref == reader && pair.write_ref == writer,
        is_new_pair(pair, host, port, reader, writer) ==> !pair.open_fired_read
            && !pair.open_fired_write && !pair.end_fired && !pair.socket,
{
}

} // verus!
