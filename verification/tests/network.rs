use touchhle::cdn::{
    cdn_path, cdn_payload_ok, cdn_resolve, cdn_server_addr, cdn_step, http_get_request,
    relative_of_url, serverlist_override, CdnCache, CdnLookup, CdnSource, CdnStep,
};
use touchhle::cf_stream::{
    context_info, pair_id_of, stream_status, CFReadStreamClose, CFReadStreamHasBytesAvailable,
    CFReadStreamOpen, CFReadStreamRead, CFReadStreamScheduleWithRunLoop, CFReadStreamSetClient,
    CFStreamCreatePairWithSocketToHost, CFWriteStreamCanAcceptBytes, CFWriteStreamClose,
    CFWriteStreamOpen, CFWriteStreamScheduleWithRunLoop, CFWriteStreamSetClient,
    CFWriteStreamWrite, DriveAction, Peek, SocketReply, State, StreamClient, EV_CANACCEPT, EV_END,
    EV_ERROR, EV_HASBYTES, EV_OPEN, ST_ATEND, ST_CLOSED, ST_ERROR, ST_NOTOPEN, ST_OPEN, ST_OPENING,
};
use touchhle::http::{decode_chunked, find_bytes, parse_response};
use touchhle::ns_data::to_rust_slice;
use touchhle::ns_string;
use touchhle::ns_url_connection::{
    cancel, deliver_serverlist, fail_offline, init_with_request, nsdata_from_bytes,
    send_synchronous_request, ConnectionEvent, Responds, NSURLErrorNotConnectedToInternet,
};
use touchhle::objc::{release, Environment, HostObject, NIL};

const PNG: &[u8] = b"\x89PNG\r\n\x1a\nrest";

fn bytes(s: &str) -> Vec<u8> {
    s.as_bytes().to_vec()
}

#[test]
fn chunks_are_joined() {
    assert_eq!(decode_chunked(&bytes("5\r\nhello\r\n0\r\n\r\n")), Some(bytes("hello")));
    assert_eq!(decode_chunked(&bytes("2;x=y\r\nab\r\nA\r\n0123456789\r\n0\r\n")),
        Some(bytes("ab0123456789")));
    assert_eq!(decode_chunked(&bytes(" 2 \r\nab\r\n0\r\n")), Some(bytes("ab")));
    assert_eq!(decode_chunked(&bytes("+2\r\nab\r\n0\r\n")), Some(bytes("ab")));
    assert_eq!(decode_chunked(&bytes("0\r\n")), Some(vec![]));
    assert_eq!(decode_chunked(&bytes("5\r\nhell")), None);
    assert_eq!(decode_chunked(&bytes("x\r\n")), None);
    assert_eq!(decode_chunked(&bytes("")), None);
    assert_eq!(find_bytes(&bytes("abcab"), &bytes("ca")), Some(2));
    assert_eq!(find_bytes(&bytes("abcab"), &bytes("x")), None);
}

#[test]
fn responses_are_parsed() {
    let parse = |s: &str| parse_response(&bytes(s));
    assert_eq!(parse("HTTP/1.1 200 OK\r\nA: b\r\n\r\nbody"), Some(bytes("body")));
    assert_eq!(
        parse("HTTP/1.1 200 OK\r\nTransfer-Encoding: CHUNKED\r\n\r\n1\r\nx\r\n0\r\n"),
        Some(bytes("x"))
    );
    assert_eq!(parse("HTTP/1.1 404 Not Found\r\n\r\nbody"), None);
    assert_eq!(parse("HTTP/1.1\r\n\r\nbody"), None);
    assert_eq!(parse("HTTP/1.1 200 OK\r\n"), None);
    assert_eq!(
        http_get_request("a/b.png", "host"),
        "GET /a/b.png HTTP/1.1\r\nHost: host\r\nUser-Agent: MoleWorld-touchHLE\r\nConnection: close\r\n\r\n"
    );
}

#[test]
fn server_list_is_replaced() {
    let url = Some("http://imolelogin.61.com:8080/dynamic/online.imole".to_string());
    assert_eq!(
        serverlist_override(true, &url, &None),
        Some(bytes("1\nlogin.moleworld.net:7821\n"))
    );
    assert_eq!(
        serverlist_override(true, &url, &Some("h:1".to_string())),
        Some(bytes("1\nh:1\n"))
    );
    assert_eq!(serverlist_override(false, &url, &None), None);
    assert_eq!(serverlist_override(true, &None, &None), None);
    assert_eq!(serverlist_override(true, &Some("http://x/".to_string()), &None), None);
}

#[test]
fn resource_paths() {
    assert_eq!(cdn_path("//ad/x.png?v=1#f"), Some("ad/x.png".to_string()));
    assert_eq!(cdn_path("ad/../x"), None);
    assert_eq!(cdn_path("ad//x"), None);
    assert_eq!(cdn_path("?x"), None);
    assert_eq!(
        relative_of_url("http://mcdn.61.com/ad/x.png"),
        Some("ad/x.png".to_string())
    );
    assert_eq!(relative_of_url("https://mcdn.61.com/"), None);
    let addr = |cdn: Option<&str>, server: Option<&str>| {
        cdn_server_addr(&cdn.map(|s| s.to_string()), &server.map(|s| s.to_string()))
    };
    assert_eq!(addr(Some(" h "), None), Some("h:80".to_string()));
    assert_eq!(addr(Some("h:81"), None), Some("h:81".to_string()));
    assert_eq!(addr(Some("OFF"), Some("h:1")), None);
    assert_eq!(addr(Some(""), None), None);
    assert_eq!(addr(None, Some("h:1")), Some("h:80".to_string()));
    assert_eq!(addr(None, None), Some("login.moleworld.net:80".to_string()));
    assert_eq!(addr(None, Some(":1")), None);
}

#[test]
fn resources_are_resolved_in_order() {
    let png = Some(PNG.to_vec());
    let html = Some(bytes("<html>"));
    assert!(cdn_payload_ok("a.PNG", &PNG.to_vec()) && !cdn_payload_ok("a.png", &bytes("x")));
    assert!(cdn_payload_ok("a.jpeg", &vec![0xff, 0xd8]) && !cdn_payload_ok("a.jpg", &vec![0xff]));
    assert!(cdn_payload_ok("a.xml", &bytes("x")) && !cdn_payload_ok("a.xml", &vec![]));
    assert_eq!(cdn_resolve("a.png", &png, false, &None, &None), png);
    assert_eq!(cdn_resolve("a.png", &html, true, &png, &None), png);
    assert_eq!(cdn_resolve("a.png", &None, false, &png, &None), None);
    assert_eq!(cdn_resolve("a.png", &None, true, &html, &png), png);
    let placeholder = cdn_resolve("ad/noticeBoard_iPad.png", &None, true, &None, &None).unwrap();
    assert_eq!(placeholder.len(), 68);
    assert!(cdn_payload_ok("x.png", &placeholder));
}

#[test]
fn resources_are_looked_for_once() {
    let mut cache = CdnCache::new();
    assert!(matches!(cache.cdn_fetch("../x"), CdnLookup::Refused));
    match cache.cdn_fetch("/a.png?1") {
        CdnLookup::Resolve(path) => {
            assert_eq!(path, "a.png");
            cache.store(path, None);
        }
        _ => panic!(),
    }
    assert!(matches!(cache.cdn_fetch("a.png"), CdnLookup::Found(None)));
    cache.store("b.png".to_string(), Some(vec![1]));
    match cache.cdn_fetch("b.png") {
        CdnLookup::Found(found) => assert_eq!(found, Some(vec![1])),
        _ => panic!(),
    }
}

fn connected(env: &mut Environment, state: &mut State) -> (u32, u32) {
    let out = env.mem.allocate(8);
    CFStreamCreatePairWithSocketToHost(env, state, "h".to_string(), 0x1_0050, out, out + 4);
    (env.mem.read_u32(out), env.mem.read_u32(out + 4))
}

#[test]
fn streams_report_what_happens() {
    let mut env = Environment::new(0x1000);
    let mut state = State::new();
    let (r, w) = connected(&mut env, &mut state);
    assert_eq!(pair_id_of(&env, r), Some((0, false)));
    assert_eq!(pair_id_of(&env, w), Some((0, true)));
    assert_eq!(pair_id_of(&env, NIL), None);
    assert_eq!(state.pairs[0].port, 80);
    assert_eq!(state.status(0), ST_NOTOPEN);
    let all = EV_OPEN | EV_HASBYTES | EV_END | EV_ERROR | EV_CANACCEPT;
    state.set_client(0, false, StreamClient { callback: 0x101, flags: all, info: 7 });
    state.set_client(0, true, StreamClient { callback: 0x201, flags: all, info: 8 });
    state.schedule(0);
    assert!(state.needs_connection(0, true));
    state.ensure_connected(0, true, true);
    assert!(!state.needs_connection(0, true));
    assert!(state.open(0));
    assert_eq!(state.status(0), ST_OPEN);
    assert!(state.can_accept_bytes(0));
    let fire = |callback, stream, event, info| DriveAction::Fire { callback, stream, event, info };
    let mut round = |state: &mut State, seen: Vec<Peek>| {
        let mut actions = vec![];
        let mut seen = seen.into_iter();
        let mut cursor = state.begin_round();
        let mut peek = Peek::Nothing;
        loop {
            let (action, next) = state.drive_streams(cursor, peek);
            cursor = next;
            peek = Peek::Nothing;
            match action {
                DriveAction::Finished => break,
                DriveAction::Look(_) => peek = seen.next().unwrap(),
                other => actions.push(other),
            }
        }
        actions
    };
    assert_eq!(
        round(&mut state, vec![Peek::Bytes]),
        vec![
            fire(0x101, r, EV_OPEN, 7),
            fire(0x201, w, EV_OPEN, 8),
            fire(0x101, r, EV_HASBYTES, 7),
            fire(0x201, w, EV_CANACCEPT, 8),
        ]
    );
    assert_eq!(round(&mut state, vec![Peek::Nothing]), vec![fire(0x201, w, EV_CANACCEPT, 8)]);
    assert_eq!(
        round(&mut state, vec![Peek::Eof]),
        vec![fire(0x101, r, EV_END, 7), fire(0x201, w, EV_CANACCEPT, 8)]
    );
    assert_eq!(state.status(0), ST_ATEND);
    state.close_pair(0);
    assert_eq!(state.status(0), ST_CLOSED);
    assert_eq!(round(&mut state, vec![]), vec![]);
}

#[test]
fn streams_do_not_connect_offline() {
    let mut env = Environment::new(0x1000);
    let mut state = State::new();
    let (r, _) = connected(&mut env, &mut state);
    assert!(!state.needs_connection(0, false));
    state.ensure_connected(0, false, true);
    assert!(!state.pairs[0].connected && !state.pairs[0].error);
    assert!(CFReadStreamOpen(&env, &mut state, r, false, true));
    assert_eq!(stream_status(&env, &state, r), ST_OPENING);
    assert!(!CFWriteStreamCanAcceptBytes(&env, &state, r));
}

#[test]
fn streams_are_used_by_their_objects() {
    let mut env = Environment::new(0x1000);
    let mut state = State::new();
    let (r, w) = connected(&mut env, &mut state);
    let (other, _) = connected(&mut env, &mut state);
    let context = env.mem.allocate_with(&vec![0, 0, 0, 0, 5, 0, 0, 0], 8);
    assert!(CFReadStreamSetClient(&env, &mut state, r, EV_OPEN, 0x101, context));
    assert!(CFWriteStreamSetClient(&env, &mut state, w, EV_END, 0x201, 0));
    assert!(CFReadStreamSetClient(&env, &mut state, NIL, EV_OPEN, 0x301, 0));
    assert_eq!(
        state.pairs[0].reader,
        StreamClient { callback: 0x101, flags: EV_OPEN, info: 5 }
    );
    assert_eq!(
        state.pairs[0].writer,
        StreamClient { callback: 0x201, flags: EV_END, info: 0 }
    );
    assert_eq!(
        state.pairs[1].reader,
        StreamClient { callback: 0, flags: 0, info: 0 }
    );
    CFWriteStreamScheduleWithRunLoop(&env, &mut state, w);
    CFReadStreamScheduleWithRunLoop(&env, &mut state, NIL);
    assert!(state.pairs[0].scheduled && !state.pairs[1].scheduled);
    CFReadStreamScheduleWithRunLoop(&env, &mut state, other);
    assert!(state.pairs[1].scheduled);

    assert_eq!(stream_status(&env, &state, r), ST_NOTOPEN);
    assert_eq!(stream_status(&env, &state, NIL), ST_ERROR);
    assert!(CFReadStreamOpen(&env, &mut state, r, true, true));
    assert!(CFWriteStreamOpen(&env, &mut state, w, true, false));
    assert!(!CFReadStreamOpen(&env, &mut state, other, true, false));
    assert!(!CFReadStreamOpen(&env, &mut state, NIL, true, true));
    assert_eq!(stream_status(&env, &state, w), ST_OPEN);
    assert_eq!(stream_status(&env, &state, other), ST_ERROR);
    assert!(CFWriteStreamCanAcceptBytes(&env, &state, w));
    assert!(!CFWriteStreamCanAcceptBytes(&env, &state, other));
    assert!(!CFWriteStreamCanAcceptBytes(&env, &state, NIL));
    assert!(CFReadStreamHasBytesAvailable(&env, &state, r, Peek::Bytes));
    assert!(!CFReadStreamHasBytesAvailable(&env, &state, r, Peek::Eof));
    assert!(!CFReadStreamHasBytesAvailable(&env, &state, other, Peek::Bytes));
    CFWriteStreamClose(&env, &mut state, w);
    assert_eq!(stream_status(&env, &state, r), ST_CLOSED);
    assert!(!CFReadStreamHasBytesAvailable(&env, &state, r, Peek::Bytes));
    CFReadStreamClose(&env, &mut state, NIL);
    assert_eq!(stream_status(&env, &state, other), ST_ERROR);
}

#[test]
fn streams_fail() {
    let mut env = Environment::new(0x1000);
    let mut state = State::new();
    let (r, _) = connected(&mut env, &mut state);
    assert!(state.open(0));
    assert_eq!(state.status(0), ST_OPENING);
    state.ensure_connected(0, true, false);
    assert!(!state.open(0));
    assert_eq!(state.status(0), ST_ERROR);
    assert!(!state.needs_connection(0, true));
    assert_eq!(state.status(9), ST_ERROR);
    assert_eq!(
        CFReadStreamRead(&mut env, &mut state, r, 0, &SocketReply::Read(vec![])),
        -1
    );
}

#[test]
fn streams_are_read_and_written() {
    let mut env = Environment::new(0x1000);
    let mut state = State::new();
    let (r, w) = connected(&mut env, &mut state);
    state.ensure_connected(0, true, true);
    let buffer = env.mem.allocate(4);
    let read = |env: &mut Environment, state: &mut State, reply: SocketReply| {
        CFReadStreamRead(env, state, r, buffer, &reply)
    };
    assert_eq!(read(&mut env, &mut state, SocketReply::Read(vec![1, 2])), 2);
    assert_eq!(env.mem.bytes_at(buffer, 2), vec![1, 2]);
    assert_eq!(read(&mut env, &mut state, SocketReply::WouldBlock), 0);
    assert_eq!(state.status(0), ST_OPEN);
    assert_eq!(CFWriteStreamWrite(&env, &mut state, w, &SocketReply::Written(3)), 3);
    assert_eq!(CFWriteStreamWrite(&env, &mut state, w, &SocketReply::WouldBlock), 0);
    assert_eq!(read(&mut env, &mut state, SocketReply::Read(vec![])), 0);
    assert_eq!(state.status(0), ST_ATEND);
    assert_eq!(CFWriteStreamWrite(&env, &mut state, w, &SocketReply::Failed), -1);
    assert_eq!(state.status(0), ST_ERROR);
    let context = env.mem.allocate_with(&vec![0, 0, 0, 0, 5, 0, 0, 0], 8);
    assert_eq!(context_info(&env, context), 5);
    assert_eq!(context_info(&env, 0), 0);
}

#[test]
fn connections_answer_offline() {
    let mut env = Environment::new(0x1000);
    let mut pool = ns_string::State::new();
    let delegate = env.objc.alloc_object(HostObject::Instance(1));
    let request = env.objc.alloc_object(HostObject::Instance(1));
    let connection =
        env.objc.alloc_object(HostObject::Connection { delegate: NIL, request: NIL });
    init_with_request(&mut env, connection, request, delegate);
    assert_eq!(env.objc.objects[delegate as usize].retain_count, Some(2));
    let all = Responds {
        receive_response: true,
        receive_data: true,
        finish_loading: true,
        fail: true,
    };
    match fail_offline(&mut env, &mut pool, delegate, all) {
        Some(ConnectionEvent::DidFail(error)) => match &env.objc.objects[error as usize].host {
            HostObject::NSError { domain, code } => {
                assert_eq!(*code, NSURLErrorNotConnectedToInternet);
                assert_eq!(ns_string::to_rust_string(&env, *domain), "NSURLErrorDomain");
            }
            _ => panic!(),
        },
        _ => panic!(),
    }
    assert!(fail_offline(&mut env, &mut pool, NIL, all).is_none());
    assert!(fail_offline(&mut env, &mut pool, delegate, Responds { fail: false, ..all }).is_none());
    let events = deliver_serverlist(&mut env, delegate, all, &bytes("1\nh\n"));
    assert_eq!(events.len(), 3);
    match &events[1] {
        ConnectionEvent::DidReceiveData(data) => {
            assert_eq!(to_rust_slice(&env, *data), bytes("1\nh\n"))
        }
        _ => panic!(),
    }
    assert!(deliver_serverlist(&mut env, NIL, all, &bytes("x")).is_empty());
    cancel(&mut env, connection);
    assert_eq!(env.objc.objects[delegate as usize].retain_count, Some(1));
    release(&mut env, connection);
    assert_eq!(env.objc.objects[delegate as usize].retain_count, Some(1));
    assert_eq!(env.objc.objects[request as usize].retain_count, Some(1));
}

#[test]
fn synchronous_requests() {
    let mut env = Environment::new(0x1000);
    let mut pool = ns_string::State::new();
    let response = env.mem.allocate(8);
    let error = response + 4;
    let none = send_synchronous_request(&mut env, &mut pool, &None, response, error);
    assert_eq!((none, env.mem.read_u32(response)), (NIL, NIL));
    assert_ne!(env.mem.read_u32(error), NIL);
    let data =
        send_synchronous_request(&mut env, &mut pool, &Some(bytes("ok")), response, error);
    assert_eq!(to_rust_slice(&env, data), bytes("ok"));
    assert_eq!(env.mem.read_u32(error), NIL);
    match &env.objc.objects[env.mem.read_u32(response) as usize].host {
        HostObject::HttpResponse(code) => assert_eq!(*code, 200),
        _ => panic!(),
    }
    let other = nsdata_from_bytes(&mut env, &bytes("x"));
    assert_eq!(to_rust_slice(&env, other), bytes("x"));
}

#[test]
fn sources_are_asked_one_after_the_other() {
    let png = Some(PNG.to_vec());
    let step = |source, access, reply: &Option<Vec<u8>>| match cdn_step("a.png", source, access, reply) {
        CdnStep::Look(next) => Err(next),
        CdnStep::Done(found) => Ok(found),
    };
    assert_eq!(step(CdnSource::Override, true, &png), Ok(png.clone()));
    assert_eq!(step(CdnSource::Override, true, &None), Err(CdnSource::Server));
    assert_eq!(step(CdnSource::Override, false, &Some(vec![1])), Err(CdnSource::Bundle));
    assert_eq!(step(CdnSource::Server, true, &png), Ok(png.clone()));
    assert_eq!(step(CdnSource::Server, true, &None), Err(CdnSource::Bundle));
    assert_eq!(step(CdnSource::Bundle, true, &png), Ok(png.clone()));
    assert_eq!(step(CdnSource::Bundle, true, &None), Ok(None));
}
