use jsonrpc_core::{IoHandler, Params, Value};
use jsonrpc_ipc_server::{
    Action, Connection, ConnectionTable, Dispatch, Interest, OneShotRegistration, Phase,
    ReadOutcome, Route, RpcServer, Step, WriteOutcome, LISTENER,
};

fn hello_handler() -> IoHandler {
    let mut io = IoHandler::new();
    io.add_sync_method("say_hello", |_params: Params| -> jsonrpc_core::Result<Value> {
        Ok(Value::String("hello".to_string()))
    });
    io
}

/// Reads `request` on `token`, answers it with `io`, and writes the whole
/// answer at once; returns the bytes written.
fn exchange(server: &mut RpcServer, io: &IoHandler, token: usize, request: &str) -> Vec<u8> {
    let text = match server.readable(token, ReadOutcome::Data(request.as_bytes().to_vec())) {
        Dispatch::Handle(text) => text,
        other => panic!("expected a request to handle, got {:?}", other),
    };
    assert_eq!(text, request);
    let answer = io.handle_request_sync(&text).map(|s| s.into_bytes());
    assert_eq!(server.complete_request(token, answer), Action::Rearm(Interest::flushing()));
    let out = server.pending(token);
    assert_eq!(
        server.writable(token, WriteOutcome::Written(out.len())),
        Action::Rearm(Interest::awaiting_request())
    );
    out
}

#[test]
fn test_reqrep() {
    let io = hello_handler();
    let mut server = RpcServer::new();
    let token = server.accept();
    let request = r#"{"jsonrpc": "2.0", "method": "say_hello", "params": [42, 23], "id": 1}"#;
    let response = r#"{"jsonrpc":"2.0","result":"hello","id":1}"#;
    assert_eq!(String::from_utf8(exchange(&mut server, &io, token, request)).unwrap(), response.to_string());
}

#[test]
fn say_hello_reply_is_exact() {
    let io = hello_handler();
    let mut server = RpcServer::new();
    let token = server.accept();
    let request = r#"{"jsonrpc":"2.0","method":"say_hello","params":[],"id":1}"#;
    let out = exchange(&mut server, &io, token, request);
    assert_eq!(out, br#"{"jsonrpc":"2.0","result":"hello","id":1}"#.to_vec());
    assert!(server.is_live(token));
}

#[test]
fn two_clients_get_their_own_replies() {
    let mut io = IoHandler::new();
    io.add_sync_method("left", |_p: Params| -> jsonrpc_core::Result<Value> { Ok(Value::String("L".to_string())) });
    io.add_sync_method("right", |_p: Params| -> jsonrpc_core::Result<Value> { Ok(Value::String("R".to_string())) });
    let mut server = RpcServer::new();
    let a = server.accept();
    let b = server.accept();
    assert_ne!(a, b);
    let ra = r#"{"jsonrpc":"2.0","method":"left","params":[],"id":7}"#;
    let rb = r#"{"jsonrpc":"2.0","method":"right","params":[],"id":8}"#;
    let ta = match server.readable(a, ReadOutcome::Data(ra.as_bytes().to_vec())) {
        Dispatch::Handle(t) => t,
        other => panic!("{:?}", other),
    };
    let tb = match server.readable(b, ReadOutcome::Data(rb.as_bytes().to_vec())) {
        Dispatch::Handle(t) => t,
        other => panic!("{:?}", other),
    };
    server.complete_request(b, io.handle_request_sync(&tb).map(|s| s.into_bytes()));
    server.complete_request(a, io.handle_request_sync(&ta).map(|s| s.into_bytes()));
    assert_eq!(server.pending(a), br#"{"jsonrpc":"2.0","result":"L","id":7}"#.to_vec());
    assert_eq!(server.pending(b), br#"{"jsonrpc":"2.0","result":"R","id":8}"#.to_vec());
}

#[test]
fn no_payload_keeps_the_connection_open() {
    let io = hello_handler();
    let mut server = RpcServer::new();
    let token = server.accept();
    let note = r#"{"jsonrpc":"2.0","method":"say_hello","params":[]}"#;
    let text = match server.readable(token, ReadOutcome::Data(note.as_bytes().to_vec())) {
        Dispatch::Handle(t) => t,
        other => panic!("{:?}", other),
    };
    let answer = io.handle_request_sync(&text).map(|s| s.into_bytes());
    assert!(answer.is_none());
    assert_eq!(server.complete_request(token, answer), Action::Rearm(Interest::awaiting_request()));
    assert!(server.is_live(token));
    assert!(server.pending(token).is_empty());
    let request = r#"{"jsonrpc":"2.0","method":"say_hello","params":[],"id":2}"#;
    let out = exchange(&mut server, &io, token, request);
    assert_eq!(out, br#"{"jsonrpc":"2.0","result":"hello","id":2}"#.to_vec());
}

#[test]
fn one_shot_registration_reports_once() {
    let mut reg = OneShotRegistration::register(3, Interest::awaiting_request());
    let ready = Interest { readable: true, writable: false, hup: false };
    assert_eq!(reg.deliver(ready), ready);
    assert!(reg.deliver(ready).is_empty());
    assert!(reg.deliver(Interest { readable: true, writable: true, hup: true }).is_empty());
    reg.rearm(Interest::awaiting_request());
    assert_eq!(reg.deliver(ready), ready);
}

#[test]
fn one_shot_registration_ignores_unarmed_kinds() {
    let mut reg = OneShotRegistration::register(3, Interest::awaiting_request());
    let writable = Interest { readable: false, writable: true, hup: false };
    assert!(reg.deliver(writable).is_empty());
    assert_eq!(reg.armed, Interest::awaiting_request());
    assert_eq!(reg.token, 3);
}

#[test]
fn table_grows_past_its_reserved_capacity() {
    let mut server = RpcServer::new();
    let mut tokens = Vec::new();
    for _ in 0..40 {
        tokens.push(server.accept());
    }
    let expected: Vec<usize> = (1..=40).collect();
    assert_eq!(tokens, expected);
    for t in &tokens {
        assert!(server.is_live(*t));
    }
    let mut table = ConnectionTable::with_capacity(2);
    for i in 0..10usize {
        assert_eq!(table.insert_new(), i + 1);
    }
    for i in 0..10usize {
        assert_eq!(table.get(i + 1).unwrap().token, i + 1);
    }
    assert!(table.get(11).is_none());
}

#[test]
fn removed_token_is_not_found_until_reused() {
    let mut server = RpcServer::new();
    let a = server.accept();
    let b = server.accept();
    let c = server.accept();
    assert_eq!(server.hangup(b), Action::Close);
    assert!(!server.is_live(b));
    assert!(matches!(server.readable(b, ReadOutcome::Data(b"x".to_vec())), Dispatch::Ignore));
    assert_eq!(server.writable(b, WriteOutcome::Written(1)), Action::Ignore);
    assert_eq!(server.hangup(b), Action::Ignore);
    assert_eq!(server.complete_request(b, None), Action::Ignore);
    assert!(server.is_live(a) && server.is_live(c));
    assert_eq!(server.accept(), b);
    assert!(server.is_live(b));
}

#[test]
fn table_take_and_lookup() {
    let mut table = ConnectionTable::with_capacity(1);
    let t = table.insert_new();
    assert!(table.contains(t));
    assert!(!table.contains(LISTENER));
    let c = table.take(t).unwrap();
    assert_eq!(c.token, t);
    assert!(!table.contains(t));
    assert!(table.take(t).is_none());
    assert_eq!(table.insert_new(), t);
}

#[test]
fn partial_writes_send_the_payload_once() {
    let mut server = RpcServer::new();
    let token = server.accept();
    assert!(matches!(server.readable(token, ReadOutcome::Data(b"req".to_vec())), Dispatch::Handle(_)));
    let payload: Vec<u8> = (0u8..30).collect();
    server.complete_request(token, Some(payload.clone()));
    let mut sent = Vec::new();
    for n in [4usize, 0, 11] {
        let pending = server.pending(token);
        sent.extend_from_slice(&pending[..n]);
        assert_eq!(server.writable(token, WriteOutcome::Written(n)), Action::Rearm(Interest::flushing()));
        assert_eq!(server.writable(token, WriteOutcome::WouldBlock), Action::Rearm(Interest::flushing()));
    }
    let rest = server.pending(token);
    assert_eq!(rest.len(), 15);
    sent.extend_from_slice(&rest);
    assert_eq!(server.writable(token, WriteOutcome::Written(rest.len())), Action::Rearm(Interest::awaiting_request()));
    assert_eq!(sent, payload);
    assert!(server.pending(token).is_empty());
}

#[test]
fn errors_and_closes_tear_the_connection_down() {
    let mut server = RpcServer::new();
    let a = server.accept();
    assert!(matches!(server.readable(a, ReadOutcome::Failed), Dispatch::Close));
    assert!(!server.is_live(a));

    let b = server.accept();
    assert!(matches!(server.readable(b, ReadOutcome::Data(Vec::new())), Dispatch::Close));
    assert!(!server.is_live(b));

    let c = server.accept();
    server.readable(c, ReadOutcome::Data(b"q".to_vec()));
    server.complete_request(c, Some(b"abc".to_vec()));
    assert_eq!(server.writable(c, WriteOutcome::Failed), Action::Close);
    assert!(!server.is_live(c));

    let d = server.accept();
    server.readable(d, ReadOutcome::Data(b"q".to_vec()));
    server.complete_request(d, Some(b"abc".to_vec()));
    assert_eq!(server.writable(d, WriteOutcome::Written(4)), Action::Close);
    assert!(!server.is_live(d));
}

#[test]
fn hangup_mid_flush_closes_the_connection() {
    let mut server = RpcServer::new();
    let t = server.accept();
    server.readable(t, ReadOutcome::Data(b"q".to_vec()));
    server.complete_request(t, Some(b"abcdef".to_vec()));
    assert_eq!(server.writable(t, WriteOutcome::Written(2)), Action::Rearm(Interest::flushing()));
    let ready = Interest { readable: false, writable: true, hup: true };
    assert_eq!(RpcServer::route(t, ready), Route::Hangup);
    assert_eq!(server.hangup(t), Action::Close);
    assert!(!server.is_live(t));
    assert_eq!(server.accept(), t);
}

#[test]
fn would_block_read_changes_nothing() {
    let mut server = RpcServer::new();
    let t = server.accept();
    assert!(matches!(server.readable(t, ReadOutcome::WouldBlock), Dispatch::Rearm(i) if i == Interest::awaiting_request()));
    assert!(server.is_live(t));
}

#[test]
fn non_utf8_request_closes_the_connection() {
    let mut server = RpcServer::new();
    let t = server.accept();
    let other = server.accept();
    let d = server.readable(t, ReadOutcome::Data(vec![0xff, 0xfe, 0x41]));
    assert!(matches!(d, Dispatch::Close));
    assert!(!server.is_live(t));
    assert!(server.pending(t).is_empty());
    assert!(server.is_live(other));
}

#[test]
fn routes_follow_the_reported_kinds() {
    let r = Interest { readable: true, writable: false, hup: false };
    let w = Interest { readable: false, writable: true, hup: false };
    let h = Interest { readable: false, writable: false, hup: true };
    assert_eq!(RpcServer::route(LISTENER, r), Route::Accept);
    assert_eq!(RpcServer::route(LISTENER, w), Route::Nothing);
    assert_eq!(RpcServer::route(5, r), Route::Read);
    assert_eq!(RpcServer::route(5, w), Route::Write);
    assert_eq!(RpcServer::route(5, h), Route::Hangup);
    assert_eq!(RpcServer::route(5, Interest::none()), Route::Nothing);
    let wh = Interest { readable: false, writable: true, hup: true };
    let rh = Interest { readable: true, writable: false, hup: true };
    assert_eq!(RpcServer::route(5, wh), Route::Hangup);
    assert_eq!(RpcServer::route(5, rh), Route::Hangup);
    assert_eq!(RpcServer::route(LISTENER, rh), Route::Accept);
}

#[test]
fn connection_phases_and_interests() {
    let mut c = Connection::new(9);
    assert_eq!(c.interest(), Interest::awaiting_request());
    match c.on_readable(ReadOutcome::Data(b"ab".to_vec())) {
        Step::Request(q) => assert_eq!(q, b"ab".to_vec()),
        other => panic!("{:?}", other),
    }
    assert!(matches!(c.on_response(Some(b"xyz".to_vec())), Step::Rearm(i) if i == Interest::flushing()));
    assert!(matches!(c.phase, Phase::Flushing { sent: 0, .. }));
    assert_eq!(c.pending(), b"xyz".to_vec());
    assert!(matches!(c.on_readable(ReadOutcome::Data(b"zz".to_vec())), Step::Rearm(i) if i == Interest::flushing()));
    assert!(matches!(c.on_writable(WriteOutcome::Written(1)), Step::Rearm(_)));
    assert_eq!(c.pending(), b"yz".to_vec());
    assert!(matches!(c.on_hangup(), Step::Close));
    assert!(c.is_closed());
    assert_eq!(c.interest(), Interest::none());
    assert_eq!(c.token, 9);
}
