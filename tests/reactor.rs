use minihttp::client::Clients;
use minihttp::reactor::{
    bad_request, dispatch, wait_bound, on_accept, on_read, on_wake, Dispatch, ReadOutcome, Reply, LISTENER_KEY,
    MAX_HEADERS, READ_BUFFER_SIZE,
};

const BAD: &[u8] = b"HTTP/1.1 400 Bad Request\r\nContent-Length: 15\r\n\r\n400 Bad Request";

#[test]
fn fixed_parameters() {
    assert_eq!(LISTENER_KEY, 0);
    assert_eq!(READ_BUFFER_SIZE, 2048);
    assert_eq!(MAX_HEADERS, 32);
}

#[test]
fn events_are_dispatched_by_key() {
    let mut t: Clients<&str> = Clients::new();
    on_accept(&mut t, Some(("a", 4242)));
    assert_eq!(dispatch(&t, 0), Dispatch::Accept);
    assert_eq!(dispatch(&t, 4242), Dispatch::Read);
    assert_eq!(dispatch(&t, 4243), Dispatch::Unknown);
}

#[test]
fn failed_accept_changes_nothing() {
    let mut t: Clients<&str> = Clients::new();
    assert_eq!(on_accept(&mut t, Some(("a", 10))).map(|(k, d)| (k, d.is_none())), Some((10, true)));
    assert!(on_accept(&mut t, None).is_none());
    assert_eq!(t.len(), 1);
    assert_eq!(dispatch(&t, 10), Dispatch::Read);
    assert_eq!(on_accept(&mut t, Some(("b", 11))).map(|(k, _)| k), Some(11));
    assert_eq!(t.len(), 2);
}

#[test]
fn closed_peer_removed_once() {
    let mut t: Clients<&str> = Clients::new();
    on_accept(&mut t, Some(("a", 7)));
    match on_read(&mut t, 7, ReadOutcome::Closed) {
        Reply::Close(c) => assert_eq!(c.stream, "a"),
        other => panic!("unexpected {:?}", other),
    }
    assert_eq!(t.len(), 0);
    assert_eq!(dispatch(&t, 7), Dispatch::Unknown);
    assert!(matches!(on_read(&mut t, 7, ReadOutcome::Closed), Reply::Nothing));
    assert_eq!(t.len(), 0);
}

#[test]
fn bad_bytes_get_400_and_connection_stays() {
    let mut t: Clients<&str> = Clients::new();
    on_accept(&mut t, Some(("a", 9)));
    match on_read(&mut t, 9, ReadOutcome::Data(b"\x01\x02 nonsense\r\n\r\n".to_vec())) {
        Reply::Send(bytes) => assert_eq!(bytes, BAD.to_vec()),
        other => panic!("unexpected {:?}", other),
    }
    assert_eq!(dispatch(&t, 9), Dispatch::Read);
    match on_read(&mut t, 9, ReadOutcome::Data(b"GET /index.html HTTP/1.1\r\nHost: x\r\n\r\n".to_vec())) {
        Reply::Handle(req) => {
            assert_eq!(req.method, "GET");
            assert_eq!(req.path, "/index.html");
            assert_eq!(req.version, 1);
            assert_eq!(req.headers.len(), 1);
            assert_eq!(req.headers[0].name, "Host");
            assert_eq!(req.headers[0].value, b"x".to_vec());
        }
        other => panic!("unexpected {:?}", other),
    }
    assert_eq!(t.len(), 1);
}

#[test]
fn partial_request_gets_400() {
    let mut t: Clients<&str> = Clients::new();
    on_accept(&mut t, Some(("a", 9)));
    match on_read(&mut t, 9, ReadOutcome::Data(b"GET / HTTP/1.1\r\nHost:".to_vec())) {
        Reply::Send(bytes) => assert_eq!(bytes, BAD.to_vec()),
        other => panic!("unexpected {:?}", other),
    }
    assert_eq!(t.len(), 1);
}

#[test]
fn too_many_headers_get_400() {
    let mut t: Clients<&str> = Clients::new();
    on_accept(&mut t, Some(("a", 9)));
    let mut req = b"GET / HTTP/1.1\r\n".to_vec();
    for i in 0..40 {
        req.extend_from_slice(format!("H{}: v\r\n", i).as_bytes());
    }
    req.extend_from_slice(b"\r\n");
    assert!(matches!(on_read(&mut t, 9, ReadOutcome::Data(req)), Reply::Send(_)));
}

#[test]
fn failed_read_changes_nothing() {
    let mut t: Clients<&str> = Clients::new();
    on_accept(&mut t, Some(("a", 9)));
    assert!(matches!(on_read(&mut t, 9, ReadOutcome::Failed), Reply::Nothing));
    assert_eq!(t.len(), 1);
}

#[test]
fn timeout_sweeps_only_without_events() {
    let mut t: Clients<&str> = Clients::new();
    on_accept(&mut t, Some(("a", 1)));
    on_accept(&mut t, Some(("b", 2)));
    assert!(on_wake(&mut t, 6_000_000_000, true).is_empty());
    assert_eq!(t.len(), 2);
    let dead = on_wake(&mut t, 0, false);
    assert_eq!(dead.iter().map(|c| c.stream).collect::<Vec<_>>(), vec!["a", "b"]);
    assert_eq!(t.len(), 0);
}

#[test]
fn bad_request_text() {
    let r = bad_request();
    assert_eq!(r.try_into_bytes(), BAD.to_vec());
}

#[test]
fn wait_bound_follows_lowest_lifetime() {
    let mut t: Clients<&str> = Clients::new();
    assert_eq!(wait_bound(&t), None);
    on_accept(&mut t, Some(("a", 1)));
    on_wake(&mut t, 1_000_000_000, true);
    on_accept(&mut t, Some(("b", 2)));
    assert_eq!(wait_bound(&t), Some(4_000_000_000));
}
