use gdcli::queue::{shutdown_response, HttpResponse, PendingMap};
use gdcli::server::{
    after_read, after_wait, authorized, bad_request, handler_timeout, port_number, probe_ports,
    queue_refused_response, read_progress, too_many_connections_response, ConnectionStep,
    PendingRequest, ReadEnd, ReadProgress, ServerState, WaitEnd, DEFAULT_TIMEOUT_MS,
};

#[test]
fn cleanup_expired_removes_only_deadline_reached_entries() {
    let mut pending: PendingMap<u32> = PendingMap::new();
    let now: u64 = 10_000;
    pending.insert(1, 11, now - 1);
    pending.insert(2, 22, now + 60_000);

    assert_eq!(pending.remove_expired(now), 1);

    assert!(pending.take(1).is_none());
    assert_eq!(pending.take(2), Some(22));
}

#[test]
fn pending_map_removes_expired_entries() {
    let mut map: PendingMap<u32> = PendingMap::new();
    let now: u64 = 5_000;
    map.insert(1, 1, now - 1);
    map.insert(2, 2, now + 1_000);

    assert_eq!(map.remove_expired(now), 1);
    assert_eq!(map.len(), 1);
    assert!(map.take(1).is_none());
    assert!(map.take(2).is_some());
}

#[test]
fn deadline_equal_to_now_has_expired() {
    let mut map: PendingMap<u32> = PendingMap::new();
    map.insert(7, 70, 100);
    assert_eq!(map.remove_expired(100), 1);
    assert_eq!(map.len(), 0);
}

#[test]
fn insert_replaces_an_entry_with_the_same_id() {
    let mut map: PendingMap<u32> = PendingMap::new();
    map.insert(3, 30, 1_000);
    map.insert(3, 31, 2_000);
    assert_eq!(map.len(), 1);
    assert_eq!(map.take(3), Some(31));
    assert_eq!(map.take(3), None);
}

#[test]
fn drain_answers_every_waiting_request_with_503() {
    let mut map: PendingMap<u32> = PendingMap::new();
    map.insert(1, 10, 1_000);
    map.insert(2, 20, 1_000);
    let out = map.drain_503();
    assert_eq!(out.len(), 2);
    let mut senders: Vec<u32> = out.iter().map(|(t, _)| *t).collect();
    senders.sort();
    assert_eq!(senders, vec![10, 20]);
    for (_, resp) in &out {
        assert_eq!(resp.status, 503);
        assert_eq!(resp.headers, vec![("content-type".to_string(), "application/json".to_string())]);
        assert_eq!(resp.body, br#"{"error":"server shutting down"}"#.to_vec());
    }
    assert_eq!(map.len(), 0);
    assert_eq!(shutdown_response().status, 503);
}

#[test]
fn handler_timeout_env_invalid_values_fall_back() {
    assert_eq!(handler_timeout(Some("0")), DEFAULT_TIMEOUT_MS);
    assert_eq!(handler_timeout(Some("999999999")), DEFAULT_TIMEOUT_MS);
    assert_eq!(handler_timeout(Some("abc")), DEFAULT_TIMEOUT_MS);
    assert_eq!(handler_timeout(None), DEFAULT_TIMEOUT_MS);
}

#[test]
fn handler_timeout_env_accepts_safe_value() {
    assert_eq!(handler_timeout(Some("250")), 250);
    assert_eq!(handler_timeout(Some("100")), 100);
    assert_eq!(handler_timeout(Some("300000")), 300_000);
    assert_eq!(handler_timeout(Some("99")), DEFAULT_TIMEOUT_MS);
}

#[test]
fn send_response_raw_rejects_invalid_status() {
    let mut server: ServerState<u32> = ServerState::new();
    let result = server.send_response_raw(1, 99, vec![], b"bad".to_vec(), 0);
    assert!(result.is_err());
    assert!(result.err().unwrap().contains("invalid HTTP status"));
}

#[test]
fn send_response_raw_rejects_invalid_header() {
    let mut server: ServerState<u32> = ServerState::new();
    let result = server.send_response_raw(
        1,
        200,
        vec![("x-bad".into(), "ok\r\nInjected: yes".into())],
        b"bad".to_vec(),
        0,
    );
    assert!(result.is_err());
    assert!(result.err().unwrap().contains("header value contains CR/LF"));
}

#[test]
fn start_near_u16_max_does_not_wrap_or_panic() {
    assert_eq!(probe_ports(u16::MAX), vec![u16::MAX]);
    let ports = probe_ports(65_500);
    assert_eq!(ports.len(), 36);
    assert_eq!(ports[0], 65_500);
    assert_eq!(*ports.last().unwrap(), u16::MAX);
}

#[test]
fn probe_tries_sixty_four_ports() {
    let ports = probe_ports(17_890);
    assert_eq!(ports.len(), 64);
    assert_eq!(ports[0], 17_890);
    assert_eq!(ports[63], 17_953);
}

#[test]
fn server_accepts_request_and_routes_to_poll_send() {
    let mut server: ServerState<u32> = ServerState::new();
    assert!(server.begin_start(None).is_ok());
    server.mark_started(17_890, handler_timeout(None));
    assert!(server.is_running());
    assert_eq!(server.port(), 17_890);
    assert!(server.begin_start(None).is_err());

    let raw = b"POST /ping HTTP/1.1\r\nContent-Type: application/json\r\nContent-Length: 17\r\n\r\n{\"hello\":\"world\"}";
    let req = match after_read(ReadEnd::Finished, raw, None) {
        ConnectionStep::Dispatch(r) => r,
        ConnectionStep::Respond(_) => panic!("request should be handed on"),
    };
    let view = server
        .poll_for_godot(
            Some(PendingRequest {
                id: 1,
                method: req.method,
                path: req.path,
                headers: req.headers,
                body: req.body,
                resp_tx: 99u32,
            }),
            1_000,
        )
        .expect("the editor gets the request");
    assert_eq!(view.method, "POST");
    assert_eq!(view.path, "/ping");
    assert!(!view.body.is_empty());
    assert_eq!(server.pending_len(1_000), 1);

    let sent = server
        .send_response_raw(
            1,
            200,
            vec![("content-type".into(), "application/json".into())],
            br#"{"ok":true}"#.to_vec(),
            1_500,
        )
        .expect("a sound answer");
    let (tx, resp) = sent.expect("the request still waits");
    assert_eq!(tx, 99);
    let written = after_wait(WaitEnd::Answered(resp));
    assert_eq!(written.status, 200);
    assert_eq!(written.body, br#"{"ok":true}"#.to_vec());
    assert_eq!(server.pending_len(1_500), 0);

    let left = server.stop();
    assert!(left.is_empty());
    assert!(!server.is_running());
    assert_eq!(server.port(), -1);
}

#[test]
fn answer_after_the_deadline_finds_no_request() {
    let mut server: ServerState<u32> = ServerState::new();
    server.mark_started(8_000, 300);
    server.register(5, 50, 1_000);
    let r = server.send_response_raw(5, 200, vec![], vec![], 1_300).unwrap();
    assert!(r.is_none());
}

#[test]
fn stop_answers_waiting_requests() {
    let mut server: ServerState<u32> = ServerState::new();
    server.mark_started(8_000, 300);
    server.register(5, 50, 1_000);
    let left = server.stop();
    assert_eq!(left.len(), 1);
    assert_eq!(left[0].0, 50);
    assert_eq!(left[0].1.status, 503);
}

#[test]
fn server_returns_413_for_oversized_body() {
    let raw = b"POST /big HTTP/1.1\r\nHost: 127.0.0.1\r\nContent-Length: 17825792\r\nContent-Type: application/octet-stream\r\n\r\n";
    match read_progress(raw) {
        ReadProgress::Failed(_) => {}
        _ => panic!("an oversized body cannot be read"),
    }
    match after_read(ReadEnd::Finished, raw, None) {
        ConnectionStep::Respond(r) => assert_eq!(r.status, 413),
        ConnectionStep::Dispatch(_) => panic!("expected 413"),
    }
}

#[test]
fn server_504_on_handler_timeout() {
    assert_eq!(handler_timeout(Some("300")), 300);
    let r = after_wait(WaitEnd::TimedOut);
    assert_eq!(r.status, 504);
    assert_eq!(r.headers, vec![("content-type".to_string(), "application/json".to_string())]);
    assert_eq!(r.body, br#"{"error":"handler timeout"}"#.to_vec());
}

#[test]
fn dropped_channel_is_answered_503() {
    let r = after_wait(WaitEnd::Dropped);
    assert_eq!(r.status, 503);
    assert_eq!(r.body, br#"{"error":"server dropped"}"#.to_vec());
    assert!(r.headers.is_empty());
}

#[test]
fn read_outcomes() {
    match after_read(ReadEnd::TimedOut, b"", None) {
        ConnectionStep::Respond(r) => {
            assert_eq!(r.status, 400);
            assert_eq!(r.body, br#"{"error":"read timeout"}"#.to_vec());
        }
        _ => panic!(),
    }
    match after_read(ReadEnd::Finished, b"GET / HTTP/1.1\r\n", None) {
        ConnectionStep::Respond(r) => {
            assert_eq!(r.status, 400);
            assert_eq!(r.body, br#"{"error":"incomplete request"}"#.to_vec());
        }
        _ => panic!(),
    }
    match after_read(ReadEnd::Finished, b"GET / HTTP/1.1\r\n\r\n", Some("secret")) {
        ConnectionStep::Respond(r) => {
            assert_eq!(r.status, 401);
            assert_eq!(r.body, br#"{"error":"unauthorized"}"#.to_vec());
        }
        _ => panic!(),
    }
    match after_read(
        ReadEnd::Finished,
        b"GET / HTTP/1.1\r\nAuthorization: Bearer secret\r\n\r\n",
        Some("secret"),
    ) {
        ConnectionStep::Dispatch(r) => assert_eq!(r.path, "/"),
        _ => panic!(),
    }
    match read_progress(b"GET / HTTP/1.1\r\n") {
        ReadProgress::NeedMore => {}
        _ => panic!(),
    }
    match read_progress(b"GET / HTTP/1.1\r\n\r\n") {
        ReadProgress::Complete => {}
        _ => panic!(),
    }
}

#[test]
fn bearer_token_must_match() {
    let ok = vec![("authorization".to_string(), "Bearer t1".to_string())];
    let bad = vec![("authorization".to_string(), "Bearer t2".to_string())];
    assert!(authorized(&ok, Some("t1")));
    assert!(!authorized(&bad, Some("t1")));
    assert!(authorized(&[], None));
    assert!(!authorized(&[], Some("t1")));
}

#[test]
fn fixed_answers() {
    let r = bad_request("body exceeds 16 MiB limit");
    assert_eq!(r.status, 413);
    let r = bad_request("malformed request");
    assert_eq!(r.status, 400);
    assert_eq!(r.body, br#"{"error":"malformed request"}"#.to_vec());
    let r: HttpResponse = queue_refused_response();
    assert_eq!(r.status, 503);
    let r = too_many_connections_response();
    assert_eq!(r.body, br#"{"error":"too many connections"}"#.to_vec());
    assert_eq!(port_number(None), -1);
    assert_eq!(port_number(Some(80)), 80);
}
