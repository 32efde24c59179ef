//! What is done about events.

use localhost::cgi::executor::{started, CgiError};
use localhost::cgi::io::{StdinOutcome, StdoutOutcome};
use localhost::config::types::{Method, RouteConfig, ServerConfig};
use localhost::event_loop::dispatcher::{
    accept_new_connection, advance_connection, answer, answer_no_route, check_timeouts,
    classify_event, close_connection, drain_socket, finish_cgi, flush_write_buf, handle_cgi_event,
    handle_cgi_stdin, handle_cgi_stdout, may_accept, read_from_connection, receive, start_cgi,
    write_offset, write_to_connection, CgiEnd, CgiStart, CgiStep, DrainResult, EventStep,
    FlushResult, Teardown, Transition, HTTP_400, HTTP_500, HTTP_502, MAX_CONNECTIONS,
};
use localhost::event_loop::epoll::{EPOLLHUP, EPOLLIN, EPOLLOUT};
use localhost::event_loop::registry::Registry;
use localhost::http::request::parser::MAX_HEADER_BYTES;
use localhost::http::request::types::{HeaderMap, Request, Version};
use localhost::http::response::builder;
use localhost::http::response::writer::{UtcTime, WriteResult, EAGAIN};
use localhost::server::connection::{ConnectionPhase, ConnectionState, PeerAddr};
use localhost::server::timeout::{TimeoutClass, TIMEOUT_HEADERS};

fn dummy_addr() -> PeerAddr {
    PeerAddr { ip: "127.0.0.1".into(), port: 9000 }
}

fn conn(fd: i32) -> ConnectionState {
    ConnectionState::new(fd, 0, 8080, dummy_addr(), 0)
}

fn utc() -> UtcTime {
    UtcTime { sec: 37, min: 49, hour: 8, mday: 6, mon: 10, year: 94, wday: 0 }
}

fn configs() -> Vec<ServerConfig> {
    vec![ServerConfig {
        host: "127.0.0.1".into(),
        ports: vec![8080],
        routes: vec![
            RouteConfig { path: "/files".into(), root: Some("/srv".into()), ..Default::default() },
            RouteConfig { path: "/api".into(), root: Some("/api".into()), ..Default::default() },
        ],
        ..Default::default()
    }]
}

fn script_request(body: &[u8]) -> Request {
    Request {
        method: Method::Post,
        path: "/run.py".into(),
        query: String::new(),
        version: Version::Http11,
        headers: HeaderMap::new(),
        body: body.to_vec(),
    }
}

// ---- advance_connection ---------------------------------------------------

#[test]
fn stub_returns_need_more_data_without_double_crlf() {
    let mut c = conn(5);
    c.read_buf.extend_from_slice(b"GET / HTTP/1.1\r\nHost: localhost");
    let result = advance_connection(&mut c, &[]);
    assert!(matches!(result, Transition::NeedMoreData));
}

#[test]
fn stub_returns_response_ready_with_double_crlf() {
    let mut c = conn(5);
    c.read_buf.extend_from_slice(b"GET / HTTP/1.1\r\nHost: localhost\r\n\r\n");
    let result = advance_connection(&mut c, &[]);
    // Without a configuration the answer is ready at once.
    assert!(matches!(result, Transition::ResponseReady));
    assert!(matches!(c.phase, ConnectionPhase::WritingResponse { .. }));
    assert_eq!(c.write_buf, HTTP_500.as_bytes());
}

#[test]
fn oversized_header_block_returns_400_response() {
    let mut c = conn(5);
    c.read_buf.extend(b"GET / HTTP/1.1\r\nX-Pad: ".iter().copied());
    c.read_buf.extend(vec![b'A'; MAX_HEADER_BYTES + 1]);
    let result = advance_connection(&mut c, &[]);
    assert!(matches!(result, Transition::ResponseReady));
    assert!(c.write_buf.starts_with(b"HTTP/1.1 400"));
}

fn dispatched(t: Transition) -> (Request, usize, Option<usize>) {
    match t {
        Transition::Dispatch { request, server, route } => (request, server, route),
        other => panic!("unexpected {:?}", other),
    }
}

#[test]
fn request_is_handed_over_with_server_and_route() {
    let mut c = conn(5);
    receive(&mut c, b"GET /api/x?y=1 HTTP/1.1\r\nHost: localhost\r\n\r\n");
    let (request, server, route) = dispatched(advance_connection(&mut c, &configs()));
    assert_eq!(request.path, "/api/x");
    assert_eq!((server, route), (0, Some(1)));
    assert!(c.keep_alive);
    assert!(c.request.is_none());
    assert!(matches!(c.phase, ConnectionPhase::Processing));
}

#[test]
fn request_without_route() {
    let mut c = conn(5);
    receive(&mut c, b"GET /other HTTP/1.0\r\n\r\n");
    let (_, _, route) = dispatched(advance_connection(&mut c, &configs()));
    assert_eq!(route, None);
    answer_no_route(&mut c, Method::Get, Some("<p>gone"), &utc());
    let text = String::from_utf8(c.write_buf.clone()).unwrap();
    assert!(text.starts_with("HTTP/1.1 404 Not Found\r\n"));
    assert!(text.contains("Connection: close\r\n"));
    assert!(text.ends_with("\r\n\r\n<p>gone"));
}

#[test]
fn body_comes_in_whatever_pieces() {
    let whole: &[u8] = b"POST /files/a HTTP/1.1\r\nContent-Length: 11\r\n\r\nhello world";
    for cut in 1..whole.len() {
        let mut c = conn(5);
        receive(&mut c, &whole[..cut]);
        assert!(matches!(advance_connection(&mut c, &configs()), Transition::NeedMoreData));
        receive(&mut c, &whole[cut..]);
        let (request, _, _) = dispatched(advance_connection(&mut c, &configs()));
        assert_eq!(request.body, b"hello world");
    }
}

#[test]
fn chunks_come_in_whatever_pieces() {
    let whole: &[u8] =
        b"POST /files/a HTTP/1.1\r\nTransfer-Encoding: chunked\r\n\r\n5\r\nhello\r\n6\r\n world\r\n0\r\n\r\n";
    for cut in 1..whole.len() {
        let mut c = conn(5);
        receive(&mut c, &whole[..cut]);
        assert!(matches!(advance_connection(&mut c, &configs()), Transition::NeedMoreData));
        receive(&mut c, &whole[cut..]);
        let (request, _, _) = dispatched(advance_connection(&mut c, &configs()));
        assert_eq!(request.body, b"hello world");
    }
}

#[test]
fn malformed_chunks_return_400() {
    let mut c = conn(5);
    receive(&mut c, b"POST / HTTP/1.1\r\nTransfer-Encoding: chunked\r\n\r\nZZ\r\n");
    assert!(matches!(advance_connection(&mut c, &configs()), Transition::ResponseReady));
    assert_eq!(c.write_buf, HTTP_400.as_bytes());
}

#[test]
fn nothing_is_read_while_a_response_goes_out() {
    let mut c = conn(5);
    c.set_response(b"x".to_vec());
    assert!(matches!(advance_connection(&mut c, &configs()), Transition::Close));
}

// ---- drain_socket ---------------------------------------------------------

#[test]
fn drain_socket_reads_data() {
    let mut c = conn(5);
    assert_eq!(drain_socket(&mut c, 5, b"hello", 0), None);
    // After all data, the next read returns 0.
    assert_eq!(drain_socket(&mut c, 0, b"", 0), Some(DrainResult::Closed));
    assert_eq!(&c.read_buf, b"hello");
}

#[test]
fn drain_socket_ends_for_now_or_fails() {
    let mut c = conn(5);
    assert_eq!(drain_socket(&mut c, -1, b"", EAGAIN), Some(DrainResult::Data));
    assert_eq!(drain_socket(&mut c, -1, b"", 104), Some(DrainResult::Error(104)));
}

// ---- answers --------------------------------------------------------------

#[test]
fn answer_to_head_has_no_body() {
    let mut c = conn(5);
    c.keep_alive = true;
    answer(&mut c, Method::Head, builder::ok(b"12345".to_vec(), "text/plain"), &utc());
    let text = String::from_utf8(c.write_buf.clone()).unwrap();
    assert!(text.contains("Content-Length: 5\r\n"));
    assert!(text.ends_with("\r\n\r\n"));
    assert!(!text.contains("Connection: close"));
}

#[test]
fn new_session_is_told_once() {
    let mut c = conn(5);
    c.keep_alive = true;
    c.pending_session_cookie = Some("abc".into());
    answer(&mut c, Method::Get, builder::ok(vec![], "text/plain"), &utc());
    let text = String::from_utf8(c.write_buf.clone()).unwrap();
    assert!(text.contains("Set-Cookie: SID=abc; Path=/; Max-Age=3600; HttpOnly; SameSite=Lax\r\n"));
    answer(&mut c, Method::Get, builder::ok(vec![], "text/plain"), &utc());
    assert!(!String::from_utf8(c.write_buf.clone()).unwrap().contains("Set-Cookie"));
}

#[test]
fn canned_answers_are_as_long_as_they_say() {
    for text in [HTTP_400, HTTP_500, HTTP_502] {
        let (head, body) = text.split_once("\r\n\r\n").unwrap();
        assert!(head.contains(&format!("Content-Length: {}\r\n", body.len())));
    }
}

// ---- registry -------------------------------------------------------------

#[test]
fn events_are_told_apart() {
    let mut reg = Registry::new();
    reg.register_listener(3, 0, 8080);
    reg.register_connection(5, conn(5));
    reg.register_cgi_fd(8, 5);
    assert_eq!(classify_event(&reg, 3, EPOLLIN), EventStep::Accept);
    assert_eq!(classify_event(&reg, 8, EPOLLHUP), EventStep::Script);
    assert_eq!(classify_event(&reg, 5, EPOLLIN | EPOLLHUP), EventStep::Close);
    assert_eq!(classify_event(&reg, 5, EPOLLIN | EPOLLOUT), EventStep::Read);
    assert_eq!(classify_event(&reg, 5, EPOLLOUT), EventStep::Write);
    assert_eq!(classify_event(&reg, 5, 0), EventStep::Ignore);
}

#[test]
fn accepting_stops_at_the_limit() {
    let mut reg = Registry::new();
    reg.register_listener(3, 1, 8080);
    let mut fd = 1000;
    while let Some(entry) = may_accept(&reg, 3) {
        accept_new_connection(&mut reg, entry, fd, dummy_addr(), 7);
        fd += 1;
    }
    assert_eq!(reg.connection_count(), MAX_CONNECTIONS);
    let c = reg.get_connection(1000).unwrap();
    assert_eq!((c.server_id, c.local_port, c.last_activity), (1, 8080, 7));
    assert!(may_accept(&reg, 4).is_none());
}

#[test]
fn reading_goes_on_by_what_was_drained() {
    let mut reg = Registry::new();
    reg.register_connection(5, conn(5));
    receive(reg.get_connection_mut(5).unwrap(), b"GET / HTTP/1.1\r\n");
    let t = read_from_connection(&mut reg, 5, DrainResult::Data, &configs(), 9).unwrap();
    assert!(matches!(t, Transition::NeedMoreData));
    assert_eq!(reg.get_connection(5).unwrap().last_activity, 9);
    let t = read_from_connection(&mut reg, 5, DrainResult::Closed, &configs(), 9).unwrap();
    assert!(matches!(t, Transition::Close));
    assert!(read_from_connection(&mut reg, 6, DrainResult::Data, &configs(), 9).is_none());
}

// ---- check_timeouts cleans up stale connections ---------------------------

#[test]
fn check_timeouts_removes_timed_out_connections() {
    let mut reg = Registry::new();
    let mut c = conn(7);
    // A very old last_activity, so that it appears timed out.
    c.last_activity = 0;
    reg.register_connection(7, c);
    let mut recent = conn(8);
    recent.last_activity = 9_998_000;
    reg.register_connection(8, recent);

    let expired = check_timeouts(&mut reg, TIMEOUT_HEADERS, 9_999_000);

    // Connection should have been removed.
    assert!(reg.get_connection(7).is_none());
    assert!(reg.get_connection(8).is_some());
    assert_eq!(expired.len(), 1);
    assert_eq!(expired[0].fd, 7);
    assert_eq!(expired[0].class, TimeoutClass::RequestTimeout);
    assert_eq!(expired[0].script, None);
}

// ---- sending --------------------------------------------------------------

#[test]
fn response_is_sent_in_parts() {
    let mut c = conn(5);
    c.keep_alive = true;
    c.set_response(b"0123456789".to_vec());
    assert_eq!(write_offset(&c), Some(0));
    assert_eq!(flush_write_buf(&mut c, WriteResult::BytesWritten(4), 1), FlushResult::Partial);
    assert_eq!(write_offset(&c), Some(4));
    assert_eq!(flush_write_buf(&mut c, WriteResult::WouldBlock, 1), FlushResult::Partial);
    assert_eq!(flush_write_buf(&mut c, WriteResult::Error(32), 1), FlushResult::Error(32));
    assert_eq!(
        flush_write_buf(&mut c, WriteResult::BytesWritten(6), 1),
        FlushResult::Done { keep_alive: true }
    );
    assert!(matches!(c.phase, ConnectionPhase::ReadingHeaders));
    assert_eq!(flush_write_buf(&mut c, WriteResult::BytesWritten(1), 1), FlushResult::Error(-1));
}

#[test]
fn written_connection_is_noted() {
    let mut reg = Registry::new();
    let mut c = conn(5);
    c.set_response(b"ab".to_vec());
    reg.register_connection(5, c);
    assert_eq!(
        write_to_connection(&mut reg, 5, WriteResult::BytesWritten(2), 77),
        Some(FlushResult::Done { keep_alive: false })
    );
    let c = reg.get_connection(5).unwrap();
    assert!(c.is_done());
    assert_eq!(c.last_activity, 77);
    assert_eq!(write_to_connection(&mut reg, 6, WriteResult::WouldBlock, 77), None);
}

// ---- scripts --------------------------------------------------------------

#[test]
fn script_answers_a_connection() {
    let mut reg = Registry::new();
    reg.register_connection(5, conn(5));
    let c = reg.get_connection_mut(5).unwrap();
    let start = start_cgi(c, Ok(started(99, 6, 7, &script_request(b"in"))));
    assert_eq!(start, CgiStart::Started { stdout_fd: 7, stdin_fd: Some(6), close: None });
    reg.register_cgi_fd(7, 5);
    reg.register_cgi_fd(6, 5);

    assert_eq!(handle_cgi_event(&mut reg, 7), CgiStep::Stdout { owner_fd: 5 });
    assert_eq!(handle_cgi_event(&mut reg, 6), CgiStep::Stdin { owner_fd: 5 });
    assert!(!handle_cgi_stdin(&mut reg, 6, StdinOutcome::Wrote));
    assert!(handle_cgi_stdin(&mut reg, 6, StdinOutcome::Finished));
    assert!(!reg.is_cgi_fd(6));

    let p = reg.get_connection_mut(5).unwrap().cgi.as_mut().unwrap();
    p.out_buf = b"Status: 201 Created\r\n\r\nout".to_vec();
    let left = finish_cgi(&mut reg, 5, false, &utc());
    assert_eq!(left, Some(Teardown { pid: 99, stdout_fd: 7, stdin_fd: Some(6) }));
    assert!(!reg.is_cgi_fd(7));
    let text = String::from_utf8(reg.get_connection(5).unwrap().write_buf.clone()).unwrap();
    assert!(text.starts_with("HTTP/1.1 201 Created\r\n"));
    assert!(text.ends_with("\r\n\r\nout"));
    assert_eq!(handle_cgi_event(&mut reg, 7), CgiStep::Drop);
    assert_eq!(finish_cgi(&mut reg, 5, false, &utc()), None);
}

#[test]
fn script_without_output_returns_502() {
    for force_error in [false, true] {
        let mut reg = Registry::new();
        reg.register_connection(5, conn(5));
        let c = reg.get_connection_mut(5).unwrap();
        start_cgi(c, Ok(started(99, 6, 7, &script_request(b""))));
        if force_error {
            c.cgi.as_mut().unwrap().out_buf = b"Status: 200 OK\r\n\r\n".to_vec();
        }
        finish_cgi(&mut reg, 5, force_error, &utc());
        assert!(reg.get_connection(5).unwrap().write_buf.starts_with(b"HTTP/1.1 502"));
    }
}

#[test]
fn script_without_input_or_start() {
    let mut c = conn(5);
    let start = start_cgi(&mut c, Ok(started(99, 6, 7, &script_request(b""))));
    assert_eq!(start, CgiStart::Started { stdout_fd: 7, stdin_fd: None, close: Some(6) });
    assert!(matches!(c.phase, ConnectionPhase::AwaitingCgi { child_pid: 99, pipe_fd: 7 }));
    let mut c = conn(5);
    assert_eq!(start_cgi(&mut c, Err(CgiError::BadArgument)), CgiStart::Failed);
    assert_eq!(c.write_buf, HTTP_502.as_bytes());
}

#[test]
fn script_output_is_over_when_it_hangs_up() {
    assert_eq!(handle_cgi_stdout(StdoutOutcome::Pending, EPOLLIN), CgiEnd::Open);
    assert_eq!(
        handle_cgi_stdout(StdoutOutcome::Pending, EPOLLHUP),
        CgiEnd::Over { force_error: false }
    );
    assert_eq!(handle_cgi_stdout(StdoutOutcome::Eof, 0), CgiEnd::Over { force_error: false });
    assert_eq!(handle_cgi_stdout(StdoutOutcome::Error, 0), CgiEnd::Over { force_error: true });
}

#[test]
fn closed_connection_is_forgotten_with_its_script() {
    let mut reg = Registry::new();
    reg.register_connection(5, conn(5));
    reg.register_connection(6, conn(6));
    let c = reg.get_connection_mut(5).unwrap();
    start_cgi(c, Ok(started(99, 8, 9, &script_request(b"in"))));
    reg.register_cgi_fd(8, 5);
    reg.register_cgi_fd(9, 5);
    assert_eq!(
        close_connection(&mut reg, 5),
        Some(Teardown { pid: 99, stdout_fd: 9, stdin_fd: Some(8) })
    );
    assert!(reg.get_connection(5).is_none());
    assert!(reg.get_connection(6).is_some());
    assert!(!reg.is_cgi_fd(8) && !reg.is_cgi_fd(9));
    assert_eq!(close_connection(&mut reg, 5), None);
}

// ---- closing behind an answer that says so --------------------------------

#[test]
fn malformed_request_closes_a_persistent_connection() {
    let mut c = conn(5);
    c.keep_alive = true;
    c.read_buf = b"BAD\r\n\r\n".to_vec();
    assert!(matches!(advance_connection(&mut c, &[]), Transition::ResponseReady));
    assert!(c.write_buf.starts_with(b"HTTP/1.1 400"));
    assert!(matches!(c.phase, ConnectionPhase::WritingResponse { bytes_written: 0 }));
    assert!(!c.keep_alive);
    assert!(!c.finish(1));
    assert!(c.is_done());
}

#[test]
fn malformed_chunks_close_too() {
    let mut c = conn(5);
    receive(&mut c, b"POST / HTTP/1.1\r\nTransfer-Encoding: chunked\r\n\r\nZZ\r\n");
    advance_connection(&mut c, &configs());
    assert_eq!(c.write_buf, HTTP_400.as_bytes());
    assert!(!c.keep_alive);
}

#[test]
fn other_answers_leave_what_the_client_asked_for() {
    for (version, persists) in [("1.1", true), ("1.0", false)] {
        let mut c = conn(5);
        receive(&mut c, format!("GET / HTTP/{version}\r\n\r\n").as_bytes());
        advance_connection(&mut c, &[]);
        assert_eq!(c.write_buf, HTTP_500.as_bytes());
        assert_eq!(c.keep_alive, persists);
        let mut c = conn(5);
        c.keep_alive = persists;
        start_cgi(&mut c, Err(CgiError::Fork(11)));
        assert_eq!(c.write_buf, HTTP_502.as_bytes());
        assert_eq!(c.keep_alive, persists);
        assert!(c.cgi.is_none());
    }
}

// ---- large bodies ---------------------------------------------------------

#[test]
fn large_bodies_come_in_whatever_pieces() {
    let data: Vec<u8> = (0..100_000u32).map(|i| i as u8).collect();
    let mut plain = b"POST /files/a HTTP/1.1\r\nContent-Length: 100000\r\n\r\n".to_vec();
    plain.extend_from_slice(&data);
    let mut chunked = b"POST /files/a HTTP/1.1\r\nTransfer-Encoding: chunked\r\n\r\n".to_vec();
    for c in data.chunks(30_000) {
        chunked.extend_from_slice(format!("{:x}\r\n", c.len()).as_bytes());
        chunked.extend_from_slice(c);
        chunked.extend_from_slice(b"\r\n");
    }
    chunked.extend_from_slice(b"0\r\n\r\n");
    for whole in [plain, chunked] {
        for size in [whole.len(), 60_000, 8_192, 17] {
            let mut c = conn(5);
            let mut pieces = whole.chunks(size).peekable();
            while let Some(piece) = pieces.next() {
                receive(&mut c, piece);
                if pieces.peek().is_some() && size > 100 {
                    let t = advance_connection(&mut c, &configs());
                    assert!(matches!(t, Transition::NeedMoreData));
                }
            }
            let (request, _, _) = dispatched(advance_connection(&mut c, &configs()));
            assert_eq!(request.body, data);
        }
    }
}

// ---- HEAD -----------------------------------------------------------------

#[test]
fn head_without_route_has_no_body() {
    let mut c = conn(5);
    answer_no_route(&mut c, Method::Head, Some("<p>gone"), &utc());
    let text = String::from_utf8(c.write_buf.clone()).unwrap();
    assert!(text.starts_with("HTTP/1.1 404 Not Found\r\n"));
    assert!(text.contains("Content-Length: 7\r\n"));
    assert!(text.ends_with("\r\n\r\n"));
}

#[test]
fn head_answered_by_a_script_has_no_body() {
    let mut reg = Registry::new();
    reg.register_connection(5, conn(5));
    let mut req = script_request(b"");
    req.method = Method::Head;
    let c = reg.get_connection_mut(5).unwrap();
    start_cgi(c, Ok(started(99, 6, 7, &req)));
    c.cgi.as_mut().unwrap().out_buf = b"A: b\r\n\r\nout".to_vec();
    finish_cgi(&mut reg, 5, false, &utc());
    let text = String::from_utf8(reg.get_connection(5).unwrap().write_buf.clone()).unwrap();
    assert!(text.contains("Content-Length: 3\r\n"));
    assert!(text.ends_with("\r\n\r\n"));
}
