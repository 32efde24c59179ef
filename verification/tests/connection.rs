//! Connections.

use localhost::config::types::Method;
use localhost::http::request::types::{HeaderMap, Request, Version};
use localhost::server::connection::{ConnectionPhase, ConnectionState, PeerAddr};

fn dummy_addr() -> PeerAddr {
    PeerAddr { ip: "127.0.0.1".into(), port: 12345 }
}

fn make_conn() -> ConnectionState {
    ConnectionState::new(5, 0, 8080, dummy_addr(), 1_000)
}

fn minimal_request() -> Request {
    Request {
        method:  Method::Get,
        path:    "/".into(),
        query:   String::new(),
        version: Version::Http11,
        headers: HeaderMap::new(),
        body:    Vec::new(),
    }
}

#[test]
fn new_starts_in_reading_headers() {
    let c = make_conn();
    assert!(matches!(c.phase, ConnectionPhase::ReadingHeaders));
    assert!(c.read_buf.is_empty());
    assert!(c.write_buf.is_empty());
    assert!(c.request.is_none());
    assert!(!c.keep_alive);
    assert_eq!(c.local_port, 8080);
}

#[test]
fn begin_reading_body_stores_request_and_phase() {
    let mut c = make_conn();
    c.begin_reading_body(minimal_request(), 10, b"hello".to_vec());
    assert!(matches!(c.phase, ConnectionPhase::ReadingBody { expected: 10, bytes_read: 5 }));
    assert!(c.request.is_some());
    assert_eq!(c.read_buf, b"hello");
}

#[test]
fn begin_reading_chunked_stores_request() {
    let mut c = make_conn();
    c.begin_reading_chunked(minimal_request(), b"5\r\n".to_vec());
    assert!(matches!(c.phase, ConnectionPhase::ReadingChunked { .. }));
    assert!(c.request.is_some());
}

#[test]
fn append_body_bytes_extends_read_buf() {
    let mut c = make_conn();
    c.begin_reading_body(minimal_request(), 10, b"hel".to_vec());
    c.append_body_bytes(b"lo");
    assert_eq!(c.read_buf, b"hello");
    assert!(matches!(c.phase, ConnectionPhase::ReadingBody { bytes_read: 5, .. }));
}

#[test]
fn complete_body_attaches_body_and_sets_processing() {
    let mut c = make_conn();
    c.request = Some(minimal_request());
    c.complete_body(b"world".to_vec());
    assert!(matches!(c.phase, ConnectionPhase::Processing));
    assert_eq!(c.request.as_ref().unwrap().body, b"world");
    assert!(c.read_buf.is_empty());
}

#[test]
fn set_response_transitions_to_writing() {
    let mut c = make_conn();
    c.set_response(b"HTTP/1.1 200 OK\r\n\r\n".to_vec());
    assert!(matches!(c.phase, ConnectionPhase::WritingResponse { bytes_written: 0 }));
    assert!(!c.write_buf.is_empty());
}

#[test]
fn finish_without_keep_alive_becomes_done() {
    let mut c = make_conn();
    c.keep_alive = false;
    assert!(!c.finish(2_000));
    assert!(c.is_done());
}

#[test]
fn finish_with_keep_alive_resets_everything() {
    let mut c    = make_conn();
    c.keep_alive = true;
    c.request    = Some(minimal_request());
    c.read_buf   = b"leftover".to_vec();
    c.write_buf  = b"HTTP/1.1 200 OK\r\n\r\n".to_vec();
    assert!(c.finish(2_000));
    assert!(!c.is_done());
    assert!(c.request.is_none());
    assert!(c.read_buf.is_empty());
    assert!(c.write_buf.is_empty());
    assert!(matches!(c.phase, ConnectionPhase::ReadingHeaders));
}

#[test]
fn is_reading_correct_phases() {
    let mut c = make_conn();
    assert!(c.is_reading()); // ReadingHeaders
    c.phase = ConnectionPhase::ReadingBody { expected: 5, bytes_read: 0 };
    assert!(c.is_reading());
    c.phase = ConnectionPhase::ReadingChunked { assembled: vec![] };
    assert!(c.is_reading());
    c.phase = ConnectionPhase::WritingResponse { bytes_written: 0 };
    assert!(!c.is_reading());
    c.phase = ConnectionPhase::Done;
    assert!(!c.is_reading());
}

#[test]
fn is_writing_only_in_writing_phase() {
    let mut c = make_conn();
    assert!(!c.is_writing());
    c.phase = ConnectionPhase::WritingResponse { bytes_written: 0 };
    assert!(c.is_writing());
    c.phase = ConnectionPhase::Done;
    assert!(!c.is_writing());
}

#[test]
fn timeout_zero_duration_always_triggered() {
    let c = make_conn();
    assert!(c.is_timed_out(0, 1_001));
}

#[test]
fn touch_resets_timeout_clock() {
    let mut c = make_conn();
    assert!(c.is_timed_out(1, 1_002));
    c.touch(1_002);
    assert!(!c.is_timed_out(10_000, 1_002));
}

#[test]
fn debug_does_not_panic() {
    let _ = format!("{:?}", make_conn());
}
