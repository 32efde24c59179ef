//! Responses as bytes.

use localhost::http::response::types::{Response, StatusCode};
use localhost::http::response::writer::{
    rfc7231_date, serialize, serialize_head_response, write_nonblocking, UtcTime, WriteResult, EAGAIN,
};

/// Sunday, 6 November 1994, 08:49:37.
fn now() -> UtcTime {
    UtcTime { sec: 37, min: 49, hour: 8, mday: 6, mon: 10, year: 94, wday: 0 }
}

fn simple_ok(body: &[u8]) -> Response {
    let mut resp = Response::new(StatusCode(StatusCode::OK));
    resp.headers.set("Content-Type",   "text/plain");
    resp.headers.set("Content-Length", &body.len().to_string());
    resp.body = body.to_vec();
    resp
}

// ---- serialize ---------------------------------------------------------

#[test]
fn serialize_status_line_and_body() {
    let resp = simple_ok(b"hello");
    let bytes = serialize(&resp, &now());
    let s = std::str::from_utf8(&bytes).unwrap();
    assert!(s.starts_with("HTTP/1.1 200 OK\r\n"));
    assert!(s.ends_with("hello"));
}

#[test]
fn serialize_includes_date_header() {
    let resp = simple_ok(b"");
    let s = String::from_utf8(serialize(&resp, &now())).unwrap();
    assert!(s.contains("Date: "), "missing Date header in: {s}");
}

#[test]
fn serialize_includes_server_header() {
    let resp = simple_ok(b"");
    let s = String::from_utf8(serialize(&resp, &now())).unwrap();
    assert!(s.contains("Server: localhost/0.1"));
}

#[test]
fn serialize_does_not_duplicate_date_if_set() {
    let mut resp = simple_ok(b"");
    resp.headers.set("Date", "Mon, 01 Jan 2024 00:00:00 GMT");
    let s = String::from_utf8(serialize(&resp, &now())).unwrap();
    assert_eq!(s.matches("Date:").count(), 1);
}

#[test]
fn serialize_no_content_omits_body() {
    let mut resp = Response::new(StatusCode(StatusCode::NO_CONTENT));
    resp.headers.set("Content-Length", "0");
    resp.body = b"should not appear".to_vec();
    let s = String::from_utf8(serialize(&resp, &now())).unwrap();
    assert!(!s.contains("should not appear"));
}

#[test]
fn serialize_headers_in_wire_format() {
    let mut resp = Response::new(StatusCode(StatusCode::OK));
    resp.headers.set("Content-Type",   "text/html");
    resp.headers.set("Content-Length", "0");
    let s = String::from_utf8(serialize(&resp, &now())).unwrap();
    assert!(s.contains("Content-Type: text/html\r\n"));
    assert!(s.contains("Content-Length: 0\r\n"));
    // Blank line before body.
    assert!(s.contains("\r\n\r\n"));
}

#[test]
fn serialize_redirect_response() {
    let mut resp = Response::new(StatusCode(StatusCode::MOVED_PERMANENTLY));
    resp.headers.set("Location",       "/new");
    resp.headers.set("Content-Length", "0");
    let s = String::from_utf8(serialize(&resp, &now())).unwrap();
    assert!(s.starts_with("HTTP/1.1 301 Moved Permanently\r\n"));
    assert!(s.contains("Location: /new\r\n"));
}

// ---- serialize_head_response -------------------------------------------

#[test]
fn head_response_has_headers_but_no_body() {
    let resp = simple_ok(b"hello world");
    let s = String::from_utf8(serialize_head_response(&resp, &now())).unwrap();
    // Headers (including Content-Length) must be present.
    assert!(s.contains("Content-Length: 11\r\n"));
    // But no body bytes after the blank line.
    let body_start = s.find("\r\n\r\n").unwrap() + 4;
    assert!(s[body_start..].is_empty());
}

// ---- write_nonblocking -------------------------------------------------

#[test]
fn write_nonblocking_returns_bytes_written() {
    let buf = b"HTTP/1.1 200 OK\r\n\r\n";
    let result = write_nonblocking(buf, buf.len() as isize, 0);
    assert!(matches!(result, WriteResult::BytesWritten(n) if n > 0));
}

#[test]
fn write_nonblocking_empty_offset_returns_zero() {
    // Where all is written, there is nothing to write.
    let buf = b"data";
    let result = write_nonblocking(&buf[buf.len()..], -1, 9);
    assert!(matches!(result, WriteResult::BytesWritten(0)));
}

// ---- rfc7231_date ------------------------------------------------------

#[test]
fn rfc7231_date_format() {
    let d = rfc7231_date(&now());
    // "Www, DD Mmm YYYY HH:MM:SS GMT"
    assert!(d.ends_with(" GMT"), "bad suffix in: {d}");
    assert_eq!(d.len(), 29, "wrong length: {d}");
}

#[test]
fn date_exact() {
    assert_eq!(rfc7231_date(&now()), "Sun, 06 Nov 1994 08:49:37 GMT");
    let odd = UtcTime { sec: -1, min: 5, hour: 123, mday: 1, mon: 99, year: -1990, wday: -3 };
    assert_eq!(rfc7231_date(&odd), format!("Sun, {:02} Dec {:04} {:02}:{:02}:{:02} GMT", 1, -90, 123, 5, -1));
}

#[test]
fn response_exact() {
    let mut resp = Response::new(StatusCode(StatusCode::OK));
    resp.headers.append("A", "b");
    resp.body = b"body".to_vec();
    assert_eq!(
        serialize(&resp, &now()),
        b"HTTP/1.1 200 OK\r\nA: b\r\nDate: Sun, 06 Nov 1994 08:49:37 GMT\r\nServer: localhost/0.1\r\n\r\nbody"
    );
    let head = serialize_head_response(&resp, &now());
    let whole = serialize(&resp, &now());
    assert_eq!(&whole[..head.len()], &head[..]);
    assert_eq!(&whole[head.len()..], b"body");
}

#[test]
fn writes_come_to_what_they_took() {
    assert_eq!(write_nonblocking(b"abc", 2, 0), WriteResult::BytesWritten(2));
    assert_eq!(write_nonblocking(b"abc", 0, 0), WriteResult::WouldBlock);
    assert_eq!(write_nonblocking(b"abc", -1, EAGAIN), WriteResult::WouldBlock);
    assert_eq!(write_nonblocking(b"abc", -1, 32), WriteResult::Error(32));
}
