//! Requests and their headers.

use localhost::config::types::Method;
use localhost::http::request::types::{HeaderMap, ParseError, Request, Version};

fn minimal_request() -> Request {
    Request {
        method:  Method::Get,
        path:    "/".into(),
        query:   String::new(),
        version: Version::Http11,
        headers: HeaderMap::new(),
        body:    Vec::new(),
    }
}

#[test]
fn version_display() {
    assert_eq!(Version::Http10.as_str(), "HTTP/1.0");
    assert_eq!(Version::Http11.as_str(), "HTTP/1.1");
}

#[test]
fn http11_keep_alive_by_default() {
    let req = minimal_request();
    assert!(req.is_keep_alive());
}

#[test]
fn http11_connection_close_disables_keep_alive() {
    let mut req = minimal_request();
    req.headers.insert("Connection", "close");
    assert!(!req.is_keep_alive());
}

#[test]
fn http10_close_by_default() {
    let mut req = minimal_request();
    req.version = Version::Http10;
    assert!(!req.is_keep_alive());
}

#[test]
fn http10_keep_alive_header_enables_keep_alive() {
    let mut req = minimal_request();
    req.version = Version::Http10;
    req.headers.insert("Connection", "keep-alive");
    assert!(req.is_keep_alive());
}

#[test]
fn header_map_case_insensitive() {
    let mut map = HeaderMap::new();
    map.insert("Content-Type", "text/html");
    assert_eq!(map.get("content-type"), Some("text/html"));
    assert_eq!(map.get("CONTENT-TYPE"), Some("text/html"));
    assert!(map.contains("Content-Type"));
}

#[test]
fn header_map_multi_value_combined() {
    let mut map = HeaderMap::new();
    map.insert("Accept", "text/html");
    map.insert("Accept", "application/json");
    assert_eq!(map.get("accept"), Some("text/html, application/json"));
}

#[test]
fn content_length_parsed() {
    let mut req = minimal_request();
    req.headers.insert("Content-Length", "42");
    assert_eq!(req.content_length(), Some(42));
}

#[test]
fn content_length_missing_returns_none() {
    let req = minimal_request();
    assert_eq!(req.content_length(), None);
}

#[test]
fn host_strips_port() {
    let mut req = minimal_request();
    req.headers.insert("Host", "example.com:8080");
    assert_eq!(req.host(), "example.com");
}

#[test]
fn is_chunked_detects_transfer_encoding() {
    let mut req = minimal_request();
    req.headers.insert("Transfer-Encoding", "chunked");
    assert!(req.is_chunked());
}

#[test]
fn parse_error_messages() {
    let errors = vec![
        (ParseError::BadRequestLine("x".into()), "bad request line: x"),
        (ParseError::BadHeader("x".into()), "bad header: x"),
        (ParseError::UnknownMethod("x".into()), "unknown method: x"),
        (ParseError::UnsupportedVersion("x".into()), "unsupported version: x"),
        (ParseError::BadUri("x".into()), "bad URI: x"),
        (ParseError::HeadersTooLarge, "request headers too large"),
        (ParseError::BadContentLength("x".into()), "bad Content-Length: x"),
        (ParseError::BadChunkSize("x".into()), "bad chunk size: x"),
    ];
    for (e, text) in errors {
        assert_eq!(e.message(), text);
    }
}

#[test]
fn headers_are_kept_in_lower_case_in_order() {
    let mut map = HeaderMap::new();
    assert!(map.is_empty());
    map.insert("B-Header", "1");
    map.insert("A-Header", "2");
    assert_eq!(map.iter(), vec![("b-header", "1"), ("a-header", "2")]);
}

#[test]
fn content_length_must_be_a_number() {
    let mut req = minimal_request();
    req.headers.insert("Content-Length", "4x");
    assert_eq!(req.content_length(), None);
    let mut req = minimal_request();
    req.headers.insert("Content-Length", " 7 ");
    assert_eq!(req.content_length(), Some(7));
}

#[test]
fn host_is_empty_without_header() {
    assert_eq!(minimal_request().host(), "");
}
