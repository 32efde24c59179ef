//! Building responses.

use localhost::config::types::Method;
use localhost::http::response::builder::{
    bad_request, created, default_error_html, error, error_from_page, forbidden, from_cgi_output,
    internal_server_error, method_not_allowed, no_content, not_found, ok, payload_too_large, redirect,
};
use localhost::http::response::types::StatusCode;

#[test]
fn ok_sets_content_length() {
    let resp = ok(b"hello".to_vec(), "text/plain");
    assert_eq!(resp.status, StatusCode(StatusCode::OK));
    assert_eq!(resp.headers.get("Content-Length"), Some("5"));
    assert_eq!(resp.body, b"hello");
}

#[test]
fn redirect_sets_location_and_body() {
    let resp = redirect(301, "/new-path");
    assert_eq!(resp.status, StatusCode(StatusCode::MOVED_PERMANENTLY));
    assert_eq!(resp.headers.get("Location"), Some("/new-path"));
    assert!(!resp.body.is_empty());
}

#[test]
fn not_found_default_html() {
    let resp = not_found(None);
    assert_eq!(resp.status, StatusCode(StatusCode::NOT_FOUND));
    assert!(resp.body.windows(5).any(|w| w == b"<html"));
}

#[test]
fn not_found_custom_page() {
    let custom = "<html><body>Custom 404</body></html>";
    let resp = not_found(Some(custom));
    assert_eq!(resp.body, custom.as_bytes());
}

#[test]
fn method_not_allowed_sets_allow_header() {
    let resp = method_not_allowed(&[Method::Get, Method::Head]);
    assert_eq!(resp.status, StatusCode(StatusCode::METHOD_NOT_ALLOWED));
    let allow = resp.headers.get("Allow").unwrap();
    assert!(allow.contains("GET"));
    assert!(allow.contains("HEAD"));
}

#[test]
fn error_builder_with_code() {
    let body = b"<h1>503</h1>".to_vec();
    let resp = error(503, body.clone());
    assert_eq!(resp.status.code(), 503);
    assert_eq!(resp.body, body);
}

#[test]
fn from_cgi_output_parses_status_header() {
    let raw = b"Status: 404 Not Found\r\nContent-Type: text/plain\r\n\r\nNot here";
    match from_cgi_output(raw.to_vec()) {
        Ok(resp) => {
            assert_eq!(resp.status.code(), 404);
            assert_eq!(resp.body, b"Not here");
            // Status: header must not be forwarded.
            assert!(resp.headers.get("Status").is_none());
        }
        Err(e) => panic!("expected Ok, got error: {e}"),
    }
}

#[test]
fn from_cgi_output_default_200() {
    let raw = b"Content-Type: text/html\r\n\r\n<h1>CGI</h1>";
    let resp = from_cgi_output(raw.to_vec()).unwrap();
    assert_eq!(resp.status.code(), 200);
    assert_eq!(resp.body, b"<h1>CGI</h1>");
}

#[test]
fn from_cgi_output_lf_separator() {
    // Some CGI scripts use \n\n instead of \r\n\r\n.
    let raw = b"Content-Type: text/plain\n\nHello";
    let resp = from_cgi_output(raw.to_vec()).unwrap();
    assert_eq!(resp.body, b"Hello");
}

#[test]
fn from_cgi_output_no_separator_is_error() {
    let raw = b"Content-Type: text/plain";
    assert!(from_cgi_output(raw.to_vec()).is_err());
}

#[test]
fn from_cgi_output_adds_content_length() {
    let raw = b"Content-Type: text/plain\r\n\r\nfive!";
    let resp = from_cgi_output(raw.to_vec()).unwrap();
    assert_eq!(resp.headers.get("Content-Length"), Some("5"));
}

#[test]
fn payload_too_large_has_413() {
    let resp = payload_too_large();
    assert_eq!(resp.status, StatusCode(StatusCode::PAYLOAD_TOO_LARGE));
}

#[test]
fn created_without_location() {
    let resp = created(None);
    assert_eq!(resp.status, StatusCode(StatusCode::CREATED));
}

#[test]
fn no_content_has_204() {
    assert_eq!(no_content().status, StatusCode(StatusCode::NO_CONTENT));
}

#[test]
fn every_answer_is_as_long_as_it_says() {
    for resp in [
        ok(b"x".to_vec(), "text/plain"),
        created(Some("/a")),
        redirect(302, "/b"),
        bad_request("no"),
        forbidden(None),
        not_found(Some("page")),
        method_not_allowed(&[Method::Get]),
        payload_too_large(),
        internal_server_error(None),
        error(418, b"tea".to_vec()),
        error_from_page(404, None),
    ] {
        assert_eq!(resp.headers.get("content-length"), Some(resp.body.len().to_string().as_str()));
    }
}

#[test]
fn default_page_exact() {
    assert!(default_error_html(404).contains("404 Not Found"));
    assert_eq!(created(Some("/a")).headers.get("Location"), Some("/a"));
    assert_eq!(method_not_allowed(&[Method::Get, Method::Put]).headers.get("Allow"), Some("GET, PUT"));
}

#[test]
fn script_errors_say_why() {
    let text = |raw: &[u8]| from_cgi_output(raw.to_vec()).err();
    assert_eq!(text(b"A: b"), Some("CGI output missing header/body separator"));
    assert_eq!(text(b"\xff: b\r\n\r\n"), Some("CGI headers are not valid UTF-8"));
    assert_eq!(text(b"A\r\n\r\n"), Some("CGI header missing ':'"));
}

#[test]
fn script_headers_are_passed_on() {
    let resp = from_cgi_output(
        b"X-A: 1\r\nX-A:2\r\nStatus: soon\r\ncontent-length: 9\r\n\r\nbody".to_vec(),
    )
    .unwrap();
    assert_eq!(resp.status.code(), 200);
    assert_eq!(
        resp.headers.iter(),
        vec![("X-A", "1"), ("X-A", "2"), ("Status", "soon"), ("content-length", "9")]
    );
}

#[test]
fn script_headers_end_at_the_first_empty_line() {
    let resp = from_cgi_output(b"Content-Type: text/plain\n\nline1\r\n\r\nline2".to_vec()).unwrap();
    assert_eq!(resp.status.code(), 200);
    assert_eq!(resp.body, b"line1\r\n\r\nline2");
    assert_eq!(resp.headers.get("Content-Length"), Some("14"));
    let resp = from_cgi_output(b"Content-Type: text/plain\r\n\r\nline1\n\nline2".to_vec()).unwrap();
    assert_eq!(resp.body, b"line1\n\nline2");
}
