//! Responses.

use localhost::http::response::types::{Response, ResponseHeaders, StatusCode};

#[test]
fn status_code_reason_phrases() {
    assert_eq!(StatusCode(StatusCode::OK).reason(),                    "OK");
    assert_eq!(StatusCode(StatusCode::NOT_FOUND).reason(),             "Not Found");
    assert_eq!(StatusCode(StatusCode::INTERNAL_SERVER_ERROR).reason(), "Internal Server Error");
    assert_eq!(StatusCode(999).reason(),                   "Unknown");
}

#[test]
fn status_display() {
    assert_eq!(StatusCode(StatusCode::OK).to_string(),       "200 OK");
    assert_eq!(StatusCode(StatusCode::NOT_FOUND).to_string(), "404 Not Found");
}

#[test]
fn must_not_have_body_codes() {
    assert!(StatusCode(StatusCode::NO_CONTENT).must_not_have_body());
    assert!(!StatusCode(StatusCode::OK).must_not_have_body());
    assert!(!StatusCode(StatusCode::NOT_FOUND).must_not_have_body());
}

#[test]
fn response_headers_set_replaces() {
    let mut h = ResponseHeaders::new();
    h.set("Content-Type", "text/plain");
    h.set("Content-Type", "text/html");
    assert_eq!(h.get("Content-Type"), Some("text/html"));
    // Verify first entry was removed by checking the value changed.
    assert_eq!(h.iter().len(), 1);
}

#[test]
fn response_headers_append_allows_duplicates() {
    let mut h = ResponseHeaders::new();
    h.append("Set-Cookie", "a=1");
    h.append("Set-Cookie", "b=2");
    assert_eq!(h.iter().len(), 2);
}

#[test]
fn response_headers_case_insensitive_get() {
    let mut h = ResponseHeaders::new();
    h.set("Content-Length", "42");
    assert_eq!(h.get("content-length"), Some("42"));
    assert_eq!(h.get("CONTENT-LENGTH"), Some("42"));
}

#[test]
fn response_can_be_constructed_with_body_directly() {
    let mut resp = Response::new(StatusCode(StatusCode::OK));
    resp.headers.set("Content-Type",   "text/plain");
    resp.headers.set("Content-Length", "5");
    resp.body = b"hello".to_vec();
    assert_eq!(resp.headers.get("Content-Length"), Some("5"));
    assert_eq!(resp.body, b"hello");
}

#[test]
fn bodiless_codes() {
    for code in 0..=999u16 {
        let expected = (100..=199).contains(&code) || code == 204 || code == 304;
        assert_eq!(StatusCode(code).must_not_have_body(), expected);
    }
}

#[test]
fn set_drops_all_of_the_name() {
    let mut h = ResponseHeaders::new();
    h.append("a", "1");
    h.append("B", "2");
    h.append("A", "3");
    h.set("A", "4");
    assert_eq!(h.iter(), vec![("B", "2"), ("A", "4")]);
}
