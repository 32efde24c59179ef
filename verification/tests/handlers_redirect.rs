//! Redirects.

use localhost::handlers::redirect::{redirect, validate_redirect_target};
use localhost::http::response::types::StatusCode;

#[test]
fn valid_relative_path() {
    let resp = redirect(StatusCode(StatusCode::MOVED_PERMANENTLY), "/new-path");
    assert_eq!(resp.status.code(), 301);
    assert_eq!(resp.headers.get("Location"), Some("/new-path"));
}

#[test]
fn valid_absolute_https_url() {
    let resp = redirect(StatusCode(StatusCode::FOUND), "https://example.com/page");
    assert_eq!(resp.status.code(), 302);
    assert_eq!(resp.headers.get("Location"), Some("https://example.com/page"));
}

#[test]
fn valid_temporary_redirect_307() {
    let resp = redirect(StatusCode(StatusCode::TEMPORARY_REDIRECT), "/temp");
    assert_eq!(resp.status.code(), 307);
}

#[test]
fn valid_permanent_redirect_308() {
    let resp = redirect(StatusCode(StatusCode::PERMANENT_REDIRECT), "/permanent");
    assert_eq!(resp.status.code(), 308);
}

#[test]
fn empty_target_returns_400() {
    let resp = redirect(StatusCode(StatusCode::MOVED_PERMANENTLY), "");
    assert_eq!(resp.status.code(), 400);
}

#[test]
fn protocol_relative_url_returns_400() {
    let resp = redirect(StatusCode(StatusCode::MOVED_PERMANENTLY), "//evil.com/steal");
    assert_eq!(resp.status.code(), 400);
}

#[test]
fn relative_path_without_leading_slash_returns_400() {
    let resp = redirect(StatusCode(StatusCode::MOVED_PERMANENTLY), "relative/path");
    assert_eq!(resp.status.code(), 400);
}

#[test]
fn javascript_uri_returns_400() {
    // javascript: URIs are not http(s):// and don't start with /
    let resp = redirect(StatusCode(StatusCode::MOVED_PERMANENTLY), "javascript:alert(1)");
    assert_eq!(resp.status.code(), 400);
}

#[test]
fn redirect_body_contains_location_link() {
    let resp = redirect(StatusCode(StatusCode::MOVED_PERMANENTLY), "/new");
    let body = String::from_utf8_lossy(&resp.body);
    assert!(body.contains("/new"));
}

#[test]
fn redirect_target_faults() {
    assert!(validate_redirect_target("/a").is_ok());
    assert!(validate_redirect_target("http://a").is_ok());
    assert_eq!(validate_redirect_target(""), Err("empty redirect target"));
    assert!(validate_redirect_target("//a").is_err());
    assert!(validate_redirect_target("ftp://a").is_err());
}
