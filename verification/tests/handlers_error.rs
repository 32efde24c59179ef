//! Error pages.

use localhost::config::types::ServerConfig;
use localhost::handlers::error::{default_html, render, render_generic};
use localhost::http::response::types::StatusCode;

fn server_with_error_page(code: u16, path: &str) -> ServerConfig {
    let mut s = ServerConfig::default();
    s.error_pages.insert(code, path.to_string());
    s
}

// ---- render with custom page -------------------------------------------

#[test]
fn render_404_custom_page_loaded() {
    let server = server_with_error_page(404, "/pages/404.html");
    let resp = render(404, &server, Some("<h1>Custom 404</h1>"));
    assert_eq!(resp.status.code(), 404);
    assert_eq!(resp.body, b"<h1>Custom 404</h1>");
}

#[test]
fn render_500_custom_page_loaded() {
    let server = server_with_error_page(500, "/pages/500.html");
    let resp = render(500, &server, Some("<h1>Server Error</h1>"));
    assert_eq!(resp.status.code(), 500);
    assert_eq!(resp.body, b"<h1>Server Error</h1>");
}

// ---- render without custom page ----------------------------------------

#[test]
fn render_404_default_when_no_page_configured() {
    let server = ServerConfig::default();
    let resp   = render(404, &server, None);
    assert_eq!(resp.status.code(), 404);
    let body = String::from_utf8_lossy(&resp.body);
    assert!(body.contains("404"), "body should mention 404: {body}");
    assert!(body.contains("<html") || body.contains("<!DOCTYPE"), "body should be HTML: {body}");
}

#[test]
fn render_403_default() {
    let server = ServerConfig::default();
    let resp   = render(403, &server, None);
    assert_eq!(resp.status.code(), 403);
}

#[test]
fn render_400_default() {
    let server = ServerConfig::default();
    let resp   = render(400, &server, None);
    assert_eq!(resp.status.code(), 400);
}

#[test]
fn render_413_default() {
    let server = ServerConfig::default();
    let resp   = render(413, &server, None);
    assert_eq!(resp.status.code(), 413);
}

// ---- missing custom page file falls back to default -------------------

#[test]
fn render_falls_back_when_custom_page_file_missing() {
    let server = server_with_error_page(404, "/nonexistent/path/404.html");
    let resp   = render(404, &server, None);
    assert_eq!(resp.status.code(), 404);
    // Body should be the built-in default, not empty.
    assert!(!resp.body.is_empty());
    let body = String::from_utf8_lossy(&resp.body);
    assert!(body.contains("<!DOCTYPE html>") || body.contains("404"));
}

// ---- render_generic ----------------------------------------------------

#[test]
fn render_generic_unknown_code() {
    let resp = render_generic(StatusCode(418), None);
    assert_eq!(resp.status.code(), 418);
    let body = String::from_utf8_lossy(&resp.body);
    assert!(body.contains("418"));
}

#[test]
fn render_generic_with_custom_content() {
    let resp = render_generic(StatusCode(503), Some("<h1>Down for maintenance</h1>"));
    assert_eq!(resp.body, b"<h1>Down for maintenance</h1>");
}

// ---- default_html format -----------------------------------------------

#[test]
fn default_html_includes_code_and_reason() {
    let html = default_html(StatusCode(StatusCode::NOT_FOUND));
    assert!(html.contains("404"));
    assert!(html.contains("Not Found"));
    assert!(html.contains("<!DOCTYPE html>"));
}

// ---- content-length consistency ----------------------------------------

#[test]
fn content_length_matches_body_for_all_standard_codes() {
    let server = ServerConfig::default();
    for &code in &[400u16, 403, 404, 413, 500] {
        let resp = render(code, &server, None);
        let cl: usize = resp.headers
            .get("Content-Length")
            .unwrap()
            .parse()
            .unwrap();
        assert_eq!(cl, resp.body.len(), "Content-Length mismatch for {code}");
    }
}

#[test]
fn page_counts_only_where_one_is_configured() {
    let resp = render(404, &ServerConfig::default(), Some("<h1>Custom</h1>"));
    assert_ne!(resp.body, b"<h1>Custom</h1>");
}

#[test]
fn default_html_exact() {
    let html = default_html(StatusCode(418));
    assert!(html.starts_with("<!DOCTYPE html>\n<html>\n<head><meta charset=\"utf-8\"><title>418 "));
}

#[test]
fn custom_page_is_the_body_for_every_code() {
    for code in [400u16, 403, 404, 405, 413, 500, 418] {
        let server = server_with_error_page(code, "/pages/page.html");
        let resp = render(code, &server, Some("<h1>Custom</h1>"));
        assert_eq!(resp.status.code(), code);
        assert_eq!(resp.body, b"<h1>Custom</h1>");
        assert_eq!(resp.headers.get("Content-Length"), Some("15"));
    }
}
