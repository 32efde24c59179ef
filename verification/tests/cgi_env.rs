//! The environment of a script.

use std::collections::HashMap;

use localhost::cgi::env::{build_env, request_uri};
use localhost::config::types::{Method, ServerConfig};
use localhost::http::request::types::{HeaderMap, Request, Version};
use localhost::server::connection::PeerAddr;

fn sample_request() -> Request {
    let mut h = HeaderMap::new();
    h.insert("Host", "example.com");
    h.insert("Content-Type", "application/x-www-form-urlencoded");
    h.insert("User-Agent", "test-agent");
    Request {
        method: Method::Post,
        path: "/cgi-bin/hi.py".into(),
        query: "a=1&b=2".into(),
        version: Version::Http11,
        headers: h,
        body: b"x=42".to_vec(),
    }
}

fn env_map(env: Vec<(String, String)>) -> HashMap<String, String> {
    env.into_iter().collect()
}

fn peer() -> PeerAddr {
    PeerAddr { ip: "127.0.0.1".into(), port: 55555 }
}

#[test]
fn sets_core_meta_variables() {
    let m = env_map(build_env(
        &sample_request(),
        "/srv/hi.py",
        "/srv/hi.py",
        &ServerConfig::default(),
        8080,
        &peer(),
    ));

    assert_eq!(m.get("GATEWAY_INTERFACE").map(String::as_str), Some("CGI/1.1"));
    assert_eq!(m.get("REQUEST_METHOD").map(String::as_str), Some("POST"));
    assert_eq!(m.get("QUERY_STRING").map(String::as_str), Some("a=1&b=2"));
    assert_eq!(m.get("CONTENT_LENGTH").map(String::as_str), Some("4"));
    assert_eq!(
        m.get("CONTENT_TYPE").map(String::as_str),
        Some("application/x-www-form-urlencoded")
    );
    assert_eq!(m.get("SCRIPT_FILENAME").map(String::as_str), Some("/srv/hi.py"));
    assert_eq!(m.get("PATH_INFO").map(String::as_str), Some("/srv/hi.py"));
    assert_eq!(m.get("SERVER_PORT").map(String::as_str), Some("8080"));
    assert_eq!(m.get("REQUEST_URI").map(String::as_str), Some("/cgi-bin/hi.py?a=1&b=2"));
    assert_eq!(m.get("REDIRECT_STATUS").map(String::as_str), Some("200"));
}

#[test]
fn maps_headers_to_http_prefix() {
    let m = env_map(build_env(
        &sample_request(),
        "/srv/hi.py",
        "/srv/hi.py",
        &ServerConfig::default(),
        8080,
        &peer(),
    ));

    assert_eq!(m.get("HTTP_HOST").map(String::as_str), Some("example.com"));
    assert_eq!(m.get("HTTP_USER_AGENT").map(String::as_str), Some("test-agent"));
    // Content-Type must NOT be duplicated under HTTP_*.
    assert!(!m.contains_key("HTTP_CONTENT_TYPE"));
    assert!(!m.contains_key("HTTP_CONTENT_LENGTH"));
}

#[test]
fn empty_query_yields_bare_request_uri() {
    let mut req = sample_request();
    req.query = String::new();
    let m = env_map(build_env(
        &req,
        "/srv/hi.py",
        "/srv/hi.py",
        &ServerConfig::default(),
        8080,
        &peer(),
    ));
    assert_eq!(m.get("REQUEST_URI").map(String::as_str), Some("/cgi-bin/hi.py"));
    assert_eq!(m.get("QUERY_STRING").map(String::as_str), Some(""));
}

#[test]
fn sets_client_and_server_variables() {
    let m = env_map(build_env(
        &sample_request(),
        "/srv/hi.py",
        "/srv/hi.py",
        &ServerConfig::default(),
        8080,
        &peer(),
    ));
    assert_eq!(m.get("REMOTE_ADDR").map(String::as_str), Some("127.0.0.1"));
    assert_eq!(m.get("REMOTE_PORT").map(String::as_str), Some("55555"));
    assert_eq!(m.get("SERVER_PROTOCOL").map(String::as_str), Some("HTTP/1.1"));
    assert_eq!(m.get("SCRIPT_NAME").map(String::as_str), Some("/cgi-bin/hi.py"));
}

#[test]
fn request_uri_joins_path_and_query() {
    assert_eq!(request_uri(&sample_request()), "/cgi-bin/hi.py?a=1&b=2");
}

#[test]
fn header_names_are_upper_case_beyond_ascii_too() {
    let mut req = sample_request();
    req.headers.insert("X-Gr\u{f6}\u{df}e", "1");
    let m = env_map(build_env(
        &req,
        "/srv/hi.py",
        "/srv/hi.py",
        &ServerConfig::default(),
        8080,
        &peer(),
    ));
    assert_eq!(m.get("HTTP_X_GR\u{d6}SSE").map(String::as_str), Some("1"));
}
