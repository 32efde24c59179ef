//! Cookies.

use localhost::session::cookie::{
    extract_session_id, parse_cookies, set_cookie_header, CookieOptions, SESSION_COOKIE,
};

// ---- parse_cookies ----------------------------------------------------

#[test]
fn parses_standard_cookie_header() {
    let cookies = parse_cookies("SID=abc123; theme=dark; lang=en");
    assert_eq!(cookies.get("SID").map(String::as_str), Some("abc123"));
    assert_eq!(cookies.get("theme").map(String::as_str), Some("dark"));
    assert_eq!(cookies.get("lang").map(String::as_str), Some("en"));
    assert_eq!(cookies.len(), 3);
}

#[test]
fn handles_extra_whitespace() {
    let cookies = parse_cookies("  SID = abc ;  theme=dark  ");
    assert_eq!(cookies.get("SID").map(String::as_str), Some("abc"));
    assert_eq!(cookies.get("theme").map(String::as_str), Some("dark"));
}

#[test]
fn handles_empty_and_malformed_pairs() {
    let cookies = parse_cookies("; ; name=val; noequalssign; =emptyname;");
    assert_eq!(cookies.get("name").map(String::as_str), Some("val"));
    // "noequalssign" has no '=' → skipped.
    // "=emptyname" has empty name → skipped.
    assert_eq!(cookies.len(), 1);
}

#[test]
fn empty_string_returns_empty_map() {
    assert!(parse_cookies("").is_empty());
}

#[test]
fn value_with_equals_sign() {
    // Values may contain '='; split_once only splits at the first '='.
    let cookies = parse_cookies("data=a=b=c");
    assert_eq!(cookies.get("data").map(String::as_str), Some("a=b=c"));
}

// ---- set_cookie_header ------------------------------------------------

#[test]
fn full_options() {
    let opts = CookieOptions::default();
    let header = set_cookie_header("SID", "xyz", &opts);
    assert!(header.starts_with("SID=xyz"));
    assert!(header.contains("Path=/"));
    assert!(header.contains("Max-Age=3600"));
    assert!(header.contains("HttpOnly"));
    assert!(header.contains("SameSite=Lax"));
}

#[test]
fn session_scoped_cookie() {
    let opts = CookieOptions {
        max_age: None,
        http_only: false,
        same_site: None,
        ..Default::default()
    };
    let header = set_cookie_header("SID", "abc", &opts);
    assert_eq!(header, "SID=abc; Path=/");
}

// ---- extract_session_id -----------------------------------------------

#[test]
fn extracts_present_session_id() {
    let cookies = parse_cookies("SID=hello; other=world");
    assert_eq!(extract_session_id(&cookies), Some("hello"));
}

#[test]
fn returns_none_when_absent() {
    let cookies = parse_cookies("other=world");
    assert_eq!(extract_session_id(&cookies), None);
}

#[test]
fn returns_none_for_empty_value() {
    let cookies = parse_cookies("SID=");
    assert_eq!(extract_session_id(&cookies), None);
}

#[test]
fn set_cookie_exact() {
    assert_eq!(
        set_cookie_header(SESSION_COOKIE, "xyz", &CookieOptions::default()),
        "SID=xyz; Path=/; Max-Age=3600; HttpOnly; SameSite=Lax"
    );
}

#[test]
fn last_of_equal_cookies_counts() {
    let cookies = parse_cookies("a=1; a=2");
    assert_eq!(cookies.get("a").map(String::as_str), Some("2"));
}
