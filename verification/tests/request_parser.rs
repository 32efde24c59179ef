//! Reading the heads of requests.

use localhost::config::types::Method;
use localhost::http::request::parser::{
    find_header_end, parse_headers, parse_request_head, parse_request_line, percent_decode,
    ParseResult, MAX_HEADER_BYTES,
};
use localhost::http::request::types::{ParseError, Version};

// ---- parse_request_line ------------------------------------------------

#[test]
fn parses_simple_get() {
    let (m, p, q, v) = parse_request_line("GET / HTTP/1.1").unwrap();
    assert_eq!(m, Method::Get);
    assert_eq!(p, "/");
    assert_eq!(q, "");
    assert_eq!(v, Version::Http11);
}

#[test]
fn parses_query_string() {
    let (_, p, q, _) = parse_request_line("GET /search?q=hello&page=2 HTTP/1.1").unwrap();
    assert_eq!(p, "/search");
    assert_eq!(q, "q=hello&page=2");
}

#[test]
fn parses_http10() {
    let (_, _, _, v) = parse_request_line("GET / HTTP/1.0").unwrap();
    assert_eq!(v, Version::Http10);
}

#[test]
fn rejects_unknown_method() {
    assert!(matches!(
        parse_request_line("PATCH / HTTP/1.1"),
        Err(ParseError::UnknownMethod(_))
    ));
}

#[test]
fn rejects_unsupported_version() {
    assert!(matches!(
        parse_request_line("GET / HTTP/2.0"),
        Err(ParseError::UnsupportedVersion(_))
    ));
}

#[test]
fn rejects_relative_uri() {
    assert!(matches!(
        parse_request_line("GET relative HTTP/1.1"),
        Err(ParseError::BadUri(_))
    ));
}

#[test]
fn rejects_empty_uri() {
    // splitn gives an empty string for the URI field.
    assert!(parse_request_line("GET  HTTP/1.1").is_err());
}

#[test]
fn percent_decode_basic() {
    let (_, path, _, _) = parse_request_line("GET /hello%20world HTTP/1.1").unwrap();
    assert_eq!(path, "/hello world");
}

#[test]
fn percent_decode_invalid_sequence_passthrough() {
    // %ZZ is not valid hex — should be left as-is.
    let decoded = percent_decode("/path%ZZend");
    assert_eq!(decoded, "/path%ZZend");
}

// ---- parse_headers -----------------------------------------------------

#[test]
fn parses_basic_headers() {
    let lines = vec!["Host: example.com", "Content-Type: text/plain"];
    let map = parse_headers(&lines).unwrap();
    assert_eq!(map.get("host"), Some("example.com"));
    assert_eq!(map.get("content-type"), Some("text/plain"));
}

#[test]
fn trims_header_value_whitespace() {
    let lines = vec!["X-Custom:   value with spaces   "];
    let map = parse_headers(&lines).unwrap();
    assert_eq!(map.get("x-custom"), Some("value with spaces"));
}

#[test]
fn rejects_header_without_colon() {
    let lines = vec!["BadHeader"];
    assert!(parse_headers(&lines).is_err());
}

#[test]
fn rejects_whitespace_before_colon() {
    let lines = vec!["Name : value"];
    assert!(parse_headers(&lines).is_err());
}

#[test]
fn rejects_obsolete_folding() {
    let lines = vec![" continuation value"];
    assert!(parse_headers(&lines).is_err());
}

#[test]
fn skips_empty_lines() {
    let lines = vec!["Host: example.com", "", "Connection: close"];
    let map = parse_headers(&lines).unwrap();
    assert_eq!(map.len(), 2);
}

// ---- parse_request_head (integration) ----------------------------------

#[test]
fn full_request_head_complete() {
    let raw = b"GET /index.html HTTP/1.1\r\nHost: localhost\r\nConnection: keep-alive\r\n\r\n";
    match parse_request_head(raw) {
        ParseResult::Complete(req, consumed) => {
            assert_eq!(req.method,  Method::Get);
            assert_eq!(req.path,    "/index.html");
            assert_eq!(consumed,    raw.len());
            assert_eq!(req.headers.get("host"), Some("localhost"));
            assert!(req.is_keep_alive());
        }
        other => panic!("expected Complete, got {other:?}"),
    }
}

#[test]
fn partial_request_head_returns_incomplete() {
    let raw = b"GET / HTTP/1.1\r\nHost: localhost";
    assert!(matches!(parse_request_head(raw), ParseResult::Incomplete));
}

#[test]
fn oversized_header_block_returns_error() {
    let big = vec![b'A'; MAX_HEADER_BYTES + 1];
    assert!(matches!(
        parse_request_head(&big),
        ParseResult::Error(ParseError::HeadersTooLarge)
    ));
}

#[test]
fn consumed_offset_with_body_prefix() {
    // Simulate a POST where body bytes immediately follow the headers.
    let raw = b"POST /upload HTTP/1.1\r\nContent-Length: 5\r\n\r\nhello";
    match parse_request_head(raw) {
        ParseResult::Complete(_, consumed) => {
            // Consumed should end right after `\r\n\r\n`, leaving "hello".
            assert_eq!(&raw[consumed..], b"hello");
        }
        other => panic!("expected Complete, got {other:?}"),
    }
}

#[test]
fn post_request_with_content_length() {
    let raw = b"POST /data HTTP/1.1\r\nContent-Length: 3\r\nHost: x\r\n\r\n";
    match parse_request_head(raw) {
        ParseResult::Complete(req, _) => {
            assert_eq!(req.method, Method::Post);
            assert_eq!(req.content_length(), Some(3));
        }
        other => panic!("expected Complete, got {other:?}"),
    }
}

#[test]
fn delete_request_parsed() {
    let raw = b"DELETE /resource/1 HTTP/1.1\r\nHost: api.example.com\r\n\r\n";
    match parse_request_head(raw) {
        ParseResult::Complete(req, _) => {
            assert_eq!(req.method, Method::Delete);
            assert_eq!(req.path, "/resource/1");
        }
        other => panic!("expected Complete, got {other:?}"),
    }
}

// ---- find_header_end ---------------------------------------------------

#[test]
fn finds_double_crlf() {
    let buf = b"HEAD\r\n\r\n";
    assert_eq!(find_header_end(buf), Some(4));
}

#[test]
fn returns_none_without_double_crlf() {
    let buf = b"HEAD\r\n";
    assert_eq!(find_header_end(buf), None);
}

// ---- more heads -----------------------------------------------------------

fn error(raw: &[u8]) -> String {
    match parse_request_head(raw) {
        ParseResult::Error(e) => e.message(),
        other => panic!("expected an error, got {other:?}"),
    }
}

#[test]
fn errors_of_heads() {
    assert_eq!(error(b"\r\nHost: a\r\n\r\n"), "bad request line: empty request line");
    assert_eq!(error(b"GET /\xff HTTP/1.1\r\n\r\n"), "bad request line: non-UTF-8 in request head");
    assert_eq!(error(b"get / HTTP/1.1\r\n\r\n"), "unknown method: get");
    assert_eq!(error(b"GET / HTTP/1.2\r\n\r\n"), "unsupported version: HTTP/1.2");
    assert_eq!(error(b"GET /\r\n\r\n"), "unsupported version: ");
    assert_eq!(error(b"GET  HTTP/1.1\r\n\r\n"), "bad URI: empty URI");
    assert_eq!(error(b"GET a?b HTTP/1.1\r\n\r\n"), "bad URI: URI must start with '/': a?b");
    assert_eq!(error(b"GET / HTTP/1.1\r\nA\r\n\r\n"), "bad header: missing ':' in header: A");
    assert_eq!(error(b"GET / HTTP/1.1\r\n:b\r\n\r\n"), "bad header: empty header name");
    assert_eq!(
        error(b"GET / HTTP/1.1\r\nA : b\r\n\r\n"),
        "bad header: whitespace before ':' in header 'A '"
    );
    assert_eq!(
        error(b"GET / HTTP/1.1\r\nA: b\r\n c\r\n\r\n"),
        "bad header: obsolete header folding:  c"
    );
}

#[test]
fn what_is_sent_reads_back() {
    let raw = b"PUT /a%2Fb%25?x=%41 HTTP/1.0\r\nA: 1\r\nb:  2 \r\na:3\r\n\r\nrest";
    match parse_request_head(raw) {
        ParseResult::Complete(req, consumed) => {
            assert_eq!(req.method, Method::Put);
            assert_eq!(req.path, "/a/b%");
            assert_eq!(req.query, "x=%41");
            assert_eq!(req.version, Version::Http10);
            assert_eq!(req.headers.get("A"), Some("1, 3"));
            assert_eq!(req.headers.get("B"), Some("2"));
            assert_eq!(req.headers.len(), 2);
            assert!(req.body.is_empty());
            assert_eq!(&raw[consumed..], b"rest");
        }
        other => panic!("expected Complete, got {other:?}"),
    }
}

#[test]
fn percent_encoding_reads_back() {
    assert_eq!(percent_decode("%E2%82%AC%20%25"), "\u{20ac} %");
    assert_eq!(percent_decode("%e2%82%ac"), "\u{20ac}");
    assert_eq!(percent_decode("a%4"), "a%4");
    assert_eq!(percent_decode("%"), "%");
    // Bytes that are no text are replaced.
    assert_eq!(percent_decode("%FF"), "\u{fffd}");
}

#[test]
fn star_is_a_path() {
    let (_, p, _, _) = parse_request_line("OPTIONS * HTTP/1.1").unwrap();
    assert_eq!(p, "*");
}

#[test]
fn limit_is_on_the_head_alone() {
    // A head of 43 bytes, with 20000 bytes of body behind it.
    let mut raw = b"POST /u HTTP/1.1\r\nContent-Length: 20000\r\n\r\n".to_vec();
    raw.resize(43 + 20_000, b'x');
    match parse_request_head(&raw) {
        ParseResult::Complete(req, consumed) => {
            assert_eq!(consumed, 43);
            assert_eq!(req.method, Method::Post);
            assert_eq!(req.path, "/u");
            assert_eq!(req.content_length(), Some(20_000));
        }
        other => panic!("expected Complete, got {other:?}"),
    }
}

#[test]
fn largest_head() {
    let head = |n: usize| {
        let mut raw = b"GET / HTTP/1.1\r\nA: ".to_vec();
        raw.resize(n - 4, b'x');
        raw.extend_from_slice(b"\r\n\r\n");
        raw
    };
    assert!(matches!(
        parse_request_head(&head(MAX_HEADER_BYTES)),
        ParseResult::Complete(_, MAX_HEADER_BYTES)
    ));
    let over = head(MAX_HEADER_BYTES + 1);
    assert!(matches!(parse_request_head(&over), ParseResult::Error(ParseError::HeadersTooLarge)));
    assert!(matches!(parse_request_head(&over[..MAX_HEADER_BYTES]), ParseResult::Incomplete));
}
