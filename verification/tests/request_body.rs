//! Reading bodies.

use localhost::http::request::body::{
    memchr_crlf, read_body_chunked, read_body_unchunked, BodyResult, ChunkedResult,
};
use localhost::http::request::types::ParseError;

// ---- unchunked ---------------------------------------------------------

#[test]
fn unchunked_complete_when_enough_bytes() {
    let body = b"Hello, world!";
    match read_body_unchunked(body, 5) {
        BodyResult::Complete(v) => assert_eq!(v, b"Hello"),
        other => panic!("unexpected: {other:?}"),
    }
}

#[test]
fn unchunked_exact_length() {
    let body = b"Hello";
    match read_body_unchunked(body, 5) {
        BodyResult::Complete(v) => assert_eq!(v, b"Hello"),
        other => panic!("unexpected: {other:?}"),
    }
}

#[test]
fn unchunked_needs_more_when_short() {
    let body = b"Hi";
    match read_body_unchunked(body, 10) {
        BodyResult::NeedsMore { have: 2, need: 10 } => {}
        other => panic!("unexpected: {other:?}"),
    }
}

#[test]
fn unchunked_empty_body_zero_length() {
    match read_body_unchunked(b"", 0) {
        BodyResult::Complete(v) => assert!(v.is_empty()),
        other => panic!("unexpected: {other:?}"),
    }
}

// ---- chunked -----------------------------------------------------------

#[test]
fn chunked_single_chunk() {
    // "5\r\nHello\r\n0\r\n\r\n"
    let data = b"5\r\nHello\r\n0\r\n\r\n";
    match read_body_chunked(data) {
        ChunkedResult::Complete(body, consumed) => {
            assert_eq!(body, b"Hello");
            assert_eq!(consumed, data.len());
        }
        other => panic!("unexpected: {other:?}"),
    }
}

#[test]
fn chunked_multiple_chunks() {
    // "5\r\nHello\r\n6\r\n World\r\n0\r\n\r\n"
    let data = b"5\r\nHello\r\n6\r\n World\r\n0\r\n\r\n";
    match read_body_chunked(data) {
        ChunkedResult::Complete(body, _) => {
            assert_eq!(body, b"Hello World");
        }
        other => panic!("unexpected: {other:?}"),
    }
}

#[test]
fn chunked_empty_body() {
    let data = b"0\r\n\r\n";
    match read_body_chunked(data) {
        ChunkedResult::Complete(body, consumed) => {
            assert!(body.is_empty());
            assert_eq!(consumed, data.len());
        }
        other => panic!("unexpected: {other:?}"),
    }
}

#[test]
fn chunked_needs_more_on_incomplete_size_line() {
    // No \r\n after the chunk size.
    let data = b"5";
    assert!(matches!(read_body_chunked(data), ChunkedResult::NeedsMore));
}

#[test]
fn chunked_needs_more_on_incomplete_data() {
    // Size says 5, but only 3 bytes of data.
    let data = b"5\r\nHel";
    assert!(matches!(read_body_chunked(data), ChunkedResult::NeedsMore));
}

#[test]
fn chunked_needs_more_on_missing_final_crlf() {
    // Terminator chunk present but no trailing \r\n.
    let data = b"5\r\nHello\r\n0\r\n";
    assert!(matches!(read_body_chunked(data), ChunkedResult::NeedsMore));
}

#[test]
fn chunked_invalid_hex_size() {
    let data = b"ZZ\r\ndata\r\n0\r\n\r\n";
    assert!(matches!(
        read_body_chunked(data),
        ChunkedResult::Error(ParseError::BadChunkSize(_))
    ));
}

#[test]
fn chunked_missing_crlf_after_data() {
    // Size 5, data "Hello", but no \r\n trailing the data.
    let data = b"5\r\nHello0\r\n\r\n";
    assert!(matches!(
        read_body_chunked(data),
        ChunkedResult::Error(ParseError::BadChunkSize(_))
    ));
}

#[test]
fn chunked_with_extension_ignored() {
    // Chunk extensions after ';' must be stripped.
    let data = b"5;name=value\r\nHello\r\n0\r\n\r\n";
    match read_body_chunked(data) {
        ChunkedResult::Complete(body, _) => assert_eq!(body, b"Hello"),
        other => panic!("unexpected: {other:?}"),
    }
}

#[test]
fn chunked_uppercase_hex() {
    // "A" = 10 bytes
    let data = b"A\r\n0123456789\r\n0\r\n\r\n";
    match read_body_chunked(data) {
        ChunkedResult::Complete(body, _) => assert_eq!(body.len(), 10),
        other => panic!("unexpected: {other:?}"),
    }
}

// ---- memchr_crlf -------------------------------------------------------

#[test]
fn memchr_finds_first_crlf() {
    assert_eq!(memchr_crlf(b"abc\r\ndef"), Some(3));
    assert_eq!(memchr_crlf(b"\r\n"),       Some(0));
    assert_eq!(memchr_crlf(b"noend"),      None);
}

#[test]
fn chunked_body_ignores_what_follows() {
    let data = b"1\r\na\r\n0\r\n\r\nGET";
    match read_body_chunked(data) {
        ChunkedResult::Complete(body, consumed) => {
            assert_eq!(body, b"a");
            assert_eq!(consumed, data.len() - 3);
        }
        other => panic!("unexpected: {other:?}"),
    }
}

#[test]
fn chunked_body_with_trailer() {
    let data = b"1\r\na\r\n0\r\nX: y\r\n\r\n";
    match read_body_chunked(data) {
        ChunkedResult::Complete(body, consumed) => {
            assert_eq!(body, b"a");
            assert_eq!(consumed, data.len());
        }
        other => panic!("unexpected: {other:?}"),
    }
}

#[test]
fn chunk_errors_say_why() {
    for (data, text) in [
        (&b"ZZ\r\n"[..], "bad chunk size: invalid hex size 'ZZ'"),
        (&b"\xff\r\n"[..], "bad chunk size: non-UTF-8 chunk size line"),
    ] {
        match read_body_chunked(data) {
            ChunkedResult::Error(e) => assert_eq!(e.message(), text),
            other => panic!("unexpected: {other:?}"),
        }
    }
}

#[test]
fn chunk_too_large_to_count_is_waited_for() {
    assert!(matches!(read_body_chunked(b"ffffffffffffffff\r\nx"), ChunkedResult::NeedsMore));
}
