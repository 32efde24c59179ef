//! Timeouts.

use localhost::server::connection::ConnectionPhase;
use localhost::server::timeout::{
    canned_response, get_timeout_headers, timeout_for_phase, TimeoutClass, RESPONSE_408,
    RESPONSE_504, TIMEOUT_BODY, TIMEOUT_CGI, TIMEOUT_HEADERS, TIMEOUT_HEADERS_CONST,
    TIMEOUT_PROCESSING, TIMEOUT_WRITE,
};

#[test]
fn reading_headers_is_request_timeout() {
    let (dur, class) = timeout_for_phase(&ConnectionPhase::ReadingHeaders, TIMEOUT_HEADERS).unwrap();
    assert_eq!(class, TimeoutClass::RequestTimeout);
    assert_eq!(dur,   TIMEOUT_HEADERS_CONST);
}

#[test]
fn reading_body_is_request_timeout() {
    let (dur, class) = timeout_for_phase(&ConnectionPhase::ReadingBody {
        expected: 100,
        bytes_read: 0,
    }, TIMEOUT_HEADERS).unwrap();
    assert_eq!(class, TimeoutClass::RequestTimeout);
    assert_eq!(dur,   TIMEOUT_BODY);
}

#[test]
fn reading_chunked_is_request_timeout() {
    let (_, class) = timeout_for_phase(&ConnectionPhase::ReadingChunked {
        assembled: vec![],
    }, TIMEOUT_HEADERS).unwrap();
    assert_eq!(class, TimeoutClass::RequestTimeout);
}

#[test]
fn writing_response_is_gateway_timeout() {
    let (dur, class) = timeout_for_phase(&ConnectionPhase::WritingResponse {
        bytes_written: 0,
    }, TIMEOUT_HEADERS).unwrap();
    assert_eq!(class, TimeoutClass::GatewayTimeout);
    assert_eq!(dur,   TIMEOUT_WRITE);
}

#[test]
fn awaiting_cgi_is_gateway_timeout() {
    let (dur, class) = timeout_for_phase(&ConnectionPhase::AwaitingCgi { child_pid: 7, pipe_fd: 4 }, TIMEOUT_HEADERS).unwrap();
    assert_eq!(class, TimeoutClass::GatewayTimeout);
    assert_eq!(dur,   TIMEOUT_CGI);
}

#[test]
fn processing_has_short_timeout() {
    let (dur, _) = timeout_for_phase(&ConnectionPhase::Processing, TIMEOUT_HEADERS).unwrap();
    assert_eq!(dur, TIMEOUT_PROCESSING);
}

#[test]
fn done_returns_none() {
    assert!(timeout_for_phase(&ConnectionPhase::Done, TIMEOUT_HEADERS).is_none());
}

#[test]
fn canned_response_408_is_valid_http() {
    let s = std::str::from_utf8(RESPONSE_408.as_bytes()).unwrap();
    assert!(s.starts_with("HTTP/1.1 408"));
    assert!(s.contains("Content-Length:"));
    assert!(s.contains("\r\n\r\n"));
}

#[test]
fn canned_response_504_is_valid_http() {
    let s = std::str::from_utf8(RESPONSE_504.as_bytes()).unwrap();
    assert!(s.starts_with("HTTP/1.1 504"));
}

#[test]
fn canned_response_content_length_matches_body() {
    // Verify the Content-Length header in 408 is accurate.
    let raw    = RESPONSE_408.as_bytes();
    let sep    = raw.windows(4).position(|w| w == b"\r\n\r\n").unwrap();
    let header = std::str::from_utf8(&raw[..sep]).unwrap();
    let body   = &raw[sep + 4..];
    let cl_line = header.lines()
        .find(|l| l.to_lowercase().starts_with("content-length:"))
        .unwrap();
    let cl: usize = cl_line.split(':').nth(1).unwrap().trim().parse().unwrap();
    assert_eq!(cl, body.len());

    // Same check for 504.
    let raw    = RESPONSE_504.as_bytes();
    let sep    = raw.windows(4).position(|w| w == b"\r\n\r\n").unwrap();
    let header = std::str::from_utf8(&raw[..sep]).unwrap();
    let body   = &raw[sep + 4..];
    let cl_line = header.lines()
        .find(|l| l.to_lowercase().starts_with("content-length:"))
        .unwrap();
    let cl: usize = cl_line.split(':').nth(1).unwrap().trim().parse().unwrap();
    assert_eq!(cl, body.len());
}

#[test]
fn all_non_done_phases_have_positive_timeouts() {
    let phases = vec![
        ConnectionPhase::ReadingHeaders,
        ConnectionPhase::ReadingBody    { expected: 10, bytes_read: 0 },
        ConnectionPhase::ReadingChunked { assembled: vec![] },
        ConnectionPhase::Processing,
        ConnectionPhase::WritingResponse { bytes_written: 0 },
        ConnectionPhase::AwaitingCgi { child_pid: 7, pipe_fd: 4 },
    ];
    for phase in &phases {
        let (dur, _) = timeout_for_phase(phase, TIMEOUT_HEADERS)
            .unwrap_or_else(|| panic!("no timeout for {phase:?}"));
        assert!(dur > 0, "zero timeout for {phase:?}");
    }
}

// ------------------------------------------------------------------
// Per-phase response content verification
// ------------------------------------------------------------------

/// Every phase that can be timed out must map to a canned response with
// the correct HTTP status line and body.
#[test]
fn phases_timed_out_with_408_send_correct_response() {
    for phase in [
        ConnectionPhase::ReadingHeaders,
        ConnectionPhase::ReadingBody    { expected: 10, bytes_read: 0 },
        ConnectionPhase::ReadingChunked { assembled: vec![] },
    ] {
        let (dur, class) = timeout_for_phase(&phase, TIMEOUT_HEADERS)
            .unwrap_or_else(|| panic!("no timeout for {phase:?}"));
        assert!(dur > 0, "positive timeout for {phase:?}");

        let resp = canned_response(class);
        let s      = std::str::from_utf8(resp).expect("408 must be valid UTF-8");
        assert!(s.starts_with("HTTP/1.1 408"), "phase {:?} should yield 408 but got: {}", phase, s.lines().next().unwrap_or("(empty)"));
    }
}

#[test]
fn phases_timed_out_with_504_send_correct_response() {
    for phase in [
        ConnectionPhase::Processing,
        ConnectionPhase::WritingResponse  { bytes_written: 0 },
        ConnectionPhase::AwaitingCgi { child_pid: 7, pipe_fd: 4 },
    ] {
        let (dur, class) = timeout_for_phase(&phase, TIMEOUT_HEADERS)
            .unwrap_or_else(|| panic!("no timeout for {phase:?}"));
        assert!(dur > 0, "positive timeout for {phase:?}");

        let resp = canned_response(class);
        let s      = std::str::from_utf8(resp).expect("504 must be valid UTF-8");
        assert!(s.starts_with("HTTP/1.1 504"), "phase {:?} should yield 504 but got: {}", phase, s.lines().next().unwrap_or("(empty)"));
    }
}

#[test]
fn done_phase_never_times_out() {
    assert!(timeout_for_phase(&ConnectionPhase::Done, TIMEOUT_HEADERS).is_none(), "Done must never time out");

    // Even with a zero timeout, Done is not timed out (no entry in map).
    let resp = canned_response(TimeoutClass::GatewayTimeout);
    assert!(resp.starts_with(b"HTTP/1.1 504"), "canned 504 must start correctly");
}

#[test]
fn all_timeout_responses_have_matching_content_length() {
    // 408: verify body length matches the Content-Length header value.
    let raw = RESPONSE_408.as_bytes();
    let sep = raw.windows(4).position(|w| w == b"\r\n\r\n").unwrap();
    let cl_header = std::str::from_utf8(&raw[..sep]).unwrap()
        .lines().find(|l| l.to_lowercase().starts_with("content-length:"))
        .expect("408 must have Content-Length header");
    let cl: usize = cl_header.split(':').nth(1).unwrap().trim().parse().unwrap();
    assert_eq!(cl, raw.len() - sep - 4, "408 Content-Length must match actual body length");

    // 504: same check.
    let raw = RESPONSE_504.as_bytes();
    let sep = raw.windows(4).position(|w| w == b"\r\n\r\n").unwrap();
    let cl_header = std::str::from_utf8(&raw[..sep]).unwrap()
        .lines().find(|l| l.to_lowercase().starts_with("content-length:"))
        .expect("504 must have Content-Length header");
    let cl: usize = cl_header.split(':').nth(1).unwrap().trim().parse().unwrap();
    assert_eq!(cl, raw.len() - sep - 4, "504 Content-Length must match actual body length");
}

#[test]
fn all_timeout_responses_close_connection() {
    for class in [TimeoutClass::RequestTimeout, TimeoutClass::GatewayTimeout] {
        let resp = canned_response(class);
        let s = std::str::from_utf8(resp).expect("response must be valid UTF-8");
        assert!(s.contains("\r\nConnection: close\r\n"),
                "timeout response {:?} must include Connection: close", class);
    }
}

#[test]
fn timeout_constants_have_reasonable_durations() {
    // Reading headers should timeout fastest (slowloris defense).
    assert!(TIMEOUT_HEADERS / 1000 <= 45, "headers timeout should be ≤45s");

    // Body / write timeouts can be longer for uploads.
    assert!(TIMEOUT_BODY / 1000 >= 30, "body timeout should be ≥30s");
    assert!(TIMEOUT_WRITE / 1000 >= 30, "write timeout should be ≥30s");

    // Processing is a safety net; shouldn't be excessive.
    assert!(TIMEOUT_PROCESSING / 1000 <= 10, "processing timeout should be ≤10s");

    // CGI scripts should not run indefinitely.
    assert!(TIMEOUT_CGI / 1000 >= 15 && TIMEOUT_CGI / 1000 <= 60,
            "CGI timeout should be between 15s and 60s");
}

#[test]
fn setting_in_seconds() {
    assert_eq!(get_timeout_headers(None), TIMEOUT_HEADERS_CONST);
    assert_eq!(get_timeout_headers(Some("1")), 1_000);
    assert_eq!(get_timeout_headers(Some("x")), TIMEOUT_HEADERS_CONST);
    assert_eq!(get_timeout_headers(Some("18446744073709551615")), u64::MAX);
    let (ms, _) = timeout_for_phase(&ConnectionPhase::ReadingHeaders, 1_000).unwrap();
    assert_eq!(ms, 1_000);
}
