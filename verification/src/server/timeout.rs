//! How long a connection may stand still.
//!
//! | Phase                     | Time | Answer |
//! |---------------------------|------|--------|
//! | ReadingHeaders            | 30 s | 408    |
//! | ReadingBody, -Chunked     | 60 s | 408    |
//! | WritingResponse           | 60 s | 504    |
//! | AwaitingCgi               | 30 s | 504    |
//! | Processing                |  5 s | 504    |
//! | Done                      | none |        |

use vstd::prelude::*;
use vstd::string::*;
use vstd::utf8::encode_utf8;

use crate::server::connection::{ConnectionPhase, PhaseView};
use crate::text;

verus! {

/// The time for the head of a request to come in, in milliseconds.
pub const TIMEOUT_HEADERS_CONST: u64 = 30_000;

/// The time for the head of a request to come in, where nothing else is set.
pub const TIMEOUT_HEADERS: u64 = TIMEOUT_HEADERS_CONST;

/// The time for a body to come in.
pub const TIMEOUT_BODY: u64 = 60_000;

/// The time for a response to go out.
pub const TIMEOUT_WRITE: u64 = 60_000;

/// The time for a script to make its response.
pub const TIMEOUT_CGI: u64 = 30_000;

/// The time for an answer to be made.
pub const TIMEOUT_PROCESSING: u64 = 5_000;

/// Which answer a connection that stood still too long gets.
#[derive(Debug, Clone, Copy, PartialEq, Eq, Structural)]
pub enum TimeoutClass {
    /// 408: the request did not come in.
    RequestTimeout,
    /// 504: the response was not made, or did not go out.
    GatewayTimeout,
}

/// The time for the head of a request, as the setting gives it in seconds; the
/// usual time where there is no setting, or none that is a number.
pub open spec fn headers_timeout(setting: Option<Seq<char>>) -> nat {
    match setting {
        Some(s) => match text::parse_bounded(s, 10, u64::MAX as nat) {
            Some(n) => n * 1000,
            None => TIMEOUT_HEADERS_CONST as nat,
        },
        None => TIMEOUT_HEADERS_CONST as nat,
    }
}

/// A time in milliseconds, held to what can be counted.
pub open spec fn held(ms: nat) -> u64 {
    if ms <= u64::MAX {
        ms as u64
    } else {
        u64::MAX
    }
}

/// The time for the head of a request, by the setting `TIMEOUT_HEADERS_SECS`. A
/// time too long to count in milliseconds is as long as can be counted.
pub fn get_timeout_headers(setting: Option<&str>) -> (r: u64)
    ensures
        r == held(headers_timeout(text::opt_str(setting))),
{
    match setting {
        Some(s) => match text::parse_unsigned(s, 10, u64::MAX) {
            Some(n) => match n.checked_mul(1000) {
                Some(ms) => ms,
                None => u64::MAX,
            },
            None => TIMEOUT_HEADERS_CONST,
        },
        None => TIMEOUT_HEADERS_CONST,
    }
}

/// How long a connection may stand still in a phase, and which answer it gets
/// after that.
pub open spec fn limit(phase: PhaseView, headers: u64) -> Option<(u64, TimeoutClass)> {
    match phase {
        PhaseView::ReadingHeaders => Some((headers, TimeoutClass::RequestTimeout)),
        PhaseView::ReadingBody { .. } => Some((TIMEOUT_BODY, TimeoutClass::RequestTimeout)),
        PhaseView::ReadingChunked { .. } => Some((TIMEOUT_BODY, TimeoutClass::RequestTimeout)),
        PhaseView::WritingResponse { .. } => Some((TIMEOUT_WRITE, TimeoutClass::GatewayTimeout)),
        PhaseView::AwaitingCgi { .. } => Some((TIMEOUT_CGI, TimeoutClass::GatewayTimeout)),
        PhaseView::Processing => Some((TIMEOUT_PROCESSING, TimeoutClass::GatewayTimeout)),
        PhaseView::Done => None,
    }
}

/// How long a connection may stand still in a phase, and which answer it gets
/// after that. `headers` is the time for the head of a request.
pub fn timeout_for_phase(phase: &ConnectionPhase, headers: u64) -> (r: Option<
    (u64, TimeoutClass),
>)
    ensures
        r == limit(phase@, headers),
{
    match phase {
        ConnectionPhase::ReadingHeaders => Some((headers, TimeoutClass::RequestTimeout)),
        ConnectionPhase::ReadingBody { .. } => Some((TIMEOUT_BODY, TimeoutClass::RequestTimeout)),
        ConnectionPhase::ReadingChunked { .. } => Some(
            (TIMEOUT_BODY, TimeoutClass::RequestTimeout),
        ),
        ConnectionPhase::WritingResponse { .. } => Some(
            (TIMEOUT_WRITE, TimeoutClass::GatewayTimeout),
        ),
        ConnectionPhase::AwaitingCgi { .. } => Some((TIMEOUT_CGI, TimeoutClass::GatewayTimeout)),
        ConnectionPhase::Processing => Some((TIMEOUT_PROCESSING, TimeoutClass::GatewayTimeout)),
        ConnectionPhase::Done => None,
    }
}

// ---------------------------------------------------------------------------
// Answers
// ---------------------------------------------------------------------------

/// The answer 408, ready to be sent.
pub const RESPONSE_408: &'static str =
    "HTTP/1.1 408 Request Timeout\r\nContent-Type: text/html; charset=utf-8\r\nContent-Length: 101\r\nConnection: close\r\n\r\n<html><head><title>408 Request Timeout</title></head><body><h1>408 Request Timeout</h1></body></html>";

/// The answer 504, ready to be sent.
pub const RESPONSE_504: &'static str =
    "HTTP/1.1 504 Gateway Timeout\r\nContent-Type: text/html; charset=utf-8\r\nContent-Length: 101\r\nConnection: close\r\n\r\n<html><head><title>504 Gateway Timeout</title></head><body><h1>504 Gateway Timeout</h1></body></html>";

/// The answer that a connection gets that stood still too long.
pub open spec fn canned(class: TimeoutClass) -> Seq<u8> {
    match class {
        TimeoutClass::RequestTimeout => encode_utf8(RESPONSE_408@),
        TimeoutClass::GatewayTimeout => encode_utf8(RESPONSE_504@),
    }
}

/// The answer that a connection gets that stood still too long, ready to be
/// sent.
pub fn canned_response(class: TimeoutClass) -> (r: &'static [u8])
    ensures
        r@ == canned(class),
{
    match class {
        TimeoutClass::RequestTimeout => RESPONSE_408.as_bytes(),
        TimeoutClass::GatewayTimeout => RESPONSE_504.as_bytes(),
    }
}

// ---------------------------------------------------------------------------
// Laws
// ---------------------------------------------------------------------------

/// Every connection that is not done may stand still for some time and no
/// longer, as long as the setting leaves time for a head; one that is done has
/// no limit. It is 408 exactly while a request is coming in.
pub proof fn lemma_limits(phase: PhaseView, headers: u64)
    requires
        headers > 0,
    ensures
        limit(phase, headers) is None <==> phase is Done,
        limit(phase, headers) matches Some((ms, class)) ==> ms > 0 && (class
            == TimeoutClass::RequestTimeout <==> phase is ReadingHeaders || phase is ReadingBody
            || phase is ReadingChunked),
{
}

/// The head of an answer, up to its empty line.
pub open spec fn canned_head(status: Seq<char>) -> Seq<char> {
    "HTTP/1.1 "@ + status
        + "\r\nContent-Type: text/html; charset=utf-8\r\nContent-Length: 101\r\nConnection: close\r\n\r\n"@
}

/// The page of an answer.
pub open spec fn canned_page(status: Seq<char>) -> Seq<char> {
    "<html><head><title>"@ + status + "</title></head><body><h1>"@ + status
        + "</h1></body></html>"@
}

/// Both answers are a head and a page, and the page is as long as the head says:
/// 101 bytes.
pub proof fn lemma_canned_length()
    ensures
        RESPONSE_408@ == canned_head("408 Request Timeout"@) + canned_page("408 Request Timeout"@),
        RESPONSE_504@ == canned_head("504 Gateway Timeout"@) + canned_page("504 Gateway Timeout"@),
        encode_utf8(canned_page("408 Request Timeout"@)).len() == 101,
        encode_utf8(canned_page("504 Gateway Timeout"@)).len() == 101,
{
    reveal_strlit("HTTP/1.1 ");
    reveal_strlit("408 Request Timeout");
    reveal_strlit("504 Gateway Timeout");
    reveal_strlit(
        "\r\nContent-Type: text/html; charset=utf-8\r\nContent-Length: 101\r\nConnection: close\r\n\r\n",
    );
    reveal_strlit("<html><head><title>");
    reveal_strlit("</title></head><body><h1>");
    reveal_strlit("</h1></body></html>");
    reveal_strlit(
        "HTTP/1.1 408 Request Timeout\r\nContent-Type: text/html; charset=utf-8\r\nContent-Length: 101\r\nConnection: close\r\n\r\n<html><head><title>408 Request Timeout</title></head><body><h1>408 Request Timeout</h1></body></html>",
    );
    reveal_strlit(
        "HTTP/1.1 504 Gateway Timeout\r\nContent-Type: text/html; charset=utf-8\r\nContent-Length: 101\r\nConnection: close\r\n\r\n<html><head><title>504 Gateway Timeout</title></head><body><h1>504 Gateway Timeout</h1></body></html>",
    );
    vstd::utf8::is_ascii_chars_encode_utf8(canned_page("408 Request Timeout"@));
    vstd::utf8::is_ascii_chars_encode_utf8(canned_page("504 Gateway Timeout"@));
    assert(RESPONSE_408@ =~= canned_head("408 Request Timeout"@) + canned_page(
        "408 Request Timeout"@,
    ));
    assert(RESPONSE_504@ =~= canned_head("504 Gateway Timeout"@) + canned_page(
        "504 Gateway Timeout"@,
    ));
}

/// How long each phase may last, in milliseconds, and what follows: a request has
/// a minute for its body, a response a minute to go out, a script half a minute,
/// and the server itself five seconds.
pub proof fn lemma_limit_values(
    headers: u64,
    expected: usize,
    bytes_read: usize,
    assembled: Seq<u8>,
    bytes_written: usize,
    child_pid: i32,
    pipe_fd: i32,
)
    ensures
        limit(PhaseView::ReadingHeaders, headers) == Some((headers, TimeoutClass::RequestTimeout)),
        limit(PhaseView::ReadingBody { expected, bytes_read }, headers) == Some(
            (60_000u64, TimeoutClass::RequestTimeout),
        ),
        limit(PhaseView::ReadingChunked { assembled }, headers) == Some(
            (60_000u64, TimeoutClass::RequestTimeout),
        ),
        limit(PhaseView::WritingResponse { bytes_written }, headers) == Some(
            (60_000u64, TimeoutClass::GatewayTimeout),
        ),
        limit(PhaseView::AwaitingCgi { child_pid, pipe_fd }, headers) == Some(
            (30_000u64, TimeoutClass::GatewayTimeout),
        ),
        limit(PhaseView::Processing, headers) == Some((5_000u64, TimeoutClass::GatewayTimeout)),
        limit(PhaseView::Done, headers) is None,
{
}

/// The time for the head of a request is the number of seconds that is set, and
/// half a minute where none is set or what is set is no number; it is held at the
/// largest number of milliseconds there is.
pub proof fn lemma_headers_timeout(n: u64, s: Seq<char>, ms: nat)
    ensures
        headers_timeout(Some(text::decimal(n as nat))) == n * 1000,
        headers_timeout(None) == 30_000,
        s.len() == 0 || (s[0] != '+' && !('0' <= s[0] <= '9')) ==> headers_timeout(Some(s))
            == 30_000,
        held(ms) <= ms,
        held(ms) < ms ==> held(ms) == u64::MAX,
{
    text::lemma_bounded(n as nat, u64::MAX as nat, s);
    if s.len() == 0 {
        assert(s =~= Seq::empty());
    }
}

/// A request that did not come in is answered with 408, and a response that was
/// not made with 504.
pub proof fn lemma_canned_status()
    ensures
        canned(TimeoutClass::RequestTimeout) == encode_utf8(
            canned_head("408 Request Timeout"@) + canned_page("408 Request Timeout"@),
        ),
        canned(TimeoutClass::GatewayTimeout) == encode_utf8(
            canned_head("504 Gateway Timeout"@) + canned_page("504 Gateway Timeout"@),
        ),
{
    lemma_canned_length();
}

} // verus!
