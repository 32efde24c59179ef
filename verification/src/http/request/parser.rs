//! The parser of request heads.
//!
//! [`parse_request_head`] is called on a growing buffer, each time new bytes
//! have come. It asks for more until the empty line that ends the head is
//! there, and then reads the head.

use vstd::prelude::*;
use vstd::string::*;
use vstd::utf8::*;

use crate::config::types;
use crate::config::types::Method;
use crate::http::request::body::double_crlf;
use crate::http::request::types::{
    version_name, with_header, HeaderMap, Headers, ParseError, ParseErrorView, Request, RequestView,
    Version,
};
use crate::text;

verus! {

/// The largest head that is read, in bytes: request line and headers, with the
/// empty line that ends them. What follows does not count.
pub const MAX_HEADER_BYTES: usize = 16_384;

/// What reading a head comes to.
#[derive(Debug)]
pub enum ParseResult {
    /// The request, without its body, and how many bytes its head took.
    Complete(Request, usize),
    /// The end of the head is not there yet.
    Incomplete,
    /// The head is malformed.
    Error(ParseError),
}

/// A [`ParseResult`] with views for its parts.
#[verifier::ext_equal]
pub enum HeadView {
    Complete(RequestView, int),
    Incomplete,
    Error(ParseErrorView),
}

impl View for ParseResult {
    type V = HeadView;

    open spec fn view(&self) -> HeadView {
        match self {
            ParseResult::Complete(r, n) => HeadView::Complete(r@, *n as int),
            ParseResult::Incomplete => HeadView::Incomplete,
            ParseResult::Error(e) => HeadView::Error(e@),
        }
    }
}

// ---------------------------------------------------------------------------
// Percent-encoding
// ---------------------------------------------------------------------------

/// The value of a byte that is a hexadecimal digit.
pub open spec fn nibble(b: u8) -> Option<u8> {
    if 48 <= b <= 57 {
        Some((b - 48) as u8)
    } else if 97 <= b <= 102 {
        Some((b - 87) as u8)
    } else if 65 <= b <= 70 {
        Some((b - 55) as u8)
    } else {
        None
    }
}

/// Bytes with each percent sign and two hexadecimal digits made the byte they
/// stand for. A percent sign that no such digits follow stays.
pub open spec fn percent_decoded(b: Seq<u8>) -> Seq<u8>
    decreases b.len(),
{
    if b.len() == 0 {
        Seq::empty()
    } else if b[0] == 37 && b.len() > 2 && nibble(b[1]) is Some && nibble(b[2]) is Some {
        seq![(nibble(b[1])->0 * 16 + nibble(b[2])->0) as u8] + percent_decoded(b.skip(3))
    } else {
        seq![b[0]] + percent_decoded(b.skip(1))
    }
}

/// The text that a percent-encoded text stands for.
pub open spec fn percent_text(s: Seq<char>) -> Seq<char> {
    text::decoded(percent_decoded(encode_utf8(s)))
}

fn hex_nibble(b: u8) -> (r: Option<u8>)
    ensures
        r == nibble(b),
        r matches Some(n) ==> n < 16,
{
    if 48 <= b && b <= 57 {
        Some(b - 48)
    } else if 97 <= b && b <= 102 {
        Some(b - 87)
    } else if 65 <= b && b <= 70 {
        Some(b - 55)
    } else {
        None
    }
}

/// Decodes a percent-encoded string. What is not well-formed in it stays as it
/// is.
pub fn percent_decode(s: &str) -> (r: String)
    ensures
        r@ == percent_text(s@),
{
    let bytes = s.as_bytes();
    let ghost b = bytes@;
    let mut out: Vec<u8> = Vec::new();
    let mut i: usize = 0;
    proof {
        assert(b.skip(0) =~= b);
        assert(out@ + percent_decoded(b) =~= percent_decoded(b));
    }
    while i < bytes.len()
        invariant
            i <= b.len(),
            b == bytes@,
            out@ + percent_decoded(b.skip(i as int)) == percent_decoded(b),
        decreases b.len() - i,
    {
        let ghost rest = b.skip(i as int);
        let ghost before = out@;
        assert(rest[0] == bytes@[i as int]);
        if bytes[i] == 37 && bytes.len() - i > 2 {
            assert(rest[1] == bytes@[i + 1] && rest[2] == bytes@[i + 2]);
            if let (Some(hi), Some(lo)) = (hex_nibble(bytes[i + 1]), hex_nibble(bytes[i + 2])) {
                let x: u8 = hi * 16 + lo;
                out.push(x);
                proof {
                    assert(rest.skip(3) =~= b.skip(i + 3));
                    assert(out@ + percent_decoded(b.skip(i + 3)) =~= before + (seq![x]
                        + percent_decoded(b.skip(i + 3))));
                }
                i = i + 3;
                continue;
            }
        }
        let x: u8 = bytes[i];
        out.push(x);
        proof {
            assert(rest.skip(1) =~= b.skip(i + 1));
            assert(out@ + percent_decoded(b.skip(i + 1)) =~= before + (seq![x] + percent_decoded(
                b.skip(i + 1),
            )));
        }
        i = i + 1;
    }
    assert(out@ + Seq::<u8>::empty() =~= out@);
    text::decoded_text(out.as_slice())
}

proof fn lemma_percent_decoded_plain(b: Seq<u8>)
    requires
        !b.contains(37u8),
    ensures
        percent_decoded(b) == b,
    decreases b.len(),
{
    if b.len() > 0 {
        assert(b[0] != 37);
        let rest = b.skip(1);
        assert forall|i: int| 0 <= i < rest.len() implies rest[i] != 37 by {
            assert(b[i + 1] != 37);
        }
        lemma_percent_decoded_plain(rest);
        assert(seq![b[0]] + rest =~= b);
    }
}

/// A text whose encoding holds no percent sign stands for itself.
pub proof fn lemma_percent_plain(s: Seq<char>)
    requires
        !encode_utf8(s).contains(37u8),
    ensures
        percent_text(s) == s,
{
    lemma_percent_decoded_plain(encode_utf8(s));
    encode_utf8_valid_utf8(s);
    encode_utf8_decode_utf8(s);
}

/// A hexadecimal digit, as a byte.
pub open spec fn hex_byte(n: u8) -> u8 {
    if n < 10 {
        (48 + n) as u8
    } else {
        (55 + n) as u8
    }
}

/// Bytes with each that is not to be kept made a percent sign and two
/// hexadecimal digits.
pub open spec fn percent_encoded(b: Seq<u8>, kept: Set<u8>) -> Seq<u8>
    decreases b.len(),
{
    if b.len() == 0 {
        Seq::empty()
    } else if kept.contains(b[0]) {
        seq![b[0]] + percent_encoded(b.skip(1), kept)
    } else {
        seq![37u8, hex_byte(b[0] / 16), hex_byte(b[0] % 16)] + percent_encoded(b.skip(1), kept)
    }
}

proof fn lemma_percent_bytes(b: Seq<u8>, kept: Set<u8>)
    requires
        !kept.contains(37u8),
    ensures
        percent_decoded(percent_encoded(b, kept)) == b,
    decreases b.len(),
{
    if b.len() > 0 {
        let rest = percent_encoded(b.skip(1), kept);
        let e = percent_encoded(b, kept);
        lemma_percent_bytes(b.skip(1), kept);
        if kept.contains(b[0]) {
            assert(e.skip(1) =~= rest);
        } else {
            let hi: u8 = b[0] / 16;
            let lo: u8 = b[0] % 16;
            assert(nibble(hex_byte(hi)) == Some(hi));
            assert(nibble(hex_byte(lo)) == Some(lo));
            assert(e[1] == hex_byte(hi) && e[2] == hex_byte(lo));
            assert(e.skip(3) =~= rest);
        }
        assert(seq![b[0]] + b.skip(1) =~= b);
    }
}

/// A percent-encoded text stands for the text it was made of, whichever bytes
/// were kept as they are, as long as the percent sign is not one of them.
pub proof fn lemma_percent_reads_back(s: Seq<char>, encoded: Seq<char>, kept: Set<u8>)
    requires
        !kept.contains(37u8),
        encode_utf8(encoded) == percent_encoded(encode_utf8(s), kept),
    ensures
        percent_text(encoded) == s,
{
    lemma_percent_bytes(encode_utf8(s), kept);
    encode_utf8_valid_utf8(s);
    encode_utf8_decode_utf8(s);
}

// ---------------------------------------------------------------------------
// The request line
// ---------------------------------------------------------------------------

/// The text before the first space.
pub open spec fn before_space(s: Seq<char>) -> Seq<char> {
    s.take(text::index_of(s, ' '))
}

/// The text behind the first space; empty where there is none.
pub open spec fn after_space(s: Seq<char>) -> Seq<char> {
    if text::index_of(s, ' ') < s.len() {
        s.skip(text::index_of(s, ' ') + 1)
    } else {
        Seq::empty()
    }
}

/// The version with the given name.
pub open spec fn version_named(s: Seq<char>) -> Option<Version> {
    if s == "HTTP/1.1"@ {
        Some(Version::Http11)
    } else if s == "HTTP/1.0"@ {
        Some(Version::Http10)
    } else {
        None
    }
}

/// The path of a URI, still encoded.
pub open spec fn raw_path(uri: Seq<char>) -> Seq<char> {
    uri.take(text::index_of(uri, '?'))
}

/// The query of a URI; empty where there is none.
pub open spec fn raw_query(uri: Seq<char>) -> Seq<char> {
    if text::index_of(uri, '?') < uri.len() {
        uri.skip(text::index_of(uri, '?') + 1)
    } else {
        Seq::empty()
    }
}

/// The method, path, query and version of a request line.
pub type RequestLine = (Method, Seq<char>, Seq<char>, Version);

/// What a request line says: a method, a space, a URI, a space, a version.
pub open spec fn request_line(line: Seq<char>) -> Result<RequestLine, ParseErrorView> {
    let name = before_space(line);
    let uri = before_space(after_space(line));
    let version = after_space(after_space(line));
    match types::method_named(name) {
        None => Err(ParseErrorView::UnknownMethod(name)),
        Some(m) => if uri.len() == 0 {
            Err(ParseErrorView::BadUri("empty URI"@))
        } else if raw_path(uri) != "*"@ && !(raw_path(uri).len() > 0 && raw_path(uri)[0] == '/') {
            Err(ParseErrorView::BadUri("URI must start with '/': "@ + uri))
        } else {
            match version_named(version) {
                None => Err(ParseErrorView::UnsupportedVersion(version)),
                Some(v) => Ok((m, percent_text(raw_path(uri)), raw_query(uri), v)),
            }
        },
    }
}

/// The view of what a request line gives.
pub open spec fn line_view(r: (Method, String, String, Version)) -> RequestLine {
    (r.0, r.1@, r.2@, r.3)
}

/// Cuts a string at the first occurrence of a character, which goes to neither
/// part. The second part is empty where the character does not occur.
fn cut<'a>(s: &'a str, c: char) -> (r: (&'a str, &'a str))
    ensures
        r.0@ == s@.take(text::index_of(s@, c)),
        r.1@ == if text::index_of(s@, c) < s@.len() {
            s@.skip(text::index_of(s@, c) + 1)
        } else {
            Seq::<char>::empty()
        },
{
    let v = text::chars_of(s);
    let n: usize = text::find_char(v.as_slice(), c);
    assert(s@.take(n as int) =~= s@.subrange(0, n as int));
    let first = s.substring_char(0, n);
    if n < v.len() {
        assert(s@.skip(n + 1) =~= s@.subrange(n + 1, s@.len() as int));
        (first, s.substring_char(n + 1, v.len()))
    } else {
        assert(s@.subrange(n as int, n as int) =~= Seq::empty());
        (first, s.substring_char(n, n))
    }
}

/// Whether a string has no characters.
fn blank(s: &str) -> (r: bool)
    ensures
        r == (s@.len() == 0),
{
    text::chars_of(s).len() == 0
}

/// Reads a request line, such as `GET /path?query HTTP/1.1`.
pub fn parse_request_line(line: &str) -> (r: Result<(Method, String, String, Version), ParseError>)
    ensures
        match r {
            Ok(t) => request_line(line@) == Ok::<RequestLine, ParseErrorView>(line_view(t)),
            Err(e) => request_line(line@) == Err::<RequestLine, ParseErrorView>(e@),
        },
{
    let (method_str, after) = cut(line, ' ');
    let (uri, version_str) = cut(after, ' ');
    let method = match Method::from_str(method_str) {
        Some(m) => m,
        None => {
            return Err(ParseError::UnknownMethod(text::owned(method_str)));
        },
    };
    if blank(uri) {
        return Err(ParseError::BadUri(text::owned("empty URI")));
    }
    let (path, query) = cut(uri, '?');
    proof {
        reveal_strlit("/");
        if text::starts_with(path@, "/"@) {
            assert(path@.take(1)[0] == '/');
        } else if path@.len() > 0 && path@[0] == '/' {
            assert(path@.take(1) =~= "/"@);
        }
    }
    if !text::same(path, "*") && !text::has_prefix(path, "/") {
        return Err(ParseError::BadUri(text::joined("URI must start with '/': ", uri)));
    }
    let version = if text::same(version_str, "HTTP/1.1") {
        Version::Http11
    } else if text::same(version_str, "HTTP/1.0") {
        Version::Http10
    } else {
        return Err(ParseError::UnsupportedVersion(text::owned(version_str)));
    };
    Ok((method, percent_decode(path), text::owned(query), version))
}

// ---------------------------------------------------------------------------
// Headers
// ---------------------------------------------------------------------------

/// Whether a character is a space or a tab.
pub open spec fn is_blank(c: char) -> bool {
    c == ' ' || c == '\t'
}

/// The headers after one line more.
pub open spec fn header_line(h: Headers, line: Seq<char>) -> Result<Headers, ParseErrorView> {
    let colon = text::index_of(line, ':');
    let name = line.take(colon);
    if line.len() == 0 {
        Ok(h)
    } else if is_blank(line[0]) {
        Err(ParseErrorView::BadHeader("obsolete header folding: "@ + line))
    } else if colon >= line.len() {
        Err(ParseErrorView::BadHeader("missing ':' in header: "@ + line))
    } else if colon == 0 {
        Err(ParseErrorView::BadHeader("empty header name"@))
    } else if is_blank(name.last()) {
        Err(ParseErrorView::BadHeader("whitespace before ':' in header '"@ + name + "'"@))
    } else {
        Ok(with_header(h, name, line.skip(colon + 1)))
    }
}

/// The headers that lines give, from the `i`-th line on.
pub open spec fn header_lines(h: Headers, lines: Seq<Seq<char>>, i: int) -> Result<
    Headers,
    ParseErrorView,
>
    decreases lines.len() - i,
{
    if i < 0 || i >= lines.len() {
        Ok(h)
    } else {
        match header_line(h, lines[i]) {
            Err(e) => Err(e),
            Ok(next) => header_lines(next, lines, i + 1),
        }
    }
}

/// Adds the header of one line.
fn parse_header(map: &mut HeaderMap, line: &str) -> (r: Result<(), ParseError>)
    ensures
        match r {
            Ok(_) => header_line(old(map)@, line@) == Ok::<Headers, ParseErrorView>(final(map)@),
            Err(e) => header_line(old(map)@, line@) == Err::<Headers, ParseErrorView>(e@),
        },
{
    let v = text::chars_of(line);
    if v.len() == 0 {
        return Ok(());
    }
    if v[0] == ' ' || v[0] == '\t' {
        return Err(ParseError::BadHeader(text::joined("obsolete header folding: ", line)));
    }
    let colon: usize = text::find_char(v.as_slice(), ':');
    if colon >= v.len() {
        return Err(ParseError::BadHeader(text::joined("missing ':' in header: ", line)));
    }
    if colon == 0 {
        return Err(ParseError::BadHeader(text::owned("empty header name")));
    }
    let (name, value) = cut(line, ':');
    assert(name@.last() == line@[colon - 1]);
    if v[colon - 1] == ' ' || v[colon - 1] == '\t' {
        let mut s = text::joined("whitespace before ':' in header '", name);
        s.append("'");
        return Err(ParseError::BadHeader(s));
    }
    map.insert(name, value);
    Ok(())
}

/// Reads header lines, each a name, a colon and a value. Empty lines are
/// passed over; lines that continue another are refused.
pub fn parse_headers(lines: &[&str]) -> (r: Result<HeaderMap, ParseError>)
    ensures
        match r {
            Ok(h) => header_lines(Map::empty(), text::str_views(lines@), 0) == Ok::<
                Headers,
                ParseErrorView,
            >(h@),
            Err(e) => header_lines(Map::empty(), text::str_views(lines@), 0) == Err::<
                Headers,
                ParseErrorView,
            >(e@),
        },
{
    let ghost all = text::str_views(lines@);
    let mut map = HeaderMap::new();
    let mut i: usize = 0;
    while i < lines.len()
        invariant
            i <= lines@.len(),
            all == text::str_views(lines@),
            header_lines(Map::empty(), all, 0) == header_lines(map@, all, i as int),
        decreases lines@.len() - i,
    {
        assert(all[i as int] == lines@[i as int]@);
        if let Err(e) = parse_header(&mut map, lines[i]) {
            return Err(e);
        }
        i = i + 1;
    }
    Ok(map)
}

// ---------------------------------------------------------------------------
// Heads
// ---------------------------------------------------------------------------

/// What the bytes of a head say, without the empty line that ends it.
pub open spec fn head(bytes: Seq<u8>) -> Result<RequestView, ParseErrorView> {
    if !valid_utf8(bytes) {
        Err(ParseErrorView::BadRequestLine("non-UTF-8 in request head"@))
    } else {
        let lines = text::split_at_seq(decode_utf8(bytes), seq!['\r', '\n']);
        if lines[0].len() == 0 {
            Err(ParseErrorView::BadRequestLine("empty request line"@))
        } else {
            match request_line(lines[0]) {
                Err(e) => Err(e),
                Ok((method, path, query, version)) => match header_lines(
                    Map::empty(),
                    lines.skip(1),
                    0,
                ) {
                    Err(e) => Err(e),
                    Ok(headers) => Ok(
                        RequestView { method, path, query, version, headers, body: Seq::empty() },
                    ),
                },
            }
        }
    }
}

/// What a buffer says of the head at its start. A head is too large once more
/// bytes than allowed are there and it has not ended, or where it ends behind
/// them.
pub open spec fn parsed_head(buf: Seq<u8>) -> HeadView {
    match text::find_seq(buf, double_crlf(), 0) {
        None => if buf.len() > MAX_HEADER_BYTES {
            HeadView::Error(ParseErrorView::HeadersTooLarge)
        } else {
            HeadView::Incomplete
        },
        Some(end) => if end + 4 > MAX_HEADER_BYTES {
            HeadView::Error(ParseErrorView::HeadersTooLarge)
        } else {
            match head(buf.take(end)) {
                Ok(r) => HeadView::Complete(r, end + 4),
                Err(e) => HeadView::Error(e),
            }
        },
    }
}

/// Where the empty line that ends a head begins.
pub fn find_header_end(buf: &[u8]) -> (r: Option<usize>)
    ensures
        r matches Some(i) ==> text::find_seq(buf@, double_crlf(), 0) == Some(i as int) && i + 4
            <= buf.len(),
        r is None ==> text::find_seq(buf@, double_crlf(), 0) is None,
{
    let p: [u8; 4] = [13u8, 10u8, 13u8, 10u8];
    assert(p@ =~= double_crlf());
    text::find_bytes(buf, p.as_slice(), 0)
}

/// Reads the bytes of a head.
fn parse_head(bytes: &[u8]) -> (r: Result<Request, ParseError>)
    ensures
        match r {
            Ok(q) => head(bytes@) == Ok::<RequestView, ParseErrorView>(q@),
            Err(e) => head(bytes@) == Err::<RequestView, ParseErrorView>(e@),
        },
{
    let head_str = match text::utf8_text(bytes) {
        Some(s) => s,
        None => {
            return Err(ParseError::BadRequestLine(text::owned("non-UTF-8 in request head")));
        },
    };
    let lines = text::split_crlf(head_str);
    let ghost all = text::str_views(lines@);
    assert(all[0] == lines@[0]@);
    if blank(lines[0]) {
        return Err(ParseError::BadRequestLine(text::owned("empty request line")));
    }
    let (method, path, query, version) = match parse_request_line(lines[0]) {
        Ok(t) => t,
        Err(e) => {
            return Err(e);
        },
    };
    let rest: &[&str] = &lines.as_slice()[1..lines.len()];
    assert(text::str_views(rest@) =~= all.skip(1));
    let headers = match parse_headers(rest) {
        Ok(h) => h,
        Err(e) => {
            return Err(e);
        },
    };
    Ok(Request { method, path, query, version, headers, body: Vec::new() })
}

/// Reads the head of a request from a buffer, which may hold more than the
/// head, or not yet all of it. The body of the request is left empty.
pub fn parse_request_head(buf: &[u8]) -> (r: ParseResult)
    ensures
        r@ == parsed_head(buf@),
        r matches ParseResult::Complete(_, n) ==> n <= buf@.len(),
{
    let end: usize = match find_header_end(buf) {
        Some(i) => i,
        None => {
            if buf.len() > MAX_HEADER_BYTES {
                return ParseResult::Error(ParseError::HeadersTooLarge);
            }
            return ParseResult::Incomplete;
        },
    };
    if end + 4 > MAX_HEADER_BYTES {
        return ParseResult::Error(ParseError::HeadersTooLarge);
    }
    assert(buf@.take(end as int) =~= buf@.subrange(0, end as int));
    match parse_head(&buf[0..end]) {
        Ok(request) => ParseResult::Complete(request, end + 4),
        Err(e) => ParseResult::Error(e),
    }
}

// ---------------------------------------------------------------------------
// Laws
// ---------------------------------------------------------------------------

/// More bytes are asked for exactly as long as the buffer is within the limit
/// and the empty line has not come.
pub proof fn lemma_incomplete(buf: Seq<u8>)
    ensures
        parsed_head(buf) == HeadView::Incomplete <==> buf.len() <= MAX_HEADER_BYTES && forall|i: int|
            0 <= i ==> !#[trigger] text::match_at(buf, double_crlf(), i),
{
    text::lemma_find_seq(buf, double_crlf(), 0);
}

/// A head that has been read, or found malformed or too large, stays so whatever
/// bytes come behind it.
pub proof fn lemma_head_stable(buf: Seq<u8>, more: Seq<u8>)
    ensures
        parsed_head(buf) != HeadView::Incomplete ==> parsed_head(buf + more) == parsed_head(buf),
{
    let dc = double_crlf();
    text::lemma_find_seq(buf, dc, 0);
    text::lemma_find_seq(buf + more, dc, 0);
    text::lemma_find_seq_longer(buf, more, dc, 0);
    match text::find_seq(buf, dc, 0) {
        Some(end) => {
            assert((buf + more).take(end) =~= buf.take(end));
        },
        None => {
            if let Some(end) = text::find_seq(buf + more, dc, 0) {
                if end + 4 <= buf.len() {
                    assert((buf + more).subrange(end, end + 4) =~= buf.subrange(end, end + 4));
                    assert(text::match_at(buf, dc, end));
                }
            }
        },
    }
}

/// What a head takes is the head and the empty line: the four bytes before the
/// rest of the buffer are the two line ends, and the body of the request is
/// empty.
pub proof fn lemma_head_consumed(buf: Seq<u8>)
    ensures
        parsed_head(buf) matches HeadView::Complete(r, n) ==> 4 <= n <= buf.len() && n
            <= MAX_HEADER_BYTES && buf.subrange(
            n - 4,
            n,
        ) == double_crlf() && r.body.len() == 0,
{
    text::lemma_find_seq(buf, double_crlf(), 0);
}

/// Lines with line ends between them.
pub open spec fn joined_lines(lines: Seq<Seq<char>>) -> Seq<char>
    decreases lines.len(),
{
    if lines.len() == 0 {
        Seq::empty()
    } else if lines.len() == 1 {
        lines[0]
    } else {
        lines[0] + (seq!['\r', '\n'] + joined_lines(lines.drop_first()))
    }
}

/// Whether a text can stand on a line of a head: it is not empty, and holds no
/// carriage return.
pub open spec fn fits_line(s: Seq<char>) -> bool {
    s.len() > 0 && !s.contains('\r')
}

/// Behind a text without carriage returns, a line end is where the text ends.
proof fn lemma_line_end_found(line: Seq<char>, rest: Seq<char>)
    requires
        !line.contains('\r'),
    ensures
        text::find_seq(line + (seq!['\r', '\n'] + rest), seq!['\r', '\n'], 0) == Some(
            line.len() as int,
        ),
        text::find_seq(line, seq!['\r', '\n'], 0) is None,
{
    let crlf = seq!['\r', '\n'];
    let s = line + (crlf + rest);
    let n = line.len() as int;
    assert(s.subrange(n, n + 2) =~= crlf);
    assert forall|j: int| 0 <= j < n implies !#[trigger] text::match_at(s, crlf, j) by {
        if text::match_at(s, crlf, j) {
            assert(s.subrange(j, j + 2)[0] == line[j]);
            assert(line.contains(line[j]));
        }
    }
    text::lemma_find_seq_is(s, crlf, 0, n);
    text::lemma_find_seq(line, crlf, 0);
    if let Some(j) = text::find_seq(line, crlf, 0) {
        assert(line.subrange(j, j + 2)[0] == line[j]);
        assert(line.contains(line[j]));
    }
}

proof fn lemma_lines_split(lines: Seq<Seq<char>>)
    requires
        lines.len() > 0,
        forall|i: int| 0 <= i < lines.len() ==> fits_line(#[trigger] lines[i]),
    ensures
        text::split_at_seq(joined_lines(lines), seq!['\r', '\n']) == lines,
    decreases lines.len(),
{
    let crlf = seq!['\r', '\n'];
    assert(fits_line(lines[0]));
    if lines.len() == 1 {
        lemma_line_end_found(lines[0], Seq::empty());
        assert(seq![lines[0]] =~= lines);
    } else {
        let tail = lines.drop_first();
        let s = joined_lines(lines);
        let n = lines[0].len() as int;
        assert forall|i: int| 0 <= i < tail.len() implies fits_line(#[trigger] tail[i]) by {
            assert(tail[i] == lines[i + 1]);
        }
        lemma_lines_split(tail);
        lemma_line_end_found(lines[0], joined_lines(tail));
        assert(s.take(n) =~= lines[0]);
        assert(s.skip(n + 2) =~= joined_lines(tail));
        assert(seq![lines[0]] + tail =~= lines);
    }
}

/// The first empty line behind lines that are not empty is the one at their end.
pub proof fn lemma_lines_end(lines: Seq<Seq<char>>)
    requires
        lines.len() > 0,
        forall|i: int| 0 <= i < lines.len() ==> fits_line(#[trigger] lines[i]),
    ensures
        text::find_seq(encode_utf8(joined_lines(lines)) + double_crlf(), double_crlf(), 0) == Some(
            encode_utf8(joined_lines(lines)).len() as int,
        ),
        encode_utf8(joined_lines(lines)).len() > 0,
        encode_utf8(joined_lines(lines))[0] != 13,
    decreases lines.len(),
{
    let dc = double_crlf();
    let e = encode_utf8(lines[0]);
    let n = e.len() as int;
    let whole = encode_utf8(joined_lines(lines));
    let s = whole + dc;
    assert(fits_line(lines[0]));
    text::lemma_encode_without(lines[0], '\r');
    encode_utf8_first_scalar(lines[0]);
    assert(e.len() > 0);
    assert(e[0] != 13);
    if lines.len() == 1 {
        assert(s.subrange(n, n + 4) =~= dc);
        assert forall|j: int| 0 <= j < n implies !#[trigger] text::match_at(s, dc, j) by {
            if text::match_at(s, dc, j) {
                assert(s.subrange(j, j + 4)[0] == e[j]);
            }
        }
        text::lemma_find_seq_is(s, dc, 0, n);
    } else {
        let tail = lines.drop_first();
        assert forall|i: int| 0 <= i < tail.len() implies fits_line(#[trigger] tail[i]) by {
            assert(tail[i] == lines[i + 1]);
        }
        lemma_lines_end(tail);
        let crlf = seq!['\r', '\n'];
        let rest = encode_utf8(joined_lines(tail));
        text::lemma_encode_parts(lines[0], crlf + joined_lines(tail));
        text::lemma_encode_parts(crlf, joined_lines(tail));
        is_ascii_chars_encode_utf8(crlf);
        assert(encode_utf8(crlf) =~= seq![13u8, 10u8]);
        assert(whole =~= e + (seq![13u8, 10u8] + rest));
        assert(s.skip(n + 2) =~= rest + dc);
        let at = n + 2 + rest.len();
        text::lemma_find_seq(rest + dc, dc, 0);
        assert(s.subrange(at, at + 4) =~= dc);
        assert forall|j: int| 0 <= j < at implies !#[trigger] text::match_at(s, dc, j) by {
            if text::match_at(s, dc, j) {
                let m = s.subrange(j, j + 4);
                assert(m[0] == s[j] && m[2] == s[j + 2]);
                if j < n {
                    assert(s[j] == e[j]);
                } else if j == n {
                    assert(s[j + 2] == rest[0]);
                } else if j == n + 1 {
                    assert(s[j] == 10u8);
                } else {
                    assert(m =~= (rest + dc).subrange(j - n - 2, j - n + 2));
                    assert(text::match_at(rest + dc, dc, j - n - 2));
                }
            }
        }
        text::lemma_find_seq_is(s, dc, 0, at);
    }
}

/// A head is read as its lines: whatever follows the empty line behind them,
/// the first is the request line, and the others are headers.
pub proof fn lemma_head_lines(lines: Seq<Seq<char>>, rest: Seq<u8>)
    requires
        lines.len() > 0,
        forall|i: int| 0 <= i < lines.len() ==> fits_line(#[trigger] lines[i]),
        encode_utf8(joined_lines(lines)).len() + 4 <= MAX_HEADER_BYTES,
    ensures
        parsed_head(encode_utf8(joined_lines(lines)) + double_crlf() + rest) == match request_line(
            lines[0],
        ) {
            Err(e) => HeadView::Error(e),
            Ok((method, path, query, version)) => match header_lines(
                Map::empty(),
                lines.skip(1),
                0,
            ) {
                Err(e) => HeadView::Error(e),
                Ok(headers) => HeadView::Complete(
                    RequestView { method, path, query, version, headers, body: Seq::empty() },
                    encode_utf8(joined_lines(lines)).len() as int + 4,
                ),
            },
        },
{
    let t = joined_lines(lines);
    let e = encode_utf8(t);
    let buf = e + double_crlf() + rest;
    lemma_lines_end(lines);
    text::lemma_find_seq_longer(e + double_crlf(), rest, double_crlf(), 0);
    assert(buf.take(e.len() as int) =~= e);
    encode_utf8_valid_utf8(t);
    encode_utf8_decode_utf8(t);
    lemma_lines_split(lines);
    assert(fits_line(lines[0]));
}

/// A request line as it is sent.
pub open spec fn sent_line(m: Method, uri: Seq<char>, v: Version) -> Seq<char> {
    types::method_name(m) + (seq![' '] + (uri + (seq![' '] + version_name(v))))
}

/// Whether a URI can be sent: it holds no space, and its path begins with a
/// slash or is `*`.
pub open spec fn sendable_uri(uri: Seq<char>) -> bool {
    &&& uri.len() > 0
    &&& !uri.contains(' ')
    &&& raw_path(uri) == "*"@ || (raw_path(uri).len() > 0 && raw_path(uri)[0] == '/')
}

proof fn lemma_cut_at_space(a: Seq<char>, b: Seq<char>)
    requires
        !a.contains(' '),
    ensures
        before_space(a + (seq![' '] + b)) == a,
        after_space(a + (seq![' '] + b)) == b,
{
    let s = a + (seq![' '] + b);
    assert forall|j: int| 0 <= j < a.len() implies s[j] != ' ' by {
        assert(a.contains(a[j]));
    }
    text::lemma_index_of_is(s, ' ', a.len() as int);
    assert(s.take(a.len() as int) =~= a);
    assert(s.skip(a.len() as int + 1) =~= b);
}

/// A request line reads back as what was sent: the method, the path with its
/// encoding undone, the query, and the version.
pub proof fn lemma_line_reads_back(m: Method, uri: Seq<char>, v: Version)
    requires
        sendable_uri(uri),
    ensures
        request_line(sent_line(m, uri, v)) == Ok::<RequestLine, ParseErrorView>(
            (m, percent_text(raw_path(uri)), raw_query(uri), v),
        ),
{
    types::lemma_method_round_trip(m, types::method_name(m));
    reveal_strlit("GET");
    reveal_strlit("POST");
    reveal_strlit("DELETE");
    reveal_strlit("HEAD");
    reveal_strlit("PUT");
    reveal_strlit("OPTIONS");
    reveal_strlit("HTTP/1.0");
    reveal_strlit("HTTP/1.1");
    assert("HTTP/1.0"@[7] != "HTTP/1.1"@[7]);
    let name = types::method_name(m);
    assert forall|j: int| 0 <= j < name.len() implies name[j] != ' ' by {}
    lemma_cut_at_space(name, uri + (seq![' '] + version_name(v)));
    lemma_cut_at_space(uri, version_name(v));
}

/// A header line as it is sent.
pub open spec fn sent_header(e: (Seq<char>, Seq<char>)) -> Seq<char> {
    e.0 + (seq![':'] + e.1)
}

/// Whether a header can be sent: its name is not empty, holds no colon, and
/// does not begin or end with a blank, and neither name nor value hold a
/// carriage return.
pub open spec fn sendable_header(e: (Seq<char>, Seq<char>)) -> bool {
    &&& e.0.len() > 0
    &&& !e.0.contains(':')
    &&& !is_blank(e.0[0])
    &&& !is_blank(e.0.last())
    &&& !e.0.contains('\r')
    &&& !e.1.contains('\r')
}

/// The headers that are sent, from the `i`-th on, behind others.
pub open spec fn with_headers(h: Headers, sent: Seq<(Seq<char>, Seq<char>)>, i: int) -> Headers
    decreases sent.len() - i,
{
    if i < 0 || i >= sent.len() {
        h
    } else {
        with_headers(with_header(h, sent[i].0, sent[i].1), sent, i + 1)
    }
}

proof fn lemma_header_reads_back(h: Headers, e: (Seq<char>, Seq<char>))
    requires
        sendable_header(e),
    ensures
        header_line(h, sent_header(e)) == Ok::<Headers, ParseErrorView>(with_header(h, e.0, e.1)),
        fits_line(sent_header(e)),
{
    let s = sent_header(e);
    let n = e.0.len() as int;
    assert forall|j: int| 0 <= j < n implies s[j] != ':' by {
        assert(e.0.contains(e.0[j]));
    }
    text::lemma_index_of_is(s, ':', n);
    assert(s.take(n) =~= e.0);
    assert(s.skip(n + 1) =~= e.1);
    assert(s[0] == e.0[0]);
    if s.contains('\r') {
        let j = choose|j: int| 0 <= j < s.len() && s[j] == '\r';
        if j < n {
            assert(e.0[j] == '\r');
        } else if j > n {
            assert(e.1[j - n - 1] == '\r');
        }
    }
}

proof fn lemma_headers_read_back(
    h: Headers,
    sent: Seq<(Seq<char>, Seq<char>)>,
    lines: Seq<Seq<char>>,
    i: int,
)
    requires
        0 <= i <= sent.len(),
        lines.len() == sent.len(),
        forall|j: int| 0 <= j < sent.len() ==> sendable_header(#[trigger] sent[j]),
        forall|j: int| 0 <= j < sent.len() ==> #[trigger] lines[j] == sent_header(sent[j]),
    ensures
        header_lines(h, lines, i) == Ok::<Headers, ParseErrorView>(with_headers(h, sent, i)),
    decreases sent.len() - i,
{
    if i < sent.len() {
        assert(sendable_header(sent[i]));
        assert(lines[i] == sent_header(sent[i]));
        lemma_header_reads_back(h, sent[i]);
        lemma_headers_read_back(with_header(h, sent[i].0, sent[i].1), sent, lines, i + 1);
    }
}

/// The head of a request as it is sent, with the empty line that ends it.
pub open spec fn sent_head(
    m: Method,
    uri: Seq<char>,
    v: Version,
    headers: Seq<(Seq<char>, Seq<char>)>,
) -> Seq<u8> {
    encode_utf8(
        joined_lines(
            seq![sent_line(m, uri, v)] + headers.map_values(
                |e: (Seq<char>, Seq<char>)| sent_header(e),
            ),
        ),
    ) + double_crlf()
}

/// A request reads back as what was sent, whatever follows its head: method,
/// path with its encoding undone, query, version and headers. What follows is
/// left for the body, and the head takes exactly its own bytes.
pub proof fn lemma_request_reads_back(
    m: Method,
    uri: Seq<char>,
    v: Version,
    headers: Seq<(Seq<char>, Seq<char>)>,
    rest: Seq<u8>,
)
    requires
        sendable_uri(uri),
        !uri.contains('\r'),
        forall|i: int| 0 <= i < headers.len() ==> sendable_header(#[trigger] headers[i]),
        sent_head(m, uri, v, headers).len() <= MAX_HEADER_BYTES,
    ensures
        parsed_head(sent_head(m, uri, v, headers) + rest) == HeadView::Complete(
            RequestView {
                method: m,
                path: percent_text(raw_path(uri)),
                query: raw_query(uri),
                version: v,
                headers: with_headers(Map::empty(), headers, 0),
                body: Seq::empty(),
            },
            sent_head(m, uri, v, headers).len() as int,
        ),
{
    let line = sent_line(m, uri, v);
    let others = headers.map_values(|e: (Seq<char>, Seq<char>)| sent_header(e));
    let lines = seq![line] + others;
    lemma_line_reads_back(m, uri, v);
    reveal_strlit("GET");
    reveal_strlit("POST");
    reveal_strlit("DELETE");
    reveal_strlit("HEAD");
    reveal_strlit("PUT");
    reveal_strlit("OPTIONS");
    reveal_strlit("HTTP/1.0");
    reveal_strlit("HTTP/1.1");
    if line.contains('\r') {
        let j = choose|j: int| 0 <= j < line.len() && line[j] == '\r';
        let n = types::method_name(m).len() as int;
        if n < j <= n + uri.len() {
            assert(uri[j - n - 1] == '\r');
        }
    }
    assert(fits_line(line));
    assert forall|i: int| 0 <= i < lines.len() implies fits_line(#[trigger] lines[i]) by {
        if i > 0 {
            assert(sendable_header(headers[i - 1]));
            assert(lines[i] == sent_header(headers[i - 1]));
            lemma_header_reads_back(Map::empty(), headers[i - 1]);
        }
    }
    lemma_head_lines(lines, rest);
    assert(lines.skip(1) =~= others);
    lemma_headers_read_back(Map::empty(), headers, others, 0);
}

/// In a URI, what goes before its first question mark is the path, and what
/// follows it is the query, character for character; without a question mark all
/// of it is the path.
pub proof fn lemma_query(path: Seq<char>, query: Seq<char>)
    requires
        !path.contains('?'),
    ensures
        raw_path(path + seq!['?'] + query) == path,
        raw_query(path + seq!['?'] + query) == query,
        raw_path(path) == path,
        raw_query(path) == Seq::<char>::empty(),
{
    let s = path + seq!['?'] + query;
    let n = path.len() as int;
    assert forall|j: int| 0 <= j < n implies s[j] != '?' by {
        assert(path.contains(path[j]));
        assert(s[j] == path[j]);
    }
    text::lemma_index_of_is(s, '?', n);
    assert(s.take(n) =~= path);
    assert(s.skip(n + 1) =~= query);
    text::lemma_index_of(path, '?');
    if text::index_of(path, '?') < n {
        assert(path.contains(path[text::index_of(path, '?')]));
    }
    assert(path.take(n) =~= path);
}

/// A request line is read for what stands in it, for every method and version:
/// the path is decoded, and the query is what stands behind the question mark,
/// character for character.
pub proof fn lemma_line_parts(m: Method, path: Seq<char>, query: Seq<char>, v: Version)
    requires
        path == "*"@ || (path.len() > 0 && path[0] == '/'),
        !path.contains('?'),
        !path.contains(' '),
        !query.contains(' '),
    ensures
        ({
            let name = match m {
                Method::Get => "GET"@,
                Method::Post => "POST"@,
                Method::Delete => "DELETE"@,
                Method::Head => "HEAD"@,
                Method::Put => "PUT"@,
                Method::Options => "OPTIONS"@,
            };
            let version = match v {
                Version::Http10 => "HTTP/1.0"@,
                Version::Http11 => "HTTP/1.1"@,
            };
            &&& request_line(
                name + (seq![' '] + ((path + seq!['?'] + query) + (seq![' '] + version))),
            ) == Ok::<RequestLine, ParseErrorView>((m, percent_text(path), query, v))
            &&& request_line(name + (seq![' '] + (path + (seq![' '] + version)))) == Ok::<
                RequestLine,
                ParseErrorView,
            >((m, percent_text(path), Seq::empty(), v))
        }),
{
    lemma_query(path, query);
    let uri = path + seq!['?'] + query;
    if uri.contains(' ') {
        let j = choose|j: int| 0 <= j < uri.len() && uri[j] == ' ';
        if j < path.len() {
            assert(path[j] == ' ');
        } else if j > path.len() {
            assert(query[j - path.len() - 1] == ' ');
        }
    }
    reveal_strlit("*");
    lemma_line_reads_back(m, uri, v);
    lemma_line_reads_back(m, path, v);
}

/// A request line is refused for the first thing in it that is wrong: a method
/// that no method is named, a URI that is empty or whose path does not begin with
/// a slash, a version that is none of the two.
pub proof fn lemma_line_refused(
    name: Seq<char>,
    uri: Seq<char>,
    version: Seq<char>,
    m: Method,
    rest: Seq<char>,
)
    requires
        !name.contains(' '),
        !uri.contains(' '),
    ensures
        (name != "GET"@ && name != "POST"@ && name != "DELETE"@ && name != "HEAD"@ && name != "PUT"@
            && name != "OPTIONS"@) ==> request_line(name + (seq![' '] + rest)) == Err::<
            RequestLine,
            ParseErrorView,
        >(ParseErrorView::UnknownMethod(name)),
        uri.len() == 0 ==> request_line(
            types::method_name(m) + (seq![' '] + (uri + (seq![' '] + version))),
        ) == Err::<RequestLine, ParseErrorView>(ParseErrorView::BadUri("empty URI"@)),
        (uri.len() > 0 && uri[0] != '/' && uri[0] != '*') ==> request_line(
            types::method_name(m) + (seq![' '] + (uri + (seq![' '] + version))),
        ) == Err::<RequestLine, ParseErrorView>(
            ParseErrorView::BadUri("URI must start with '/': "@ + uri),
        ),
        (uri.len() > 0 && uri[0] == '/' && version != "HTTP/1.1"@ && version != "HTTP/1.0"@)
            ==> request_line(types::method_name(m) + (seq![' '] + (uri + (seq![' '] + version))))
            == Err::<RequestLine, ParseErrorView>(ParseErrorView::UnsupportedVersion(version)),
{
    lemma_cut_at_space(name, rest);
    types::lemma_method_round_trip(m, types::method_name(m));
    reveal_strlit("GET");
    reveal_strlit("POST");
    reveal_strlit("DELETE");
    reveal_strlit("HEAD");
    reveal_strlit("PUT");
    reveal_strlit("OPTIONS");
    reveal_strlit("*");
    let known = types::method_name(m);
    assert forall|j: int| 0 <= j < known.len() implies known[j] != ' ' by {}
    lemma_cut_at_space(known, uri + (seq![' '] + version));
    lemma_cut_at_space(uri, version);
    text::lemma_index_of(uri, '?');
    let n = text::index_of(uri, '?');
    if uri.len() > 0 {
        if uri[0] == '/' {
            assert(n > 0);
        }
        if n > 0 {
            assert(uri.take(n)[0] == uri[0]);
        }
    }
}

/// The hexadecimal digits, and no other bytes, stand for their values, whether
/// their letters are small or capital.
pub proof fn lemma_nibble(b: u8)
    ensures
        48 <= b <= 57 ==> nibble(b) == Some((b - 48) as u8),
        97 <= b <= 102 ==> nibble(b) == Some((b - 97 + 10) as u8),
        65 <= b <= 70 ==> nibble(b) == Some((b - 65 + 10) as u8),
        !(48 <= b <= 57 || 97 <= b <= 102 || 65 <= b <= 70) ==> nibble(b) is None,
{
}

/// Bytes are decoded from left to right: what goes before a percent sign stays,
/// the sign and two hexadecimal digits become one byte, and the rest is decoded
/// by itself. A percent sign that two such digits do not follow stays.
pub proof fn lemma_percent_parts(a: Seq<u8>, hi: u8, lo: u8, b: Seq<u8>)
    requires
        !a.contains(37u8),
    ensures
        nibble(hi) is Some && nibble(lo) is Some ==> percent_decoded(a + seq![37u8, hi, lo] + b) == a
            + seq![(nibble(hi)->0 * 16 + nibble(lo)->0) as u8] + percent_decoded(b),
        nibble(hi) is None || nibble(lo) is None ==> percent_decoded(a + seq![37u8, hi, lo] + b) == a
            + seq![37u8] + percent_decoded(seq![hi, lo] + b),
        b.len() < 2 ==> percent_decoded(a + seq![37u8] + b) == a + seq![37u8] + percent_decoded(b),
    decreases a.len(),
{
    if a.len() == 0 {
        let s = a + seq![37u8, hi, lo] + b;
        assert(s[0] == 37u8 && s[1] == hi && s[2] == lo);
        assert(s.skip(3) =~= b);
        assert(s.skip(1) =~= seq![hi, lo] + b);
        assert(a + seq![37u8] =~= seq![37u8]);
        assert(a + seq![(nibble(hi)->0 * 16 + nibble(lo)->0) as u8] =~= seq![
            (nibble(hi)->0 * 16 + nibble(lo)->0) as u8,
        ]);
        let t = a + seq![37u8] + b;
        assert(t.skip(1) =~= b);
        assert(t[0] == 37u8);
    } else {
        let rest = a.skip(1);
        assert forall|i: int| 0 <= i < rest.len() implies rest[i] != 37 by {
            assert(a.contains(a[i + 1]));
        }
        lemma_percent_parts(rest, hi, lo, b);
        assert(a.contains(a[0]));
        let s = a + seq![37u8, hi, lo] + b;
        assert(s[0] == a[0]);
        assert(s.skip(1) =~= rest + seq![37u8, hi, lo] + b);
        let x = (nibble(hi)->0 * 16 + nibble(lo)->0) as u8;
        assert(seq![a[0]] + (rest + seq![x] + percent_decoded(b)) =~= a + seq![x]
            + percent_decoded(b));
        assert(seq![a[0]] + (rest + seq![37u8] + percent_decoded(seq![hi, lo] + b)) =~= a
            + seq![37u8] + percent_decoded(seq![hi, lo] + b));
        let t = a + seq![37u8] + b;
        assert(t[0] == a[0]);
        assert(t.skip(1) =~= rest + seq![37u8] + b);
        assert(seq![a[0]] + (rest + seq![37u8] + percent_decoded(b)) =~= a + seq![37u8]
            + percent_decoded(b));
    }
}

/// A header line gives the value that stands behind its first colon, without
/// the white space around it, under the name before it in small letters; other
/// headers stay as they are. A second value of the name goes behind the first,
/// with a comma and a space between them.
pub proof fn lemma_header_line(
    h: Headers,
    name: Seq<char>,
    before: Seq<char>,
    value: Seq<char>,
    after: Seq<char>,
)
    requires
        name.len() > 0,
        !name.contains(':'),
        name[0] != ' ' && name[0] != '\t',
        name.last() != ' ' && name.last() != '\t',
        text::all_white(before),
        text::all_white(after),
        value.len() > 0 ==> !text::is_white(value[0]) && !text::is_white(value.last()),
    ensures
        header_line(h, name + (seq![':'] + (before + value + after))) matches Ok(next) && {
            &&& next.dom() == h.dom().insert(text::lower(name))
            &&& next[text::lower(name)] == if h.dom().contains(text::lower(name)) {
                h[text::lower(name)] + seq![',', ' '] + value
            } else {
                value
            }
            &&& forall|other: Seq<char>| #[trigger]
                h.dom().contains(other) && other != text::lower(name) ==> next[other] == h[other]
        },
{
    let line = name + (seq![':'] + (before + value + after));
    let n = name.len() as int;
    assert forall|j: int| 0 <= j < n implies line[j] != ':' by {
        assert(name.contains(name[j]));
        assert(line[j] == name[j]);
    }
    text::lemma_index_of_is(line, ':', n);
    assert(line.take(n) =~= name);
    assert(line.skip(n + 1) =~= before + value + after);
    assert(line[0] == name[0]);
    text::lemma_trimmed(before, value, after);
    reveal_strlit(", ");
    assert(", "@ =~= seq![',', ' ']);
    let next = with_header(h, name, line.skip(n + 1));
    assert(next.dom() =~= h.dom().insert(text::lower(name)));
}

/// A header line is refused where it begins with a space or a tab, holds no
/// colon, begins with one, or has a space or a tab before it; an empty line
/// changes nothing.
pub proof fn lemma_header_refused(h: Headers, line: Seq<char>, name: Seq<char>, value: Seq<char>)
    requires
        !name.contains(':'),
    ensures
        header_line(h, Seq::empty()) == Ok::<Headers, ParseErrorView>(h),
        line.len() > 0 && (line[0] == ' ' || line[0] == '\t') ==> header_line(h, line) == Err::<
            Headers,
            ParseErrorView,
        >(ParseErrorView::BadHeader("obsolete header folding: "@ + line)),
        name.len() > 0 && name[0] != ' ' && name[0] != '\t' ==> header_line(h, name) == Err::<
            Headers,
            ParseErrorView,
        >(ParseErrorView::BadHeader("missing ':' in header: "@ + name)),
        header_line(h, seq![':'] + value) == Err::<Headers, ParseErrorView>(
            ParseErrorView::BadHeader("empty header name"@),
        ),
        name.len() > 0 && name[0] != ' ' && name[0] != '\t' && (name.last() == ' ' || name.last()
            == '\t') ==> header_line(h, name + (seq![':'] + value)) == Err::<
            Headers,
            ParseErrorView,
        >(ParseErrorView::BadHeader("whitespace before ':' in header '"@ + name + "'"@)),
{
    let n = name.len() as int;
    text::lemma_index_of(name, ':');
    if text::index_of(name, ':') < n {
        assert(name.contains(name[text::index_of(name, ':')]));
    }
    text::lemma_index_of_is(seq![':'] + value, ':', 0);
    let s = name + (seq![':'] + value);
    assert forall|j: int| 0 <= j < n implies s[j] != ':' by {
        assert(name.contains(name[j]));
        assert(s[j] == name[j]);
    }
    text::lemma_index_of_is(s, ':', n);
    assert(s.take(n) =~= name);
    if n > 0 {
        assert(s[0] == name[0]);
    }
}

/// Whether an empty line ends the lines before it at a place of a buffer.
pub open spec fn ends_at(buf: Seq<u8>, i: int) -> bool {
    &&& 0 <= i
    &&& i + 4 <= buf.len()
    &&& buf[i] == 13 && buf[i + 1] == 10 && buf[i + 2] == 13 && buf[i + 3] == 10
}

/// A head may take 16384 bytes with the empty line that ends it, and not one
/// more: a head that ends later is refused, and so are more bytes than that where
/// the head has not ended. A head that ends in time takes the bytes up to its
/// end, and fewer bytes are waited with.
pub proof fn lemma_head_limit(buf: Seq<u8>, end: int)
    requires
        forall|j: int| 0 <= j < end ==> !#[trigger] ends_at(buf, j),
    ensures
        ends_at(buf, end) && end + 4 > 16384 ==> parsed_head(buf) == HeadView::Error(
            ParseErrorView::HeadersTooLarge,
        ),
        ends_at(buf, end) && end + 4 <= 16384 ==> parsed_head(buf) != HeadView::Incomplete
            && parsed_head(buf) != HeadView::Error(ParseErrorView::HeadersTooLarge) && (parsed_head(
            buf,
        ) matches HeadView::Complete(_, n) ==> n == end + 4),
        end >= buf.len() && buf.len() > 16384 ==> parsed_head(buf) == HeadView::Error(
            ParseErrorView::HeadersTooLarge,
        ),
        end >= buf.len() && buf.len() <= 16384 ==> parsed_head(buf) == HeadView::Incomplete,
{
    let dc = double_crlf();
    assert forall|j: int| #[trigger] text::match_at(buf, dc, j) implies ends_at(buf, j) by {
        let m = buf.subrange(j, j + 4);
        assert(m[0] == 13 && m[1] == 10 && m[2] == 13 && m[3] == 10);
    }
    text::lemma_find_seq(buf, dc, 0);
    if ends_at(buf, end) {
        assert(buf.subrange(end, end + 4) =~= dc);
        assert(text::match_at(buf, dc, end));
        text::lemma_find_seq_is(buf, dc, 0, end);
        let bytes = buf.take(end);
        if valid_utf8(bytes) {
            let lines = text::split_at_seq(decode_utf8(bytes), seq!['\r', '\n']);
            lemma_never_too_large(Map::empty(), lines.skip(1), 0);
        }
    }
}

proof fn lemma_never_too_large(h: Headers, lines: Seq<Seq<char>>, i: int)
    ensures
        header_lines(h, lines, i) != Err::<Headers, ParseErrorView>(
            ParseErrorView::HeadersTooLarge,
        ),
    decreases lines.len() - i,
{
    if 0 <= i < lines.len() {
        if let Ok(next) = header_line(h, lines[i]) {
            lemma_never_too_large(next, lines, i + 1);
        }
    }
}

/// A head is refused where its bytes are no text, or where its first line is
/// empty.
pub proof fn lemma_head_refused(bytes: Seq<u8>, rest: Seq<char>)
    ensures
        !valid_utf8(bytes) ==> head(bytes) == Err::<RequestView, ParseErrorView>(
            ParseErrorView::BadRequestLine("non-UTF-8 in request head"@),
        ),
        head(encode_utf8(seq!['\r', '\n'] + rest)) == Err::<RequestView, ParseErrorView>(
            ParseErrorView::BadRequestLine("empty request line"@),
        ),
{
    let t = seq!['\r', '\n'] + rest;
    encode_utf8_valid_utf8(t);
    encode_utf8_decode_utf8(t);
    lemma_line_end_found(Seq::empty(), rest);
    assert(Seq::<char>::empty() + t =~= t);
    assert(t.take(0) =~= Seq::empty());
}

/// A request line that breaks off is refused for what is missing first: the URI,
/// and then the version.
pub proof fn lemma_line_short(m: Method, uri: Seq<char>)
    requires
        uri.len() > 0,
        uri[0] == '/',
        !uri.contains(' '),
    ensures
        request_line(types::method_name(m)) == Err::<RequestLine, ParseErrorView>(
            ParseErrorView::BadUri("empty URI"@),
        ),
        request_line(types::method_name(m) + (seq![' '] + uri)) == Err::<
            RequestLine,
            ParseErrorView,
        >(ParseErrorView::UnsupportedVersion(Seq::empty())),
{
    types::lemma_method_round_trip(m, types::method_name(m));
    reveal_strlit("GET");
    reveal_strlit("POST");
    reveal_strlit("DELETE");
    reveal_strlit("HEAD");
    reveal_strlit("PUT");
    reveal_strlit("OPTIONS");
    reveal_strlit("HTTP/1.0");
    reveal_strlit("HTTP/1.1");
    assert("HTTP/1.0"@.len() == 8 && "HTTP/1.1"@.len() == 8);
    let name = types::method_name(m);
    let e = Seq::<char>::empty();
    assert forall|j: int| 0 <= j < name.len() implies name[j] != ' ' by {}
    text::lemma_index_of(name, ' ');
    text::lemma_index_of(uri, ' ');
    text::lemma_index_of(e, ' ');
    if text::index_of(uri, ' ') < uri.len() {
        assert(uri.contains(uri[text::index_of(uri, ' ')]));
    }
    assert(name.take(name.len() as int) =~= name);
    assert(uri.take(uri.len() as int) =~= uri);
    assert(before_space(e) =~= e);
    assert(after_space(e) =~= e);
    lemma_cut_at_space(name, uri);
    text::lemma_index_of(uri, '?');
    let n = text::index_of(uri, '?');
    assert(n > 0);
    assert(uri.take(n)[0] == uri[0]);
}

} // verus!
