//! The responses the server gives.

use vstd::prelude::*;
use vstd::string::*;
use vstd::utf8::*;

use crate::config::types::{method_name, Method};
use crate::http::request::body::double_crlf;
use crate::http::response::types;
use crate::http::response::types::{
    value_of, HeaderList, Response, ResponseHeaders, ResponseView, StatusCode,
};
use crate::text;

verus! {

// ---------------------------------------------------------------------------
// What the responses are
// ---------------------------------------------------------------------------

/// A response with a body of a media type.
pub open spec fn typed(code: u16, mime: Seq<char>, body: Seq<u8>) -> ResponseView {
    ResponseView {
        status: code,
        headers: seq![
            ("Content-Type"@, mime),
            ("Content-Length"@, text::decimal(body.len())),
        ],
        body,
    }
}

/// A response with an HTML body.
pub open spec fn html(code: u16, body: Seq<u8>) -> ResponseView {
    typed(code, "text/html; charset=utf-8"@, body)
}

/// The built-in page for an error.
pub open spec fn error_page(code: u16) -> Seq<char> {
    "<html><head><title>"@ + types::status_text(code) + "</title></head><body><h1>"@
        + types::status_text(code) + "</h1></body></html>"@
}

/// The built-in page for an error, with a remark.
pub open spec fn error_page_with(code: u16, detail: Seq<char>) -> Seq<char> {
    "<html><head><title>"@ + types::status_text(code) + "</title></head><body><h1>"@
        + types::status_text(code) + "</h1><p>"@ + detail + "</p></body></html>"@
}

/// The response for an error: the custom page where there is one, else the
/// built-in page.
pub open spec fn error_view(code: u16, page: Option<Seq<char>>) -> ResponseView {
    html(
        code,
        encode_utf8(
            match page {
                Some(p) => p,
                None => error_page(code),
            },
        ),
    )
}

/// The response for an error with a remark.
pub open spec fn detail_view(code: u16, detail: Seq<char>) -> ResponseView {
    html(code, encode_utf8(error_page_with(code, detail)))
}

/// The response for a body that is too large.
pub open spec fn too_large_view() -> ResponseView {
    detail_view(413, "Request body exceeds the configured limit."@)
}

/// The response for something created, at a location where one is given.
pub open spec fn created_view(location: Option<Seq<char>>) -> ResponseView {
    ResponseView {
        status: 201,
        headers: match location {
            Some(l) => seq![("Location"@, l), ("Content-Length"@, "0"@)],
            None => Seq::empty(),
        },
        body: Seq::empty(),
    }
}

/// The response without content.
pub open spec fn no_content_view() -> ResponseView {
    ResponseView { status: 204, headers: seq![("Content-Length"@, "0"@)], body: Seq::empty() }
}

/// The page that points at a new location.
pub open spec fn redirect_page(location: Seq<char>) -> Seq<char> {
    "<html><body>Redirecting to <a href=\""@ + location + "\">"@ + location
        + "</a></body></html>"@
}

/// The response that sends the client to a new location.
pub open spec fn redirect_view(code: u16, location: Seq<char>) -> ResponseView {
    let body = encode_utf8(redirect_page(location));
    ResponseView {
        status: code,
        headers: seq![
            ("Location"@, location),
            ("Content-Type"@, "text/html; charset=utf-8"@),
            ("Content-Length"@, text::decimal(body.len())),
        ],
        body,
    }
}

/// The names of methods, with a comma and a space between them.
pub open spec fn method_list(methods: Seq<Method>) -> Seq<char>
    decreases methods.len(),
{
    if methods.len() == 0 {
        Seq::empty()
    } else if methods.len() == 1 {
        method_name(methods[0])
    } else {
        method_list(methods.drop_last()) + ", "@ + method_name(methods.last())
    }
}

/// The response for a method that is not allowed; it says which ones are.
pub open spec fn not_allowed_view(allowed: Seq<Method>) -> ResponseView {
    let body = encode_utf8(
        "<html><body><h1>405 Method Not Allowed</h1><p>Allowed: "@ + method_list(allowed)
            + "</p></body></html>"@,
    );
    ResponseView {
        status: 405,
        headers: seq![
            ("Allow"@, method_list(allowed)),
            ("Content-Type"@, "text/html; charset=utf-8"@),
            ("Content-Length"@, text::decimal(body.len())),
        ],
        body,
    }
}

// ---------------------------------------------------------------------------
// Making them
// ---------------------------------------------------------------------------

/// The bytes of a string.
fn bytes_of(s: &str) -> (r: Vec<u8>)
    ensures
        r@ == encode_utf8(s@),
{
    vstd::slice::slice_to_vec(s.as_bytes())
}

fn with_body(code: u16, mime: &str, body: Vec<u8>) -> (r: Response)
    ensures
        r@ == typed(code, mime@, body@),
{
    let mut resp = Response::new(StatusCode(code));
    resp.headers.append("Content-Type", mime);
    resp.headers.append("Content-Length", text::decimal_text(body.len() as u64).as_str());
    resp.body = body;
    assert(resp@.headers =~= typed(code, mime@, body@).headers);
    resp
}

/// 200, with a body of a media type.
pub fn ok(body: Vec<u8>, mime: &str) -> (r: Response)
    ensures
        r@ == typed(200, mime@, body@),
{
    with_body(StatusCode::OK, mime, body)
}

/// 201, after an upload.
pub fn created(location: Option<&str>) -> (r: Response)
    ensures
        r@ == created_view(text::opt_str(location)),
{
    let mut resp = Response::new(StatusCode(StatusCode::CREATED));
    if let Some(loc) = location {
        resp.headers.append("Location", loc);
        resp.headers.append("Content-Length", "0");
        assert(resp@.headers =~= created_view(Some(loc@)).headers);
    }
    resp
}

/// 204, after a removal.
pub fn no_content() -> (r: Response)
    ensures
        r@ == no_content_view(),
{
    let mut resp = Response::new(StatusCode(StatusCode::NO_CONTENT));
    resp.headers.append("Content-Length", "0");
    assert(resp@.headers =~= no_content_view().headers);
    resp
}

/// A redirect. The caller sees to it that the code is one of 301, 302, 307 and
/// 308.
pub fn redirect(code: u16, location: &str) -> (r: Response)
    ensures
        r@ == redirect_view(code, location@),
{
    let mut page = text::joined("<html><body>Redirecting to <a href=\"", location);
    page.append("\">");
    page.append(location);
    page.append("</a></body></html>");
    let body = bytes_of(page.as_str());
    let mut resp = Response::new(StatusCode(code));
    resp.headers.append("Location", location);
    resp.headers.append("Content-Type", "text/html; charset=utf-8");
    resp.headers.append("Content-Length", text::decimal_text(body.len() as u64).as_str());
    resp.body = body;
    assert(resp@.headers =~= redirect_view(code, location@).headers);
    resp
}

/// 400, with a remark.
pub fn bad_request(detail: &str) -> (r: Response)
    ensures
        r@ == detail_view(400, detail@),
{
    error_response(StatusCode::BAD_REQUEST, detail)
}

/// 403, with a custom page where there is one.
pub fn forbidden(custom_page: Option<&str>) -> (r: Response)
    ensures
        r@ == error_view(403, text::opt_str(custom_page)),
{
    error_from_page(StatusCode::FORBIDDEN, custom_page)
}

/// 404, with a custom page where there is one.
pub fn not_found(custom_page: Option<&str>) -> (r: Response)
    ensures
        r@ == error_view(404, text::opt_str(custom_page)),
{
    error_from_page(StatusCode::NOT_FOUND, custom_page)
}

/// The names of methods, with a comma and a space between them.
pub fn method_list_text(methods: &[Method]) -> (r: String)
    ensures
        r@ == method_list(methods@),
{
    let mut s = String::new();
    let mut i: usize = 0;
    while i < methods.len()
        invariant
            i <= methods@.len(),
            s@ == method_list(methods@.take(i as int)),
        decreases methods@.len() - i,
    {
        if i > 0 {
            s.append(", ");
        }
        s.append(methods[i].as_str());
        proof {
            let t = methods@.take(i + 1);
            assert(t.drop_last() =~= methods@.take(i as int));
            assert(t.last() == methods@[i as int]);
            if i == 0 {
                assert(s@ =~= method_name(t[0]));
            }
        }
        i = i + 1;
    }
    assert(methods@.take(i as int) =~= methods@);
    s
}

/// 405, with the methods that are allowed.
pub fn method_not_allowed(allowed: &[Method]) -> (r: Response)
    ensures
        r@ == not_allowed_view(allowed@),
{
    let list = method_list_text(allowed);
    let mut page = text::joined(
        "<html><body><h1>405 Method Not Allowed</h1><p>Allowed: ",
        list.as_str(),
    );
    page.append("</p></body></html>");
    let body = bytes_of(page.as_str());
    let mut resp = Response::new(StatusCode(StatusCode::METHOD_NOT_ALLOWED));
    resp.headers.append("Allow", list.as_str());
    resp.headers.append("Content-Type", "text/html; charset=utf-8");
    resp.headers.append("Content-Length", text::decimal_text(body.len() as u64).as_str());
    resp.body = body;
    assert(resp@.headers =~= not_allowed_view(allowed@).headers);
    resp
}

/// 413.
pub fn payload_too_large() -> (r: Response)
    ensures
        r@ == too_large_view(),
{
    error_response(
        StatusCode::PAYLOAD_TOO_LARGE,
        "Request body exceeds the configured limit.",
    )
}

/// 500, with a custom page where there is one.
pub fn internal_server_error(custom_page: Option<&str>) -> (r: Response)
    ensures
        r@ == error_view(500, text::opt_str(custom_page)),
{
    error_from_page(StatusCode::INTERNAL_SERVER_ERROR, custom_page)
}

/// Any error, with the bytes of an HTML page.
pub fn error(code: u16, body: Vec<u8>) -> (r: Response)
    ensures
        r@ == html(code, body@),
{
    with_body(code, "text/html; charset=utf-8", body)
}

/// Any error, with a custom page where there is one.
pub fn error_from_page(code: u16, page: Option<&str>) -> (r: Response)
    ensures
        r@ == error_view(code, text::opt_str(page)),
{
    match page {
        Some(p) => error(code, bytes_of(p)),
        None => error(code, bytes_of(default_error_html(code).as_str())),
    }
}

fn error_response(code: u16, detail: &str) -> (r: Response)
    ensures
        r@ == detail_view(code, detail@),
{
    let status = StatusCode(code).to_string();
    let mut page = text::joined("<html><head><title>", status.as_str());
    page.append("</title></head><body><h1>");
    page.append(status.as_str());
    page.append("</h1><p>");
    page.append(detail);
    page.append("</p></body></html>");
    error(code, bytes_of(page.as_str()))
}

/// The built-in page for an error.
pub fn default_error_html(code: u16) -> (r: String)
    ensures
        r@ == error_page(code),
{
    let status = StatusCode(code).to_string();
    let mut page = text::joined("<html><head><title>", status.as_str());
    page.append("</title></head><body><h1>");
    page.append(status.as_str());
    page.append("</h1></body></html>");
    page
}

// ---------------------------------------------------------------------------
// The output of scripts
// ---------------------------------------------------------------------------

/// A line feed, twice.
pub open spec fn double_lf() -> Seq<u8> {
    seq![10u8, 10u8]
}

/// The first word of a text that begins with one.
pub open spec fn first_word(s: Seq<char>) -> Seq<char>
    decreases s.len(),
{
    if s.len() == 0 || text::is_white(s[0]) {
        Seq::empty()
    } else {
        seq![s[0]] + first_word(s.drop_first())
    }
}

/// The status code and the headers that a script has given so far.
pub type ScriptHead = (u16, HeaderList);

/// The status code and the headers after one line more. A `Status` line with a
/// number sets the code and is not passed on.
pub open spec fn script_line(h: ScriptHead, line: Seq<char>) -> Result<ScriptHead, Seq<char>> {
    let colon = text::index_of(line, ':');
    let name = text::trim(line.take(colon));
    let value = text::trim(line.skip(colon + 1));
    let code = text::parse_bounded(first_word(value), 10, u16::MAX as nat);
    if line.len() == 0 {
        Ok(h)
    } else if colon >= line.len() {
        Err("CGI header missing ':'"@)
    } else if text::equal_ignoring_case(name, "Status"@) && code is Some {
        Ok((code->0 as u16, h.1))
    } else {
        Ok((h.0, h.1.push((name, value))))
    }
}

/// The status code and the headers that lines give, from the `i`-th on.
pub open spec fn script_lines(h: ScriptHead, lines: Seq<Seq<char>>, i: int) -> Result<
    ScriptHead,
    Seq<char>,
>
    decreases lines.len() - i,
{
    if i < 0 || i >= lines.len() {
        Ok(h)
    } else {
        match script_line(h, lines[i]) {
            Err(e) => Err(e),
            Ok(next) => script_lines(next, lines, i + 1),
        }
    }
}

/// Where the headers of a script's output end, and where its body begins: at
/// the first empty line, whether its line ends have carriage returns or not.
pub open spec fn script_split(raw: Seq<u8>) -> Option<(int, int)> {
    match (text::find_seq(raw, double_crlf(), 0), text::find_seq(raw, double_lf(), 0)) {
        (Some(i), Some(j)) => if i < j {
            Some((i, i + 4))
        } else {
            Some((j, j + 2))
        },
        (Some(i), None) => Some((i, i + 4)),
        (None, Some(j)) => Some((j, j + 2)),
        (None, None) => None,
    }
}

/// The response that the output of a script stands for.
pub open spec fn script_response(raw: Seq<u8>) -> Result<ResponseView, Seq<char>> {
    match script_split(raw) {
        None => Err("CGI output missing header/body separator"@),
        Some((end, start)) => if !valid_utf8(raw.take(end)) {
            Err("CGI headers are not valid UTF-8"@)
        } else {
            match script_lines((200, Seq::empty()), text::text_lines(decode_utf8(raw.take(end))), 0) {
                Err(e) => Err(e),
                Ok((status, headers)) => Ok(
                    ResponseView {
                        status,
                        headers: if value_of(headers, "Content-Length"@) is None {
                            headers.push(
                                ("Content-Length"@, text::decimal(raw.skip(start).len())),
                            )
                        } else {
                            headers
                        },
                        body: raw.skip(start),
                    },
                ),
            }
        },
    }
}

/// The first word of a string.
fn first_word_of<'a>(s: &'a str) -> (r: &'a str)
    ensures
        r@ == first_word(s@),
{
    let v = text::chars_of(s);
    let mut i: usize = 0;
    proof {
        assert(s@.skip(0) =~= s@);
        assert(s@.take(0) + first_word(s@) =~= first_word(s@));
    }
    while i < v.len() && !text::white(v[i])
        invariant
            i <= v@.len(),
            v@ == s@,
            s@.take(i as int) + first_word(s@.skip(i as int)) == first_word(s@),
        decreases v@.len() - i,
    {
        proof {
            let rest = s@.skip(i as int);
            assert(rest.drop_first() =~= s@.skip(i + 1));
            assert(s@.take(i + 1) =~= s@.take(i as int).push(rest[0]));
            assert(s@.take(i + 1) + first_word(s@.skip(i + 1)) =~= s@.take(i as int) + (seq![
                rest[0],
            ] + first_word(s@.skip(i + 1))));
        }
        i = i + 1;
    }
    proof {
        assert(first_word(s@.skip(i as int)) =~= Seq::empty());
        assert(s@.take(i as int) =~= s@.subrange(0, i as int));
        assert(s@.take(i as int) + Seq::<char>::empty() =~= s@.take(i as int));
    }
    s.substring_char(0, i)
}

/// Takes one header line of a script's output.
fn take_script_line(status: &mut u16, headers: &mut ResponseHeaders, line: &str) -> (r: Result<
    (),
    &'static str,
>)
    ensures
        match r {
            Ok(_) => script_line((*old(status), old(headers)@), line@) == Ok::<
                ScriptHead,
                Seq<char>,
            >((*final(status), final(headers)@)),
            Err(e) => script_line((*old(status), old(headers)@), line@) == Err::<
                ScriptHead,
                Seq<char>,
            >(e@),
        },
{
    let v = text::chars_of(line);
    if v.len() == 0 {
        return Ok(());
    }
    let colon: usize = text::find_char(v.as_slice(), ':');
    if colon >= v.len() {
        return Err("CGI header missing ':'");
    }
    proof {
        assert(line@.take(colon as int) =~= line@.subrange(0, colon as int));
        assert(line@.skip(colon + 1) =~= line@.subrange(colon + 1, line@.len() as int));
    }
    let name = text::trimmed(line.substring_char(0, colon));
    let value = text::trimmed(line.substring_char(colon + 1, v.len()));
    if text::eq_ignore_case(name, "Status") {
        if let Some(code) = text::parse_unsigned(first_word_of(value), 10, u16::MAX as u64) {
            *status = code as u16;
            return Ok(());
        }
    }
    headers.append(name, value);
    Ok(())
}

/// Turns the output of a script into a response. The output is header lines, an
/// empty line, and the body; a `Status` line gives the status code.
pub fn from_cgi_output(raw: Vec<u8>) -> (r: Result<Response, &'static str>)
    ensures
        match r {
            Ok(resp) => script_response(raw@) == Ok::<ResponseView, Seq<char>>(resp@),
            Err(e) => script_response(raw@) == Err::<ResponseView, Seq<char>>(e@),
        },
{
    let p: [u8; 4] = [13u8, 10u8, 13u8, 10u8];
    assert(p@ =~= double_crlf());
    let q: [u8; 2] = [10u8, 10u8];
    assert(q@ =~= double_lf());
    let with_returns: Option<usize> = text::find_bytes(raw.as_slice(), p.as_slice(), 0);
    let without: Option<usize> = text::find_bytes(raw.as_slice(), q.as_slice(), 0);
    let (end, start): (usize, usize) = match (with_returns, without) {
        (Some(i), Some(j)) => if i < j {
            (i, i + 4)
        } else {
            (j, j + 2)
        },
        (Some(i), None) => (i, i + 4),
        (None, Some(j)) => (j, j + 2),
        (None, None) => {
            return Err("CGI output missing header/body separator");
        },
    };
    let bytes: &[u8] = &raw.as_slice()[0..end];
    assert(bytes@ =~= raw@.take(end as int));
    let section = match text::utf8_text(bytes) {
        Some(s) => s,
        None => {
            return Err("CGI headers are not valid UTF-8");
        },
    };
    let lines = text::lines_of(section);
    let ghost all = text::text_lines(section@);
    let mut status: u16 = StatusCode::OK;
    let mut headers = ResponseHeaders::new();
    let mut i: usize = 0;
    while i < lines.len()
        invariant
            i <= lines@.len(),
            all == text::views(lines@),
            script_lines((200, Seq::empty()), all, 0) == script_lines(
                (status, headers@),
                all,
                i as int,
            ),
            script_split(raw@) == Some((end as int, start as int)),
            valid_utf8(raw@.take(end as int)),
            all == text::text_lines(decode_utf8(raw@.take(end as int))),
        decreases lines@.len() - i,
    {
        assert(all[i as int] == lines@[i as int]@);
        if let Err(e) = take_script_line(&mut status, &mut headers, lines[i].as_str()) {
            return Err(e);
        }
        i = i + 1;
    }
    let body = vstd::slice::slice_to_vec(&raw.as_slice()[start..raw.len()]);
    assert(body@ =~= raw@.skip(start as int));
    if headers.get("Content-Length").is_none() {
        headers.append("Content-Length", text::decimal_text(body.len() as u64).as_str());
    }
    Ok(Response { status: StatusCode(status), headers, body })
}

// ---------------------------------------------------------------------------
// Laws
// ---------------------------------------------------------------------------

proof fn lemma_names()
    ensures
        !types::same_name("Content-Type"@, "Content-Length"@),
        !types::same_name("Location"@, "Content-Length"@),
        !types::same_name("Allow"@, "Content-Length"@),
        types::same_name("Content-Length"@, "Content-Length"@),
{
    reveal_strlit("Content-Type");
    reveal_strlit("Content-Length");
    reveal_strlit("Location");
    reveal_strlit("Allow");
    types::lemma_names_differ("Content-Type"@, "Content-Length"@);
    types::lemma_names_differ("Location"@, "Content-Length"@);
    types::lemma_names_differ("Allow"@, "Content-Length"@);
}

/// Every response with a body that the server makes says how long the body is:
/// pages and files, error pages, redirects, and refusals of a method.
pub proof fn lemma_content_length(
    code: u16,
    mime: Seq<char>,
    body: Seq<u8>,
    location: Seq<char>,
    allowed: Seq<Method>,
)
    ensures
        typed(code, mime, body).sized(),
        html(code, body).sized(),
        redirect_view(code, location).sized(),
        not_allowed_view(allowed).sized(),
        created_view(Some(location)).sized(),
        no_content_view().sized(),
{
    lemma_names();
    reveal_with_fuel(types::value_from, 4);
    assert(text::decimal(0) =~= seq!['0']);
    reveal_strlit("0");
    assert("0"@ =~= text::decimal(0));
}

/// The output of a script becomes a response whose body is what follows the
/// first empty line, and which has a `Content-Length` in any case.
pub proof fn lemma_script_response(raw: Seq<u8>)
    ensures
        script_response(raw) matches Ok(r) ==> value_of(r.headers, "Content-Length"@) is Some && (
        script_split(raw) matches Some((end, start)) && r.body == raw.skip(start)),
        script_split(raw) is None ==> script_response(raw) is Err,
{
    if let Some((end, start)) = script_split(raw) {
        if let Ok((status, headers)) = script_lines(
            (200, Seq::empty()),
            text::text_lines(decode_utf8(raw.take(end))),
            0,
        ) {
            types::lemma_value_of_push(
                headers,
                ("Content-Length"@, text::decimal(raw.skip(start).len())),
                "Content-Length"@,
            );
        }
    }
}

/// The headers of a script's output end with the empty line behind them, of
/// either kind, whatever its body holds; as long as there is no other empty line
/// up to there.
pub proof fn lemma_script_split(head: Seq<u8>, sep: Seq<u8>, other: Seq<u8>, body: Seq<u8>)
    requires
        (sep == double_crlf() && other == double_lf()) || (sep == double_lf() && other
            == double_crlf()),
        text::find_seq(head + sep, sep, 0) == Some(head.len() as int),
        text::find_seq(head + sep, other, 0) is None,
    ensures
        script_split(head + sep + body) == Some(
            (head.len() as int, head.len() as int + sep.len()),
        ),
{
    let n = head.len() as int;
    let raw = head + sep + body;
    text::lemma_find_seq_longer(head + sep, body, sep, 0);
    text::lemma_find_seq(raw, other, 0);
    text::lemma_find_seq(head + sep, other, 0);
    if let Some(j) = text::find_seq(raw, other, 0) {
        if j <= n {
            let m = raw.subrange(j, j + other.len());
            assert(m == other);
            assert(forall|k: int| 0 <= k < other.len() ==> m[k] == raw[j + k]);
            if j + other.len() <= n + sep.len() {
                assert(m =~= (head + sep).subrange(j, j + other.len()));
                assert(text::match_at(head + sep, other, j));
            } else {
                assert(raw[n] == sep[0] && raw[n + 1] == sep[1]);
                assert(other[0] == raw[j] && other[2] == raw[j + 2]);
            }
        }
    }
}

proof fn lemma_more_names()
    ensures
        !types::same_name("Location"@, "Content-Type"@),
        !types::same_name("Allow"@, "Content-Type"@),
{
    reveal_strlit("Content-Type");
    reveal_strlit("Location");
    reveal_strlit("Allow");
    types::lemma_names_differ("Location"@, "Content-Type"@);
    types::lemma_names_differ("Allow"@, "Content-Type"@);
}

/// A response has the code, the media type and the body that it is made with, and
/// pages are HTML.
pub proof fn lemma_typed(code: u16, mime: Seq<char>, body: Seq<u8>)
    ensures
        typed(code, mime, body).status == code,
        typed(code, mime, body).body == body,
        value_of(typed(code, mime, body).headers, "Content-Type"@) == Some(mime),
        typed(code, mime, body).headers.len() == 2,
        html(code, body).status == code,
        html(code, body).body == body,
        value_of(html(code, body).headers, "Content-Type"@) == Some("text/html; charset=utf-8"@),
{
    reveal_with_fuel(types::value_from, 4);
}

/// A redirect has the code it is made with, sends the client to the location,
/// and says so on its page. What was created has its location, and what has no
/// content has no body.
pub proof fn lemma_sent_elsewhere(code: u16, location: Seq<char>)
    ensures
        redirect_view(code, location).status == code,
        value_of(redirect_view(code, location).headers, "Location"@) == Some(location),
        value_of(redirect_view(code, location).headers, "Content-Type"@) == Some(
            "text/html; charset=utf-8"@,
        ),
        redirect_view(code, location).body == encode_utf8(
            "<html><body>Redirecting to <a href=\""@ + location + "\">"@ + location
                + "</a></body></html>"@,
        ),
        created_view(Some(location)).status == 201,
        created_view(Some(location)).body.len() == 0,
        value_of(created_view(Some(location)).headers, "Location"@) == Some(location),
        created_view(None).status == 201,
        created_view(None).body.len() == 0,
        created_view(None).headers.len() == 0,
        no_content_view().status == 204,
        no_content_view().body.len() == 0,
{
    lemma_more_names();
    reveal_with_fuel(types::value_from, 4);
}

/// The answer to a method that is not allowed names those that are, in its
/// header and on its page.
pub proof fn lemma_not_allowed(allowed: Seq<Method>)
    ensures
        not_allowed_view(allowed).status == 405,
        value_of(not_allowed_view(allowed).headers, "Allow"@) == Some(method_list(allowed)),
        value_of(not_allowed_view(allowed).headers, "Content-Type"@) == Some(
            "text/html; charset=utf-8"@,
        ),
        not_allowed_view(allowed).body == encode_utf8(
            "<html><body><h1>405 Method Not Allowed</h1><p>Allowed: "@ + method_list(allowed)
                + "</p></body></html>"@,
        ),
{
    lemma_more_names();
    reveal_with_fuel(types::value_from, 4);
}

/// Method lists: one method is its name, and two lists that stand behind each
/// other have a comma and a space between them.
pub proof fn lemma_method_list(a: Seq<Method>, b: Seq<Method>, m: Method)
    ensures
        method_list(seq![m]) == match m {
            Method::Get => "GET"@,
            Method::Post => "POST"@,
            Method::Delete => "DELETE"@,
            Method::Head => "HEAD"@,
            Method::Put => "PUT"@,
            Method::Options => "OPTIONS"@,
        },
        a.len() > 0 && b.len() > 0 ==> method_list(a + b) == method_list(a) + seq![',', ' ']
            + method_list(b),
        method_list(Seq::empty()) == Seq::<char>::empty(),
    decreases b.len(),
{
    reveal_strlit(", ");
    assert(", "@ =~= seq![',', ' ']);
    if a.len() > 0 && b.len() > 0 {
        let rest = b.drop_last();
        assert((a + b).drop_last() =~= a + rest);
        assert((a + b).last() == b.last());
        if rest.len() > 0 {
            lemma_method_list(a, rest, m);
            assert(method_list(a + b) =~= method_list(a) + seq![',', ' '] + method_list(b));
        } else {
            assert(a + rest =~= a);
            assert(b =~= seq![b.last()]);
        }
    }
}

/// An error is answered with the page that was set for it, and else with a page
/// that gives its code and phrase as title and heading, and the remark where
/// there is one.
pub proof fn lemma_error_pages(code: u16, page: Seq<char>, detail: Seq<char>)
    ensures
        error_view(code, Some(page)).status == code,
        error_view(code, Some(page)).body == encode_utf8(page),
        error_view(code, None).status == code,
        error_view(code, None).body == encode_utf8(
            "<html><head><title>"@ + types::status_text(code) + "</title></head><body><h1>"@
                + types::status_text(code) + "</h1></body></html>"@,
        ),
        detail_view(code, detail).status == code,
        detail_view(code, detail).body == encode_utf8(
            "<html><head><title>"@ + types::status_text(code) + "</title></head><body><h1>"@
                + types::status_text(code) + "</h1><p>"@ + detail + "</p></body></html>"@,
        ),
        too_large_view().status == 413,
        too_large_view() == detail_view(413, "Request body exceeds the configured limit."@),
{
}

/// The first word of a text is what goes before its first white space.
pub proof fn lemma_first_word(word: Seq<char>, rest: Seq<char>)
    requires
        forall|i: int| 0 <= i < word.len() ==> !text::is_white(#[trigger] word[i]),
        rest.len() > 0 ==> text::is_white(rest[0]),
    ensures
        first_word(word + rest) == word,
    decreases word.len(),
{
    let s = word + rest;
    if word.len() > 0 {
        let less = word.drop_first();
        assert forall|i: int| 0 <= i < less.len() implies !text::is_white(#[trigger] less[i]) by {
            assert(less[i] == word[i + 1]);
        }
        lemma_first_word(less, rest);
        assert(s[0] == word[0]);
        assert(s.drop_first() =~= less + rest);
        assert(seq![word[0]] + less =~= word);
    } else {
        assert(s =~= rest);
        assert(first_word(s) =~= word);
    }
}

/// Whether a text has no white space at either end.
pub open spec fn bare(s: Seq<char>) -> bool {
    s.len() > 0 ==> !text::is_white(s[0]) && !text::is_white(s.last())
}

/// A header line of a script is passed on behind the others, with the name that
/// goes before its first colon and the value that follows it, both without the
/// white space around them.
pub proof fn lemma_script_header(
    h: ScriptHead,
    name: Seq<char>,
    before: Seq<char>,
    value: Seq<char>,
    after: Seq<char>,
)
    requires
        !name.contains(':'),
        bare(name),
        bare(value),
        text::all_white(before),
        text::all_white(after),
        !text::equal_ignoring_case(name, "Status"@),
    ensures
        script_line(h, name + seq![':'] + (before + value + after)) == Ok::<ScriptHead, Seq<char>>(
            (h.0, h.1.push((name, value))),
        ),
{
    lemma_script_cut(name, before + value + after);
    text::lemma_trimmed(Seq::empty(), name, Seq::empty());
    assert(Seq::<char>::empty() + name + Seq::<char>::empty() =~= name);
    text::lemma_trimmed(before, value, after);
}

proof fn lemma_script_cut(name: Seq<char>, rest: Seq<char>)
    requires
        !name.contains(':'),
    ensures
        ({
            let line = name + seq![':'] + rest;
            &&& text::index_of(line, ':') == name.len()
            &&& line.take(name.len() as int) == name
            &&& line.skip(name.len() as int + 1) == rest
        }),
{
    let line = name + seq![':'] + rest;
    let n = name.len() as int;
    assert forall|j: int| 0 <= j < n implies line[j] != ':' by {
        assert(name.contains(name[j]));
        assert(line[j] == name[j]);
    }
    text::lemma_index_of_is(line, ':', n);
    assert(line.take(n) =~= name);
    assert(line.skip(n + 1) =~= rest);
}

/// A `Status` line, in capital or small letters, sets the code that it gives,
/// whatever phrase stands behind the number, and is not passed on.
pub proof fn lemma_script_status(
    h: ScriptHead,
    name: Seq<char>,
    before: Seq<char>,
    code: u16,
    phrase: Seq<char>,
)
    requires
        text::equal_ignoring_case(name, "Status"@),
        text::all_white(before),
        phrase.len() > 0 ==> text::is_white(phrase[0]) && !text::is_white(phrase.last()),
    ensures
        script_line(
            h,
            name + seq![':'] + (before + (text::decimal(code as nat) + phrase)),
        ) == Ok::<ScriptHead, Seq<char>>((code, h.1)),
{
    let d = text::decimal(code as nat);
    let value = d + phrase;
    text::lemma_ignoring_case(name, "Status"@);
    reveal_strlit("Status");
    assert forall|j: int| 0 <= j < name.len() implies name[j] != ':' && !text::is_white(name[j]) by {
        assert(name[j] == "Status"@[j] || ('A' <= name[j] <= 'Z' && "Status"@[j] as int
            == name[j] as int + 32) || ('A' <= "Status"@[j] <= 'Z' && name[j] as int
            == "Status"@[j] as int + 32));
    }
    lemma_script_cut(name, before + value);
    text::lemma_trimmed(Seq::empty(), name, Seq::empty());
    assert(Seq::<char>::empty() + name + Seq::<char>::empty() =~= name);
    text::lemma_decimal_shape(code as nat, 0);
    text::lemma_decimal_reads_back(code as nat);
    text::lemma_bounded(code as nat, u16::MAX as nat, Seq::empty());
    assert('0' <= d[0] <= '9');
    assert('0' <= d[d.len() - 1] <= '9');
    assert(value[0] == d[0]);
    if phrase.len() > 0 {
        assert(value.last() == phrase.last());
    } else {
        assert(value =~= d);
    }
    text::lemma_trimmed(before, value, Seq::empty());
    assert(before + value + Seq::<char>::empty() =~= before + value);
    assert forall|i: int| 0 <= i < d.len() implies !text::is_white(#[trigger] d[i]) by {
        assert('0' <= d[i] <= '9');
    }
    lemma_first_word(d, phrase);
}

/// A line of a script without a colon is refused, and an empty one is passed
/// over.
pub proof fn lemma_script_line_refused(h: ScriptHead, line: Seq<char>)
    requires
        !line.contains(':'),
    ensures
        line.len() > 0 ==> script_line(h, line) == Err::<ScriptHead, Seq<char>>(
            "CGI header missing ':'"@,
        ),
        script_line(h, Seq::empty()) == Ok::<ScriptHead, Seq<char>>(h),
{
    text::lemma_index_of(line, ':');
    if text::index_of(line, ':') < line.len() {
        assert(line.contains(line[text::index_of(line, ':')]));
    }
}

/// Lines with line feeds between them.
pub open spec fn lf_lines(lines: Seq<Seq<char>>) -> Seq<char>
    decreases lines.len(),
{
    if lines.len() == 0 {
        Seq::empty()
    } else if lines.len() == 1 {
        lines[0]
    } else {
        lines[0] + seq!['\n'] + lf_lines(lines.drop_first())
    }
}

/// Whether a text can stand on a line of a script's output.
pub open spec fn on_one_line(s: Seq<char>) -> bool {
    s.len() > 0 && !s.contains('\n') && !s.contains('\r')
}

proof fn lemma_lf_lines(lines: Seq<Seq<char>>)
    requires
        lines.len() > 0,
        forall|i: int| 0 <= i < lines.len() ==> on_one_line(#[trigger] lines[i]),
    ensures
        text::text_lines(lf_lines(lines)) == lines,
        ({
            let e = encode_utf8(lf_lines(lines));
            &&& e.len() > 0
            &&& e[0] != 10
            &&& e.last() != 10
            &&& forall|j: int| 0 <= j < e.len() ==> #[trigger] e[j] != 13
            &&& forall|j: int| 0 <= j < e.len() - 1 && #[trigger] e[j] == 10 ==> e[j + 1] != 10
        }),
    decreases lines.len(),
{
    let a = lines[0];
    let x = encode_utf8(a);
    assert(on_one_line(lines[0]));
    text::lemma_encode_without(a, '\n');
    text::lemma_encode_without(a, '\r');
    encode_utf8_first_scalar(a);
    assert(x.len() > 0);
    if lines.len() == 1 {
        text::lemma_lines(a, Seq::empty());
        assert(seq![a] =~= lines);
    } else {
        let tail = lines.drop_first();
        assert forall|i: int| 0 <= i < tail.len() implies on_one_line(#[trigger] tail[i]) by {
            assert(tail[i] == lines[i + 1]);
        }
        lemma_lf_lines(tail);
        let rest = lf_lines(tail);
        text::lemma_lines(a, rest);
        assert(a.contains(a.last()));
        assert(text::strip_cr(a) == a);
        assert(seq![a] + tail =~= lines);
        let lf = seq!['\n'];
        text::lemma_encode_parts(a + lf, rest);
        text::lemma_encode_parts(a, lf);
        is_ascii_chars_encode_utf8(lf);
        assert(encode_utf8(lf) =~= seq![10u8]);
        let r = encode_utf8(rest);
        let e = encode_utf8(lf_lines(lines));
        let n = x.len() as int;
        assert(e == x + seq![10u8] + r);
        assert(e[0] == x[0]);
        assert(e.last() == r.last());
        assert forall|j: int| 0 <= j < e.len() implies #[trigger] e[j] != 13 by {
            if j < n {
                assert(e[j] == x[j]);
            } else if j > n {
                assert(e[j] == r[j - n - 1]);
            }
        }
        assert forall|j: int| 0 <= j < e.len() - 1 && #[trigger] e[j] == 10 implies e[j + 1]
            != 10 by {
            if j < n {
                assert(e[j] == x[j]);
            } else if j == n {
                assert(e[j + 1] == r[0]);
            } else {
                assert(e[j] == r[j - n - 1]);
                assert(e[j + 1] == r[j - n]);
            }
        }
    }
}

/// The output of a script is read as its lines up to the empty line, and what
/// follows is the body, byte for byte.
pub proof fn lemma_script_output(lines: Seq<Seq<char>>, body: Seq<u8>)
    requires
        lines.len() > 0,
        forall|i: int| 0 <= i < lines.len() ==> on_one_line(#[trigger] lines[i]),
    ensures
        script_response(encode_utf8(lf_lines(lines)) + seq![10u8, 10] + body) == match script_lines(
            (200, Seq::empty()),
            lines,
            0,
        ) {
            Err(e) => Err::<ResponseView, Seq<char>>(e),
            Ok((status, headers)) => Ok(
                ResponseView {
                    status,
                    headers: if value_of(headers, "Content-Length"@) is None {
                        headers.push(("Content-Length"@, text::decimal(body.len())))
                    } else {
                        headers
                    },
                    body,
                },
            ),
        },
{
    let t = lf_lines(lines);
    let e = encode_utf8(t);
    let sep = seq![10u8, 10];
    let raw = e + sep + body;
    let n = e.len() as int;
    lemma_lf_lines(lines);
    assert(sep =~= double_lf());
    assert((e + sep).subrange(n, n + 2) =~= sep);
    assert forall|j: int| 0 <= j < n implies !#[trigger] text::match_at(e + sep, sep, j) by {
        if text::match_at(e + sep, sep, j) {
            let m = (e + sep).subrange(j, j + 2);
            assert(m[0] == 10 && m[1] == 10);
            assert((e + sep)[j] == e[j]);
            if j < n - 1 {
                assert((e + sep)[j + 1] == e[j + 1]);
            }
        }
    }
    text::lemma_find_seq_is(e + sep, sep, 0, n);
    text::lemma_find_seq(e + sep, double_crlf(), 0);
    if let Some(j) = text::find_seq(e + sep, double_crlf(), 0) {
        assert((e + sep).subrange(j, j + 4)[0] == 13);
        assert(j < n ==> (e + sep)[j] == e[j]);
    }
    lemma_script_split(e, sep, double_crlf(), body);
    assert(raw.take(n) =~= e);
    assert(raw.skip(n + 2) =~= body);
    encode_utf8_valid_utf8(t);
    encode_utf8_decode_utf8(t);
}

/// A header as a script prints it.
pub open spec fn printed(e: (Seq<char>, Seq<char>)) -> Seq<char> {
    e.0 + seq![':'] + (seq![' '] + e.1)
}

/// Whether a script can print a header, and have it passed on.
pub open spec fn printable(e: (Seq<char>, Seq<char>)) -> bool {
    &&& bare(e.0)
    &&& bare(e.1)
    &&& !e.0.contains(':')
    &&& !e.0.contains('\n') && !e.0.contains('\r')
    &&& !e.1.contains('\n') && !e.1.contains('\r')
    &&& !text::equal_ignoring_case(e.0, "Status"@)
}

proof fn lemma_printed(h: ScriptHead, e: (Seq<char>, Seq<char>))
    requires
        printable(e),
    ensures
        script_line(h, printed(e)) == Ok::<ScriptHead, Seq<char>>((h.0, h.1.push(e))),
        on_one_line(printed(e)),
{
    let space = seq![' '];
    lemma_script_header(h, e.0, space, e.1, Seq::empty());
    assert(space + e.1 + Seq::<char>::empty() =~= space + e.1);
    let s = printed(e);
    assert forall|j: int| 0 <= j < s.len() implies s[j] != '\n' && s[j] != '\r' by {
        if j < e.0.len() {
            assert(s[j] == e.0[j]);
            assert(e.0.contains(e.0[j]));
        } else if j >= e.0.len() + 2 {
            let k = j - e.0.len() - 2;
            assert(s[j] == e.1[k]);
            assert(e.1.contains(e.1[k]));
        }
    }
    assert(h.1.push((e.0, e.1)) == h.1.push(e));
}

proof fn lemma_all_printed(
    h: ScriptHead,
    headers: HeaderList,
    lines: Seq<Seq<char>>,
    i: int,
)
    requires
        0 <= i <= headers.len(),
        lines.len() == headers.len() + 1,
        forall|j: int| 0 <= j < headers.len() ==> printable(#[trigger] headers[j]),
        forall|j: int| 0 <= j < headers.len() ==> lines[j + 1] == printed(#[trigger] headers[j]),
    ensures
        script_lines(h, lines, i + 1) == Ok::<ScriptHead, Seq<char>>((h.0, h.1 + headers.skip(i))),
    decreases headers.len() - i,
{
    if i < headers.len() {
        let e = headers[i];
        assert(printable(headers[i]));
        assert(lines[i + 1] == printed(headers[i]));
        lemma_printed(h, e);
        lemma_all_printed((h.0, h.1.push(e)), headers, lines, i + 1);
        assert(h.1.push(e) + headers.skip(i + 1) =~= h.1 + headers.skip(i));
    } else {
        assert(h.1 + headers.skip(i) =~= h.1);
    }
}

/// What a script prints is what the client is sent: its status code, its headers
/// in their order, a length where it gave none, and its body byte for byte.
pub proof fn lemma_script_reads_back(
    code: u16,
    phrase: Seq<char>,
    headers: HeaderList,
    body: Seq<u8>,
)
    requires
        phrase.len() > 0,
        bare(phrase),
        !phrase.contains('\n') && !phrase.contains('\r'),
        forall|j: int| 0 <= j < headers.len() ==> printable(#[trigger] headers[j]),
    ensures
        ({
            let first = "Status"@ + seq![':'] + (seq![' '] + (text::decimal(code as nat) + (seq![
                ' ',
            ] + phrase)));
            let lines = seq![first] + headers.map_values(|e: (Seq<char>, Seq<char>)| printed(e));
            script_response(encode_utf8(lf_lines(lines)) + seq![10u8, 10] + body) == Ok::<
                ResponseView,
                Seq<char>,
            >(
                ResponseView {
                    status: code,
                    headers: if value_of(headers, "Content-Length"@) is None {
                        headers.push(("Content-Length"@, text::decimal(body.len())))
                    } else {
                        headers
                    },
                    body,
                },
            )
        }),
{
    let d = text::decimal(code as nat);
    let tail = seq![' '] + phrase;
    let first = "Status"@ + seq![':'] + (seq![' '] + (d + tail));
    let others = headers.map_values(|e: (Seq<char>, Seq<char>)| printed(e));
    let lines = seq![first] + others;
    let start: ScriptHead = (200, Seq::empty());
    assert(tail.last() == phrase.last());
    lemma_script_status(start, "Status"@, seq![' '], code, tail);
    text::lemma_decimal_shape(code as nat, 0);
    reveal_strlit("Status");
    assert forall|j: int| 0 <= j < first.len() implies first[j] != '\n' && first[j] != '\r' by {
        let k = j - 8;
        if 0 <= k < d.len() {
            assert(first[j] == d[k]);
            assert('0' <= d[k] <= '9');
        } else if k > d.len() {
            let i = k - d.len() - 1;
            assert(first[j] == phrase[i]);
            assert(phrase.contains(phrase[i]));
        }
    }
    assert(on_one_line(first));
    assert forall|i: int| 0 <= i < lines.len() implies on_one_line(#[trigger] lines[i]) by {
        if i > 0 {
            assert(printable(headers[i - 1]));
            assert(lines[i] == printed(headers[i - 1]));
            lemma_printed(start, headers[i - 1]);
        }
    }
    lemma_script_output(lines, body);
    assert(lines[0] == first);
    lemma_all_printed((code, Seq::empty()), headers, lines, 0);
    assert(Seq::<(Seq<char>, Seq<char>)>::empty() + headers.skip(0) =~= headers);
}

/// Output without an empty line is refused, and so are headers that are no text.
pub proof fn lemma_script_refused(raw: Seq<u8>, bytes: Seq<u8>, body: Seq<u8>)
    ensures
        (forall|i: int| 0 <= i < raw.len() - 1 ==> !(#[trigger] raw[i] == 10 && raw[i + 1] == 10))
            && (forall|i: int|
            0 <= i < raw.len() - 3 ==> !(#[trigger] raw[i] == 13 && raw[i + 1] == 10 && raw[i + 2]
                == 13 && raw[i + 3] == 10)) ==> script_response(raw) == Err::<
            ResponseView,
            Seq<char>,
        >("CGI output missing header/body separator"@),
        !valid_utf8(bytes) && !bytes.contains(10u8) ==> script_response(
            bytes + seq![10u8, 10] + body,
        ) == Err::<ResponseView, Seq<char>>("CGI headers are not valid UTF-8"@),
{
    text::lemma_find_seq(raw, double_crlf(), 0);
    text::lemma_find_seq(raw, double_lf(), 0);
    if let Some(j) = text::find_seq(raw, double_lf(), 0) {
        let m = raw.subrange(j, j + 2);
        assert(m[0] == raw[j] && m[1] == raw[j + 1]);
    }
    if let Some(j) = text::find_seq(raw, double_crlf(), 0) {
        let m = raw.subrange(j, j + 4);
        assert(m[0] == raw[j] && m[1] == raw[j + 1] && m[2] == raw[j + 2] && m[3] == raw[j + 3]);
    }
    if !valid_utf8(bytes) && !bytes.contains(10u8) {
        let sep = seq![10u8, 10];
        let s = bytes + sep;
        let n = bytes.len() as int;
        assert(sep =~= double_lf());
        assert(s.subrange(n, n + 2) =~= sep);
        assert forall|j: int| 0 <= j < n implies !#[trigger] text::match_at(s, sep, j) by {
            if text::match_at(s, sep, j) {
                assert(s.subrange(j, j + 2)[0] == bytes[j]);
                assert(bytes.contains(bytes[j]));
            }
        }
        text::lemma_find_seq_is(s, sep, 0, n);
        text::lemma_find_seq(s, double_crlf(), 0);
        if let Some(j) = text::find_seq(s, double_crlf(), 0) {
            let m = s.subrange(j, j + 4);
            assert(m[0] == s[j] && m[1] == s[j + 1] && m[2] == s[j + 2]);
            assert(j + 1 < n ==> bytes.contains(bytes[j + 1]));
        }
        lemma_script_split(bytes, sep, double_crlf(), body);
        assert((bytes + sep + body).take(n) =~= bytes);
    }
}

} // verus!
