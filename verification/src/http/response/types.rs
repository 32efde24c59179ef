//! The parts of a response.

use vstd::prelude::*;
use vstd::string::*;
use vstd::utf8::is_ascii_chars;

use crate::text;

verus! {

// ---------------------------------------------------------------------------
// StatusCode
// ---------------------------------------------------------------------------

/// A status code. The constants are the codes this server gives.
#[derive(Debug, Clone, Copy, PartialEq, Eq, Structural)]
pub struct StatusCode(pub u16);

/// The phrase that goes with a status code.
pub open spec fn reason_phrase(code: u16) -> Seq<char> {
    if code == 200 {
        "OK"@
    } else if code == 201 {
        "Created"@
    } else if code == 204 {
        "No Content"@
    } else if code == 301 {
        "Moved Permanently"@
    } else if code == 302 {
        "Found"@
    } else if code == 307 {
        "Temporary Redirect"@
    } else if code == 308 {
        "Permanent Redirect"@
    } else if code == 400 {
        "Bad Request"@
    } else if code == 403 {
        "Forbidden"@
    } else if code == 404 {
        "Not Found"@
    } else if code == 405 {
        "Method Not Allowed"@
    } else if code == 408 {
        "Request Timeout"@
    } else if code == 409 {
        "Conflict"@
    } else if code == 413 {
        "Payload Too Large"@
    } else if code == 414 {
        "URI Too Long"@
    } else if code == 500 {
        "Internal Server Error"@
    } else if code == 502 {
        "Bad Gateway"@
    } else if code == 504 {
        "Gateway Timeout"@
    } else {
        "Unknown"@
    }
}

/// A status code and its phrase, as in a status line.
pub open spec fn status_text(code: u16) -> Seq<char> {
    text::decimal(code as nat) + " "@ + reason_phrase(code)
}

/// Responses with these codes have no body: those from 100 to 199, 204 and 304.
pub open spec fn bodiless(code: u16) -> bool {
    100 <= code <= 199 || code == 204 || code == 304
}

impl StatusCode {
    pub const OK: u16 = 200;

    pub const CREATED: u16 = 201;

    pub const NO_CONTENT: u16 = 204;

    pub const MOVED_PERMANENTLY: u16 = 301;

    pub const FOUND: u16 = 302;

    pub const TEMPORARY_REDIRECT: u16 = 307;

    pub const PERMANENT_REDIRECT: u16 = 308;

    pub const BAD_REQUEST: u16 = 400;

    pub const FORBIDDEN: u16 = 403;

    pub const NOT_FOUND: u16 = 404;

    pub const METHOD_NOT_ALLOWED: u16 = 405;

    pub const REQUEST_TIMEOUT: u16 = 408;

    pub const CONFLICT: u16 = 409;

    pub const PAYLOAD_TOO_LARGE: u16 = 413;

    pub const URI_TOO_LONG: u16 = 414;

    pub const INTERNAL_SERVER_ERROR: u16 = 500;

    pub const BAD_GATEWAY: u16 = 502;

    pub const GATEWAY_TIMEOUT: u16 = 504;

    /// The number.
    pub fn code(self) -> (n: u16)
        ensures
            n == self.0,
    {
        self.0
    }

    /// The phrase that goes with the code.
    pub fn reason(self) -> (r: &'static str)
        ensures
            r@ == reason_phrase(self.0),
    {
        match self.0 {
            200 => "OK",
            201 => "Created",
            204 => "No Content",
            301 => "Moved Permanently",
            302 => "Found",
            307 => "Temporary Redirect",
            308 => "Permanent Redirect",
            400 => "Bad Request",
            403 => "Forbidden",
            404 => "Not Found",
            405 => "Method Not Allowed",
            408 => "Request Timeout",
            409 => "Conflict",
            413 => "Payload Too Large",
            414 => "URI Too Long",
            500 => "Internal Server Error",
            502 => "Bad Gateway",
            504 => "Gateway Timeout",
            _ => "Unknown",
        }
    }

    /// Whether a response with this code must not have a body.
    pub fn must_not_have_body(self) -> (r: bool)
        ensures
            r == bodiless(self.0),
    {
        (100 <= self.0 && self.0 <= 199) || self.0 == 204 || self.0 == 304
    }

    /// The code and its phrase, such as `404 Not Found`.
    pub fn to_string(&self) -> (r: String)
        ensures
            r@ == status_text(self.0),
    {
        let mut s = text::decimal_text(self.0 as u64);
        s.append(" ");
        s.append(self.reason());
        s
    }
}

// ---------------------------------------------------------------------------
// ResponseHeaders
// ---------------------------------------------------------------------------

/// Response headers: names and values, in the order in which they are sent.
pub type HeaderList = Seq<(Seq<char>, Seq<char>)>;

/// Whether two names are the same header.
pub open spec fn same_name(a: Seq<char>, b: Seq<char>) -> bool {
    text::lower(a) == text::lower(b)
}

/// The value of the first header with the name, from position `i` on.
pub open spec fn value_from(h: HeaderList, name: Seq<char>, i: int) -> Option<Seq<char>>
    decreases h.len() - i,
{
    if i < 0 || i >= h.len() {
        None
    } else if same_name(h[i].0, name) {
        Some(h[i].1)
    } else {
        value_from(h, name, i + 1)
    }
}

/// The value of the first header with the name.
pub open spec fn value_of(h: HeaderList, name: Seq<char>) -> Option<Seq<char>> {
    value_from(h, name, 0)
}

/// The headers without those of the name.
pub open spec fn without(h: HeaderList, name: Seq<char>) -> HeaderList
    decreases h.len(),
{
    if h.len() == 0 {
        h
    } else if same_name(h.last().0, name) {
        without(h.drop_last(), name)
    } else {
        without(h.drop_last(), name).push(h.last())
    }
}

/// The headers with one that takes the place of all others of its name.
pub open spec fn with_set(h: HeaderList, name: Seq<char>, value: Seq<char>) -> HeaderList {
    without(h, name).push((name, value))
}

/// [`value_from`] finds nothing exactly when no header has the name.
pub proof fn lemma_value_from(h: HeaderList, name: Seq<char>, i: int)
    requires
        0 <= i,
    ensures
        value_from(h, name, i) is None <==> forall|j: int|
            i <= j < h.len() ==> !same_name((#[trigger] h[j]).0, name),
    decreases h.len() - i,
{
    if i < h.len() && !same_name(h[i].0, name) {
        lemma_value_from(h, name, i + 1);
    }
}

/// One header behind the others is found where no earlier one has its name,
/// and hides none of the others.
pub proof fn lemma_value_of_push(h: HeaderList, e: (Seq<char>, Seq<char>), name: Seq<char>)
    ensures
        value_of(h, name) is Some ==> value_of(h.push(e), name) == value_of(h, name),
        value_of(h, name) is None && same_name(e.0, name) ==> value_of(h.push(e), name) == Some(e.1),
        value_of(h, name) is None && !same_name(e.0, name) ==> value_of(h.push(e), name) is None,
{
    lemma_value_from_push(h, e, name, 0);
}

proof fn lemma_value_from_push(h: HeaderList, e: (Seq<char>, Seq<char>), name: Seq<char>, i: int)
    requires
        0 <= i <= h.len(),
    ensures
        value_from(h.push(e), name, i) == match value_from(h, name, i) {
            Some(v) => Some(v),
            None => if same_name(e.0, name) {
                Some(e.1)
            } else {
                None::<Seq<char>>
            },
        },
    decreases h.len() - i,
{
    if i < h.len() {
        assert(h.push(e)[i] == h[i]);
        lemma_value_from_push(h, e, name, i + 1);
    } else {
        assert(h.push(e)[i] == e);
        assert(value_from(h.push(e), name, i + 1) is None);
    }
}

proof fn lemma_without(h: HeaderList, name: Seq<char>, other: Seq<char>)
    ensures
        value_of(without(h, name), name) is None,
        !same_name(other, name) ==> value_of(without(h, name), other) == value_of(h, other),
        forall|j: int|
            0 <= j < without(h, name).len() ==> !same_name((#[trigger] without(h, name)[j]).0, name),
    decreases h.len(),
{
    if h.len() > 0 {
        let rest = h.drop_last();
        let e = h.last();
        lemma_without(rest, name, other);
        assert(rest.push(e) =~= h);
        lemma_value_of_push(rest, e, other);
        lemma_value_of_push(without(rest, name), e, other);
        lemma_value_of_push(without(rest, name), e, name);
    }
}

/// A header that was set reads back with its value, it is the only one of its
/// name, and headers of other names are as they were.
pub proof fn lemma_set_reads_back(
    h: HeaderList,
    name: Seq<char>,
    value: Seq<char>,
    other: Seq<char>,
)
    ensures
        value_of(with_set(h, name, value), name) == Some(value),
        forall|j: int|
            0 <= j < with_set(h, name, value).len() - 1 ==> !same_name(
                (#[trigger] with_set(h, name, value)[j]).0,
                name,
            ),
        !same_name(other, name) ==> value_of(with_set(h, name, value), other) == value_of(h, other),
{
    lemma_without(h, name, other);
    lemma_value_of_push(without(h, name), (name, value), name);
    lemma_value_of_push(without(h, name), (name, value), other);
    assert forall|j: int| 0 <= j < with_set(h, name, value).len() - 1 implies !same_name(
        (#[trigger] with_set(h, name, value)[j]).0,
        name,
    ) by {
        assert(with_set(h, name, value)[j] == without(h, name)[j]);
    }
}

/// The case of ASCII letters in a name makes no difference.
pub proof fn lemma_value_case(h: HeaderList, a: Seq<char>, b: Seq<char>)
    requires
        is_ascii_chars(a),
        is_ascii_chars(b),
        text::equal_ignoring_case(a, b),
    ensures
        value_of(h, a) == value_of(h, b),
{
    lemma_value_from_case(h, a, b, 0);
}

proof fn lemma_value_from_case(h: HeaderList, a: Seq<char>, b: Seq<char>, i: int)
    requires
        text::lower(a) == text::lower(b),
    ensures
        value_from(h, a, i) == value_from(h, b, i),
    decreases h.len() - i,
{
    if 0 <= i < h.len() {
        lemma_value_from_case(h, a, b, i + 1);
    }
}

/// ASCII names of different lengths are different headers.
pub proof fn lemma_names_differ(a: Seq<char>, b: Seq<char>)
    requires
        is_ascii_chars(a),
        is_ascii_chars(b),
        a.len() != b.len(),
    ensures
        !same_name(a, b),
{
    assert(text::ascii_lower(a).len() == a.len());
    assert(text::ascii_lower(b).len() == b.len());
}

/// The headers of a response. They keep the order and the case in which they
/// were given, and a name may occur more than once.
#[derive(Debug, Clone)]
pub struct ResponseHeaders {
    entries: Vec<(String, String)>,
}

/// The views of a list of headers.
pub open spec fn entry_views(v: Seq<(String, String)>) -> HeaderList {
    v.map_values(|e: (String, String)| (e.0@, e.1@))
}

impl View for ResponseHeaders {
    type V = HeaderList;

    closed spec fn view(&self) -> HeaderList {
        entry_views(self.entries@)
    }
}

impl Default for ResponseHeaders {
    fn default() -> (h: Self)
        ensures
            h@ == Seq::<(Seq<char>, Seq<char>)>::empty(),
    {
        ResponseHeaders::new()
    }
}

impl ResponseHeaders {
    /// No headers.
    pub fn new() -> (h: Self)
        ensures
            h@ == Seq::<(Seq<char>, Seq<char>)>::empty(),
    {
        let h = ResponseHeaders { entries: Vec::new() };
        assert(h@ =~= Seq::empty());
        h
    }

    /// Adds a header behind the others, of whatever name.
    pub fn append(&mut self, name: &str, value: &str)
        ensures
            final(self)@ == old(self)@.push((name@, value@)),
    {
        let ghost before = self@;
        self.entries.push((text::owned(name), text::owned(value)));
        assert(self@ =~= before.push((name@, value@)));
    }

    /// Sets a header in place of all others of its name, whatever their case.
    pub fn set(&mut self, name: &str, value: &str)
        ensures
            final(self)@ == with_set(old(self)@, name@, value@),
    {
        let ghost before = self@;
        let lower = text::lower_text(name);
        let mut kept: Vec<(String, String)> = Vec::new();
        let mut i: usize = 0;
        proof {
            assert(before.take(0) =~= Seq::empty());
            assert(entry_views(kept@) =~= Seq::empty());
        }
        while i < self.entries.len()
            invariant
                i <= self.entries@.len(),
                self.entries == old(self).entries,
                before == entry_views(self.entries@),
                lower@ == text::lower(name@),
                entry_views(kept@) == without(before.take(i as int), name@),
            decreases self.entries@.len() - i,
        {
            let e: &(String, String) = &self.entries[i];
            proof {
                assert(before.take(i + 1).last() == (e.0@, e.1@));
                assert(before.take(i + 1).drop_last() =~= before.take(i as int));
            }
            if !text::same(text::lower_text(e.0.as_str()).as_str(), lower.as_str()) {
                let ghost was = kept@;
                kept.push((e.0.clone(), e.1.clone()));
                assert(entry_views(kept@) =~= entry_views(was).push((e.0@, e.1@)));
            }
            i = i + 1;
        }
        assert(before.take(i as int) =~= before);
        let ghost was = kept@;
        kept.push((text::owned(name), text::owned(value)));
        assert(entry_views(kept@) =~= entry_views(was).push((name@, value@)));
        self.entries = kept;
    }

    /// The value of the first header of the name, whatever its case.
    pub fn get(&self, name: &str) -> (r: Option<&str>)
        ensures
            r matches Some(v) ==> value_of(self@, name@) == Some(v@),
            r is None ==> value_of(self@, name@) is None,
    {
        let lower = text::lower_text(name);
        let mut i: usize = 0;
        while i < self.entries.len()
            invariant
                i <= self.entries@.len(),
                lower@ == text::lower(name@),
                value_of(self@, name@) == value_from(self@, name@, i as int),
            decreases self.entries@.len() - i,
        {
            let e: &(String, String) = &self.entries[i];
            assert(self@[i as int] == (e.0@, e.1@));
            if text::same(text::lower_text(e.0.as_str()).as_str(), lower.as_str()) {
                return Some(e.1.as_str());
            }
            i = i + 1;
        }
        None
    }

    /// All headers, in order.
    pub fn iter(&self) -> (r: Vec<(&str, &str)>)
        ensures
            r@.len() == self@.len(),
            forall|i: int| #![trigger r@[i]] 0 <= i < r@.len() ==> (r@[i].0@, r@[i].1@) == self@[i],
    {
        let mut out: Vec<(&str, &str)> = Vec::new();
        let mut i: usize = 0;
        while i < self.entries.len()
            invariant
                i <= self.entries@.len(),
                out@.len() == i,
                forall|j: int| #![trigger out@[j]]
                    0 <= j < i ==> (out@[j].0@, out@[j].1@) == self@[j],
            decreases self.entries@.len() - i,
        {
            let e: &(String, String) = &self.entries[i];
            out.push((e.0.as_str(), e.1.as_str()));
            i = i + 1;
        }
        out
    }
}

// ---------------------------------------------------------------------------
// Response
// ---------------------------------------------------------------------------

/// A response.
#[derive(Debug, Clone)]
pub struct Response {
    pub status: StatusCode,
    pub headers: ResponseHeaders,
    pub body: Vec<u8>,
}

/// A [`Response`] with texts for its strings.
#[verifier::ext_equal]
pub struct ResponseView {
    pub status: u16,
    pub headers: HeaderList,
    pub body: Seq<u8>,
}

impl View for Response {
    type V = ResponseView;

    open spec fn view(&self) -> ResponseView {
        ResponseView { status: self.status.0, headers: self.headers@, body: self.body@ }
    }
}

impl ResponseView {
    /// Whether the `Content-Length` header gives the length of the body.
    pub open spec fn sized(self) -> bool {
        value_of(self.headers, "Content-Length"@) == Some(text::decimal(self.body.len()))
    }
}

impl Response {
    /// A response without headers and body.
    pub fn new(status: StatusCode) -> (r: Self)
        ensures
            r@ == (ResponseView { status: status.0, headers: Seq::empty(), body: Seq::empty() }),
    {
        Response { status, headers: ResponseHeaders::new(), body: Vec::new() }
    }
}

// ---------------------------------------------------------------------------
// Laws
// ---------------------------------------------------------------------------

/// A header list without a name is that of each of its parts without it, in the
/// same order: a header stays exactly where it has another name.
pub proof fn lemma_without_parts(a: HeaderList, e: (Seq<char>, Seq<char>), b: HeaderList, name: Seq<char>)
    ensures
        without(Seq::empty(), name) == Seq::<(Seq<char>, Seq<char>)>::empty(),
        text::lower(e.0) == text::lower(name) ==> without(a + seq![e] + b, name) == without(a, name)
            + without(b, name),
        text::lower(e.0) != text::lower(name) ==> without(a + seq![e] + b, name) == without(a, name)
            + seq![e] + without(b, name),
    decreases b.len(),
{
    let s = a + seq![e] + b;
    if b.len() == 0 {
        assert(s.drop_last() =~= a);
        assert(s.last() == e);
        assert(without(a, name) + without(b, name) =~= without(a, name));
        assert(without(a, name).push(e) =~= without(a, name) + seq![e] + without(b, name));
    } else {
        let rest = b.drop_last();
        lemma_without_parts(a, e, rest, name);
        assert(s.drop_last() =~= a + seq![e] + rest);
        assert(s.last() == b.last());
        assert(without(s, name) =~= if same_name(e.0, name) {
            without(a, name) + without(b, name)
        } else {
            without(a, name) + seq![e] + without(b, name)
        });
    }
}

/// A header is found behind headers of other names, and those behind it make no
/// difference.
pub proof fn lemma_value_found(
    a: HeaderList,
    e: (Seq<char>, Seq<char>),
    b: HeaderList,
    name: Seq<char>,
)
    requires
        forall|j: int| 0 <= j < a.len() ==> text::lower((#[trigger] a[j]).0) != text::lower(name),
    ensures
        text::lower(e.0) == text::lower(name) ==> value_of(a + seq![e] + b, name) == Some(e.1),
        value_of(a, name) is None,
{
    lemma_value_from(a, name, 0);
    if text::lower(e.0) == text::lower(name) {
        lemma_value_found_from(a, e, b, name, 0);
    }
}

proof fn lemma_value_found_from(
    a: HeaderList,
    e: (Seq<char>, Seq<char>),
    b: HeaderList,
    name: Seq<char>,
    i: int,
)
    requires
        0 <= i <= a.len(),
        forall|j: int| 0 <= j < a.len() ==> text::lower((#[trigger] a[j]).0) != text::lower(name),
        text::lower(e.0) == text::lower(name),
    ensures
        value_from(a + seq![e] + b, name, i) == Some(e.1),
    decreases a.len() - i,
{
    let s = a + seq![e] + b;
    if i < a.len() {
        assert(s[i] == a[i]);
        lemma_value_found_from(a, e, b, name, i + 1);
    } else {
        assert(s[i] == e);
    }
}

/// The phrases of the codes that this server gives; other codes have none of
/// their own.
pub proof fn lemma_phrases(code: u16)
    ensures
        reason_phrase(200) == "OK"@,
        reason_phrase(201) == "Created"@,
        reason_phrase(204) == "No Content"@,
        reason_phrase(301) == "Moved Permanently"@,
        reason_phrase(302) == "Found"@,
        reason_phrase(307) == "Temporary Redirect"@,
        reason_phrase(308) == "Permanent Redirect"@,
        reason_phrase(400) == "Bad Request"@,
        reason_phrase(403) == "Forbidden"@,
        reason_phrase(404) == "Not Found"@,
        reason_phrase(405) == "Method Not Allowed"@,
        reason_phrase(408) == "Request Timeout"@,
        reason_phrase(409) == "Conflict"@,
        reason_phrase(413) == "Payload Too Large"@,
        reason_phrase(414) == "URI Too Long"@,
        reason_phrase(500) == "Internal Server Error"@,
        reason_phrase(502) == "Bad Gateway"@,
        reason_phrase(504) == "Gateway Timeout"@,
        status_text(code) == text::decimal(code as nat) + seq![' '] + reason_phrase(code),
        !(seq![200u16, 201, 204, 301, 302, 307, 308, 400, 403, 404, 405, 408, 409, 413, 414, 500,
            502, 504].contains(code)) ==> reason_phrase(code) == "Unknown"@,
{
    reveal_strlit(" ");
    assert(" "@ =~= seq![' ']);
    let known = seq![200u16, 201, 204, 301, 302, 307, 308, 400, 403, 404, 405, 408, 409, 413, 414,
        500, 502, 504];
    assert(known[0] == 200 && known[1] == 201 && known[2] == 204 && known[3] == 301 && known[4]
        == 302 && known[5] == 307 && known[6] == 308 && known[7] == 400 && known[8] == 403
        && known[9] == 404 && known[10] == 405 && known[11] == 408 && known[12] == 409 && known[13]
        == 413 && known[14] == 414 && known[15] == 500 && known[16] == 502 && known[17] == 504);
}

/// No body goes with a code of the first hundred, with 204 or with 304; every
/// other code may have one.
pub proof fn lemma_bodiless(code: u16)
    ensures
        code < 100 ==> !bodiless(code),
        code / 100 == 1 ==> bodiless(code),
        code >= 200 ==> (bodiless(code) <==> code == 204 || code == 304),
{
}

} // verus!
