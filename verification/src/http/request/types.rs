//! The parts of a request.

use vstd::prelude::*;
use vstd::string::*;
use vstd::utf8::is_ascii_chars;

pub use crate::config::types::Method;
use crate::string_map;
use crate::string_map::StringMap;
use crate::text;

verus! {

// ---------------------------------------------------------------------------
// Version
// ---------------------------------------------------------------------------

/// The protocol version of a request.
#[derive(Debug, Clone, Copy, PartialEq, Eq, Structural)]
pub enum Version {
    Http10,
    Http11,
}

/// The name of a version on the wire.
pub open spec fn version_name(v: Version) -> Seq<char> {
    match v {
        Version::Http10 => "HTTP/1.0"@,
        Version::Http11 => "HTTP/1.1"@,
    }
}

impl Version {
    /// The name of the version.
    pub fn as_str(&self) -> (r: &'static str)
        ensures
            r@ == version_name(*self),
    {
        match self {
            Version::Http10 => "HTTP/1.0",
            Version::Http11 => "HTTP/1.1",
        }
    }

    /// Whether connections persist unless a header says otherwise.
    pub fn keep_alive_default(&self) -> (r: bool)
        ensures
            r == (*self == Version::Http11),
    {
        match self {
            Version::Http10 => false,
            Version::Http11 => true,
        }
    }
}

// ---------------------------------------------------------------------------
// HeaderMap
// ---------------------------------------------------------------------------

/// Headers by lowercase name.
pub type Headers = Map<Seq<char>, Seq<char>>;

/// The value of a header, whatever the case of the name asked for.
pub open spec fn header(h: Headers, name: Seq<char>) -> Option<Seq<char>> {
    if h.dom().contains(text::lower(name)) {
        Some(h[text::lower(name)])
    } else {
        None
    }
}

/// The headers after one more has come: its value, without white space around
/// it, is appended to the value that the name already has.
pub open spec fn with_header(h: Headers, name: Seq<char>, value: Seq<char>) -> Headers {
    h.insert(
        text::lower(name),
        match header(h, name) {
            Some(v) => v + ", "@ + text::trim(value),
            None => text::trim(value),
        },
    )
}

/// The case of ASCII letters in a name makes no difference.
pub proof fn lemma_header_case(h: Headers, a: Seq<char>, b: Seq<char>)
    requires
        is_ascii_chars(a),
        is_ascii_chars(b),
        text::equal_ignoring_case(a, b),
    ensures
        header(h, a) == header(h, b),
{
}

/// A header reads back under its name after it was inserted: alone where it is
/// new, and behind what was there where it is not. Other headers stay.
pub proof fn lemma_header_inserted(h: Headers, name: Seq<char>, value: Seq<char>, other: Seq<char>)
    ensures
        header(h, name) is None ==> header(with_header(h, name, value), name) == Some(
            text::trim(value),
        ),
        header(h, name) matches Some(v) ==> header(with_header(h, name, value), name) == Some(
            v + ", "@ + text::trim(value),
        ),
        text::lower(other) != text::lower(name) ==> header(with_header(h, name, value), other)
            == header(h, other),
{
}

/// The headers of a request. Names are kept in lowercase, so that their case
/// makes no difference; values of one name are joined by a comma and a space.
#[derive(Debug, Clone)]
pub struct HeaderMap {
    inner: StringMap<String>,
}

impl View for HeaderMap {
    type V = Headers;

    closed spec fn view(&self) -> Headers {
        string_map::texts(self.inner@)
    }
}

impl Default for HeaderMap {
    fn default() -> (m: Self)
        ensures
            m@ == Map::<Seq<char>, Seq<char>>::empty(),
            m.names() == Seq::<Seq<char>>::empty(),
    {
        HeaderMap::new()
    }
}

impl HeaderMap {
    /// The names in the order in which they first came.
    pub closed spec fn names(&self) -> Seq<Seq<char>> {
        self.inner.keys()
    }

    /// No headers.
    pub fn new() -> (m: Self)
        ensures
            m@ == Map::<Seq<char>, Seq<char>>::empty(),
            m.names() == Seq::<Seq<char>>::empty(),
    {
        let m = HeaderMap { inner: StringMap::new() };
        assert(m@ =~= Map::empty());
        m
    }

    /// Adds a header, joining its value to the one that the name already has.
    pub fn insert(&mut self, name: &str, value: &str)
        ensures
            final(self)@ == with_header(old(self)@, name@, value@),
            final(self).names() == if header(old(self)@, name@) is Some {
                old(self).names()
            } else {
                old(self).names().push(text::lower(name@))
            },
    {
        let key = text::lower_text(name);
        let trimmed = text::trimmed(value);
        let joined: String = match self.inner.get(key.as_str()) {
            Some(v) => {
                let mut s = v.clone();
                s.append(", ");
                s.append(trimmed);
                s
            },
            None => text::owned(trimmed),
        };
        let ghost before = self@;
        let ghost k = key@;
        let _ = self.inner.insert(key, joined);
        assert(self@ =~= before.insert(k, joined@));
    }

    /// The value of a header; the case of the name makes no difference.
    pub fn get(&self, name: &str) -> (r: Option<&str>)
        ensures
            r matches Some(v) ==> header(self@, name@) == Some(v@),
            r is None ==> header(self@, name@) is None,
    {
        match self.inner.get(text::lower_text(name).as_str()) {
            Some(v) => Some(v.as_str()),
            None => None,
        }
    }

    /// Whether a header is there; the case of the name makes no difference.
    pub fn contains(&self, name: &str) -> (r: bool)
        ensures
            r == header(self@, name@) is Some,
    {
        self.inner.contains_key(text::lower_text(name).as_str())
    }

    /// All headers, in the order in which their names first came.
    pub fn iter(&self) -> (r: Vec<(&str, &str)>)
        ensures
            r@.len() == self.names().len(),
            forall|i: int| #![trigger r@[i]]
                0 <= i < r@.len() ==> r@[i].0@ == self.names()[i] && self@.dom().contains(
                    r@[i].0@,
                ) && r@[i].1@ == self@[r@[i].0@],
            self.names().no_duplicates(),
            self.names().to_set() == self@.dom(),
    {
        let n: usize = self.inner.len();
        proof {
            assert(self.names().to_set() =~= self@.dom());
        }
        let mut out: Vec<(&str, &str)> = Vec::new();
        let mut i: usize = 0;
        while i < n
            invariant
                i <= n,
                n == self.names().len(),
                out@.len() == i,
                forall|j: int| #![trigger out@[j]]
                    0 <= j < i ==> out@[j].0@ == self.names()[j] && self@.dom().contains(
                        out@[j].0@,
                    ) && out@[j].1@ == self@[out@[j].0@],
            decreases n - i,
        {
            let (k, v) = self.inner.entry(i);
            out.push((k, v.as_str()));
            i = i + 1;
        }
        out
    }

    /// The number of headers.
    pub fn len(&self) -> (n: usize)
        ensures
            n == self@.dom().len(),
            n == self.names().len(),
    {
        assert(self@.dom() =~= self.inner@.dom());
        self.inner.len()
    }

    /// Whether there are no headers.
    pub fn is_empty(&self) -> (r: bool)
        ensures
            r == (self@ == Map::<Seq<char>, Seq<char>>::empty()),
    {
        proof {
            if self.inner@ == Map::<Seq<char>, String>::empty() {
                assert(self@ =~= Map::empty());
            } else {
                if self@ == Map::<Seq<char>, Seq<char>>::empty() {
                    assert(self@.dom() =~= self.inner@.dom());
                    assert(self.inner@ =~= Map::empty());
                }
            }
        }
        self.inner.is_empty()
    }
}

// ---------------------------------------------------------------------------
// Request
// ---------------------------------------------------------------------------

/// A request.
#[derive(Debug, Clone)]
pub struct Request {
    pub method: Method,
    /// The path, decoded, without the query.
    pub path: String,
    /// The query as it came, without the question mark; empty where there is none.
    pub query: String,
    pub version: Version,
    pub headers: HeaderMap,
    pub body: Vec<u8>,
}

/// A [`Request`] with texts for its strings.
#[verifier::ext_equal]
pub struct RequestView {
    pub method: Method,
    pub path: Seq<char>,
    pub query: Seq<char>,
    pub version: Version,
    pub headers: Headers,
    pub body: Seq<u8>,
}

impl View for Request {
    type V = RequestView;

    open spec fn view(&self) -> RequestView {
        RequestView {
            method: self.method,
            path: self.path@,
            query: self.query@,
            version: self.version,
            headers: self.headers@,
            body: self.body@,
        }
    }
}

impl RequestView {
    /// The host that the request is for, without a port; empty where no header
    /// says.
    pub open spec fn host(self) -> Seq<char> {
        match header(self.headers, "host"@) {
            Some(h) => h.take(text::index_of(h, ':')),
            None => Seq::empty(),
        }
    }

    /// The length of the body as the header gives it, if it gives a number.
    pub open spec fn content_length(self) -> Option<usize> {
        match header(self.headers, "content-length"@) {
            Some(v) => match text::parse_bounded(text::trim(v), 10, usize::MAX as nat) {
                Some(n) => Some(n as usize),
                None => None,
            },
            None => None,
        }
    }

    /// Whether the client wants the connection to persist.
    pub open spec fn keep_alive(self) -> bool {
        match header(self.headers, "connection"@) {
            Some(v) => if text::contains_seq(text::lower(v), "close"@) {
                false
            } else if text::contains_seq(text::lower(v), "keep-alive"@) {
                true
            } else {
                self.version == Version::Http11
            },
            None => self.version == Version::Http11,
        }
    }

    /// Whether the body comes in chunks.
    pub open spec fn chunked(self) -> bool {
        match header(self.headers, "transfer-encoding"@) {
            Some(v) => text::contains_seq(text::lower(v), "chunked"@),
            None => false,
        }
    }
}

impl Request {
    /// The host that the request is for, without a port.
    pub fn host(&self) -> (r: &str)
        ensures
            r@ == self@.host(),
    {
        match self.headers.get("host") {
            Some(h) => {
                let v = text::chars_of(h);
                let n: usize = text::find_char(v.as_slice(), ':');
                assert(h@.take(n as int) =~= h@.subrange(0, n as int));
                h.substring_char(0, n)
            },
            None => {
                proof {
                    reveal_strlit("");
                    assert(""@ =~= Seq::empty());
                }
                ""
            },
        }
    }

    /// The length of the body, where the header gives one.
    pub fn content_length(&self) -> (r: Option<usize>)
        ensures
            r == self@.content_length(),
    {
        match self.headers.get("content-length") {
            Some(v) => match text::parse_unsigned(text::trimmed(v), 10, usize::MAX as u64) {
                Some(n) => Some(n as usize),
                None => None,
            },
            None => None,
        }
    }

    /// Whether the client wants the connection to persist: in HTTP/1.1 unless
    /// it says `close`, in HTTP/1.0 only if it says `keep-alive`.
    pub fn is_keep_alive(&self) -> (r: bool)
        ensures
            r == self@.keep_alive(),
    {
        match self.headers.get("connection") {
            Some(v) => {
                let v = text::lower_text(v);
                if text::contains_text(v.as_str(), "close") {
                    false
                } else if text::contains_text(v.as_str(), "keep-alive") {
                    true
                } else {
                    self.version.keep_alive_default()
                }
            },
            None => self.version.keep_alive_default(),
        }
    }

    /// Whether the body comes in chunks.
    pub fn is_chunked(&self) -> (r: bool)
        ensures
            r == self@.chunked(),
    {
        match self.headers.get("transfer-encoding") {
            Some(v) => text::contains_text(text::lower_text(v).as_str(), "chunked"),
            None => false,
        }
    }
}

// ---------------------------------------------------------------------------
// ParseError
// ---------------------------------------------------------------------------

/// Why a request cannot be read.
#[derive(Debug, PartialEq, Eq)]
pub enum ParseError {
    /// The request line is malformed.
    BadRequestLine(String),
    /// A header line is malformed.
    BadHeader(String),
    /// No method has this name.
    UnknownMethod(String),
    /// The version is neither `HTTP/1.0` nor `HTTP/1.1`.
    UnsupportedVersion(String),
    /// The URI is empty, or does not begin with a slash.
    BadUri(String),
    /// The head is larger than allowed.
    HeadersTooLarge,
    /// The `Content-Length` is not a number.
    BadContentLength(String),
    /// A chunk of a body is malformed.
    BadChunkSize(String),
}

/// A [`ParseError`] with texts for its strings.
#[verifier::ext_equal]
pub enum ParseErrorView {
    BadRequestLine(Seq<char>),
    BadHeader(Seq<char>),
    UnknownMethod(Seq<char>),
    UnsupportedVersion(Seq<char>),
    BadUri(Seq<char>),
    HeadersTooLarge,
    BadContentLength(Seq<char>),
    BadChunkSize(Seq<char>),
}

impl View for ParseError {
    type V = ParseErrorView;

    open spec fn view(&self) -> ParseErrorView {
        match self {
            ParseError::BadRequestLine(s) => ParseErrorView::BadRequestLine(s@),
            ParseError::BadHeader(s) => ParseErrorView::BadHeader(s@),
            ParseError::UnknownMethod(s) => ParseErrorView::UnknownMethod(s@),
            ParseError::UnsupportedVersion(s) => ParseErrorView::UnsupportedVersion(s@),
            ParseError::BadUri(s) => ParseErrorView::BadUri(s@),
            ParseError::HeadersTooLarge => ParseErrorView::HeadersTooLarge,
            ParseError::BadContentLength(s) => ParseErrorView::BadContentLength(s@),
            ParseError::BadChunkSize(s) => ParseErrorView::BadChunkSize(s@),
        }
    }
}

impl ParseErrorView {
    /// The error as a sentence.
    pub open spec fn message(self) -> Seq<char> {
        match self {
            ParseErrorView::BadRequestLine(s) => "bad request line: "@ + s,
            ParseErrorView::BadHeader(s) => "bad header: "@ + s,
            ParseErrorView::UnknownMethod(s) => "unknown method: "@ + s,
            ParseErrorView::UnsupportedVersion(s) => "unsupported version: "@ + s,
            ParseErrorView::BadUri(s) => "bad URI: "@ + s,
            ParseErrorView::HeadersTooLarge => "request headers too large"@,
            ParseErrorView::BadContentLength(s) => "bad Content-Length: "@ + s,
            ParseErrorView::BadChunkSize(s) => "bad chunk size: "@ + s,
        }
    }
}

impl ParseError {
    /// The error as a sentence.
    pub fn message(&self) -> (r: String)
        ensures
            r@ == self@.message(),
    {
        match self {
            ParseError::BadRequestLine(s) => text::joined("bad request line: ", s.as_str()),
            ParseError::BadHeader(s) => text::joined("bad header: ", s.as_str()),
            ParseError::UnknownMethod(s) => text::joined("unknown method: ", s.as_str()),
            ParseError::UnsupportedVersion(s) => text::joined("unsupported version: ", s.as_str()),
            ParseError::BadUri(s) => text::joined("bad URI: ", s.as_str()),
            ParseError::HeadersTooLarge => text::owned("request headers too large"),
            ParseError::BadContentLength(s) => text::joined("bad Content-Length: ", s.as_str()),
            ParseError::BadChunkSize(s) => text::joined("bad chunk size: ", s.as_str()),
        }
    }
}

// ---------------------------------------------------------------------------
// Laws
// ---------------------------------------------------------------------------

/// The host of a request is what goes before the port in its header, and all of
/// it where there is no port.
pub proof fn lemma_host(r: RequestView, name: Seq<char>, port: Seq<char>)
    requires
        !name.contains(':'),
    ensures
        header(r.headers, "host"@) == Some(name) ==> r.host() == name,
        header(r.headers, "host"@) == Some(name + seq![':'] + port) ==> r.host() == name,
        header(r.headers, "host"@) is None ==> r.host() == Seq::<char>::empty(),
{
    let n = name.len() as int;
    text::lemma_index_of(name, ':');
    if text::index_of(name, ':') < n {
        assert(name.contains(name[text::index_of(name, ':')]));
    }
    assert(name.take(n) =~= name);
    let s = name + seq![':'] + port;
    assert forall|j: int| 0 <= j < n implies s[j] != ':' by {
        assert(name.contains(name[j]));
        assert(s[j] == name[j]);
    }
    text::lemma_index_of_is(s, ':', n);
    assert(s.take(n) =~= name);
}

/// The length of the body is the number that the header gives in decimal
/// notation, with or without white space around it; there is none without the
/// header, nor where it gives no number.
pub proof fn lemma_content_length(
    r: RequestView,
    n: usize,
    before: Seq<char>,
    after: Seq<char>,
    v: Seq<char>,
)
    requires
        text::all_white(before),
        text::all_white(after),
    ensures
        header(r.headers, "content-length"@) == Some(before + text::decimal(n as nat) + after)
            ==> r.content_length() == Some(n),
        header(r.headers, "content-length"@) is None ==> r.content_length() is None,
        header(r.headers, "content-length"@) == Some(v) && v.len() > 0 && !text::is_white(v[0])
            && v[0] != '+' && !('0' <= v[0] <= '9') ==> r.content_length() is None,
        header(r.headers, "content-length"@) == Some(before) ==> r.content_length() is None,
{
    let d = text::decimal(n as nat);
    text::lemma_bounded(n as nat, usize::MAX as nat, text::trim(v));
    text::lemma_decimal_shape(n as nat, 0);
    text::lemma_decimal_reads_back(n as nat);
    assert('0' <= d[0] <= '9');
    assert('0' <= d[d.len() - 1] <= '9');
    text::lemma_trimmed(before, d, after);
    text::lemma_trimmed(before, Seq::empty(), Seq::empty());
    assert(before + Seq::<char>::empty() + Seq::<char>::empty() =~= before);
    if v.len() > 0 && !text::is_white(v[0]) {
        text::lemma_trim_keeps_first(v);
    }
}

/// A connection persists by its version where no header speaks of it; a header
/// that holds `close` ends it, and one that holds `keep-alive`, and no `close`,
/// keeps it, whatever the case of the letters.
pub proof fn lemma_keep_alive(
    r: RequestView,
    a: Seq<char>,
    word: Seq<char>,
    b: Seq<char>,
    v: Seq<char>,
)
    requires
        is_ascii_chars(a + word + b),
    ensures
        header(r.headers, "connection"@) is None ==> r.keep_alive() == (r.version
            == Version::Http11),
        header(r.headers, "connection"@) == Some(a + word + b) && text::equal_ignoring_case(
            word,
            "close"@,
        ) ==> !r.keep_alive(),
        header(r.headers, "connection"@) == Some(a + word + b) && text::equal_ignoring_case(
            word,
            "keep-alive"@,
        ) && !text::contains_seq(text::lower(a + word + b), "close"@) ==> r.keep_alive(),
        header(r.headers, "connection"@) == Some(v) && !text::contains_seq(
            text::lower(v),
            "close"@,
        ) && !text::contains_seq(text::lower(v), "keep-alive"@) ==> r.keep_alive() == (r.version
            == Version::Http11),
{
    reveal_strlit("close");
    reveal_strlit("keep-alive");
    assert(text::ascii_lower("close"@) =~= "close"@);
    assert(text::ascii_lower("keep-alive"@) =~= "keep-alive"@);
    text::lemma_word_held(a, word, b, text::ascii_lower(word));
}

/// A body comes in chunks exactly where the header for it is there and holds
/// `chunked`, whatever the case of the letters.
pub proof fn lemma_chunked(r: RequestView, a: Seq<char>, word: Seq<char>, b: Seq<char>)
    requires
        is_ascii_chars(a + word + b),
    ensures
        header(r.headers, "transfer-encoding"@) is None ==> !r.chunked(),
        header(r.headers, "transfer-encoding"@) == Some(a + word + b) && text::equal_ignoring_case(
            word,
            "chunked"@,
        ) ==> r.chunked(),
        header(r.headers, "transfer-encoding"@) matches Some(v) ==> (r.chunked() ==> exists|i: int|
            0 <= i && i + 7 <= text::lower(v).len() && #[trigger] text::lower(v).subrange(i, i + 7)
                == "chunked"@),
{
    reveal_strlit("chunked");
    assert(text::ascii_lower("chunked"@) =~= "chunked"@);
    text::lemma_word_held(a, word, b, text::ascii_lower(word));
    if let Some(v) = header(r.headers, "transfer-encoding"@) {
        text::lemma_contains(Seq::empty(), "chunked"@, Seq::empty(), text::lower(v));
    }
}

/// Errors say what was wrong, and with which part of the request.
pub proof fn lemma_messages(s: Seq<char>)
    ensures
        ParseErrorView::BadRequestLine(s).message() == "bad request line: "@ + s,
        ParseErrorView::BadHeader(s).message() == "bad header: "@ + s,
        ParseErrorView::UnknownMethod(s).message() == "unknown method: "@ + s,
        ParseErrorView::UnsupportedVersion(s).message() == "unsupported version: "@ + s,
        ParseErrorView::BadUri(s).message() == "bad URI: "@ + s,
        ParseErrorView::HeadersTooLarge.message() == "request headers too large"@,
        ParseErrorView::BadContentLength(s).message() == "bad Content-Length: "@ + s,
        ParseErrorView::BadChunkSize(s).message() == "bad chunk size: "@ + s,
{
}

} // verus!
