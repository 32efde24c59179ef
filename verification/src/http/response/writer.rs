//! Responses as bytes on the wire, and what becomes of a write.

use vstd::prelude::*;
use vstd::string::*;
use vstd::utf8::*;

use crate::http::request::body::double_crlf;
use crate::http::request::parser::{fits_line, joined_lines, lemma_lines_end};
use crate::http::response::types;
use crate::http::response::types::{
    value_of, HeaderList, Response, ResponseHeaders, ResponseView, StatusCode,
};
use crate::text;

verus! {

// ---------------------------------------------------------------------------
// Dates
// ---------------------------------------------------------------------------

/// A moment in UTC, by the calendar.
#[derive(Debug, Clone, Copy, PartialEq, Eq, Structural)]
pub struct UtcTime {
    /// Seconds after the minute.
    pub sec: i32,
    /// Minutes after the hour.
    pub min: i32,
    /// Hours since midnight.
    pub hour: i32,
    /// Day of the month, from 1.
    pub mday: i32,
    /// Months since January.
    pub mon: i32,
    /// Years since 1900.
    pub year: i32,
    /// Days since Sunday.
    pub wday: i32,
}

/// The name of a day, counted from Sunday; what lies outside the week counts
/// as its nearer end.
pub open spec fn day_name(d: int) -> Seq<char> {
    if d <= 0 {
        "Sun"@
    } else if d == 1 {
        "Mon"@
    } else if d == 2 {
        "Tue"@
    } else if d == 3 {
        "Wed"@
    } else if d == 4 {
        "Thu"@
    } else if d == 5 {
        "Fri"@
    } else {
        "Sat"@
    }
}

/// The name of a month, counted from January; what lies outside the year
/// counts as its nearer end.
pub open spec fn month_name(m: int) -> Seq<char> {
    if m <= 0 {
        "Jan"@
    } else if m == 1 {
        "Feb"@
    } else if m == 2 {
        "Mar"@
    } else if m == 3 {
        "Apr"@
    } else if m == 4 {
        "May"@
    } else if m == 5 {
        "Jun"@
    } else if m == 6 {
        "Jul"@
    } else if m == 7 {
        "Aug"@
    } else if m == 8 {
        "Sep"@
    } else if m == 9 {
        "Oct"@
    } else if m == 10 {
        "Nov"@
    } else {
        "Dec"@
    }
}

/// A text with zeros in front that make it at least so long.
pub open spec fn zero_padded(s: Seq<char>, width: nat) -> Seq<char> {
    if s.len() < width {
        Seq::new((width - s.len()) as nat, |i: int| '0') + s
    } else {
        s
    }
}

/// A number in decimal with zeros in front, where it is shorter than the
/// width. The sign of a negative number counts.
pub open spec fn padded(n: int, width: nat) -> Seq<char> {
    if n >= 0 {
        zero_padded(text::decimal(n as nat), width)
    } else {
        seq!['-'] + zero_padded(
            text::decimal((-n) as nat),
            if width > 0 {
                (width - 1) as nat
            } else {
                0
            },
        )
    }
}

/// A moment as it stands in a `Date` header.
pub open spec fn date_text(t: UtcTime) -> Seq<char> {
    day_name(t.wday as int) + ", "@ + padded(t.mday as int, 2) + " "@ + month_name(t.mon as int)
        + " "@ + padded(1900 + t.year, 4) + " "@ + padded(t.hour as int, 2) + ":"@ + padded(
        t.min as int,
        2,
    ) + ":"@ + padded(t.sec as int, 2) + " GMT"@
}

fn day_text(d: i32) -> (r: &'static str)
    ensures
        r@ == day_name(d as int),
{
    if d <= 0 {
        "Sun"
    } else if d == 1 {
        "Mon"
    } else if d == 2 {
        "Tue"
    } else if d == 3 {
        "Wed"
    } else if d == 4 {
        "Thu"
    } else if d == 5 {
        "Fri"
    } else {
        "Sat"
    }
}

fn month_text(m: i32) -> (r: &'static str)
    ensures
        r@ == month_name(m as int),
{
    if m <= 0 {
        "Jan"
    } else if m == 1 {
        "Feb"
    } else if m == 2 {
        "Mar"
    } else if m == 3 {
        "Apr"
    } else if m == 4 {
        "May"
    } else if m == 5 {
        "Jun"
    } else if m == 6 {
        "Jul"
    } else if m == 7 {
        "Aug"
    } else if m == 8 {
        "Sep"
    } else if m == 9 {
        "Oct"
    } else if m == 10 {
        "Nov"
    } else {
        "Dec"
    }
}

/// Appends a number in decimal with zeros in front.
fn push_padded(s: &mut String, n: i32, width: usize)
    requires
        0 < width <= 4,
    ensures
        final(s)@ == old(s)@ + padded(n as int, width as nat),
{
    let ghost before = s@;
    let mut room: usize = width;
    let digits: String = if n < 0 {
        s.push('-');
        room = width - 1;
        text::decimal_text((-(n as i64)) as u64)
    } else {
        text::decimal_text(n as u64)
    };
    let ghost sign = s@;
    let len: usize = text::chars_of(digits.as_str()).len();
    let mut i: usize = len;
    while i < room
        invariant
            len <= i,
            len == digits@.len(),
            room <= 4,
            i <= room || i == len,
            s@ == sign + Seq::new((i - len) as nat, |k: int| '0'),
        decreases room - i,
    {
        s.push('0');
        proof {
            assert(Seq::new((i + 1 - len) as nat, |k: int| '0') =~= Seq::new(
                (i - len) as nat,
                |k: int| '0',
            ).push('0'));
            assert(sign + Seq::new((i + 1 - len) as nat, |k: int| '0') =~= (sign + Seq::new(
                (i - len) as nat,
                |k: int| '0',
            )).push('0'));
        }
        i = i + 1;
    }
    let ghost zeros = Seq::new((i - len) as nat, |k: int| '0');
    s.append(digits.as_str());
    proof {
        assert(zeros + digits@ =~= zero_padded(digits@, room as nat));
        if n < 0 {
            assert(sign =~= before + seq!['-']);
        }
        assert(s@ =~= before + padded(n as int, width as nat));
    }
}

/// A moment as it stands in a `Date` header, such as
/// `Thu, 01 Jan 2026 00:00:00 GMT`.
pub fn rfc7231_date(now: &UtcTime) -> (r: String)
    requires
        1900 + now.year <= i32::MAX,
    ensures
        r@ == date_text(*now),
{
    let mut s = text::owned(day_text(now.wday));
    s.append(", ");
    push_padded(&mut s, now.mday, 2);
    s.append(" ");
    s.append(month_text(now.mon));
    s.append(" ");
    push_padded(&mut s, 1900 + now.year, 4);
    s.append(" ");
    push_padded(&mut s, now.hour, 2);
    s.append(":");
    push_padded(&mut s, now.min, 2);
    s.append(":");
    push_padded(&mut s, now.sec, 2);
    s.append(" GMT");
    s
}

// ---------------------------------------------------------------------------
// Serialising
// ---------------------------------------------------------------------------

/// One header line.
pub open spec fn header_text(name: Seq<char>, value: Seq<char>) -> Seq<char> {
    name + ": "@ + value + "\r\n"@
}

/// Header lines, in order.
pub open spec fn headers_text(h: HeaderList) -> Seq<char>
    decreases h.len(),
{
    if h.len() == 0 {
        Seq::empty()
    } else {
        headers_text(h.drop_last()) + header_text(h.last().0, h.last().1)
    }
}

/// The head of a response: status line, headers, and the empty line. `Date`
/// and `Server` are added where they are not there.
pub open spec fn head_text(status: u16, headers: HeaderList, now: UtcTime) -> Seq<char> {
    "HTTP/1.1 "@ + types::status_text(status) + "\r\n"@ + headers_text(headers) + (if value_of(
        headers,
        "Date"@,
    ) is None {
        header_text("Date"@, date_text(now))
    } else {
        Seq::empty()
    }) + (if value_of(headers, "Server"@) is None {
        header_text("Server"@, "localhost/0.1"@)
    } else {
        Seq::empty()
    }) + "\r\n"@
}

/// The bytes of a response's head.
pub open spec fn head_bytes(r: ResponseView, now: UtcTime) -> Seq<u8> {
    encode_utf8(head_text(r.status, r.headers, now))
}

/// The bytes of a response. A response whose code allows no body has none,
/// whatever its body holds.
pub open spec fn serialized(r: ResponseView, now: UtcTime) -> Seq<u8> {
    if types::bodiless(r.status) {
        head_bytes(r, now)
    } else {
        head_bytes(r, now) + r.body
    }
}

/// Appends a header line.
fn push_header(s: &mut String, name: &str, value: &str)
    ensures
        final(s)@ == old(s)@ + header_text(name@, value@),
{
    let ghost before = s@;
    s.append(name);
    s.append(": ");
    s.append(value);
    s.append("\r\n");
    assert(s@ =~= before + header_text(name@, value@));
}

/// The head of a response.
fn serialize_head(status: StatusCode, headers: &ResponseHeaders, now: &UtcTime) -> (r: Vec<u8>)
    requires
        1900 + now.year <= i32::MAX,
    ensures
        r@ == encode_utf8(head_text(status.0, headers@, *now)),
{
    let mut s = text::owned("HTTP/1.1 ");
    s.append(status.to_string().as_str());
    s.append("\r\n");
    let ghost line = s@;
    let entries = headers.iter();
    let mut i: usize = 0;
    proof {
        assert(headers@.take(0) =~= Seq::empty());
        assert(line + headers_text(headers@.take(0)) =~= line);
    }
    while i < entries.len()
        invariant
            i <= entries@.len(),
            entries@.len() == headers@.len(),
            forall|j: int| #![trigger entries@[j]]
                0 <= j < entries@.len() ==> (entries@[j].0@, entries@[j].1@) == headers@[j],
            s@ == line + headers_text(headers@.take(i as int)),
        decreases entries@.len() - i,
    {
        let (name, value) = entries[i];
        assert((entries@[i as int].0@, entries@[i as int].1@) == headers@[i as int]);
        push_header(&mut s, name, value);
        proof {
            let t = headers@.take(i + 1);
            assert(t.drop_last() =~= headers@.take(i as int));
            assert(t.last() == headers@[i as int]);
            assert(s@ =~= line + headers_text(t));
        }
        i = i + 1;
    }
    assert(headers@.take(i as int) =~= headers@);
    let ghost lines = s@;
    if headers.get("Date").is_none() {
        push_header(&mut s, "Date", rfc7231_date(now).as_str());
    }
    if headers.get("Server").is_none() {
        push_header(&mut s, "Server", "localhost/0.1");
    }
    s.append("\r\n");
    assert(s@ =~= head_text(status.0, headers@, *now));
    vstd::slice::slice_to_vec(s.as_str().as_bytes())
}

/// The bytes of a response, ready to be sent at the given moment.
pub fn serialize(response: &Response, now: &UtcTime) -> (r: Vec<u8>)
    requires
        1900 + now.year <= i32::MAX,
    ensures
        r@ == serialized(response@, *now),
{
    let mut buf = serialize_head(response.status, &response.headers, now);
    if !response.status.must_not_have_body() {
        text::extend(&mut buf, response.body.as_slice());
    }
    buf
}

/// The bytes of a response to a `HEAD` request: all headers, and no body.
pub fn serialize_head_response(response: &Response, now: &UtcTime) -> (r: Vec<u8>)
    requires
        1900 + now.year <= i32::MAX,
    ensures
        r@ == head_bytes(response@, *now),
{
    serialize_head(response.status, &response.headers, now)
}

// ---------------------------------------------------------------------------
// Writing
// ---------------------------------------------------------------------------

/// What came of one attempt to write.
#[derive(Debug, Clone, Copy, PartialEq, Eq, Structural)]
pub enum WriteResult {
    /// So many bytes were taken.
    BytesWritten(usize),
    /// Nothing can be taken now.
    WouldBlock,
    /// The write failed, with this `errno`.
    Error(i32),
}

/// `errno` of an operation that would block.
pub const EAGAIN: i32 = 11;

/// What came of writing the rest of a buffer, by what `write` returned and by
/// `errno`. Where nothing is left, all of it is written, and the others do not
/// count. A write that took nothing counts as one that would block.
pub fn write_nonblocking(rest: &[u8], n: isize, errno: i32) -> (r: WriteResult)
    ensures
        r == if rest@.len() == 0 {
            WriteResult::BytesWritten(0)
        } else if n > 0 {
            WriteResult::BytesWritten(n as usize)
        } else if n == 0 || errno == EAGAIN {
            WriteResult::WouldBlock
        } else {
            WriteResult::Error(errno)
        },
{
    if rest.len() == 0 {
        WriteResult::BytesWritten(0)
    } else if n > 0 {
        WriteResult::BytesWritten(n as usize)
    } else if n == 0 || errno == EAGAIN {
        WriteResult::WouldBlock
    } else {
        WriteResult::Error(errno)
    }
}

// ---------------------------------------------------------------------------
// Laws
// ---------------------------------------------------------------------------

/// The answer to `HEAD` is the answer to `GET` without the body, and headers
/// say the same in both.
pub proof fn lemma_head_is_get_without_body(r: ResponseView, now: UtcTime)
    ensures
        serialized(r, now) == head_bytes(r, now) + (if types::bodiless(r.status) {
            Seq::empty()
        } else {
            r.body
        }),
        head_bytes(r, now) == serialized((ResponseView { body: Seq::empty(), ..r }), now),
{
    assert(head_bytes(r, now) + Seq::<u8>::empty() =~= head_bytes(r, now));
}

/// A response whose code allows no body is sent without one.
pub proof fn lemma_bodiless(r: ResponseView, body: Seq<u8>, now: UtcTime)
    requires
        types::bodiless(r.status),
    ensures
        serialized(r, now) == serialized((ResponseView { body, ..r }), now),
{
}

/// A `Date` that is already set is the only one: the moment of sending makes no
/// difference.
pub proof fn lemma_date_not_repeated(r: ResponseView, now: UtcTime, later: UtcTime)
    requires
        value_of(r.headers, "Date"@) is Some,
    ensures
        serialized(r, now) == serialized(r, later),
{
}

/// Dates of the years up to 9999 are 29 characters long.
pub proof fn lemma_date_length(t: UtcTime)
    requires
        0 <= t.sec < 100,
        0 <= t.min < 100,
        0 <= t.hour < 100,
        0 <= t.mday < 100,
        0 <= 1900 + t.year < 10000,
    ensures
        date_text(t).len() == 29,
{
    reveal_strlit("Sun");
    reveal_strlit("Mon");
    reveal_strlit("Tue");
    reveal_strlit("Wed");
    reveal_strlit("Thu");
    reveal_strlit("Fri");
    reveal_strlit("Sat");
    reveal_strlit("Jan");
    reveal_strlit("Feb");
    reveal_strlit("Mar");
    reveal_strlit("Apr");
    reveal_strlit("May");
    reveal_strlit("Jun");
    reveal_strlit("Jul");
    reveal_strlit("Aug");
    reveal_strlit("Sep");
    reveal_strlit("Oct");
    reveal_strlit("Nov");
    reveal_strlit("Dec");
    reveal_strlit(", ");
    reveal_strlit(" ");
    reveal_strlit(":");
    reveal_strlit(" GMT");
    assert forall|n: int| 0 <= n < 100 implies #[trigger] padded(n, 2).len() == 2 by {
        reveal_with_fuel(text::decimal, 3);
    }
    assert forall|n: int| 0 <= n < 10000 implies #[trigger] padded(n, 4).len() == 4 by {
        reveal_with_fuel(text::decimal, 5);
    }
    assert(day_name(t.wday as int).len() == 3);
    assert(month_name(t.mon as int).len() == 3);
}

/// Whether a text holds no carriage return.
pub open spec fn unbroken(s: Seq<char>) -> bool {
    forall|i: int| 0 <= i < s.len() ==> #[trigger] s[i] != '\r'
}

proof fn lemma_unbroken_padded(n: int, width: nat)
    ensures
        unbroken(padded(n, width)),
{
    let m: nat = if n >= 0 {
        n as nat
    } else {
        (-n) as nat
    };
    text::lemma_decimal_reads_back(m);
    let s = text::decimal(m);
    assert forall|i: int| 0 <= i < s.len() implies #[trigger] s[i] != '\r' by {
        assert(text::is_digit(s[i]));
    }
}

proof fn lemma_unbroken_date(t: UtcTime)
    ensures
        unbroken(date_text(t)),
{
    reveal_strlit("Sun");
    reveal_strlit("Mon");
    reveal_strlit("Tue");
    reveal_strlit("Wed");
    reveal_strlit("Thu");
    reveal_strlit("Fri");
    reveal_strlit("Sat");
    reveal_strlit("Jan");
    reveal_strlit("Feb");
    reveal_strlit("Mar");
    reveal_strlit("Apr");
    reveal_strlit("May");
    reveal_strlit("Jun");
    reveal_strlit("Jul");
    reveal_strlit("Aug");
    reveal_strlit("Sep");
    reveal_strlit("Oct");
    reveal_strlit("Nov");
    reveal_strlit("Dec");
    reveal_strlit(", ");
    reveal_strlit(" ");
    reveal_strlit(":");
    reveal_strlit(" GMT");
    lemma_unbroken_padded(t.mday as int, 2);
    lemma_unbroken_padded(1900 + t.year, 4);
    lemma_unbroken_padded(t.hour as int, 2);
    lemma_unbroken_padded(t.min as int, 2);
    lemma_unbroken_padded(t.sec as int, 2);
    assert(unbroken(day_name(t.wday as int)));
    assert(unbroken(month_name(t.mon as int)));
    let a = day_name(t.wday as int) + ", "@ + padded(t.mday as int, 2);
    let b = a + " "@ + month_name(t.mon as int);
    let c = b + " "@ + padded(1900 + t.year, 4);
    let d = c + " "@ + padded(t.hour as int, 2);
    assert(unbroken(a));
    assert(unbroken(b));
    assert(unbroken(c));
    assert(unbroken(d));
    let e = d + ":"@ + padded(t.min as int, 2);
    assert(unbroken(e));
    let f = e + ":"@ + padded(t.sec as int, 2);
    assert(unbroken(f));
}

proof fn lemma_unbroken_status(code: u16)
    ensures
        unbroken("HTTP/1.1 "@ + types::status_text(code)),
        ("HTTP/1.1 "@ + types::status_text(code)).len() > 0,
{
    reveal_strlit("OK");
    reveal_strlit("Created");
    reveal_strlit("No Content");
    reveal_strlit("Moved Permanently");
    reveal_strlit("Found");
    reveal_strlit("Temporary Redirect");
    reveal_strlit("Permanent Redirect");
    reveal_strlit("Bad Request");
    reveal_strlit("Forbidden");
    reveal_strlit("Not Found");
    reveal_strlit("Method Not Allowed");
    reveal_strlit("Request Timeout");
    reveal_strlit("Conflict");
    reveal_strlit("Payload Too Large");
    reveal_strlit("URI Too Long");
    reveal_strlit("Internal Server Error");
    reveal_strlit("Bad Gateway");
    reveal_strlit("Gateway Timeout");
    reveal_strlit("Unknown");
    reveal_strlit("HTTP/1.1 ");
    reveal_strlit(" ");
    text::lemma_decimal_reads_back(code as nat);
    let s = text::decimal(code as nat);
    assert forall|i: int| 0 <= i < s.len() implies #[trigger] s[i] != '\r' by {
        assert(text::is_digit(s[i]));
    }
    assert(unbroken(types::reason_phrase(code)));
    assert(unbroken(types::status_text(code)));
}

/// A header line without its line end.
pub open spec fn bare_header(e: (Seq<char>, Seq<char>)) -> Seq<char> {
    e.0 + ": "@ + e.1
}

/// The lines of a response's head.
pub open spec fn response_lines(r: ResponseView, now: UtcTime) -> Seq<Seq<char>> {
    let named = seq!["HTTP/1.1 "@ + types::status_text(r.status)] + r.headers.map_values(
        |e: (Seq<char>, Seq<char>)| bare_header(e),
    );
    let dated = if value_of(r.headers, "Date"@) is None {
        named.push(bare_header(("Date"@, date_text(now))))
    } else {
        named
    };
    if value_of(r.headers, "Server"@) is None {
        dated.push(bare_header(("Server"@, "localhost/0.1"@)))
    } else {
        dated
    }
}

proof fn lemma_lines_grow(lines: Seq<Seq<char>>, line: Seq<char>)
    requires
        lines.len() > 0,
    ensures
        joined_lines(lines.push(line)) == joined_lines(lines) + "\r\n"@ + line,
    decreases lines.len(),
{
    reveal_strlit("\r\n");
    let more = lines.push(line);
    if lines.len() == 1 {
        assert(more.drop_first() =~= seq![line]);
        assert(joined_lines(seq![line]) == line);
        assert(seq!['\r', '\n'] =~= "\r\n"@);
        assert(joined_lines(more) =~= joined_lines(lines) + "\r\n"@ + line);
    } else {
        lemma_lines_grow(lines.drop_first(), line);
        assert(more.drop_first() =~= lines.drop_first().push(line));
        assert(seq!['\r', '\n'] =~= "\r\n"@);
        assert(joined_lines(more) =~= joined_lines(lines) + "\r\n"@ + line);
    }
}

proof fn lemma_header_lines(first: Seq<char>, h: HeaderList)
    ensures
        joined_lines(
            seq![first] + h.map_values(|e: (Seq<char>, Seq<char>)| bare_header(e)),
        ) + "\r\n"@ == first + "\r\n"@ + headers_text(h),
    decreases h.len(),
{
    let f = |e: (Seq<char>, Seq<char>)| bare_header(e);
    let lines = seq![first] + h.map_values(f);
    if h.len() == 0 {
        assert(lines =~= seq![first]);
        assert(first + "\r\n"@ + headers_text(h) =~= first + "\r\n"@);
    } else {
        let before = seq![first] + h.drop_last().map_values(f);
        lemma_header_lines(first, h.drop_last());
        assert(lines =~= before.push(bare_header(h.last())));
        lemma_lines_grow(before, bare_header(h.last()));
        assert(joined_lines(lines) + "\r\n"@ =~= (joined_lines(before) + "\r\n"@) + (bare_header(
            h.last(),
        ) + "\r\n"@));
        assert(first + "\r\n"@ + headers_text(h) =~= (first + "\r\n"@ + headers_text(
            h.drop_last(),
        )) + (bare_header(h.last()) + "\r\n"@));
    }
}

proof fn lemma_head_is_lines(r: ResponseView, now: UtcTime)
    ensures
        head_text(r.status, r.headers, now) == joined_lines(response_lines(r, now)) + "\r\n"@
            + "\r\n"@,
{
    let first = "HTTP/1.1 "@ + types::status_text(r.status);
    let named = seq![first] + r.headers.map_values(
        |e: (Seq<char>, Seq<char>)| bare_header(e),
    );
    let date = bare_header(("Date"@, date_text(now)));
    let server = bare_header(("Server"@, "localhost/0.1"@));
    let dated = if value_of(r.headers, "Date"@) is None {
        named.push(date)
    } else {
        named
    };
    let start = first + "\r\n"@ + headers_text(r.headers);
    lemma_header_lines(first, r.headers);
    lemma_lines_grow(named, date);
    lemma_lines_grow(dated, server);
    let t = start + (if value_of(r.headers, "Date"@) is None {
        date + "\r\n"@
    } else {
        Seq::empty()
    });
    assert(t =~= joined_lines(dated) + "\r\n"@);
    let u = t + (if value_of(r.headers, "Server"@) is None {
        server + "\r\n"@
    } else {
        Seq::empty()
    });
    assert(u =~= joined_lines(response_lines(r, now)) + "\r\n"@);
    assert(head_text(r.status, r.headers, now) =~= u + "\r\n"@);
}

/// A client finds the body where it is: as long as no header holds a carriage
/// return, the head of a response ends with its first empty line, and what
/// follows is the body.
pub proof fn lemma_body_follows_head(r: ResponseView, now: UtcTime)
    requires
        forall|i: int|
            #![trigger r.headers[i]]
            0 <= i < r.headers.len() ==> unbroken(r.headers[i].0) && unbroken(r.headers[i].1),
    ensures
        text::find_seq(serialized(r, now), double_crlf(), 0) == Some(head_bytes(r, now).len() - 4),
        serialized(r, now).skip(head_bytes(r, now).len() as int) == (if types::bodiless(
            r.status,
        ) {
            Seq::empty()
        } else {
            r.body
        }),
{
    reveal_strlit("\r\n");
    reveal_strlit(": ");
    reveal_strlit("Date");
    reveal_strlit("Server");
    reveal_strlit("localhost/0.1");
    let lines = response_lines(r, now);
    let named = seq!["HTTP/1.1 "@ + types::status_text(r.status)] + r.headers.map_values(
        |e: (Seq<char>, Seq<char>)| bare_header(e),
    );
    lemma_unbroken_status(r.status);
    lemma_unbroken_date(now);
    assert forall|i: int| 0 <= i < lines.len() implies fits_line(#[trigger] lines[i]) by {
        assert(unbroken(lines[i])) by {
            if 0 < i < named.len() {
                assert(lines[i] == bare_header(r.headers[i - 1]));
            }
        }
        if lines[i].contains('\r') {
            let k = choose|k: int| 0 <= k < lines[i].len() && lines[i][k] == '\r';
            assert(lines[i][k] != '\r');
        }
    }
    lemma_lines_end(lines);
    lemma_head_is_lines(r, now);
    let t = joined_lines(lines);
    text::lemma_encode_parts(t + "\r\n"@, "\r\n"@);
    text::lemma_encode_parts(t, "\r\n"@);
    is_ascii_chars_encode_utf8("\r\n"@);
    let head = head_bytes(r, now);
    assert(head =~= encode_utf8(t) + double_crlf());
    let body = if types::bodiless(r.status) {
        Seq::empty()
    } else {
        r.body
    };
    lemma_head_is_get_without_body(r, now);
    text::lemma_find_seq_longer(head, body, double_crlf(), 0);
    assert(serialized(r, now).skip(head.len() as int) =~= body);
}

/// The character of a decimal digit.
pub open spec fn digit(d: int) -> char {
    ('0' as int + d) as char
}

proof fn lemma_digits(n: int)
    ensures
        0 <= n < 100 ==> padded(n, 2) == seq![digit(n / 10), digit(n % 10)],
        0 <= n < 10000 ==> padded(n, 4) == seq![
            digit(n / 1000),
            digit(n / 100 % 10),
            digit(n / 10 % 10),
            digit(n % 10),
        ],
{
    reveal_with_fuel(text::decimal, 5);
    if 0 <= n < 100 {
        assert(padded(n, 2) =~= seq![digit(n / 10), digit(n % 10)]);
    }
    if 0 <= n < 10000 {
        assert(n / 10 / 10 == n / 100);
        assert(n / 10 / 10 / 10 == n / 1000);
        assert(padded(n, 4) =~= seq![
            digit(n / 1000),
            digit(n / 100 % 10),
            digit(n / 10 % 10),
            digit(n % 10),
        ]);
    }
}

/// A date reads as the day of the week, the day of the month, the month, the
/// year, the hour, the minute and the second, each at its own place.
pub proof fn lemma_date_fields(t: UtcTime)
    requires
        0 <= t.sec < 100,
        0 <= t.min < 100,
        0 <= t.hour < 100,
        0 <= t.mday < 100,
        0 <= t.mon < 12,
        0 <= t.wday < 7,
        0 <= 1900 + t.year < 10000,
    ensures
        ({
            let d = date_text(t);
            let year = 1900 + t.year;
            &&& d.len() == 29
            &&& d.take(3) == seq!["Sun"@, "Mon"@, "Tue"@, "Wed"@, "Thu"@, "Fri"@, "Sat"@][t.wday as int]
            &&& d.subrange(3, 5) == seq![',', ' ']
            &&& d.subrange(5, 7) == seq![digit(t.mday as int / 10), digit(t.mday as int % 10)]
            &&& d[7] == ' '
            &&& d.subrange(8, 11) == seq!["Jan"@, "Feb"@, "Mar"@, "Apr"@, "May"@, "Jun"@, "Jul"@, "Aug"@, "Sep"@, "Oct"@, "Nov"@, "Dec"@][t.mon as int]
            &&& d[11] == ' '
            &&& d.subrange(12, 16) == seq![
                digit(year / 1000),
                digit(year / 100 % 10),
                digit(year / 10 % 10),
                digit(year % 10),
            ]
            &&& d[16] == ' '
            &&& d.subrange(17, 19) == seq![digit(t.hour as int / 10), digit(t.hour as int % 10)]
            &&& d[19] == ':'
            &&& d.subrange(20, 22) == seq![digit(t.min as int / 10), digit(t.min as int % 10)]
            &&& d[22] == ':'
            &&& d.subrange(23, 25) == seq![digit(t.sec as int / 10), digit(t.sec as int % 10)]
            &&& d.subrange(25, 29) == seq![' ', 'G', 'M', 'T']
        }),
{
    lemma_digits(t.mday as int);
    lemma_digits(t.hour as int);
    lemma_digits(t.min as int);
    lemma_digits(t.sec as int);
    lemma_digits(1900 + t.year);
    lemma_date_length(t);
    reveal_strlit("Sun");
    reveal_strlit("Mon");
    reveal_strlit("Tue");
    reveal_strlit("Wed");
    reveal_strlit("Thu");
    reveal_strlit("Fri");
    reveal_strlit("Sat");
    reveal_strlit("Jan");
    reveal_strlit("Feb");
    reveal_strlit("Mar");
    reveal_strlit("Apr");
    reveal_strlit("May");
    reveal_strlit("Jun");
    reveal_strlit("Jul");
    reveal_strlit("Aug");
    reveal_strlit("Sep");
    reveal_strlit("Oct");
    reveal_strlit("Nov");
    reveal_strlit("Dec");
    reveal_strlit(", ");
    reveal_strlit(" ");
    reveal_strlit(":");
    reveal_strlit(" GMT");
    let d = date_text(t);
    let year = 1900 + t.year;
    let wday = seq!["Sun"@, "Mon"@, "Tue"@, "Wed"@, "Thu"@, "Fri"@, "Sat"@][t.wday as int];
    let mon = seq!["Jan"@, "Feb"@, "Mar"@, "Apr"@, "May"@, "Jun"@, "Jul"@, "Aug"@, "Sep"@, "Oct"@, "Nov"@, "Dec"@][t.mon as int];
    assert(day_name(t.wday as int) == wday);
    assert(month_name(t.mon as int) == mon);
    assert(wday.len() == 3 && mon.len() == 3);
    assert(d.take(3) =~= wday);
    assert(d.subrange(3, 5) =~= seq![',', ' ']);
    assert(d.subrange(5, 7) =~= seq![digit(t.mday as int / 10), digit(t.mday as int % 10)]);
    assert(d.subrange(8, 11) =~= mon);
    assert(d.subrange(12, 16) =~= seq![
        digit(year / 1000),
        digit(year / 100 % 10),
        digit(year / 10 % 10),
        digit(year % 10),
    ]);
    assert(d.subrange(17, 19) =~= seq![digit(t.hour as int / 10), digit(t.hour as int % 10)]);
    assert(d.subrange(20, 22) =~= seq![digit(t.min as int / 10), digit(t.min as int % 10)]);
    assert(d.subrange(23, 25) =~= seq![digit(t.sec as int / 10), digit(t.sec as int % 10)]);
    assert(d.subrange(25, 29) =~= seq![' ', 'G', 'M', 'T']);
}

/// Header lines stand in the order of the headers, each as its name, a colon, a
/// space, its value and a line end.
pub proof fn lemma_header_order(a: HeaderList, e: (Seq<char>, Seq<char>), b: HeaderList)
    ensures
        headers_text(a + seq![e] + b) == headers_text(a) + (e.0 + seq![':', ' '] + e.1 + seq![
            '\r',
            '\n',
        ]) + headers_text(b),
        headers_text(Seq::empty()) == Seq::<char>::empty(),
    decreases b.len(),
{
    reveal_strlit(": ");
    reveal_strlit("\r\n");
    assert(": "@ =~= seq![':', ' ']);
    assert("\r\n"@ =~= seq!['\r', '\n']);
    let s = a + seq![e] + b;
    if b.len() == 0 {
        assert(s.drop_last() =~= a);
        assert(s.last() == e);
        assert(headers_text(s) =~= headers_text(a) + header_text(e.0, e.1) + headers_text(b));
    } else {
        let rest = b.drop_last();
        lemma_header_order(a, e, rest);
        assert(s.drop_last() =~= a + seq![e] + rest);
        assert(s.last() == b.last());
        assert(headers_text(s) =~= headers_text(a) + header_text(e.0, e.1) + headers_text(b));
    }
}

/// A head begins with the version, the code and its phrase, and then come the
/// headers; a date and the name of the server follow where the headers give
/// none, and an empty line ends it.
pub proof fn lemma_head_parts(status: u16, headers: HeaderList, now: UtcTime)
    ensures
        ({
            let start = "HTTP/1.1 "@ + (text::decimal(status as nat) + seq![' ']
                + types::reason_phrase(status)) + seq!['\r', '\n'] + headers_text(headers);
            let date = headers_text(seq![("Date"@, date_text(now))]);
            let server = headers_text(seq![("Server"@, "localhost/0.1"@)]);
            let dated = value_of(headers, "Date"@) is Some;
            let named = value_of(headers, "Server"@) is Some;
            &&& dated && named ==> head_text(status, headers, now) == start + seq!['\r', '\n']
            &&& !dated && named ==> head_text(status, headers, now) == start + date + seq![
                '\r',
                '\n',
            ]
            &&& dated && !named ==> head_text(status, headers, now) == start + server + seq![
                '\r',
                '\n',
            ]
            &&& !dated && !named ==> head_text(status, headers, now) == start + date + server
                + seq!['\r', '\n']
        }),
{
    reveal_strlit("\r\n");
    assert("\r\n"@ =~= seq!['\r', '\n']);
    types::lemma_phrases(status);
    let d = ("Date"@, date_text(now));
    let s = ("Server"@, "localhost/0.1"@);
    assert(seq![d].drop_last() =~= Seq::empty());
    assert(seq![s].drop_last() =~= Seq::empty());
    reveal_with_fuel(headers_text, 2);
    assert(headers_text(seq![d]) =~= header_text(d.0, d.1));
    assert(headers_text(seq![s]) =~= header_text(s.0, s.1));
    let start = "HTTP/1.1 "@ + types::status_text(status) + "\r\n"@ + headers_text(headers);
    assert(start + Seq::<char>::empty() =~= start);
    assert(start + header_text(d.0, d.1) + Seq::<char>::empty() =~= start + header_text(d.0, d.1));
}

} // verus!
