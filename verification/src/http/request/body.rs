//! Bodies: those of a given length, and those that come in chunks.
//!
//! Both readers take the bytes behind the head of the request. A chunk is its
//! size in hexadecimal, an optional extension after a semicolon, a line end,
//! as many bytes as the size says, and a line end:
//!
//! ```text
//! <hex-size>[;extension]\r\n
//! <data>\r\n
//! ```
//!
//! A chunk of size zero is the last. Trailer lines may follow it, which are
//! dropped, and an empty line ends the body.

use vstd::prelude::*;
use vstd::string::*;
use vstd::utf8::*;

use crate::http::request::types::{ParseError, ParseErrorView};
use crate::text;

verus! {

// ---------------------------------------------------------------------------
// Bodies of a given length
// ---------------------------------------------------------------------------

/// What reading a body of a given length comes to.
#[derive(Debug)]
pub enum BodyResult {
    /// The whole body.
    Complete(Vec<u8>),
    /// So many bytes are there, and so many are needed.
    NeedsMore { have: usize, need: usize },
}

/// Reads a body of the given length.
pub fn read_body_unchunked(buf: &[u8], content_length: usize) -> (r: BodyResult)
    ensures
        match r {
            BodyResult::Complete(body) => content_length <= buf@.len() && body@ == buf@.take(
                content_length as int,
            ),
            BodyResult::NeedsMore { have, need } => buf@.len() < content_length && have
                == buf@.len() && need == content_length,
        },
{
    if buf.len() >= content_length {
        assert(buf@.take(content_length as int) =~= buf@.subrange(0, content_length as int));
        BodyResult::Complete(vstd::slice::slice_to_vec(&buf[0..content_length]))
    } else {
        BodyResult::NeedsMore { have: buf.len(), need: content_length }
    }
}

// ---------------------------------------------------------------------------
// Bodies in chunks
// ---------------------------------------------------------------------------

/// What reading a body in chunks comes to.
#[derive(Debug)]
pub enum ChunkedResult {
    /// The whole body, and how many bytes its chunks took.
    Complete(Vec<u8>, usize),
    /// The last chunk is not there yet.
    NeedsMore,
    /// The chunks are malformed.
    Error(ParseError),
}

/// A [`ChunkedResult`] with sequences for its parts.
#[verifier::ext_equal]
pub enum ChunkedView {
    Complete(Seq<u8>, int),
    NeedsMore,
    Error(ParseErrorView),
}

impl View for ChunkedResult {
    type V = ChunkedView;

    open spec fn view(&self) -> ChunkedView {
        match self {
            ChunkedResult::Complete(b, n) => ChunkedView::Complete(b@, *n as int),
            ChunkedResult::NeedsMore => ChunkedView::NeedsMore,
            ChunkedResult::Error(e) => ChunkedView::Error(e@),
        }
    }
}

/// A carriage return and a line feed.
pub open spec fn crlf() -> Seq<u8> {
    seq![13u8, 10u8]
}

/// Two line ends.
pub open spec fn double_crlf() -> Seq<u8> {
    seq![13u8, 10u8, 13u8, 10u8]
}

/// How many bytes the trailer takes, with the empty line that ends it.
pub open spec fn trailer_len(rest: Seq<u8>) -> Option<int> {
    if text::starts_with(rest, crlf()) {
        Some(2)
    } else {
        match text::find_seq(rest, double_crlf(), 0) {
            Some(i) => Some(i + 4),
            None => None,
        }
    }
}

/// The size in a size line: what goes before the extension, without white
/// space around it.
pub open spec fn size_text(line: Seq<char>) -> Seq<char> {
    text::trim(line.take(text::index_of(line, ';')))
}

/// The size that a size line gives.
pub open spec fn chunk_size(line: Seq<u8>) -> Result<nat, ParseErrorView> {
    if !valid_utf8(line) {
        Err(ParseErrorView::BadChunkSize("non-UTF-8 chunk size line"@))
    } else {
        match text::parse_bounded(size_text(decode_utf8(line)), 16, usize::MAX as nat) {
            Some(n) => Ok(n),
            None => Err(
                ParseErrorView::BadChunkSize(
                    "invalid hex size '"@ + size_text(decode_utf8(line)) + "'"@,
                ),
            ),
        }
    }
}

/// Reads the chunks from `pos` on, behind the data already put together.
pub open spec fn chunked_from(buf: Seq<u8>, pos: int, assembled: Seq<u8>) -> ChunkedView
    decreases buf.len() - pos,
{
    match text::find_seq(buf, crlf(), pos) {
        None => ChunkedView::NeedsMore,
        Some(line_end) => if !(0 <= pos <= line_end) {
            ChunkedView::NeedsMore
        } else {
            match chunk_size(buf.subrange(pos, line_end)) {
                Err(e) => ChunkedView::Error(e),
                Ok(n) => {
                    let start = line_end + 2;
                    let end = start + n;
                    if n == 0 {
                        match trailer_len(buf.skip(start)) {
                            Some(off) => ChunkedView::Complete(assembled, start + off),
                            None => ChunkedView::NeedsMore,
                        }
                    } else if buf.len() < end + 2 {
                        ChunkedView::NeedsMore
                    } else if buf.subrange(end, end + 2) != crlf() {
                        ChunkedView::Error(
                            ParseErrorView::BadChunkSize("missing CRLF after chunk data"@),
                        )
                    } else {
                        chunked_from(buf, end + 2, assembled + buf.subrange(start, end))
                    }
                },
            }
        },
    }
}

/// Reads a body in chunks.
pub open spec fn chunked_body(buf: Seq<u8>) -> ChunkedView {
    chunked_from(buf, 0, Seq::empty())
}

/// The first line end from `from` on.
fn find_crlf(buf: &[u8], from: usize) -> (r: Option<usize>)
    requires
        from <= buf@.len(),
    ensures
        r matches Some(i) ==> text::find_seq(buf@, crlf(), from as int) == Some(i as int) && from
            <= i && i + 2 <= buf.len(),
        r is None ==> text::find_seq(buf@, crlf(), from as int) is None,
{
    let p: [u8; 2] = [13u8, 10u8];
    assert(p@ =~= crlf());
    proof {
        text::lemma_find_seq(buf@, crlf(), from as int);
    }
    text::find_bytes(buf, p.as_slice(), from)
}

/// Where the first line end begins.
pub fn memchr_crlf(buf: &[u8]) -> (r: Option<usize>)
    ensures
        r matches Some(i) ==> text::find_seq(buf@, crlf(), 0) == Some(i as int),
        r is None ==> text::find_seq(buf@, crlf(), 0) is None,
{
    find_crlf(buf, 0)
}

/// How many bytes the trailer takes.
fn find_trailer_end(rest: &[u8]) -> (r: Option<usize>)
    ensures
        r matches Some(n) ==> trailer_len(rest@) == Some(n as int) && n <= rest@.len(),
        r is None ==> trailer_len(rest@) is None,
{
    if rest.len() >= 2 && rest[0] == 13 && rest[1] == 10 {
        assert(rest@.take(2) =~= crlf());
        return Some(2);
    }
    proof {
        if text::starts_with(rest@, crlf()) {
            assert(rest@.take(2)[0] == 13u8 && rest@.take(2)[1] == 10u8);
        }
    }
    let p: [u8; 4] = [13u8, 10u8, 13u8, 10u8];
    assert(p@ =~= double_crlf());
    match text::find_bytes(rest, p.as_slice(), 0) {
        Some(i) => Some(i + 4),
        None => None,
    }
}

/// Reads the size in a size line.
fn parse_chunk_size(line: &[u8]) -> (r: Result<usize, ParseError>)
    ensures
        match r {
            Ok(n) => chunk_size(line@) == Ok::<nat, ParseErrorView>(n as nat),
            Err(e) => chunk_size(line@) == Err::<nat, ParseErrorView>(e@),
        },
{
    let size_line = match text::utf8_text(line) {
        Some(s) => s,
        None => {
            return Err(ParseError::BadChunkSize(text::owned("non-UTF-8 chunk size line")));
        },
    };
    let v = text::chars_of(size_line);
    let n: usize = text::find_char(v.as_slice(), ';');
    assert(size_line@.take(n as int) =~= size_line@.subrange(0, n as int));
    let size_str = text::trimmed(size_line.substring_char(0, n));
    match text::parse_unsigned(size_str, 16, usize::MAX as u64) {
        Some(n) => Ok(n as usize),
        None => {
            let mut s = text::joined("invalid hex size '", size_str);
            s.append("'");
            Err(ParseError::BadChunkSize(s))
        },
    }
}

/// Reads a body in chunks. Nothing is kept between calls: where the body is
/// not complete yet, the caller keeps the bytes and asks again when it has
/// more.
pub fn read_body_chunked(buf: &[u8]) -> (r: ChunkedResult)
    ensures
        r@ == chunked_body(buf@),
        r matches ChunkedResult::Complete(_, n) ==> n <= buf@.len(),
{
    let mut assembled: Vec<u8> = Vec::new();
    let mut pos: usize = 0;
    loop
        invariant
            pos <= buf@.len(),
            chunked_body(buf@) == chunked_from(buf@, pos as int, assembled@),
        decreases buf@.len() - pos,
    {
        let line_end: usize = match find_crlf(buf, pos) {
            Some(i) => i,
            None => {
                return ChunkedResult::NeedsMore;
            },
        };
        let n: usize = match parse_chunk_size(&buf[pos..line_end]) {
            Ok(n) => n,
            Err(e) => {
                return ChunkedResult::Error(e);
            },
        };
        let start: usize = line_end + 2;
        if n == 0 {
            let rest: &[u8] = &buf[start..buf.len()];
            assert(rest@ =~= buf@.skip(start as int));
            return match find_trailer_end(rest) {
                Some(off) => ChunkedResult::Complete(assembled, start + off),
                None => ChunkedResult::NeedsMore,
            };
        }
        let left: usize = buf.len() - start;
        if left < 2 || left - 2 < n {
            return ChunkedResult::NeedsMore;
        }
        let end: usize = start + n;
        if buf[end] != 13 || buf[end + 1] != 10 {
            proof {
                assert(buf@.subrange(end as int, end + 2)[0] == buf@[end as int]);
                assert(buf@.subrange(end as int, end + 2)[1] == buf@[end + 1]);
            }
            return ChunkedResult::Error(
                ParseError::BadChunkSize(text::owned("missing CRLF after chunk data")),
            );
        }
        assert(buf@.subrange(end as int, end + 2) =~= crlf());
        text::extend(&mut assembled, &buf[start..end]);
        pos = end + 2;
    }
}

// ---------------------------------------------------------------------------
// Laws
// ---------------------------------------------------------------------------

/// Bytes that come later do not change a body that is complete, nor make
/// malformed chunks well-formed.
pub proof fn lemma_chunked_stable(buf: Seq<u8>, more: Seq<u8>)
    ensures
        chunked_body(buf) != ChunkedView::NeedsMore ==> chunked_body(buf + more) == chunked_body(
            buf,
        ),
{
    lemma_chunked_from_stable(buf, more, 0, Seq::empty());
}

proof fn lemma_chunked_from_stable(buf: Seq<u8>, more: Seq<u8>, pos: int, assembled: Seq<u8>)
    requires
        0 <= pos <= buf.len(),
    ensures
        chunked_from(buf, pos, assembled) != ChunkedView::NeedsMore ==> chunked_from(
            buf + more,
            pos,
            assembled,
        ) == chunked_from(buf, pos, assembled),
    decreases buf.len() - pos,
{
    if chunked_from(buf, pos, assembled) != ChunkedView::NeedsMore {
        text::lemma_find_seq_longer(buf, more, crlf(), pos);
        text::lemma_find_seq(buf, crlf(), pos);
        let line_end = text::find_seq(buf, crlf(), pos)->0;
        assert((buf + more).subrange(pos, line_end) =~= buf.subrange(pos, line_end));
        if let Ok(n) = chunk_size(buf.subrange(pos, line_end)) {
            let start = line_end + 2;
            let end = start + n;
            if n == 0 {
                let rest = buf.skip(start);
                assert((buf + more).skip(start) =~= rest + more);
                if text::starts_with(rest, crlf()) {
                    assert((rest + more).take(2) =~= rest.take(2));
                } else {
                    text::lemma_find_seq(rest, double_crlf(), 0);
                    text::lemma_find_seq_longer(rest, more, double_crlf(), 0);
                    assert((rest + more).take(2) =~= rest.take(2));
                }
            } else {
                assert((buf + more).subrange(end, end + 2) =~= buf.subrange(end, end + 2));
                assert((buf + more).subrange(start, end) =~= buf.subrange(start, end));
                if buf.subrange(end, end + 2) == crlf() {
                    lemma_chunked_from_stable(
                        buf,
                        more,
                        end + 2,
                        assembled + buf.subrange(start, end),
                    );
                }
            }
        }
    }
}

/// A complete body takes no more bytes than there are.
pub proof fn lemma_chunked_consumed(buf: Seq<u8>)
    ensures
        chunked_body(buf) matches ChunkedView::Complete(_, n) ==> 0 <= n <= buf.len(),
{
    lemma_chunked_from_consumed(buf, 0, Seq::empty());
}

proof fn lemma_chunked_from_consumed(buf: Seq<u8>, pos: int, assembled: Seq<u8>)
    requires
        0 <= pos <= buf.len(),
    ensures
        chunked_from(buf, pos, assembled) matches ChunkedView::Complete(_, n) ==> 0 <= n
            <= buf.len(),
    decreases buf.len() - pos,
{
    text::lemma_find_seq(buf, crlf(), pos);
    if let Some(line_end) = text::find_seq(buf, crlf(), pos) {
        if let Ok(n) = chunk_size(buf.subrange(pos, line_end)) {
            let start = line_end + 2;
            let end = start + n;
            if n == 0 {
                text::lemma_find_seq(buf.skip(start), double_crlf(), 0);
            } else if end + 2 <= buf.len() && buf.subrange(end, end + 2) == crlf() {
                lemma_chunked_from_consumed(buf, end + 2, assembled + buf.subrange(start, end));
            }
        }
    }
}

/// The hexadecimal digit of a number below sixteen.
pub open spec fn hex_digit(d: nat) -> char {
    if d < 10 {
        ('0' as int + d) as char
    } else {
        ('a' as int + d - 10) as char
    }
}

/// The hexadecimal numeral of a number, without leading zeros.
pub open spec fn hex(n: nat) -> Seq<char>
    decreases n,
{
    if n < 16 {
        seq![hex_digit(n)]
    } else {
        hex(n / 16).push(hex_digit(n % 16))
    }
}

/// One chunk on the wire.
pub open spec fn chunk(data: Seq<u8>) -> Seq<u8> {
    encode_utf8(hex(data.len())) + crlf() + data + crlf()
}

/// A body on the wire, cut into the given chunks.
pub open spec fn in_chunks(chunks: Seq<Seq<u8>>) -> Seq<u8>
    decreases chunks.len(),
{
    if chunks.len() == 0 {
        encode_utf8(hex(0)) + crlf() + crlf()
    } else {
        chunk(chunks[0]) + in_chunks(chunks.drop_first())
    }
}

/// The body that chunks are cut from.
pub open spec fn body_of(chunks: Seq<Seq<u8>>) -> Seq<u8>
    decreases chunks.len(),
{
    if chunks.len() == 0 {
        Seq::empty()
    } else {
        chunks[0] + body_of(chunks.drop_first())
    }
}

proof fn lemma_hex(n: nat)
    ensures
        text::all_digits(hex(n), 16),
        text::numeral_value(hex(n), 16) == n,
        hex(n).len() > 0,
        is_ascii_chars(hex(n)),
        forall|i: int| 0 <= i < hex(n).len() ==> text::is_hex_digit(#[trigger] hex(n)[i]),
    decreases n,
{
    let s = hex(n);
    if n >= 16 {
        lemma_hex(n / 16);
        assert(s.drop_last() =~= hex(n / 16));
    } else {
        assert(s.drop_last() =~= Seq::<char>::empty());
        assert(text::numeral_value(s.drop_last(), 16) == 0);
    }
}

/// A size line with nothing but the numeral gives the number.
proof fn lemma_size_line(n: nat)
    requires
        n <= usize::MAX,
    ensures
        chunk_size(encode_utf8(hex(n))) == Ok::<nat, ParseErrorView>(n),
        encode_utf8(hex(n)).len() == hex(n).len(),
        forall|i: int|
            0 <= i < encode_utf8(hex(n)).len() ==> #[trigger] encode_utf8(hex(n))[i] != 13u8,
{
    let s = hex(n);
    lemma_hex(n);
    encode_utf8_valid_utf8(s);
    encode_utf8_decode_utf8(s);
    is_ascii_chars_encode_utf8(s);
    text::lemma_index_of(s, ';');
    if s.contains(';') {
        let i = choose|i: int| 0 <= i < s.len() && s[i] == ';';
        assert(text::is_hex_digit(s[i]));
    }
    assert(s.take(s.len() as int) =~= s);
    assert(text::is_hex_digit(s[0]));
    assert(text::is_hex_digit(s[s.len() - 1]));
    assert(text::trim_start(s) == s);
    assert(text::trim(s) == s);
    assert forall|i: int| 0 <= i < encode_utf8(s).len() implies #[trigger] encode_utf8(s)[i]
        != 13u8 by {
        assert(text::is_hex_digit(s[i]));
    }
}

/// The first line end behind a numeral.
proof fn lemma_line_end(buf: Seq<u8>, pos: int, n: nat)
    requires
        n <= usize::MAX,
        0 <= pos,
        pos + encode_utf8(hex(n)).len() + 2 <= buf.len(),
        buf.subrange(pos, pos + encode_utf8(hex(n)).len()) == encode_utf8(hex(n)),
        buf[pos + encode_utf8(hex(n)).len()] == 13u8,
        buf[pos + encode_utf8(hex(n)).len() + 1] == 10u8,
    ensures
        text::find_seq(buf, crlf(), pos) == Some(pos + encode_utf8(hex(n)).len()),
{
    let k = encode_utf8(hex(n));
    lemma_size_line(n);
    let e = pos + k.len();
    assert(buf.subrange(e, e + 2) =~= crlf());
    assert forall|j: int| pos <= j < e implies !#[trigger] text::match_at(buf, crlf(), j) by {
        if text::match_at(buf, crlf(), j) {
            assert(buf.subrange(j, j + 2)[0] == 13u8);
            assert(buf.subrange(pos, e)[j - pos] == k[j - pos]);
        }
    }
    text::lemma_find_seq_is(buf, crlf(), pos, e);
}

/// Reading takes one chunk where one stands.
proof fn lemma_one_chunk(buf: Seq<u8>, pos: int, data: Seq<u8>, assembled: Seq<u8>)
    requires
        0 < data.len() <= usize::MAX,
        text::match_at(buf, chunk(data), pos),
    ensures
        chunked_from(buf, pos, assembled) == chunked_from(
            buf,
            pos + chunk(data).len(),
            assembled + data,
        ),
{
    let k = encode_utf8(hex(data.len()));
    let m = k.len() as int;
    let n = data.len() as int;
    let c = chunk(data);
    let w = buf.subrange(pos, pos + c.len());
    assert(w == c);
    assert(c.len() == k.len() + data.len() + 4);
    assert(buf.subrange(pos, pos + k.len()) =~= k) by {
        assert forall|i: int| 0 <= i < k.len() implies buf.subrange(pos, pos + k.len())[i]
            == k[i] by {
            assert(w[i] == c[i]);
        }
    }
    assert(w[m] == 13u8 && w[m + 1] == 10u8);
    lemma_line_end(buf, pos, data.len());
    lemma_size_line(data.len());
    let start = pos + k.len() + 2;
    let end = start + data.len();
    assert(w[m + 2 + n] == 13u8 && w[m + 3 + n] == 10u8);
    assert(buf.subrange(end, end + 2) =~= crlf());
    assert(buf.subrange(start, end) =~= data) by {
        assert forall|i: int| 0 <= i < data.len() implies buf.subrange(start, end)[i]
            == data[i] by {
            assert(w[m + 2 + i] == c[m + 2 + i]);
        }
    }
}

/// Reading ends where the last chunk stands.
proof fn lemma_last_chunk(buf: Seq<u8>, pos: int, assembled: Seq<u8>)
    requires
        text::match_at(buf, in_chunks(Seq::empty()), pos),
    ensures
        chunked_from(buf, pos, assembled) == ChunkedView::Complete(
            assembled,
            pos + in_chunks(Seq::empty()).len(),
        ),
{
    let k = encode_utf8(hex(0));
    let m = k.len() as int;
    let c = in_chunks(Seq::empty());
    let w = buf.subrange(pos, pos + c.len());
    assert(c == k + crlf() + crlf());
    assert(w == c);
    assert(buf.subrange(pos, pos + k.len()) =~= k) by {
        assert forall|i: int| 0 <= i < k.len() implies buf.subrange(pos, pos + k.len())[i]
            == k[i] by {
            assert(w[i] == c[i]);
        }
    }
    assert(w[m] == 13u8 && w[m + 1] == 10u8);
    lemma_line_end(buf, pos, 0);
    lemma_size_line(0);
    assert(w[m + 2] == 13u8 && w[m + 3] == 10u8);
    assert(buf.skip(pos + k.len() + 2).take(2) =~= crlf());
}

proof fn lemma_in_chunks_from(buf: Seq<u8>, pos: int, chunks: Seq<Seq<u8>>, assembled: Seq<u8>)
    requires
        text::match_at(buf, in_chunks(chunks), pos),
        forall|i: int| 0 <= i < chunks.len() ==> 0 < (#[trigger] chunks[i]).len() <= usize::MAX,
    ensures
        chunked_from(buf, pos, assembled) == ChunkedView::Complete(
            assembled + body_of(chunks),
            pos + in_chunks(chunks).len(),
        ),
    decreases chunks.len(),
{
    let wire = in_chunks(chunks);
    if chunks.len() == 0 {
        assert(chunks =~= Seq::empty());
        lemma_last_chunk(buf, pos, assembled);
        assert(assembled + body_of(chunks) =~= assembled);
    } else {
        let data = chunks[0];
        let c = chunk(data);
        let tail = chunks.drop_first();
        let w = buf.subrange(pos, pos + wire.len());
        assert(wire == c + in_chunks(tail));
        assert(buf.subrange(pos, pos + c.len()) =~= w.take(c.len() as int));
        assert(w.take(c.len() as int) =~= c);
        lemma_one_chunk(buf, pos, data, assembled);
        let next = pos + c.len();
        assert(buf.subrange(next, next + in_chunks(tail).len()) =~= w.skip(c.len() as int));
        assert(w.skip(c.len() as int) =~= in_chunks(tail));
        assert forall|i: int| 0 <= i < tail.len() implies 0 < (#[trigger] tail[i]).len()
            <= usize::MAX by {
            assert(tail[i] == chunks[i + 1]);
        }
        lemma_in_chunks_from(buf, next, tail, assembled + data);
        assert(assembled + data + body_of(tail) =~= assembled + body_of(chunks));
    }
}

/// A body cut into chunks, however it is cut and whatever follows, reads back
/// as the body, and takes exactly the bytes of its chunks.
pub proof fn lemma_chunks_read_back(chunks: Seq<Seq<u8>>, rest: Seq<u8>)
    requires
        forall|i: int| 0 <= i < chunks.len() ==> 0 < (#[trigger] chunks[i]).len() <= usize::MAX,
    ensures
        chunked_body(in_chunks(chunks) + rest) == ChunkedView::Complete(
            body_of(chunks),
            in_chunks(chunks).len() as int,
        ),
{
    let buf = in_chunks(chunks) + rest;
    assert(buf.subrange(0, in_chunks(chunks).len() as int) =~= in_chunks(chunks));
    lemma_in_chunks_from(buf, 0, chunks, Seq::empty());
    assert(Seq::<u8>::empty() + body_of(chunks) =~= body_of(chunks));
}

/// Nothing is made of chunks before all their bytes are there.
pub proof fn lemma_chunks_waited_for(chunks: Seq<Seq<u8>>, n: int)
    requires
        forall|i: int| 0 <= i < chunks.len() ==> 0 < (#[trigger] chunks[i]).len() <= usize::MAX,
        0 <= n < in_chunks(chunks).len(),
    ensures
        chunked_body(in_chunks(chunks).take(n)) == ChunkedView::NeedsMore,
{
    let wire = in_chunks(chunks);
    let part = wire.take(n);
    lemma_chunks_read_back(chunks, Seq::empty());
    assert(wire + Seq::<u8>::empty() =~= wire);
    lemma_chunked_stable(part, wire.skip(n));
    assert(part + wire.skip(n) =~= wire);
    lemma_chunked_consumed(part);
}

/// A size line gives the number that it holds in hexadecimal notation, in small
/// or capital letters, with white space around it or not, and whatever extension
/// follows a semicolon.
pub proof fn lemma_size_read(
    digits: Seq<char>,
    before: Seq<char>,
    after: Seq<char>,
    extension: Seq<char>,
)
    requires
        digits.len() > 0,
        forall|i: int|
            0 <= i < digits.len() ==> ('0' <= #[trigger] digits[i] <= '9') || ('a' <= digits[i]
                <= 'f') || ('A' <= digits[i] <= 'F'),
        text::all_white(before),
        text::all_white(after),
        text::numeral_value(digits, 16) <= usize::MAX,
    ensures
        chunk_size(encode_utf8(before + digits + after)) == Ok::<nat, ParseErrorView>(
            text::numeral_value(digits, 16),
        ),
        chunk_size(encode_utf8(before + digits + after + seq![';'] + extension)) == Ok::<
            nat,
            ParseErrorView,
        >(text::numeral_value(digits, 16)),
{
    let a = before + digits + after;
    let s = a + seq![';'] + extension;
    let n = a.len() as int;
    assert forall|j: int| 0 <= j < n implies a[j] != ';' by {
        if j < before.len() {
            assert(text::is_white(before[j]));
        } else if j < before.len() + digits.len() {
            assert(a[j] == digits[j - before.len()]);
        } else {
            assert(text::is_white(after[j - before.len() - digits.len()]));
        }
    }
    text::lemma_index_of(a, ';');
    assert forall|j: int| 0 <= j < n implies s[j] != ';' by {
        assert(s[j] == a[j]);
    }
    text::lemma_index_of_is(s, ';', n);
    assert(a.take(n) =~= a);
    assert(s.take(n) =~= a);
    encode_utf8_valid_utf8(a);
    encode_utf8_decode_utf8(a);
    encode_utf8_valid_utf8(s);
    encode_utf8_decode_utf8(s);
    assert('0' <= digits[0] <= '9' || 'a' <= digits[0] <= 'f' || 'A' <= digits[0] <= 'F');
    let last = digits[digits.len() - 1];
    assert('0' <= last <= '9' || 'a' <= last <= 'f' || 'A' <= last <= 'F');
    text::lemma_trimmed(before, digits, after);
    assert(text::all_digits(digits, 16));
}

/// The value of a hexadecimal numeral grows by its last digit.
pub proof fn lemma_hex_value(digits: Seq<char>, c: char)
    ensures
        text::numeral_value(Seq::<char>::empty(), 16) == 0,
        '0' <= c <= '9' ==> text::numeral_value(digits.push(c), 16) == text::numeral_value(
            digits,
            16,
        ) * 16 + (c as int - '0' as int),
        'a' <= c <= 'f' ==> text::numeral_value(digits.push(c), 16) == text::numeral_value(
            digits,
            16,
        ) * 16 + (c as int - 'a' as int + 10),
        'A' <= c <= 'F' ==> text::numeral_value(digits.push(c), 16) == text::numeral_value(
            digits,
            16,
        ) * 16 + (c as int - 'A' as int + 10),
{
    assert(digits.push(c).drop_last() =~= digits);
}

/// A size line that does not begin with a hexadecimal digit or a plus sign is
/// refused, and so is one that is no text.
pub proof fn lemma_size_refused(line: Seq<char>, bytes: Seq<u8>)
    requires
        line.len() > 0,
        !text::is_white(line[0]),
        line[0] != ';',
        line[0] != '+',
        !('0' <= line[0] <= '9'),
        !('a' <= line[0] <= 'f'),
        !('A' <= line[0] <= 'F'),
    ensures
        chunk_size(encode_utf8(line)) matches Err(ParseErrorView::BadChunkSize(_)),
        !valid_utf8(bytes) ==> chunk_size(bytes) == Err::<nat, ParseErrorView>(
            ParseErrorView::BadChunkSize("non-UTF-8 chunk size line"@),
        ),
{
    encode_utf8_valid_utf8(line);
    encode_utf8_decode_utf8(line);
    text::lemma_index_of(line, ';');
    let n = text::index_of(line, ';');
    assert(n > 0);
    let part = line.take(n);
    assert(part[0] == line[0]);
    text::lemma_trim_keeps_first(part);
    assert(!text::all_digits(text::trim(part), 16)) by {
        assert(!text::is_hex_digit(text::trim(part)[0]));
    }
}

/// Behind the last chunk, an empty line ends the body; where there are trailer
/// lines, they are passed over up to the empty line behind them.
pub proof fn lemma_trailer(lines: Seq<u8>, rest: Seq<u8>)
    ensures
        trailer_len(seq![13u8, 10] + rest) == Some(2int),
        !(lines.len() >= 1 && lines[0] == 13) && lines.len() > 0 && (forall|j: int|
            0 <= j < lines.len() - 2 ==> !(#[trigger] lines[j] == 13 && lines[j + 1] == 10
                && lines[j + 2] == 13)) && lines.last() != 13 && lines.last() != 10 ==> trailer_len(
            lines + seq![13u8, 10, 13, 10] + rest,
        ) == Some(lines.len() as int + 4),
{
    let e = seq![13u8, 10] + rest;
    assert(e.take(2) =~= crlf());
    if lines.len() > 0 && lines[0] != 13 && lines.last() != 13 && lines.last() != 10 && forall|
        j: int,
    |
        0 <= j < lines.len() - 2 ==> !(#[trigger] lines[j] == 13 && lines[j + 1] == 10 && lines[j
            + 2] == 13) {
        let s = lines + seq![13u8, 10, 13, 10] + rest;
        let n = lines.len() as int;
        let dc = double_crlf();
        assert(s.take(2)[0] == lines[0]);
        assert(s.subrange(n, n + 4) =~= dc);
        assert forall|j: int| 0 <= j < n implies !#[trigger] text::match_at(s, dc, j) by {
            if text::match_at(s, dc, j) {
                let m = s.subrange(j, j + 4);
                assert(m[0] == s[j] && m[1] == s[j + 1] && m[2] == s[j + 2]);
                assert(s[j] == lines[j]);
                if j == n - 2 {
                    assert(s[j + 1] == lines[n - 1]);
                }
            }
        }
        text::lemma_find_seq_is(s, dc, 0, n);
    }
}

/// Bytes that follow the data of a chunk where its line end belongs are refused.
pub proof fn lemma_chunk_unended(data: Seq<u8>, x: u8, y: u8, rest: Seq<u8>)
    requires
        0 < data.len() <= usize::MAX,
        x != 13 || y != 10,
    ensures
        chunked_body(encode_utf8(hex(data.len())) + seq![13u8, 10] + data + seq![x, y] + rest)
            == ChunkedView::Error(ParseErrorView::BadChunkSize("missing CRLF after chunk data"@)),
{
    let k = encode_utf8(hex(data.len()));
    let buf = k + seq![13u8, 10] + data + seq![x, y] + rest;
    let m = k.len() as int;
    assert(buf.subrange(0, m) =~= k);
    lemma_line_end(buf, 0, data.len());
    lemma_size_line(data.len());
    let end = m + 2 + data.len();
    assert(buf.subrange(end, end + 2)[0] == x);
    assert(buf.subrange(end, end + 2)[1] == y);
}

} // verus!
