//! Uploads.
//!
//! A `multipart/form-data` body holds files in parts, each under its own name;
//! any other body is one file, named by the last segment of the path. Files
//! are written under the root of the route, in place of what was there.

use vstd::prelude::*;
use vstd::string::*;
use vstd::utf8::*;

use crate::config::types::{RouteConfig, RouteView};
use crate::http::request::body::double_crlf;
use crate::http::request::types::{header, Request, RequestView};
use crate::http::response::builder;
use crate::http::response::types::{value_from, value_of, Response, ResponseView};
use crate::text;
use crate::utils::path;

verus! {

// ---------------------------------------------------------------------------
// Plans
// ---------------------------------------------------------------------------

/// A file to be written. Directories that it needs are to be made.
#[derive(Debug)]
pub struct PlannedWrite {
    pub dest: String,
    pub data: Vec<u8>,
}

/// A [`PlannedWrite`] with sequences for its parts.
#[verifier::ext_equal]
pub struct WriteView {
    pub dest: Seq<char>,
    pub data: Seq<u8>,
}

impl View for PlannedWrite {
    type V = WriteView;

    open spec fn view(&self) -> WriteView {
        WriteView { dest: self.dest@, data: self.data@ }
    }
}

/// The views of a list of writes.
pub open spec fn write_views(v: Seq<PlannedWrite>) -> Seq<WriteView> {
    v.map_values(|w: PlannedWrite| w@)
}

/// What is to be done about an upload: the files to write, in order, and the
/// answer once all are written. Where one cannot be written, the rest are left
/// and the answer is [`write_failed`].
#[derive(Debug)]
pub struct UploadPlan {
    pub writes: Vec<PlannedWrite>,
    pub response: Response,
}

/// An [`UploadPlan`] with views for its parts.
#[verifier::ext_equal]
pub struct PlanView {
    pub writes: Seq<WriteView>,
    pub response: ResponseView,
}

impl View for UploadPlan {
    type V = PlanView;

    open spec fn view(&self) -> PlanView {
        PlanView { writes: write_views(self.writes@), response: self.response@ }
    }
}

/// An answer without writing anything.
pub open spec fn only(response: ResponseView) -> PlanView {
    PlanView { writes: Seq::empty(), response }
}

fn respond(response: Response) -> (r: UploadPlan)
    ensures
        r@ == only(response@),
{
    let r = UploadPlan { writes: Vec::new(), response };
    assert(r@.writes =~= Seq::empty());
    r
}

/// The answer where a file could not be written.
pub fn write_failed() -> (r: Response)
    ensures
        r@ == builder::error_view(500, None),
{
    builder::internal_server_error(None)
}

// ---------------------------------------------------------------------------
// Names
// ---------------------------------------------------------------------------

/// Whether a character may not stand in a file name: a separator of paths, or
/// the character zero.
pub open spec fn unsafe_char(c: char) -> bool {
    c == '/' || c == '\\' || c == '\0'
}

/// A file name without the characters that may not stand in one.
pub open spec fn sanitised(s: Seq<char>) -> Seq<char>
    decreases s.len(),
{
    if s.len() == 0 {
        s
    } else if unsafe_char(s.last()) {
        sanitised(s.drop_last())
    } else {
        sanitised(s.drop_last()).push(s.last())
    }
}

/// A file name without the characters that may not stand in one.
pub fn sanitise_filename(name: &str) -> (r: String)
    ensures
        r@ == sanitised(name@),
{
    let v = text::chars_of(name);
    let mut out = String::new();
    let mut i: usize = 0;
    assert(name@.take(0) =~= Seq::empty());
    while i < v.len()
        invariant
            i <= v@.len(),
            v@ == name@,
            out@ == sanitised(name@.take(i as int)),
        decreases v@.len() - i,
    {
        let c: char = v[i];
        proof {
            let t = name@.take(i + 1);
            assert(t.last() == c);
            assert(t.drop_last() =~= name@.take(i as int));
        }
        if c != '/' && c != '\\' && c != '\0' {
            out.push(c);
        }
        i = i + 1;
    }
    assert(name@.take(i as int) =~= name@);
    out
}

/// A sanitised name, as a path from the root of the site.
pub open spec fn site_path(name: Seq<char>) -> Seq<char> {
    "/"@ + sanitised(name)
}

/// Where a file of a name is written under a root; nowhere, if that would be
/// out of it.
pub open spec fn destination(root: Seq<char>, name: Seq<char>) -> Option<Seq<char>> {
    match path::resolved_by_name(root, site_path(name)) {
        Ok(p) => Some(p),
        Err(_) => None,
    }
}

// ---------------------------------------------------------------------------
// Multipart bodies
// ---------------------------------------------------------------------------

/// One part of a multipart body.
#[derive(Debug)]
pub struct MultipartPart {
    /// The name of the file, if the part is one.
    pub filename: Option<String>,
    pub data: Vec<u8>,
}

/// A [`MultipartPart`] with sequences for its parts.
#[verifier::ext_equal]
pub struct PartView {
    pub filename: Option<Seq<char>>,
    pub data: Seq<u8>,
}

impl View for MultipartPart {
    type V = PartView;

    open spec fn view(&self) -> PartView {
        PartView { filename: text::opt(self.filename), data: self.data@ }
    }
}

/// The views of a list of parts.
pub open spec fn part_views(v: Seq<MultipartPart>) -> Seq<PartView> {
    v.map_values(|p: MultipartPart| p@)
}

/// A text without the quotation marks at its start.
pub open spec fn strip_quotes_start(s: Seq<char>) -> Seq<char>
    decreases s.len(),
{
    if s.len() > 0 && s[0] == '"' {
        strip_quotes_start(s.drop_first())
    } else {
        s
    }
}

/// A text without the quotation marks at its end.
pub open spec fn strip_quotes_end(s: Seq<char>) -> Seq<char>
    decreases s.len(),
{
    if s.len() > 0 && s.last() == '"' {
        strip_quotes_end(s.drop_last())
    } else {
        s
    }
}

/// A text without quotation marks at either end.
pub open spec fn unquoted(s: Seq<char>) -> Seq<char> {
    strip_quotes_end(strip_quotes_start(s))
}

/// The value of a parameter such as `name=value`, if the text is one with the
/// given start, in whatever case.
pub open spec fn parameter(s: Seq<char>, start: Seq<char>) -> Option<Seq<char>> {
    if text::starts_with(text::lower(s), start) {
        Some(
            unquoted(
                if start.len() <= s.len() {
                    s.skip(start.len() as int)
                } else {
                    Seq::empty()
                },
            ),
        )
    } else {
        None
    }
}

/// The first parameter with the given start, from the `i`-th piece on.
pub open spec fn first_parameter(pieces: Seq<Seq<char>>, start: Seq<char>, i: int) -> Option<
    Seq<char>,
>
    decreases pieces.len() - i,
{
    if i < 0 || i >= pieces.len() {
        None
    } else {
        match parameter(text::trim(pieces[i]), start) {
            Some(v) => Some(v),
            None => first_parameter(pieces, start, i + 1),
        }
    }
}

/// The boundary that a content type gives.
pub open spec fn boundary_of(content_type: Seq<char>) -> Option<Seq<char>> {
    first_parameter(text::split_on(content_type, ';'), "boundary="@, 1)
}

/// The first file name that is not empty, from the `i`-th piece on.
pub open spec fn first_filename(pieces: Seq<Seq<char>>, i: int) -> Option<Seq<char>>
    decreases pieces.len() - i,
{
    if i < 0 || i >= pieces.len() {
        None
    } else {
        match parameter(text::trim(pieces[i]), "filename="@) {
            Some(v) => if v.len() > 0 {
                Some(v)
            } else {
                first_filename(pieces, i + 1)
            },
            None => first_filename(pieces, i + 1),
        }
    }
}

/// The file name in the headers of a part, from the `i`-th line on.
pub open spec fn filename_in(lines: Seq<Seq<char>>, i: int) -> Option<Seq<char>>
    decreases lines.len() - i,
{
    if i < 0 || i >= lines.len() {
        None
    } else if text::starts_with(text::lower(lines[i]), "content-disposition:"@) {
        match first_filename(text::split_on(lines[i], ';'), 0) {
            Some(v) => Some(v),
            None => filename_in(lines, i + 1),
        }
    } else {
        filename_in(lines, i + 1)
    }
}

/// What stands before each part.
pub open spec fn delimiter(boundary: Seq<u8>) -> Seq<u8> {
    seq![45u8, 45u8] + boundary
}

/// What stands before each part, with the end of its line.
pub open spec fn delimiter_line(boundary: Seq<u8>) -> Seq<u8> {
    delimiter(boundary) + seq![13u8, 10u8]
}

/// What stands behind each part.
pub open spec fn part_end(boundary: Seq<u8>) -> Seq<u8> {
    seq![13u8, 10u8] + delimiter(boundary)
}

/// The parts of a multipart body, from `cursor` on. A part goes from a line
/// with the delimiter to the next delimiter, or to the end of the body.
pub open spec fn parts_from(body: Seq<u8>, boundary: Seq<u8>, cursor: int) -> Result<
    Seq<PartView>,
    Seq<char>,
>
    decreases body.len() - cursor,
{
    match text::find_seq(body, delimiter_line(boundary), cursor) {
        None => Ok(Seq::empty()),
        Some(at) => {
            let head = at + delimiter_line(boundary).len();
            if !(0 <= cursor <= at && head <= body.len()) {
                Ok(Seq::empty())
            } else {
                match text::find_seq(body, double_crlf(), head) {
                    None => Err("malformed multipart: missing part header terminator"@),
                    Some(head_end) => if !(head <= head_end && head_end + 4 <= body.len()) {
                        Ok(Seq::empty())
                    } else if !valid_utf8(body.subrange(head, head_end)) {
                        Err("multipart header is not UTF-8"@)
                    } else {
                        let start = head_end + 4;
                        let end = match text::find_seq(body, part_end(boundary), start) {
                            Some(e) => e,
                            None => body.len() as int,
                        };
                        let part = PartView {
                            filename: filename_in(
                                text::text_lines(decode_utf8(body.subrange(head, head_end))),
                                0,
                            ),
                            data: body.subrange(start, end),
                        };
                        if !(start <= end <= body.len()) {
                            Ok(Seq::empty())
                        } else {
                            match parts_from(body, boundary, end) {
                                Err(e) => Err(e),
                                Ok(rest) => Ok(seq![part] + rest),
                            }
                        }
                    },
                }
            }
        },
    }
}

/// The parts of a multipart body.
pub open spec fn parts_of(body: Seq<u8>, boundary: Seq<u8>) -> Result<Seq<PartView>, Seq<char>> {
    parts_from(body, boundary, 0)
}

// ---------------------------------------------------------------------------
// Reading multipart bodies
// ---------------------------------------------------------------------------

/// A string without quotation marks at either end.
fn without_quotes<'a>(s: &'a str) -> (r: &'a str)
    ensures
        r@ == unquoted(s@),
{
    let v = text::chars_of(s);
    let mut i: usize = 0;
    assert(s@.skip(0) =~= s@);
    while i < v.len() && v[i] == '"'
        invariant
            i <= v@.len(),
            v@ == s@,
            strip_quotes_start(s@) == strip_quotes_start(s@.skip(i as int)),
        decreases v@.len() - i,
    {
        assert(s@.skip(i as int).drop_first() =~= s@.skip(i + 1));
        i = i + 1;
    }
    let ghost t = s@.skip(i as int);
    let mut j: usize = v.len();
    assert(t.take(j - i) =~= t);
    while i < j && v[j - 1] == '"'
        invariant
            i <= j <= v@.len(),
            v@ == s@,
            t == s@.skip(i as int),
            strip_quotes_end(t) == strip_quotes_end(t.take(j - i)),
        decreases j,
    {
        proof {
            assert(t.take(j - i).last() == s@[j - 1]);
            assert(t.take(j - i).drop_last() =~= t.take(j - i - 1));
        }
        j = j - 1;
    }
    proof {
        assert(t.take(j - i) =~= s@.subrange(i as int, j as int));
        if i < j {
            assert(t.take(j - i).last() == s@[j - 1]);
        }
    }
    s.substring_char(i, j)
}

/// The value of a parameter with the given start.
fn parameter_value(s: &str, start: &str) -> (r: Option<String>)
    ensures
        text::opt(r) == parameter(s@, start@),
{
    if !text::has_prefix(text::lower_text(s).as_str(), start) {
        return None;
    }
    let n: usize = text::chars_of(start).len();
    let m: usize = text::chars_of(s).len();
    let from: usize = if n <= m {
        n
    } else {
        m
    };
    proof {
        if n <= m {
            assert(s@.skip(n as int) =~= s@.subrange(n as int, m as int));
        } else {
            assert(s@.subrange(m as int, m as int) =~= Seq::empty());
        }
    }
    Some(text::owned(without_quotes(s.substring_char(from, m))))
}

/// The boundary that a content type gives.
pub fn extract_boundary(content_type: &str) -> (r: Option<String>)
    ensures
        text::opt(r) == boundary_of(content_type@),
{
    let pieces = text::split_text(content_type, ';');
    let ghost all = text::views(pieces@);
    let mut i: usize = 1;
    while i < pieces.len()
        invariant
            1 <= i,
            all == text::views(pieces@),
            all == text::split_on(content_type@, ';'),
            boundary_of(content_type@) == first_parameter(all, "boundary="@, i as int),
        decreases pieces@.len() - i,
    {
        assert(all[i as int] == pieces@[i as int]@);
        if let Some(v) = parameter_value(text::trimmed(pieces[i].as_str()), "boundary=") {
            return Some(v);
        }
        i = i + 1;
    }
    None
}

/// The first file name in the pieces of a header line.
fn find_filename(line: &str) -> (r: Option<String>)
    ensures
        text::opt(r) == first_filename(text::split_on(line@, ';'), 0),
{
    let pieces = text::split_text(line, ';');
    let ghost all = text::views(pieces@);
    let mut i: usize = 0;
    while i < pieces.len()
        invariant
            i <= pieces@.len(),
            all == text::views(pieces@),
            all == text::split_on(line@, ';'),
            first_filename(all, 0) == first_filename(all, i as int),
        decreases pieces@.len() - i,
    {
        assert(all[i as int] == pieces@[i as int]@);
        if let Some(v) = parameter_value(text::trimmed(pieces[i].as_str()), "filename=") {
            if text::chars_of(v.as_str()).len() > 0 {
                return Some(v);
            }
        }
        i = i + 1;
    }
    None
}

/// The file name in the headers of a part.
pub fn extract_filename_from_disposition(headers: &str) -> (r: Option<String>)
    ensures
        text::opt(r) == filename_in(text::text_lines(headers@), 0),
{
    let lines = text::lines_of(headers);
    let ghost all = text::views(lines@);
    let mut i: usize = 0;
    while i < lines.len()
        invariant
            i <= lines@.len(),
            all == text::views(lines@),
            all == text::text_lines(headers@),
            filename_in(all, 0) == filename_in(all, i as int),
        decreases lines@.len() - i,
    {
        assert(all[i as int] == lines@[i as int]@);
        let line: &str = lines[i].as_str();
        if text::has_prefix(text::lower_text(line).as_str(), "content-disposition:") {
            if let Some(v) = find_filename(line) {
                return Some(v);
            }
        }
        i = i + 1;
    }
    None
}

/// The first position from `from` on at which the bytes `needle` stand.
pub fn memmem(haystack: &[u8], needle: &[u8], from: usize) -> (r: Option<usize>)
    requires
        needle@.len() > 0,
        from <= haystack@.len(),
    ensures
        r matches Some(i) ==> text::find_seq(haystack@, needle@, from as int) == Some(i as int)
            && from <= i && i + needle@.len() <= haystack.len(),
        r is None ==> text::find_seq(haystack@, needle@, from as int) is None,
{
    proof {
        text::lemma_find_seq(haystack@, needle@, from as int);
    }
    text::find_bytes(haystack, needle, from)
}

/// The parts of a multipart body.
pub fn parse_multipart(body: &[u8], boundary: &[u8]) -> (r: Result<
    Vec<MultipartPart>,
    &'static str,
>)
    ensures
        match r {
            Ok(v) => parts_of(body@, boundary@) == Ok::<Seq<PartView>, Seq<char>>(part_views(v@)),
            Err(e) => parts_of(body@, boundary@) == Err::<Seq<PartView>, Seq<char>>(e@),
        },
{
    let mut line: Vec<u8> = Vec::new();
    line.push(45);
    line.push(45);
    text::extend(&mut line, boundary);
    let mut end_mark: Vec<u8> = Vec::new();
    end_mark.push(13);
    end_mark.push(10);
    text::extend(&mut end_mark, line.as_slice());
    line.push(13);
    line.push(10);
    let blank: [u8; 4] = [13u8, 10u8, 13u8, 10u8];
    proof {
        assert(line@ =~= delimiter_line(boundary@));
        assert(end_mark@ =~= part_end(boundary@));
        assert(blank@ =~= double_crlf());
    }
    let mut parts: Vec<MultipartPart> = Vec::new();
    let mut cursor: usize = 0;
    loop
        invariant
            cursor <= body@.len(),
            line@ == delimiter_line(boundary@),
            end_mark@ == part_end(boundary@),
            blank@ == double_crlf(),
            parts_of(body@, boundary@) == (match parts_from(body@, boundary@, cursor as int) {
                Ok(rest) => Ok::<Seq<PartView>, Seq<char>>(part_views(parts@) + rest),
                Err(e) => Err(e),
            }),
        decreases body@.len() - cursor,
    {
        let at: usize = match memmem(body, line.as_slice(), cursor) {
            Some(i) => i,
            None => {
                assert(part_views(parts@) + Seq::<PartView>::empty() =~= part_views(parts@));
                return Ok(parts);
            },
        };
        let head: usize = at + line.len();
        let head_end: usize = match memmem(body, blank.as_slice(), head) {
            Some(i) => i,
            None => {
                return Err("malformed multipart: missing part header terminator");
            },
        };
        let header_str = match text::utf8_text(&body[head..head_end]) {
            Some(s) => s,
            None => {
                return Err("multipart header is not UTF-8");
            },
        };
        let filename = extract_filename_from_disposition(header_str);
        let start: usize = head_end + 4;
        let end: usize = match memmem(body, end_mark.as_slice(), start) {
            Some(i) => i,
            None => body.len(),
        };
        let ghost before = parts@;
        let part = MultipartPart {
            filename,
            data: vstd::slice::slice_to_vec(&body[start..end]),
        };
        let ghost w = part@;
        parts.push(part);
        proof {
            assert(part_views(parts@) =~= part_views(before).push(w));
            if let Ok(rest) = parts_from(body@, boundary@, end as int) {
                assert(part_views(parts@) + rest =~= part_views(before) + (seq![w] + rest));
            }
        }
        cursor = end;
    }
}

// ---------------------------------------------------------------------------
// Uploads
// ---------------------------------------------------------------------------

/// Whether a part is a file.
pub open spec fn is_file_part(p: PartView) -> bool {
    p.filename matches Some(f) && f.len() > 0
}

/// What is to be done about the parts from the `i`-th on, behind the writes
/// already planned. `first` is the path of the first file.
pub open spec fn plan_parts(
    root: Seq<char>,
    parts: Seq<PartView>,
    i: int,
    writes: Seq<WriteView>,
    first: Option<Seq<char>>,
) -> PlanView
    decreases parts.len() - i,
{
    if i < 0 || i >= parts.len() {
        match first {
            None => PlanView {
                writes,
                response: builder::detail_view(400, "no uploadable file parts found"@),
            },
            Some(l) => PlanView { writes, response: builder::created_view(Some(l)) },
        }
    } else if !is_file_part(parts[i]) {
        plan_parts(root, parts, i + 1, writes, first)
    } else {
        let name = parts[i].filename->0;
        match destination(root, name) {
            None => PlanView {
                writes,
                response: builder::detail_view(400, "invalid upload filename"@),
            },
            Some(dest) => plan_parts(
                root,
                parts,
                i + 1,
                writes.push(WriteView { dest, data: parts[i].data }),
                if first is None {
                    Some(site_path(name))
                } else {
                    first
                },
            ),
        }
    }
}

/// What is to be done about a multipart upload.
pub open spec fn plan_multipart(root: Seq<char>, body: Seq<u8>, content_type: Seq<char>) -> PlanView {
    match boundary_of(content_type) {
        None => only(builder::detail_view(400, "multipart/form-data missing boundary"@)),
        Some(b) => match parts_of(body, encode_utf8(b)) {
            Err(e) => only(builder::detail_view(400, e)),
            Ok(parts) => if parts.len() == 0 {
                only(builder::detail_view(400, "multipart body contained no file parts"@))
            } else {
                plan_parts(root, parts, 0, Seq::empty(), None)
            },
        },
    }
}

/// The name that a raw upload is stored under: the last segment of the path, or
/// `upload` where that is empty.
pub open spec fn raw_name(url: Seq<char>) -> Seq<char> {
    let last = url.skip(text::after_last(url, '/'));
    if last.len() > 0 {
        last
    } else {
        "upload"@
    }
}

/// What is to be done about a raw upload.
pub open spec fn plan_raw(root: Seq<char>, url: Seq<char>, body: Seq<u8>) -> PlanView {
    match destination(root, raw_name(url)) {
        None => only(builder::detail_view(400, "invalid upload path"@)),
        Some(dest) => PlanView {
            writes: seq![WriteView { dest, data: body }],
            response: builder::created_view(Some(site_path(raw_name(url)))),
        },
    }
}

/// The content type of a request; bytes of any kind where no header says.
pub open spec fn content_type(req: RequestView) -> Seq<char> {
    match header(req.headers, "content-type"@) {
        Some(v) => v,
        None => "application/octet-stream"@,
    }
}

/// What is to be done about an upload.
pub open spec fn planned(req: RequestView, route: RouteView, body_limit: usize) -> PlanView {
    match route.root {
        None => only(builder::error_view(403, None)),
        Some(root) => if req.body.len() > body_limit {
            only(builder::too_large_view())
        } else if text::starts_with(content_type(req), "multipart/form-data"@) {
            plan_multipart(root, req.body, content_type(req))
        } else {
            plan_raw(root, req.path, req.body)
        },
    }
}

/// Decides an upload:
///
/// - 403 where the route has no root;
/// - 413 where the body is over the limit;
/// - 400 where the body is malformed, or a name leads out of the root;
/// - 201 with the path of the first file otherwise, once all are written.
pub fn handle(request: &Request, route: &RouteConfig, body_limit: usize) -> (r: UploadPlan)
    ensures
        r@ == planned(request@, route@, body_limit),
{
    let root: &str = match &route.root {
        Some(s) => s.as_str(),
        None => {
            return respond(builder::forbidden(None));
        },
    };
    if request.body.len() > body_limit {
        return respond(builder::payload_too_large());
    }
    let kind: &str = match request.headers.get("content-type") {
        Some(v) => v,
        None => "application/octet-stream",
    };
    if text::has_prefix(kind, "multipart/form-data") {
        handle_multipart(request, root, kind)
    } else {
        handle_raw(request, root)
    }
}

/// Where a file of a name is written, and its path on the site.
fn place_file(root: &str, name: &str) -> (r: Option<(String, String)>)
    ensures
        match destination(root@, name@) {
            Some(d) => r matches Some((dest, site)) && dest@ == d && site@ == site_path(name@),
            None => r is None,
        },
{
    let site = text::joined("/", sanitise_filename(name).as_str());
    match path::resolve_safe_virtual(root, site.as_str()) {
        Ok(dest) => Some((dest, site)),
        Err(_) => None,
    }
}

/// Decides a multipart upload.
fn handle_multipart(request: &Request, root: &str, kind: &str) -> (r: UploadPlan)
    ensures
        r@ == plan_multipart(root@, request.body@, kind@),
{
    let boundary = match extract_boundary(kind) {
        Some(b) => b,
        None => {
            return respond(builder::bad_request("multipart/form-data missing boundary"));
        },
    };
    let parts = match parse_multipart(request.body.as_slice(), boundary.as_str().as_bytes()) {
        Ok(v) => v,
        Err(e) => {
            return respond(builder::bad_request(e));
        },
    };
    let ghost all = part_views(parts@);
    if parts.len() == 0 {
        return respond(builder::bad_request("multipart body contained no file parts"));
    }
    let mut writes: Vec<PlannedWrite> = Vec::new();
    let mut first: Option<String> = None;
    let mut i: usize = 0;
    assert(write_views(writes@) =~= Seq::empty());
    while i < parts.len()
        invariant
            i <= parts@.len(),
            all == part_views(parts@),
            plan_multipart(root@, request.body@, kind@) == plan_parts(
                root@,
                all,
                i as int,
                write_views(writes@),
                text::opt(first),
            ),
        decreases parts@.len() - i,
    {
        let part = &parts[i];
        assert(all[i as int] == part@);
        if let Some(name) = &part.filename {
            if text::chars_of(name.as_str()).len() > 0 {
                let (dest, site) = match place_file(root, name.as_str()) {
                    Some(x) => x,
                    None => {
                        return UploadPlan {
                            writes,
                            response: builder::bad_request("invalid upload filename"),
                        };
                    },
                };
                let ghost before = writes@;
                let write = PlannedWrite {
                    dest,
                    data: vstd::slice::slice_to_vec(part.data.as_slice()),
                };
                let ghost w = write@;
                writes.push(write);
                assert(write_views(writes@) =~= write_views(before).push(w));
                if first.is_none() {
                    first = Some(site);
                }
            }
        }
        i = i + 1;
    }
    match first {
        None => UploadPlan {
            writes,
            response: builder::bad_request("no uploadable file parts found"),
        },
        Some(l) => UploadPlan { writes, response: builder::created(Some(l.as_str())) },
    }
}

/// Decides a raw upload.
fn handle_raw(request: &Request, root: &str) -> (r: UploadPlan)
    ensures
        r@ == plan_raw(root@, request.path@, request.body@),
{
    let url: &str = request.path.as_str();
    let v = text::chars_of(url);
    let n: usize = text::find_after_last(v.as_slice(), '/');
    assert(url@.skip(n as int) =~= url@.subrange(n as int, url@.len() as int));
    let name: &str = if n < v.len() {
        url.substring_char(n, v.len())
    } else {
        "upload"
    };
    let (dest, site) = match place_file(root, name) {
        Some(x) => x,
        None => {
            return respond(builder::bad_request("invalid upload path"));
        },
    };
    let mut writes: Vec<PlannedWrite> = Vec::new();
    writes.push(
        PlannedWrite { dest, data: vstd::slice::slice_to_vec(request.body.as_slice()) },
    );
    let r = UploadPlan { writes, response: builder::created(Some(site.as_str())) };
    assert(r@.writes =~= plan_raw(root@, request.path@, request.body@).writes);
    r
}

// ---------------------------------------------------------------------------
// Laws
// ---------------------------------------------------------------------------

/// A sanitised name holds no separator and no zero, and a name that holds none
/// stays as it is.
pub proof fn lemma_sanitised(s: Seq<char>)
    ensures
        forall|i: int| 0 <= i < sanitised(s).len() ==> !unsafe_char(#[trigger] sanitised(s)[i]),
        (forall|i: int| 0 <= i < s.len() ==> !unsafe_char(#[trigger] s[i])) ==> sanitised(s) == s,
    decreases s.len(),
{
    if s.len() > 0 {
        lemma_sanitised(s.drop_last());
        let before = sanitised(s.drop_last());
        assert forall|i: int| 0 <= i < sanitised(s).len() implies !unsafe_char(
            #[trigger] sanitised(s)[i],
        ) by {
            if i < before.len() {
                assert(sanitised(s)[i] == before[i]);
            }
        }
        if forall|i: int| 0 <= i < s.len() ==> !unsafe_char(#[trigger] s[i]) {
            assert forall|i: int| 0 <= i < s.drop_last().len() implies !unsafe_char(
                #[trigger] s.drop_last()[i],
            ) by {
                assert(s.drop_last()[i] == s[i]);
            }
            assert(!unsafe_char(s[s.len() - 1]));
            assert(s.drop_last().push(s.last()) =~= s);
        }
    }
}

/// Whether all files are written at or under a root, by plain names.
pub open spec fn writes_under(writes: Seq<WriteView>, root: Seq<char>) -> bool {
    forall|i: int| #![trigger writes[i]]
        0 <= i < writes.len() ==> path::under(path::parts(writes[i].dest), path::normal(root))
            && path::plain(path::parts(writes[i].dest).names)
}

proof fn lemma_plan_parts_under(
    root: Seq<char>,
    parts: Seq<PartView>,
    i: int,
    writes: Seq<WriteView>,
    first: Option<Seq<char>>,
)
    requires
        writes_under(writes, root),
    ensures
        writes_under(plan_parts(root, parts, i, writes, first).writes, root),
    decreases parts.len() - i,
{
    if 0 <= i < parts.len() {
        if !is_file_part(parts[i]) {
            lemma_plan_parts_under(root, parts, i + 1, writes, first);
        } else {
            let name = parts[i].filename->0;
            if let Some(dest) = destination(root, name) {
                path::lemma_resolved_by_name_stays(root, site_path(name));
                let next = writes.push(WriteView { dest, data: parts[i].data });
                assert(writes_under(next, root)) by {
                    assert forall|k: int| #![trigger next[k]] 0 <= k < next.len() implies
                        path::under(path::parts(next[k].dest), path::normal(root)) && path::plain(
                        path::parts(next[k].dest).names,
                    ) by {
                        if k < writes.len() {
                            assert(next[k] == writes[k]);
                        }
                    }
                }
                lemma_plan_parts_under(
                    root,
                    parts,
                    i + 1,
                    next,
                    if first is None {
                        Some(site_path(name))
                    } else {
                        first
                    },
                );
            }
        }
    }
}

/// Whatever names an upload gives its files, nothing is written out of the root
/// of the route; and nothing at all where there is no root, or where the body is
/// over the limit.
pub proof fn lemma_writes_under_root(req: RequestView, route: RouteView, body_limit: usize)
    ensures
        route.root is None ==> planned(req, route, body_limit).writes.len() == 0,
        req.body.len() > body_limit ==> planned(req, route, body_limit).writes.len() == 0,
        route.root matches Some(root) ==> writes_under(
            planned(req, route, body_limit).writes,
            root,
        ),
{
    if let Some(root) = route.root {
        path::lemma_resolved_by_name_stays(root, site_path(raw_name(req.path)));
        if let Some(b) = boundary_of(content_type(req)) {
            if let Ok(parts) = parts_of(req.body, encode_utf8(b)) {
                lemma_plan_parts_under(root, parts, 0, Seq::empty(), None);
            }
        }
    }
}

/// A part of a form: its headers, and its data.
#[verifier::ext_equal]
pub struct FormPart {
    pub head: Seq<char>,
    pub data: Seq<u8>,
}

/// A form on the wire.
pub open spec fn form(boundary: Seq<u8>, parts: Seq<FormPart>) -> Seq<u8>
    decreases parts.len(),
{
    if parts.len() == 0 {
        delimiter(boundary) + seq![45u8, 45u8, 13u8, 10u8]
    } else {
        delimiter_line(boundary) + (encode_utf8(parts[0].head) + double_crlf() + (parts[0].data + (
        seq![13u8, 10u8] + form(boundary, parts.drop_first()))))
    }
}

/// Whether a part can be told from what follows: its headers end with the first
/// empty line, and its data with the first delimiter.
pub open spec fn part_fits(boundary: Seq<u8>, part: FormPart) -> bool {
    &&& text::find_seq(encode_utf8(part.head) + double_crlf(), double_crlf(), 0) == Some(
        encode_utf8(part.head).len() as int,
    )
    &&& text::find_seq(part.data + part_end(boundary), part_end(boundary), 0) == Some(
        part.data.len() as int,
    )
}

/// Whether a boundary can be told from the dashes around it: it is not made of
/// dashes alone.
pub open spec fn boundary_fits(boundary: Seq<u8>) -> bool {
    exists|i: int| 0 <= i < boundary.len() && #[trigger] boundary[i] != 45
}

/// What is read of the parts of a form.
pub open spec fn parts_read(parts: Seq<FormPart>) -> Seq<PartView> {
    parts.map_values(
        |p: FormPart|
            PartView { filename: filename_in(text::text_lines(p.head), 0), data: p.data },
    )
}

proof fn lemma_all_dashes(b: Seq<u8>, i: int)
    requires
        b + seq![45u8, 45u8] == seq![45u8, 45u8] + b,
        0 <= i < b.len(),
    ensures
        b[i] == 45,
    decreases i,
{
    assert((b + seq![45u8, 45u8])[i] == b[i]);
    if i < 2 {
        assert((seq![45u8, 45u8] + b)[i] == 45);
    } else {
        lemma_all_dashes(b, i - 2);
        assert((seq![45u8, 45u8] + b)[i] == b[i - 2]);
    }
}

/// There is no further part behind the closing delimiter.
proof fn lemma_form_ends(body: Seq<u8>, boundary: Seq<u8>, cursor: int, lead: Seq<u8>)
    requires
        boundary_fits(boundary),
        0 <= cursor <= body.len(),
        lead == Seq::<u8>::empty() || lead == seq![13u8, 10u8],
        body.skip(cursor) == lead + form(boundary, Seq::empty()),
    ensures
        text::find_seq(body, delimiter_line(boundary), cursor) is None,
{
    let rest = body.skip(cursor);
    let line = delimiter_line(boundary);
    let n = boundary.len() as int;
    let l = lead.len() as int;
    let close = form(boundary, Seq::empty());
    text::lemma_find_seq_from(body, line, cursor);
    text::lemma_find_seq(rest, line, 0);
    assert(close =~= seq![45u8, 45u8] + boundary + seq![45u8, 45u8, 13u8, 10u8]);
    assert(line =~= seq![45u8, 45u8] + boundary + seq![13u8, 10u8]);
    if let Some(k) = text::find_seq(rest, line, 0) {
        let m = rest.subrange(k, k + line.len());
        assert(m == line);
        assert(m[0] == rest[k] && line[0] == 45u8);
        if k < l {
            assert(rest[k] == lead[k]);
        } else if k == l {
            assert(m[n + 2] == rest[l + n + 2]);
            assert(rest[l + n + 2] == close[n + 2]);
            assert(close[n + 2] == 45u8 && line[n + 2] == 13u8);
        } else if k == l + 1 {
            assert(m[n + 3] == rest[l + n + 4]);
            assert(rest[l + n + 4] == close[n + 4]);
            assert(close[n + 4] == 13u8 && line[n + 3] == 10u8);
        } else {
            assert(k == l + 2);
            assert(boundary + seq![45u8, 45u8] =~= close.subrange(2, n + 4));
            assert(close.subrange(2, n + 4) =~= m.take(n + 2));
            assert(seq![45u8, 45u8] + boundary =~= line.take(n + 2));
            let i = choose|i: int| 0 <= i < boundary.len() && #[trigger] boundary[i] != 45;
            lemma_all_dashes(boundary, i);
        }
    }
}

/// What is looked for is found behind `pre`, wherever it is first in the two.
proof fn lemma_found_behind(
    body: Seq<u8>,
    from: int,
    pre: Seq<u8>,
    p: Seq<u8>,
    beyond: Seq<u8>,
)
    requires
        0 <= from <= body.len(),
        body.skip(from) == pre + p + beyond,
        text::find_seq(pre + p, p, 0) == Some(pre.len() as int),
    ensures
        text::find_seq(body, p, from) == Some(from + pre.len()),
        from + pre.len() + p.len() <= body.len(),
        body.subrange(from, from + pre.len()) == pre,
        body.skip(from + pre.len()) == p + beyond,
        body.skip(from + pre.len() + p.len()) == beyond,
{
    let t = pre + p + beyond;
    text::lemma_find_seq_from(body, p, from);
    text::lemma_find_seq_longer(pre + p, beyond, p, 0);
    assert(t.take(pre.len() as int) =~= pre);
    assert(body.subrange(from, from + pre.len()) =~= t.take(pre.len() as int));
    assert(t.skip(pre.len() as int) =~= p + beyond);
    assert(body.skip(from + pre.len()) =~= t.skip(pre.len() as int));
    assert((p + beyond).skip(p.len() as int) =~= beyond);
    assert(body.skip(from + pre.len() + p.len()) =~= (p + beyond).skip(p.len() as int));
}

/// The line of a delimiter is first behind a line end, or at the start.
proof fn lemma_delimiter_behind(boundary: Seq<u8>, lead: Seq<u8>)
    requires
        lead == Seq::<u8>::empty() || lead == seq![13u8, 10u8],
    ensures
        text::find_seq(lead + delimiter_line(boundary), delimiter_line(boundary), 0) == Some(
            lead.len() as int,
        ),
{
    let line = delimiter_line(boundary);
    let s = lead + line;
    assert(s.subrange(lead.len() as int, lead.len() as int + line.len()) =~= line);
    assert forall|j: int| 0 <= j < lead.len() implies !#[trigger] text::match_at(s, line, j) by {
        if text::match_at(s, line, j) {
            assert(s.subrange(j, j + line.len())[0] == s[j]);
            assert(s[j] == lead[j]);
            assert(line[0] == 45u8);
        }
    }
    text::lemma_find_seq_is(s, line, 0, lead.len() as int);
}

/// A form begins with a delimiter.
proof fn lemma_form_begins(boundary: Seq<u8>, parts: Seq<FormPart>) -> (beyond: Seq<u8>)
    ensures
        form(boundary, parts) == delimiter(boundary) + beyond,
{
    let d = delimiter(boundary);
    let beyond = form(boundary, parts).skip(d.len() as int);
    assert(form(boundary, parts) =~= d + beyond);
    beyond
}

/// Reads one part of a form.
proof fn lemma_form_part(
    body: Seq<u8>,
    boundary: Seq<u8>,
    cursor: int,
    lead: Seq<u8>,
    parts: Seq<FormPart>,
) -> (end: int)
    requires
        parts.len() > 0,
        part_fits(boundary, parts[0]),
        0 <= cursor <= body.len(),
        lead == Seq::<u8>::empty() || lead == seq![13u8, 10u8],
        body.skip(cursor) == lead + form(boundary, parts),
    ensures
        cursor < end <= body.len(),
        body.skip(end) == seq![13u8, 10u8] + form(boundary, parts.drop_first()),
        parts_from(body, boundary, cursor) == match parts_from(body, boundary, end) {
            Err(e) => Err::<Seq<PartView>, Seq<char>>(e),
            Ok(rest) => Ok(
                seq![
                    PartView {
                        filename: filename_in(text::text_lines(parts[0].head), 0),
                        data: parts[0].data,
                    },
                ] + rest,
            ),
        },
{
    let line = delimiter_line(boundary);
    let close = part_end(boundary);
    let tail = form(boundary, parts.drop_first());
    let data = parts[0].data;
    let head_bytes = encode_utf8(parts[0].head);
    let after_head = data + (seq![13u8, 10u8] + tail);
    let after_line = head_bytes + double_crlf() + after_head;
    lemma_delimiter_behind(boundary, lead);
    assert(lead + form(boundary, parts) =~= lead + line + after_line);
    lemma_found_behind(body, cursor, lead, line, after_line);
    let head = cursor + lead.len() + line.len();
    lemma_found_behind(body, head, head_bytes, double_crlf(), after_head);
    encode_utf8_valid_utf8(parts[0].head);
    encode_utf8_decode_utf8(parts[0].head);
    let start = head + head_bytes.len() + 4;
    let beyond = lemma_form_begins(boundary, parts.drop_first());
    assert(seq![13u8, 10u8] + tail =~= close + beyond);
    assert(after_head =~= data + close + beyond);
    lemma_found_behind(body, start, data, close, beyond);
    start + data.len()
}

proof fn lemma_form_from(
    body: Seq<u8>,
    boundary: Seq<u8>,
    cursor: int,
    lead: Seq<u8>,
    parts: Seq<FormPart>,
)
    requires
        boundary_fits(boundary),
        forall|i: int| 0 <= i < parts.len() ==> part_fits(boundary, #[trigger] parts[i]),
        0 <= cursor <= body.len(),
        lead == Seq::<u8>::empty() || lead == seq![13u8, 10u8],
        body.skip(cursor) == lead + form(boundary, parts),
    ensures
        parts_from(body, boundary, cursor) == Ok::<Seq<PartView>, Seq<char>>(parts_read(parts)),
    decreases parts.len(),
{
    if parts.len() == 0 {
        assert(parts =~= Seq::empty());
        lemma_form_ends(body, boundary, cursor, lead);
        assert(parts_read(parts) =~= Seq::empty());
    } else {
        let tail = parts.drop_first();
        let end = lemma_form_part(body, boundary, cursor, lead, parts);
        assert forall|i: int| 0 <= i < tail.len() implies part_fits(
            boundary,
            #[trigger] tail[i],
        ) by {
            assert(tail[i] == parts[i + 1]);
        }
        lemma_form_from(body, boundary, end, seq![13u8, 10u8], tail);
        let first = PartView {
            filename: filename_in(text::text_lines(parts[0].head), 0),
            data: parts[0].data,
        };
        assert(parts_read(parts) =~= seq![first] + parts_read(tail));
    }
}

/// A form reads back as its parts, each with its data and the name in its
/// headers, as long as the boundary and the parts can be told from what is
/// around them.
pub proof fn lemma_form_reads_back(boundary: Seq<u8>, parts: Seq<FormPart>)
    requires
        boundary_fits(boundary),
        forall|i: int| 0 <= i < parts.len() ==> part_fits(boundary, #[trigger] parts[i]),
    ensures
        parts_of(form(boundary, parts), boundary) == Ok::<Seq<PartView>, Seq<char>>(
            parts_read(parts),
        ),
{
    let body = form(boundary, parts);
    assert(body.skip(0) =~= Seq::<u8>::empty() + body);
    lemma_form_from(body, boundary, 0, Seq::empty(), parts);
}

/// The header of a part that is a file, as clients write it.
pub open spec fn disposition(field: Seq<char>, name: Seq<char>) -> Seq<char> {
    "Content-Disposition: form-data; name=\""@ + field + "\"; filename=\""@ + name + "\""@
}

/// Whether a text can stand between quotation marks in a header: it holds neither
/// a semicolon nor a line feed.
pub open spec fn quotable(s: Seq<char>) -> bool {
    !s.contains(';') && !s.contains('\n')
}

/// A text is cut at the first `c`.
proof fn lemma_split_first(a: Seq<char>, b: Seq<char>, c: char)
    requires
        !a.contains(c),
    ensures
        text::split_on(a + (seq![c] + b), c) == seq![a] + text::split_on(b, c),
        text::split_on(a, c) == seq![a],
{
    let s = a + (seq![c] + b);
    let n = a.len() as int;
    assert forall|j: int| 0 <= j < n implies s[j] != c by {
        assert(a.contains(a[j]));
    }
    text::lemma_index_of_is(s, c, n);
    assert(s.take(n) =~= a);
    assert(s.skip(n + 1) =~= b);
    assert forall|j: int| 0 <= j < n implies a[j] != c by {
        assert(a.contains(a[j]));
    }
    text::lemma_index_of_is(a, c, n);
}

/// What begins otherwise is not a file name.
proof fn lemma_not_filename(s: Seq<char>)
    requires
        s.len() > 0,
        '\0' <= s[0] <= '\u{7f}',
        s[0] != 'f',
        s[0] != 'F',
    ensures
        parameter(s, "filename="@) is None,
{
    reveal_strlit("filename=");
    text::lemma_lower_start(s, 1);
    assert(text::lower(s).take(1)[0] == text::ascii_lower_char(s[0]));
    if text::starts_with(text::lower(s), "filename="@) {
        assert(text::lower(s).take(9)[0] == 'f');
        assert(text::lower(s)[0] == 'f');
    }
}

proof fn lemma_quoted_filename(name: Seq<char>)
    requires
        name.len() > 0,
        name[0] != '"',
        name.last() != '"',
    ensures
        parameter("filename=\""@ + name + "\""@, "filename="@) == Some(name),
{
    reveal_strlit("filename=");
    reveal_strlit("filename=\"");
    reveal_strlit("\"");
    let s = "filename=\""@ + name + "\""@;
    assert(s.take(9) =~= "filename="@);
    text::lemma_lower_start(s, 9);
    assert(text::ascii_lower("filename="@) =~= "filename="@);
    let v = s.skip(9);
    assert(v =~= seq!['"'] + name + seq!['"']);
    assert(v.drop_first() =~= name + seq!['"']);
    assert((name + seq!['"'])[0] == name[0]);
    assert((name + seq!['"']).drop_last() =~= name);
    reveal_with_fuel(strip_quotes_start, 2);
    reveal_with_fuel(strip_quotes_end, 2);
}

/// The name that a client gives a file is the name that is read: from the header
/// in which it stands, whether other headers follow it or not.
#[verifier::rlimit(40)]
pub proof fn lemma_filename_reads_back(field: Seq<char>, name: Seq<char>, more: Seq<char>)
    requires
        quotable(field),
        quotable(name),
        name.len() > 0,
        name[0] != '"',
        name.last() != '"',
    ensures
        filename_in(text::text_lines(disposition(field, name)), 0) == Some(name),
        filename_in(text::text_lines(disposition(field, name) + "\r\n"@ + more), 0) == Some(name),
{
    let start = "Content-Disposition: form-data"@;
    let line = disposition(field, name);
    reveal_strlit("Content-Disposition: form-data; name=\"");
    reveal_strlit("Content-Disposition: form-data");
    reveal_strlit("\"; filename=\"");
    reveal_strlit("filename=\"");
    reveal_strlit("\"");
    reveal_strlit("\r\n");
    reveal_strlit("content-disposition:");
    // The line.
    assert(!line.contains('\n')) by {
        if line.contains('\n') {
            let j = choose|j: int| 0 <= j < line.len() && line[j] == '\n';
            let n = 37 + field.len();
            if 37 <= j < n {
                assert(field[j - 37] == '\n');
            } else if n + 13 <= j < n + 13 + name.len() {
                assert(name[j - n - 13] == '\n');
            }
        }
    }
    let whole = line + "\r\n"@ + more;
    assert("\r\n"@ =~= seq!['\r', '\n']);
    text::lemma_lines(line, more);
    assert(text::text_lines(whole)[0] == line);
    // The header.
    assert(line.take(20) =~= "Content-Disposition:"@) by {
        reveal_strlit("Content-Disposition:");
    }
    reveal_strlit("Content-Disposition:");
    text::lemma_lower_start(line, 20);
    assert(text::ascii_lower("Content-Disposition:"@) =~= "content-disposition:"@);
    // Its pieces.
    let second = " name=\""@ + field + "\""@;
    let third = " filename=\""@ + name + "\""@;
    reveal_strlit(" name=\"");
    reveal_strlit(" filename=\"");
    assert(line =~= start + (seq![';'] + (second + (seq![';'] + third))));
    assert(!second.contains(';')) by {
        if second.contains(';') {
            let j = choose|j: int| 0 <= j < second.len() && second[j] == ';';
            if 7 <= j < 7 + field.len() {
                assert(field[j - 7] == ';');
            }
        }
    }
    assert(!third.contains(';')) by {
        if third.contains(';') {
            let j = choose|j: int| 0 <= j < third.len() && third[j] == ';';
            if 11 <= j < 11 + name.len() {
                assert(name[j - 11] == ';');
            }
        }
    }
    lemma_split_first(start, second + (seq![';'] + third), ';');
    lemma_split_first(second, third, ';');
    lemma_split_first(third, Seq::empty(), ';');
    let pieces = text::split_on(line, ';');
    assert(pieces =~= seq![start, second, third]);
    // What each says.
    let field_part = second.skip(1);
    let name_part = third.skip(1);
    assert(second.drop_first() =~= field_part);
    assert(third.drop_first() =~= name_part);
    assert(text::trim(start) == start);
    reveal_with_fuel(text::trim_start, 2);
    assert(text::trim_start(second) == field_part);
    assert(text::trim(second) == field_part);
    assert(text::trim_start(third) == name_part);
    assert(text::trim(third) == name_part);
    lemma_not_filename(start);
    lemma_not_filename(field_part);
    assert(name_part =~= "filename=\""@ + name + "\""@);
    lemma_quoted_filename(name);
    reveal_with_fuel(first_filename, 4);
    assert(first_filename(pieces, 0) == Some(name));
}

/// Taking out what may not stand in a name goes character by character: the two
/// kinds of slashes and the character zero are taken out, and all else stays.
pub proof fn lemma_sanitised_parts(a: Seq<char>, b: Seq<char>, c: char)
    ensures
        sanitised(a + b) == sanitised(a) + sanitised(b),
        sanitised(seq![c]) == if c == '/' || c == '\\' || c == '\0' {
            Seq::empty()
        } else {
            seq![c]
        },
    decreases b.len(),
{
    if b.len() == 0 {
        assert(a + b =~= a);
        assert(sanitised(a) + sanitised(b) =~= sanitised(a));
    } else {
        lemma_sanitised_parts(a, b.drop_last(), c);
        assert((a + b).drop_last() =~= a + b.drop_last());
        assert((a + b).last() == b.last());
        assert(sanitised(a + b) =~= sanitised(a) + sanitised(b));
    }
    let one = seq![c];
    assert(one.drop_last() =~= Seq::empty());
    assert(sanitised(one.drop_last()) =~= Seq::empty());
    assert(one.last() == c);
    assert(Seq::<char>::empty().push(c) =~= one);
}

/// The parts of a form that are files: those with a name that is not empty.
pub open spec fn files_of(parts: Seq<PartView>) -> Seq<PartView> {
    parts.filter(|p: PartView| p.filename is Some && p.filename->0.len() > 0)
}

proof fn lemma_files_from(parts: Seq<PartView>, i: int)
    requires
        0 <= i < parts.len(),
    ensures
        files_of(parts.skip(i)) == (if parts[i].filename is Some && parts[i].filename->0.len()
            > 0 {
            seq![parts[i]] + files_of(parts.skip(i + 1))
        } else {
            files_of(parts.skip(i + 1))
        }),
{
    let f = |p: PartView| p.filename is Some && p.filename->0.len() > 0;
    let one = seq![parts[i]];
    assert(parts.skip(i) =~= one + parts.skip(i + 1));
    Seq::filter_distributes_over_add(one, parts.skip(i + 1), f);
    assert(one.drop_last() =~= Seq::empty());
    reveal(Seq::filter);
    reveal_with_fuel(Seq::filter, 2);
    assert(one.filter(f) =~= if f(parts[i]) {
        one
    } else {
        Seq::empty()
    });
    assert(one.filter(f) + files_of(parts.skip(i + 1)) =~= if f(parts[i]) {
        one + files_of(parts.skip(i + 1))
    } else {
        files_of(parts.skip(i + 1))
    });
}

/// Whether writes store files: each file in its order, at the place of its name,
/// with its data, and nothing else.
pub open spec fn stores(root: Seq<char>, writes: Seq<WriteView>, files: Seq<PartView>) -> bool {
    &&& writes.len() == files.len()
    &&& forall|i: int|
        #![trigger writes[i]]
        #![trigger files[i]]
        0 <= i < writes.len() ==> writes[i].data == files[i].data && destination(
            root,
            files[i].filename->0,
        ) == Some(writes[i].dest)
}

proof fn lemma_plan_stores(
    root: Seq<char>,
    parts: Seq<PartView>,
    i: int,
    writes: Seq<WriteView>,
    first: Option<Seq<char>>,
)
    requires
        0 <= i <= parts.len(),
    ensures
        ({
            let plan = plan_parts(root, parts, i, writes, first);
            let files = files_of(parts.skip(i));
            let all_placed = forall|k: int|
                0 <= k < files.len() ==> destination(
                    root,
                    (#[trigger] files[k]).filename->0,
                ) is Some;
            &&& plan.response.status == 201 <==> all_placed && (first is Some || files.len() > 0)
            &&& plan.response.status == 201 || plan.response.status == 400
            &&& plan.response.status == 201 ==> {
                &&& writes.len() + files.len() == plan.writes.len()
                &&& plan.writes.take(writes.len() as int) == writes
                &&& stores(root, plan.writes.skip(writes.len() as int), files)
                &&& plan.response == builder::created_view(
                    Some(
                        if first is Some {
                            first->0
                        } else {
                            site_path(files[0].filename->0)
                        },
                    ),
                )
            }
        }),
    decreases parts.len() - i,
{
    let plan = plan_parts(root, parts, i, writes, first);
    let files = files_of(parts.skip(i));
    if i == parts.len() {
        assert(parts.skip(i) =~= Seq::empty());
        reveal(Seq::filter);
        assert(files =~= Seq::empty());
        assert(plan.writes.take(writes.len() as int) =~= writes);
    } else {
        lemma_files_from(parts, i);
        if !(parts[i].filename is Some && parts[i].filename->0.len() > 0) {
            lemma_plan_stores(root, parts, i + 1, writes, first);
        } else {
            let name = parts[i].filename->0;
            let tail = files_of(parts.skip(i + 1));
            assert(files[0] == parts[i]);
            assert forall|k: int| 0 <= k < tail.len() implies #[trigger] tail[k] == files[k + 1] by {}
            if let Some(dest) = destination(root, name) {
                let w = WriteView { dest, data: parts[i].data };
                let next = writes.push(w);
                let named = if first is None {
                    Some(site_path(name))
                } else {
                    first
                };
                lemma_plan_stores(root, parts, i + 1, next, named);
                let all_tail = forall|k: int|
                    0 <= k < tail.len() ==> destination(
                        root,
                        (#[trigger] tail[k]).filename->0,
                    ) is Some;
                let all_placed = forall|k: int|
                    0 <= k < files.len() ==> destination(
                        root,
                        (#[trigger] files[k]).filename->0,
                    ) is Some;
                assert(all_placed == all_tail) by {
                    if all_tail {
                        assert forall|k: int| 0 <= k < files.len() implies destination(
                            root,
                            (#[trigger] files[k]).filename->0,
                        ) is Some by {
                            if k > 0 {
                                assert(files[k] == tail[k - 1]);
                            }
                        }
                    }
                    if all_placed {
                        assert forall|k: int| 0 <= k < tail.len() implies destination(
                            root,
                            (#[trigger] tail[k]).filename->0,
                        ) is Some by {
                            assert(tail[k] == files[k + 1]);
                        }
                    }
                }
                if plan.response.status == 201 {
                    let n = writes.len() as int;
                    assert(plan.writes.take(n) =~= plan.writes.take(n + 1).take(n));
                    assert(next.take(n) =~= writes);
                    assert(plan.writes.take(n + 1)[n] == plan.writes[n]);
                    let rest = plan.writes.skip(n);
                    let after = plan.writes.skip(n + 1);
                    assert forall|k: int|
                        #![trigger rest[k]]
                        #![trigger files[k]]
                        0 <= k < rest.len() implies rest[k].data == files[k].data && destination(
                        root,
                        files[k].filename->0,
                    ) == Some(rest[k].dest) by {
                        if k > 0 {
                            assert(rest[k] == after[k - 1]);
                            assert(files[k] == tail[k - 1]);
                        }
                    }
                }
            } else {
                assert(destination(root, files[0].filename->0) is None);
            }
        }
    }
}

/// Every file of a form is stored, in order, each with its own data at the place
/// of its own name, and nothing else is; and the answer is 201, with the path of
/// the first. Where there is no file, or one whose name leads out of the root,
/// the answer is 400.
pub proof fn lemma_files_stored(root: Seq<char>, parts: Seq<PartView>)
    ensures
        ({
            let plan = plan_parts(root, parts, 0, Seq::empty(), None);
            let files = files_of(parts);
            &&& plan.response.status == 201 <==> files.len() > 0 && forall|k: int|
                0 <= k < files.len() ==> destination(
                    root,
                    (#[trigger] files[k]).filename->0,
                ) is Some
            &&& plan.response.status == 201 || plan.response.status == 400
            &&& plan.response.status == 201 ==> stores(root, plan.writes, files) && value_of(
                plan.response.headers,
                "Location"@,
            ) == Some(seq!['/'] + sanitised(files[0].filename->0))
        }),
{
    let plan = plan_parts(root, parts, 0, Seq::empty(), None);
    lemma_plan_stores(root, parts, 0, Seq::empty(), None);
    assert(parts.skip(0) =~= parts);
    assert(plan.writes.skip(0) =~= plan.writes);
    if plan.response.status == 201 {
        let l = site_path(files_of(parts)[0].filename->0);
        lemma_created_location(l);
        reveal_strlit("/");
        assert("/"@ =~= seq!['/']);
    }
}

proof fn lemma_created_location(l: Seq<char>)
    ensures
        value_of(builder::created_view(Some(l)).headers, "Location"@) == Some(l),
        builder::created_view(Some(l)).status == 201,
{
    reveal_with_fuel(value_from, 3);
}

/// A file is stored under its own name in the root, where the name is one: it is
/// not empty, not made of dots, and holds no slash and no zero.
pub proof fn lemma_destination(root: Seq<char>, name: Seq<char>)
    requires
        path::rendered(path::normal(root)) == root,
        path::normal(root).names.len() > 0,
        root.len() > 0,
        path::plain_name(name),
        !name.contains('\\'),
        !name.contains('\0'),
    ensures
        destination(root, name) == Some(root + seq!['/'] + name),
        site_path(name) == seq!['/'] + name,
{
    lemma_sanitised(name);
    assert forall|i: int| 0 <= i < name.len() implies !unsafe_char(#[trigger] name[i]) by {
        assert(name.contains(name[i]));
    }
    reveal_strlit("/");
    assert("/"@ =~= seq!['/']);
    let ns = seq![name];
    assert(path::joined_names(ns) == name);
    assert(path::plain(ns)) by {
        assert forall|i: int| 0 <= i < ns.len() implies path::plain_name(#[trigger] ns[i]) by {}
    }
    path::lemma_leads_where_named(root, ns);
}

/// A raw upload is stored whole, under the last segment of its path, and under
/// `upload` where that is empty.
pub proof fn lemma_raw_stored(root: Seq<char>, dir: Seq<char>, name: Seq<char>, body: Seq<u8>)
    requires
        path::rendered(path::normal(root)) == root,
        path::normal(root).names.len() > 0,
        root.len() > 0,
        path::plain_name(name),
        !name.contains('\\'),
        !name.contains('\0'),
    ensures
        ({
            let plan = plan_raw(root, dir + seq!['/'] + name, body);
            &&& plan.writes == seq![WriteView { dest: root + seq!['/'] + name, data: body }]
            &&& plan.response.status == 201
            &&& value_of(plan.response.headers, "Location"@) == Some(seq!['/'] + name)
        }),
        ({
            let plan = plan_raw(root, dir + seq!['/'], body);
            &&& plan.writes == seq![WriteView { dest: root + "/upload"@, data: body }]
            &&& plan.response.status == 201
        }),
{
    let url = dir + seq!['/'] + name;
    text::lemma_after_last(url, '/');
    let n = dir.len() as int;
    assert(url[n] == '/');
    assert forall|j: int| n < j < url.len() implies url[j] != '/' by {
        assert(url[j] == name[j - n - 1]);
        assert(name.contains(name[j - n - 1]));
    }
    assert(text::after_last(url, '/') == n + 1);
    assert(url.skip(n + 1) =~= name);
    lemma_destination(root, name);
    lemma_created_location(seq!['/'] + name);
    let bare = dir + seq!['/'];
    assert(bare.last() == '/');
    assert(bare.skip(bare.len() as int) =~= Seq::empty());
    reveal_strlit("upload");
    reveal_strlit("/upload");
    reveal_strlit(".");
    reveal_strlit("..");
    assert(!"upload"@.contains('/') && !"upload"@.contains('\\') && !"upload"@.contains('\0'));
    lemma_destination(root, "upload"@);
    assert(root + seq!['/'] + "upload"@ =~= root + "/upload"@);
}

/// The boundary that a client gives is the one that is read, with quotation marks
/// around it or without.
pub proof fn lemma_boundary_reads_back(b: Seq<char>)
    requires
        b.len() > 0,
        !b.contains(';'),
        b[0] != '"',
        b.last() != '"',
        !text::is_white(b.last()),
    ensures
        boundary_of("multipart/form-data; boundary="@ + b) == Some(b),
        boundary_of("multipart/form-data; boundary=\""@ + b + "\""@) == Some(b),
{
    reveal_strlit("multipart/form-data; boundary=");
    reveal_strlit("multipart/form-data; boundary=\"");
    reveal_strlit("multipart/form-data");
    reveal_strlit("boundary=");
    reveal_strlit(" boundary=");
    reveal_strlit("\"");
    let start = "multipart/form-data"@;
    let quoted = seq!['"'] + b + seq!['"'];
    lemma_boundary_piece(b);
    assert(!quoted.contains(';')) by {
        if quoted.contains(';') {
            let j = choose|j: int| 0 <= j < quoted.len() && quoted[j] == ';';
            assert(b[j - 1] == ';');
        }
    }
    lemma_boundary_piece(quoted);
    assert(!start.contains(';'));
    assert("multipart/form-data; boundary="@ + b =~= start + seq![';'] + (" boundary="@ + b));
    assert("multipart/form-data; boundary=\""@ + b + "\""@ =~= start + seq![';'] + (
    " boundary="@ + quoted));
    text::lemma_split_on_parts(start, ';', " boundary="@ + b);
    text::lemma_split_on_parts(start, ';', " boundary="@ + quoted);
    assert(seq![start] + seq![" boundary="@ + b] =~= seq![start, " boundary="@ + b]);
    assert(seq![start] + seq![" boundary="@ + quoted] =~= seq![start, " boundary="@ + quoted]);
    assert(unquoted(b) == b);
    assert(quoted.drop_first() =~= b + seq!['"']);
    assert((b + seq!['"'])[0] == b[0]);
    assert((b + seq!['"']).drop_last() =~= b);
    reveal_with_fuel(strip_quotes_start, 2);
    reveal_with_fuel(strip_quotes_end, 2);
    assert(unquoted(quoted) == b);
}

proof fn lemma_boundary_piece(v: Seq<char>)
    requires
        v.len() > 0,
        !v.contains(';'),
        !text::is_white(v.last()),
    ensures
        text::split_on(" boundary="@ + v, ';') == seq![" boundary="@ + v],
        parameter(text::trim(" boundary="@ + v), "boundary="@) == Some(unquoted(v)),
{
    reveal_strlit("boundary=");
    reveal_strlit(" boundary=");
    let piece = " boundary="@ + v;
    if piece.contains(';') {
        let j = choose|j: int| 0 <= j < piece.len() && piece[j] == ';';
        if j >= 10 {
            assert(v[j - 10] == ';');
        }
    }
    text::lemma_split_on_parts(piece, ';', Seq::empty());
    let bare = "boundary="@ + v;
    assert(piece =~= seq![' '] + bare + Seq::<char>::empty());
    assert(bare.last() == v.last());
    text::lemma_trimmed(seq![' '], bare, Seq::empty());
    assert(bare.take(9) =~= "boundary="@);
    text::lemma_lower_start(bare, 9);
    assert(text::ascii_lower("boundary="@) =~= "boundary="@);
    assert(bare.skip(9) =~= v);
}

/// A file that a client sends in a form.
#[verifier::ext_equal]
pub struct SentFile {
    pub field: Seq<char>,
    pub name: Seq<char>,
    pub data: Seq<u8>,
}

/// The form in which files are sent.
pub open spec fn form_of(files: Seq<SentFile>) -> Seq<FormPart> {
    files.map_values(|f: SentFile| FormPart { head: disposition(f.field, f.name), data: f.data })
}

/// Whether a file can be sent in a form, and stored under its name.
pub open spec fn sendable_file(boundary: Seq<u8>, f: SentFile) -> bool {
    &&& path::plain_name(f.name)
    &&& !f.name.contains('\\')
    &&& !f.name.contains('\0')
    &&& quotable(f.field)
    &&& quotable(f.name)
    &&& f.name[0] != '"'
    &&& f.name.last() != '"'
    &&& part_fits(boundary, FormPart { head: disposition(f.field, f.name), data: f.data })
}

/// What a client uploads is what is stored: each file of a form is written in the
/// root under the name that the client gave it, with the data that it sent, all of
/// them in order and nothing else; and the answer is 201, with the path of the
/// first.
pub proof fn lemma_upload_stored(
    req: RequestView,
    route: RouteView,
    limit: usize,
    root: Seq<char>,
    b: Seq<char>,
    files: Seq<SentFile>,
)
    requires
        route.root == Some(root),
        root.len() > 0,
        path::rendered(path::normal(root)) == root,
        path::normal(root).names.len() > 0,
        b.len() > 0,
        !b.contains(';'),
        b[0] != '"',
        b.last() != '"',
        !text::is_white(b.last()),
        boundary_fits(encode_utf8(b)),
        files.len() > 0,
        forall|i: int|
            0 <= i < files.len() ==> sendable_file(encode_utf8(b), #[trigger] files[i]),
        header(req.headers, "content-type"@) == Some("multipart/form-data; boundary="@ + b),
        req.body == form(encode_utf8(b), form_of(files)),
        req.body.len() <= limit,
    ensures
        ({
            let plan = planned(req, route, limit);
            &&& plan.writes.len() == files.len()
            &&& forall|i: int|
                #![trigger plan.writes[i]]
                0 <= i < files.len() ==> plan.writes[i] == (WriteView {
                    dest: root + seq!['/'] + files[i].name,
                    data: files[i].data,
                })
            &&& plan.response.status == 201
            &&& value_of(plan.response.headers, "Location"@) == Some(seq!['/'] + files[0].name)
        }),
{
    let bytes = encode_utf8(b);
    let kind = "multipart/form-data; boundary="@ + b;
    let sent = form_of(files);
    reveal_strlit("multipart/form-data; boundary=");
    reveal_strlit("multipart/form-data");
    assert(kind.take(19) =~= "multipart/form-data"@);
    lemma_boundary_reads_back(b);
    assert forall|i: int| 0 <= i < sent.len() implies part_fits(bytes, #[trigger] sent[i]) by {
        assert(sendable_file(bytes, files[i]));
    }
    lemma_form_reads_back(bytes, sent);
    let parts = parts_read(sent);
    assert forall|i: int| 0 <= i < parts.len() implies #[trigger] parts[i] == (PartView {
        filename: Some(files[i].name),
        data: files[i].data,
    }) by {
        assert(sendable_file(bytes, files[i]));
        lemma_filename_reads_back(files[i].field, files[i].name, Seq::empty());
    }
    let stored = files_of(parts);
    let f = |p: PartView| p.filename is Some && p.filename->0.len() > 0;
    assert forall|i: int| 0 <= i < parts.len() implies f(#[trigger] parts[i]) by {
        assert(sendable_file(bytes, files[i]));
    }
    lemma_filter_all(parts, f);
    assert(stored == parts);
    assert forall|k: int| 0 <= k < stored.len() implies destination(
        root,
        (#[trigger] stored[k]).filename->0,
    ) == Some(root + seq!['/'] + files[k].name) && site_path(files[k].name) == seq!['/']
        + files[k].name by {
        assert(sendable_file(bytes, files[k]));
        lemma_destination(root, files[k].name);
    }
    lemma_files_stored(root, parts);
    let plan = planned(req, route, limit);
    assert(plan == plan_parts(root, parts, 0, Seq::empty(), None));
    assert(plan.response.status == 201);
    assert forall|i: int| #![trigger plan.writes[i]] 0 <= i < files.len() implies plan.writes[i]
        == (WriteView { dest: root + seq!['/'] + files[i].name, data: files[i].data }) by {
        assert(stored[i] == parts[i]);
        assert(destination(root, stored[i].filename->0) == Some(
            root + seq!['/'] + files[i].name,
        ));
    }
    assert(destination(root, stored[0].filename->0) is Some);
    lemma_sanitised(files[0].name);
    assert(sendable_file(bytes, files[0]));
    assert forall|i: int| 0 <= i < files[0].name.len() implies !unsafe_char(
        #[trigger] files[0].name[i],
    ) by {
        assert(files[0].name.contains(files[0].name[i]));
    }
}

proof fn lemma_filter_all(parts: Seq<PartView>, f: spec_fn(PartView) -> bool)
    requires
        forall|i: int| 0 <= i < parts.len() ==> f(#[trigger] parts[i]),
    ensures
        parts.filter(f) == parts,
    decreases parts.len(),
{
    reveal(Seq::filter);
    if parts.len() > 0 {
        let less = parts.drop_last();
        assert forall|i: int| 0 <= i < less.len() implies f(#[trigger] less[i]) by {
            assert(less[i] == parts[i]);
        }
        lemma_filter_all(less, f);
        assert(f(parts[parts.len() - 1]));
        assert(less.push(parts.last()) =~= parts);
    } else {
        assert(parts.filter(f) =~= parts);
    }
}

/// An upload needs a root, and may not be larger than the limit; a form is taken
/// apart, and any other body is stored as it is.
pub proof fn lemma_upload_taken(req: RequestView, route: RouteView, limit: usize, rest: Seq<char>)
    ensures
        route.root is None ==> planned(req, route, limit).response == builder::error_view(403, None),
        route.root is Some && req.body.len() > limit ==> planned(req, route, limit).response.status
            == 413 && planned(req, route, limit).writes.len() == 0,
        route.root is Some && req.body.len() <= limit && header(req.headers, "content-type"@) is None
            ==> planned(req, route, limit) == plan_raw(route.root->0, req.path, req.body),
        route.root is Some && req.body.len() <= limit && header(req.headers, "content-type"@)
            == Some("multipart/form-data"@ + rest) ==> planned(req, route, limit) == plan_multipart(
            route.root->0,
            req.body,
            "multipart/form-data"@ + rest,
        ),
        route.root is Some && req.body.len() <= limit && header(req.headers, "content-type"@) == Some(
            rest,
        ) && rest.len() > 0 && rest[0] != 'm' ==> planned(req, route, limit) == plan_raw(
            route.root->0,
            req.path,
            req.body,
        ),
{
    text::lemma_starts_and_ends("multipart/form-data"@ + rest, "multipart/form-data"@);
    reveal_strlit("multipart/form-data");
    reveal_strlit("application/octet-stream");
    let m = "multipart/form-data"@;
    let o = "application/octet-stream"@;
    assert(o.take(m.len() as int)[0] == 'a');
    if rest.len() >= m.len() && rest.len() > 0 {
        assert(rest.take(m.len() as int)[0] == rest[0]);
    }
}

/// A form without a boundary, without parts, with malformed parts or without
/// files is refused with 400, and nothing is written.
pub proof fn lemma_form_refused(root: Seq<char>, body: Seq<u8>, b: Seq<char>, kind: Seq<char>)
    ensures
        boundary_of("multipart/form-data"@) is None,
        plan_multipart(root, body, "multipart/form-data"@) == (PlanView {
            writes: Seq::empty(),
            response: builder::detail_view(400, "multipart/form-data missing boundary"@),
        }),
        boundary_of(kind) == Some(b) ==> match parts_of(body, encode_utf8(b)) {
            Err(e) => plan_multipart(root, body, kind) == (PlanView {
                writes: Seq::empty(),
                response: builder::detail_view(400, e),
            }),
            Ok(parts) => (parts.len() == 0 ==> plan_multipart(root, body, kind) == (PlanView {
                writes: Seq::empty(),
                response: builder::detail_view(400, "multipart body contained no file parts"@),
            })) && (parts.len() > 0 && (forall|i: int|
                0 <= i < parts.len() ==> (#[trigger] parts[i]).filename is None) ==> plan_multipart(
                root,
                body,
                kind,
            ) == (PlanView {
                writes: Seq::empty(),
                response: builder::detail_view(400, "no uploadable file parts found"@),
            })),
        },
{
    reveal_strlit("multipart/form-data");
    let m = "multipart/form-data"@;
    assert forall|i: int| 0 <= i < m.len() implies m[i] != ';' by {}
    text::lemma_split_on_parts(m, ';', Seq::empty());
    assert(boundary_of(m) is None);
    if boundary_of(kind) == Some(b) {
        if let Ok(parts) = parts_of(body, encode_utf8(b)) {
            if forall|i: int| 0 <= i < parts.len() ==> (#[trigger] parts[i]).filename is None {
                lemma_no_files(root, parts, 0);
            }
        }
    }
}

proof fn lemma_no_files(root: Seq<char>, parts: Seq<PartView>, i: int)
    requires
        0 <= i <= parts.len(),
        forall|k: int| 0 <= k < parts.len() ==> (#[trigger] parts[k]).filename is None,
    ensures
        plan_parts(root, parts, i, Seq::empty(), None) == (PlanView {
            writes: Seq::empty(),
            response: builder::detail_view(400, "no uploadable file parts found"@),
        }),
    decreases parts.len() - i,
{
    if i < parts.len() {
        assert(parts[i].filename is None);
        lemma_no_files(root, parts, i + 1);
    }
}

/// The name of a parameter is read whatever the case of its letters, and its
/// value without the quotes around it.
pub proof fn lemma_parameter(word: Seq<char>, value: Seq<char>, start: Seq<char>)
    requires
        is_ascii_chars(word),
        text::ascii_lower(start) == start,
        text::equal_ignoring_case(word, start),
    ensures
        parameter(word + value, start) == Some(unquoted(value)),
{
    let s = word + value;
    let n = word.len() as int;
    assert(text::ascii_lower(word).len() == n);
    assert(s.take(n) =~= word);
    text::lemma_lower_start(s, n);
    assert(start.len() == n);
    assert(s.skip(n) =~= value);
}

/// All the quotes around a value are left out, and none within it.
pub proof fn lemma_unquoted(before: nat, s: Seq<char>, after: nat)
    requires
        s.len() > 0,
        s[0] != '"',
        s.last() != '"',
    ensures
        unquoted(Seq::new(before, |i: int| '"') + s + Seq::new(after, |i: int| '"')) == s,
    decreases before + after,
{
    let t = Seq::new(before, |i: int| '"') + s + Seq::new(after, |i: int| '"');
    if before > 0 {
        lemma_unquoted((before - 1) as nat, s, after);
        assert(t[0] == '"');
        assert(t.drop_first() =~= Seq::new((before - 1) as nat, |i: int| '"') + s + Seq::new(
            after,
            |i: int| '"',
        ));
    } else {
        assert(t[0] == s[0]);
        assert(strip_quotes_start(t) == t);
        lemma_quotes_behind(s, after);
        assert(t =~= s + Seq::new(after, |i: int| '"'));
    }
}

proof fn lemma_quotes_behind(s: Seq<char>, after: nat)
    requires
        s.len() > 0,
        s.last() != '"',
    ensures
        strip_quotes_end(s + Seq::new(after, |i: int| '"')) == s,
    decreases after,
{
    let t = s + Seq::new(after, |i: int| '"');
    if after > 0 {
        lemma_quotes_behind(s, (after - 1) as nat);
        assert(t.last() == '"');
        assert(t.drop_last() =~= s + Seq::new((after - 1) as nat, |i: int| '"'));
    } else {
        assert(t =~= s);
    }
}

/// An empty file name is passed over, and so is what is no file name; a header
/// that does not begin as it should is passed over too.
pub proof fn lemma_passed_over(pieces: Seq<Seq<char>>, lines: Seq<Seq<char>>, i: int, v: Seq<char>)
    ensures
        0 <= i < pieces.len() && text::trim(pieces[i]) == "filename=\"\""@ ==> first_filename(
            pieces,
            i,
        ) == first_filename(pieces, i + 1),
        0 <= i < pieces.len() && parameter(text::trim(pieces[i]), "filename="@) is None
            ==> first_filename(pieces, i) == first_filename(pieces, i + 1),
        0 <= i < pieces.len() && v.len() > 0 && parameter(text::trim(pieces[i]), "filename="@)
            == Some(v) ==> first_filename(pieces, i) == Some(v),
        0 <= i < lines.len() && lines[i].len() > 0 && is_ascii_chars(lines[i].take(1))
            && lines[i][0] != 'c' && lines[i][0] != 'C' ==> filename_in(lines, i) == filename_in(
            lines,
            i + 1,
        ),
{
    reveal_strlit("filename=\"\"");
    reveal_strlit("filename=");
    let s = "filename=\"\""@;
    let start = "filename="@;
    let two = seq!['"', '"'];
    assert(s =~= start + two);
    assert(text::ascii_lower(start) =~= start);
    assert(is_ascii_chars(start));
    lemma_parameter(start, two, start);
    reveal_with_fuel(strip_quotes_start, 3);
    assert(two.drop_first() =~= seq!['"']);
    assert(seq!['"'].drop_first() =~= Seq::empty());
    assert(strip_quotes_start(two) =~= Seq::empty());
    assert(unquoted(two).len() == 0);
    if 0 <= i < lines.len() && lines[i].len() > 0 && is_ascii_chars(lines[i].take(1)) {
        reveal_strlit("content-disposition:");
        text::lemma_lower_start(lines[i], 1);
        let low = text::lower(lines[i]);
        assert(low.take(1)[0] == text::ascii_lower_char(lines[i][0]));
        if low.len() >= 20 {
            assert(low.take(20)[0] == low[0]);
            assert(low.take(1)[0] == low[0]);
        }
    }
}

/// The data of a last part that nothing ends are all the bytes that are there. A
/// part without the end of its headers is refused, and so are headers that are no
/// text.
pub proof fn lemma_unended_part(boundary: Seq<u8>, head: Seq<u8>, data: Seq<u8>)
    requires
        text::find_seq(head + double_crlf(), double_crlf(), 0) == Some(head.len() as int),
        text::find_seq(data, seq![13u8, 10, 45, 45] + boundary, 0) is None,
    ensures
        ({
            let body = seq![45u8, 45] + boundary + seq![13u8, 10] + (head + double_crlf() + data);
            &&& valid_utf8(head) ==> parts_of(body, boundary) == Ok::<Seq<PartView>, Seq<char>>(
                seq![
                    PartView {
                        filename: filename_in(text::text_lines(decode_utf8(head)), 0),
                        data,
                    },
                ],
            )
            &&& !valid_utf8(head) ==> parts_of(body, boundary) == Err::<Seq<PartView>, Seq<char>>(
                "multipart header is not UTF-8"@,
            )
        }),
        text::find_seq(head, double_crlf(), 0) is None ==> parts_of(
            seq![45u8, 45] + boundary + seq![13u8, 10] + head,
            boundary,
        ) == Err::<Seq<PartView>, Seq<char>>(
            "malformed multipart: missing part header terminator"@,
        ),
{
    let line = delimiter_line(boundary);
    let dc = double_crlf();
    assert(line =~= seq![45u8, 45] + boundary + seq![13u8, 10]);
    let body = line + (head + dc + data);
    let n = line.len() as int;
    assert(body.subrange(0, n) =~= line);
    text::lemma_find_seq_is(body, line, 0, 0);
    assert(body.skip(n) =~= head + dc + data);
    lemma_found_behind(body, n, head, dc, data);
    let start = n + head.len() + 4;
    assert(body.skip(start) =~= data);
    let pe = part_end(boundary);
    assert(pe =~= seq![13u8, 10, 45, 45] + boundary);
    text::lemma_find_seq_from(body, pe, start);
    assert(body.subrange(start, body.len() as int) =~= data);
    let end = body.len() as int;
    text::lemma_find_seq(body, line, end);
    text::lemma_find_seq(body, pe, start);
    if let Some(i) = text::find_seq(body, pe, start) {
        text::lemma_find_seq(data, pe, 0);
        assert(body.subrange(i, i + pe.len()) =~= data.subrange(i - start, i - start + pe.len()));
        assert(text::match_at(data, pe, i - start));
    }
    if valid_utf8(head) {
        let part = PartView {
            filename: filename_in(text::text_lines(decode_utf8(head)), 0),
            data,
        };
        assert(parts_from(body, boundary, end) == Ok::<Seq<PartView>, Seq<char>>(Seq::empty()));
        assert(seq![part] + Seq::<PartView>::empty() =~= seq![part]);
    }
    let short = line + head;
    assert(short.subrange(0, n) =~= line);
    text::lemma_find_seq_is(short, line, 0, 0);
    if text::find_seq(head, dc, 0) is None {
        text::lemma_find_seq(short, dc, n);
        if let Some(i) = text::find_seq(short, dc, n) {
            text::lemma_find_seq(head, dc, 0);
            assert(short.subrange(i, i + 4) =~= head.subrange(i - n, i - n + 4));
            assert(text::match_at(head, dc, i - n));
        }
    }
}

/// A header that says nothing of a file is passed over, though it is the one that
/// could.
pub proof fn lemma_no_filename(lines: Seq<Seq<char>>, i: int)
    requires
        0 <= i < lines.len(),
        forall|k: int|
            0 <= k < text::split_on(lines[i], ';').len() ==> parameter(
                text::trim(#[trigger] text::split_on(lines[i], ';')[k]),
                "filename="@,
            ) is None,
    ensures
        filename_in(lines, i) == filename_in(lines, i + 1),
{
    lemma_none_named(text::split_on(lines[i], ';'), 0);
}

proof fn lemma_none_named(pieces: Seq<Seq<char>>, i: int)
    requires
        0 <= i,
        forall|k: int|
            0 <= k < pieces.len() ==> parameter(
                text::trim(#[trigger] pieces[k]),
                "filename="@,
            ) is None,
    ensures
        first_filename(pieces, i) is None,
    decreases pieces.len() - i,
{
    if i < pieces.len() {
        assert(parameter(text::trim(pieces[i]), "filename="@) is None);
        lemma_none_named(pieces, i + 1);
    }
}

} // verus!
