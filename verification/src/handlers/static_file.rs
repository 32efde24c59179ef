//! Files and directories as they are on disk.

use vstd::prelude::*;
use vstd::string::*;
use vstd::utf8::encode_utf8;

use crate::config::types::{RouteConfig, RouteView};
use crate::handlers;
use crate::handlers::listing;
use crate::handlers::listing::{DirEntry, EntryView};
use crate::handlers::{FileKind, IoFailure, Observed, ObservedView};
use crate::http::request::types::{Request, RequestView};
use crate::http::response::builder;
use crate::http::response::types::{value_of, Response, ResponseView};
use crate::text;
use crate::utils::mime;
use crate::utils::path;

verus! {

// ---------------------------------------------------------------------------
// What to do
// ---------------------------------------------------------------------------

/// What is to be done to serve a path.
#[derive(Debug)]
pub enum ServeStep {
    /// Answer at once.
    Respond(Response),
    /// Read this file, and answer as [`serve_file`] says.
    ReadFile(String),
    /// See whether the index of this directory is a file, and go on as
    /// [`serve_index`] says.
    TryIndex { dir: String, index: String },
    /// Read the entries of this directory, and answer as
    /// [`serve_directory_listing`] says.
    List(String),
}

/// A [`ServeStep`] with views for its parts.
#[verifier::ext_equal]
pub enum ServeView {
    Respond(ResponseView),
    ReadFile(Seq<char>),
    TryIndex { dir: Seq<char>, index: Seq<char> },
    List(Seq<char>),
}

impl View for ServeStep {
    type V = ServeView;

    open spec fn view(&self) -> ServeView {
        match self {
            ServeStep::Respond(r) => ServeView::Respond(r@),
            ServeStep::ReadFile(p) => ServeView::ReadFile(p@),
            ServeStep::TryIndex { dir, index } => ServeView::TryIndex { dir: dir@, index: index@ },
            ServeStep::List(p) => ServeView::List(p@),
        }
    }
}

/// What is to be done about a place, by what stands there.
pub open spec fn step_at(
    place: Seq<char>,
    kind: FileKind,
    route: RouteView,
    page_404: Option<Seq<char>>,
) -> ServeView {
    match kind {
        FileKind::File => ServeView::ReadFile(place),
        FileKind::Directory => ServeView::TryIndex {
            dir: place,
            index: path::joined(place, route.index()),
        },
        FileKind::Other => ServeView::Respond(builder::error_view(404, page_404)),
    }
}

/// What is to be done about a request.
pub open spec fn step_for(
    req: RequestView,
    route: RouteView,
    page_404: Option<Seq<char>>,
    seen: ObservedView,
) -> ServeView {
    match route.root {
        None => ServeView::Respond(builder::error_view(404, page_404)),
        Some(root) => match handlers::place(root, req.path, seen) {
            None => ServeView::Respond(builder::error_view(404, page_404)),
            Some(p) => step_at(p, seen.kind, route, page_404),
        },
    }
}

/// Serves a request for a file or a directory:
///
/// 1. A path that leads out of the root, or to nothing, is not found.
/// 2. A file is served.
/// 3. Of a directory, the index file is served; failing that its entries are
///    listed, if the route allows it; failing that it is forbidden.
pub fn serve(
    request: &Request,
    route: &RouteConfig,
    error_page_404: Option<&str>,
    seen: &Observed,
) -> (r: ServeStep)
    ensures
        r@ == step_for(request@, route@, text::opt_str(error_page_404), seen@),
{
    let root: &str = match &route.root {
        Some(s) => s.as_str(),
        None => {
            return ServeStep::Respond(builder::not_found(error_page_404));
        },
    };
    match handlers::locate(root, request.path.as_str(), seen) {
        Some(p) => serve_path(p.as_str(), seen.kind, route, error_page_404),
        None => ServeStep::Respond(builder::not_found(error_page_404)),
    }
}

/// Serves a place on disk, by what stands there.
pub fn serve_path(
    fs_path: &str,
    kind: FileKind,
    route: &RouteConfig,
    error_page_404: Option<&str>,
) -> (r: ServeStep)
    ensures
        r@ == step_at(fs_path@, kind, route@, text::opt_str(error_page_404)),
{
    match kind {
        FileKind::File => ServeStep::ReadFile(text::owned(fs_path)),
        FileKind::Directory => ServeStep::TryIndex {
            dir: text::owned(fs_path),
            index: path::join(fs_path, route.effective_index()),
        },
        FileKind::Other => ServeStep::Respond(builder::not_found(error_page_404)),
    }
}

/// What is to be done about a directory, once it is known whether its index is
/// a file.
pub open spec fn step_in_directory(
    dir: Seq<char>,
    index: Seq<char>,
    index_is_file: bool,
    route: RouteView,
) -> ServeView {
    if index_is_file {
        ServeView::ReadFile(index)
    } else if route.directory_listing {
        ServeView::List(dir)
    } else {
        ServeView::Respond(builder::error_view(403, None))
    }
}

/// Serves a directory, once it is known whether its index is a file.
pub fn serve_index(dir: String, index: String, index_is_file: bool, route: &RouteConfig) -> (r:
    ServeStep)
    ensures
        r@ == step_in_directory(dir@, index@, index_is_file, route@),
{
    if index_is_file {
        ServeStep::ReadFile(index)
    } else if route.directory_listing {
        ServeStep::List(dir)
    } else {
        ServeStep::Respond(builder::forbidden(None))
    }
}

// ---------------------------------------------------------------------------
// Files
// ---------------------------------------------------------------------------

/// The answer once a file was to be read.
pub open spec fn file_view(place: Seq<char>, read: Result<Seq<u8>, IoFailure>) -> ResponseView {
    match read {
        Ok(contents) => builder::typed(
            200,
            mime::media_type(text::lower(mime::extension(place))),
            contents,
        ),
        Err(IoFailure::NotFound) => builder::error_view(404, None),
        Err(IoFailure::PermissionDenied) => builder::error_view(403, None),
        Err(_) => builder::error_view(500, None),
    }
}

/// The view of what came of reading a file.
pub open spec fn read_view(read: Result<Vec<u8>, IoFailure>) -> Result<Seq<u8>, IoFailure> {
    match read {
        Ok(v) => Ok(v@),
        Err(e) => Err(e),
    }
}

/// The answer once a file was to be read.
pub fn serve_file(fs_path: &str, read: Result<Vec<u8>, IoFailure>) -> (r: Response)
    ensures
        r@ == file_view(fs_path@, read_view(read)),
{
    match read {
        Ok(contents) => builder::ok(contents, mime::from_path(fs_path)),
        Err(IoFailure::NotFound) => builder::not_found(None),
        Err(IoFailure::PermissionDenied) => builder::forbidden(None),
        Err(_) => builder::internal_server_error(None),
    }
}

// ---------------------------------------------------------------------------
// Directories
// ---------------------------------------------------------------------------

/// The link text of an entry: directories end in a slash.
pub open spec fn link(e: EntryView) -> Seq<char> {
    if e.is_dir {
        e.name + "/"@
    } else {
        e.name
    }
}

/// The size of an entry.
pub open spec fn size_column(e: EntryView) -> Seq<char> {
    if e.is_dir {
        "-"@
    } else {
        match e.size {
            Some(n) => size_text(n),
            None => "?"@,
        }
    }
}

/// The row of an entry.
pub open spec fn row(e: EntryView) -> Seq<char> {
    "<tr><td><a href=\""@ + link(e) + "\">"@ + link(e) + "</a></td><td>"@ + size_column(e)
        + "</td></tr>\n"@
}

/// The rows of entries.
pub open spec fn rows(s: Seq<EntryView>) -> Seq<char>
    decreases s.len(),
{
    if s.len() == 0 {
        Seq::empty()
    } else {
        rows(s.drop_last()) + row(s.last())
    }
}

/// The page with the entries of a directory, by name.
pub open spec fn listing_page(dir: Seq<char>, entries: Seq<EntryView>) -> Seq<char> {
    "<!DOCTYPE html>\n<html><head><title>Index of "@ + dir
        + "</title><style>body{font-family:monospace}td{padding:0 1em}</style></head>\n<body><h1>Index of "@
        + dir + "</h1>\n<table><tr><th>Name</th><th>Size</th></tr>\n"@
        + "<tr><td><a href=\"../\">../</a></td><td>-</td></tr>\n"@ + rows(
        listing::in_order(entries, false),
    ) + "</table></body></html>\n"@
}

/// The view of optional entries.
pub open spec fn opt_entries(o: Option<Vec<DirEntry>>) -> Option<Seq<EntryView>> {
    match o {
        Some(v) => Some(listing::entry_views(v@)),
        None => None,
    }
}

/// The answer once the entries of a directory were to be read.
pub open spec fn listing_view(dir: Seq<char>, entries: Option<Seq<EntryView>>) -> ResponseView {
    match entries {
        None => builder::error_view(403, None),
        Some(s) => builder::html(200, encode_utf8(listing_page(dir, s))),
    }
}

fn push_row(s: &mut String, e: &DirEntry)
    ensures
        final(s)@ == old(s)@ + row(e@),
{
    let ghost before = s@;
    s.append("<tr><td><a href=\"");
    s.append(e.name.as_str());
    if e.is_dir {
        s.append("/");
    }
    s.append("\">");
    s.append(e.name.as_str());
    if e.is_dir {
        s.append("/");
    }
    s.append("</a></td><td>");
    if e.is_dir {
        s.append("-");
    } else {
        match &e.size {
            Some(n) => s.append(format_size(*n).as_str()),
            None => s.append("?"),
        }
    }
    s.append("</td></tr>\n");
    assert(s@ =~= before + row(e@));
}

/// The answer once the entries of a directory were to be read: a page that
/// lists them by name.
pub fn serve_directory_listing(dir: &str, entries: Option<Vec<DirEntry>>) -> (r: Response)
    ensures
        r@ == listing_view(dir@, opt_entries(entries)),
{
    let entries = match entries {
        Some(v) => v,
        None => {
            return builder::forbidden(None);
        },
    };
    let ghost all = listing::in_order(listing::entry_views(entries@), false);
    let sorted = listing::sort_entries(entries, false);
    let mut body = text::joined("<!DOCTYPE html>\n<html><head><title>Index of ", dir);
    body.append(
        "</title><style>body{font-family:monospace}td{padding:0 1em}</style></head>\n<body><h1>Index of ",
    );
    body.append(dir);
    body.append("</h1>\n<table><tr><th>Name</th><th>Size</th></tr>\n");
    body.append("<tr><td><a href=\"../\">../</a></td><td>-</td></tr>\n");
    let ghost lead = body@;
    let mut i: usize = 0;
    proof {
        assert(all.take(0) =~= Seq::empty());
        assert(lead + rows(all.take(0)) =~= lead);
    }
    while i < sorted.len()
        invariant
            i <= sorted@.len(),
            all == listing::entry_views(sorted@),
            body@ == lead + rows(all.take(i as int)),
        decreases sorted@.len() - i,
    {
        push_row(&mut body, &sorted[i]);
        proof {
            let t = all.take(i + 1);
            assert(t.last() == sorted@[i as int]@);
            assert(t.drop_last() =~= all.take(i as int));
            assert(body@ =~= lead + rows(t));
        }
        i = i + 1;
    }
    assert(all.take(i as int) =~= all);
    body.append("</table></body></html>\n");
    builder::ok(vstd::slice::slice_to_vec(body.as_str().as_bytes()), "text/html; charset=utf-8")
}

/// How the size of a file is written in a listing: in mebibytes, kibibytes or
/// bytes, in the largest of them that it has one of.
pub open spec fn size_text(bytes: u64) -> Seq<char> {
    if bytes < 1024 {
        text::decimal(bytes as nat) + " B"@
    } else if bytes < 1_048_576 {
        listing::scaled(bytes, 1024, "KiB"@)
    } else {
        listing::scaled(bytes, 1_048_576, "MiB"@)
    }
}

/// How the size of a file is written in a listing.
pub fn format_size(bytes: u64) -> (r: String)
    ensures
        r@ == size_text(bytes),
{
    if bytes < 1024 {
        listing::bytes_text(bytes)
    } else if bytes < 1_048_576 {
        listing::scaled_text(bytes, 1024, "KiB")
    } else {
        listing::scaled_text(bytes, 1_048_576, "MiB")
    }
}

// ---------------------------------------------------------------------------
// Laws
// ---------------------------------------------------------------------------

/// Nothing is served but what lies at or under the root of the route: whatever
/// is read or listed for a request is at the place its path resolves to, or is
/// the index file of the directory there.
pub proof fn lemma_serves_under_root(
    req: RequestView,
    route: RouteView,
    page_404: Option<Seq<char>>,
    seen: ObservedView,
)
    ensures
        match step_for(req, route, page_404, seen) {
            ServeView::ReadFile(p) => seen.real_root matches Some(root) && path::under(
                path::parts(p),
                path::parts(root),
            ),
            ServeView::TryIndex { dir, index } => (seen.real_root matches Some(root)
                && path::under(path::parts(dir), path::parts(root))) && index == path::joined(
                dir,
                route.index(),
            ),
            ServeView::List(p) => false,
            ServeView::Respond(r) => r.status == 404,
        },
{
}

/// A directory is listed only where the route allows it, and only where it has
/// no index file.
pub proof fn lemma_lists_only_if_allowed(
    dir: Seq<char>,
    index: Seq<char>,
    index_is_file: bool,
    route: RouteView,
)
    ensures
        step_in_directory(dir, index, index_is_file, route) is List <==> route.directory_listing
            && !index_is_file,
{
}

/// A place under the root is served by what stands there: a file is read, the
/// index of a directory is looked for behind the directory's own place, and where
/// nothing stands the answer is 404. So it is where the place lies elsewhere, or
/// where the route has no root.
pub proof fn lemma_served(
    req: RequestView,
    route: RouteView,
    page_404: Option<Seq<char>>,
    at: path::Parts,
    more: Seq<Seq<char>>,
    other: path::Parts,
    kind: FileKind,
)
    requires
        path::plain(at.names),
        path::plain(more),
        path::plain(other.names),
        at.rooted,
        other.rooted,
        other.names.len() < at.names.len() || exists|i: int|
            0 <= i < at.names.len() && i < other.names.len() && #[trigger] other.names[i]
                != at.names[i],
    ensures
        ({
            let here = path::rendered(path::Parts { rooted: true, names: at.names + more });
            let seen = ObservedView { real_root: Some(path::rendered(at)), real_path: Some(here), kind };
            let astray = ObservedView { real_path: Some(path::rendered(other)), ..seen };
            let step = step_for(req, route, page_404, seen);
            &&& route.root is Some && kind == FileKind::File ==> step == ServeView::ReadFile(here)
            &&& route.root is Some && kind == FileKind::Directory ==> step == ServeView::TryIndex {
                dir: here,
                index: path::joined(here, route.index()),
            }
            &&& route.root is Some && kind == FileKind::Other ==> step == ServeView::Respond(
                builder::error_view(404, page_404),
            )
            &&& route.root is None ==> step == ServeView::Respond(builder::error_view(404, page_404))
            &&& step_for(req, route, page_404, astray) == ServeView::Respond(
                builder::error_view(404, page_404),
            )
        }),
{
    if let Some(root) = route.root {
        path::lemma_on_disk(root, req.path, at, more, other);
    }
}

/// In a directory, the index is read where it is a file; else the entries are
/// listed where the route allows it, and the answer is 403 where it does not.
pub proof fn lemma_in_directory(dir: Seq<char>, index: Seq<char>, route: RouteView)
    ensures
        step_in_directory(dir, index, true, route) == ServeView::ReadFile(index),
        route.directory_listing ==> step_in_directory(dir, index, false, route) == ServeView::List(
            dir,
        ),
        !route.directory_listing ==> step_in_directory(dir, index, false, route)
            == ServeView::Respond(builder::error_view(403, None)),
{
}

/// A file that was read is sent byte for byte, with the media type of what
/// follows the last full stop of its name. One that is gone is answered with 404,
/// one that may not be read with 403, and any other failure with 500.
pub proof fn lemma_file_sent(stem: Seq<char>, ext: Seq<char>, contents: Seq<u8>)
    requires
        !ext.contains('.'),
    ensures
        ({
            let r = file_view(stem + seq!['.'] + ext, Ok(contents));
            &&& r.status == 200
            &&& r.body == contents
            &&& value_of(r.headers, "Content-Type"@) == Some(mime::media_type(text::lower(ext)))
        }),
        file_view(stem, Err(IoFailure::NotFound)).status == 404,
        file_view(stem, Err(IoFailure::PermissionDenied)).status == 403,
        file_view(stem, Err(IoFailure::NotEmpty)).status == 500,
        file_view(stem, Err(IoFailure::Other)).status == 500,
{
    mime::lemma_extension(stem, ext);
    builder::lemma_typed(200, mime::media_type(text::lower(ext)), contents);
}

/// A listing has a row for each entry, in the order of the entries, with a link
/// to its name, behind which a directory has a slash, and with its size.
pub proof fn lemma_rows(a: Seq<EntryView>, e: EntryView, b: Seq<EntryView>)
    ensures
        rows(Seq::empty()) == Seq::<char>::empty(),
        ({
            let shown = if e.is_dir {
                e.name + seq!['/']
            } else {
                e.name
            };
            let size = if e.is_dir {
                seq!['-']
            } else if e.size is None {
                seq!['?']
            } else {
                size_text(e.size->0)
            };
            rows(a + seq![e] + b) == rows(a) + ("<tr><td><a href=\""@ + shown + "\">"@ + shown
                + "</a></td><td>"@ + size + "</td></tr>\n"@) + rows(b)
        }),
    decreases b.len(),
{
    reveal_strlit("/");
    reveal_strlit("-");
    reveal_strlit("?");
    assert("/"@ =~= seq!['/']);
    assert("-"@ =~= seq!['-']);
    assert("?"@ =~= seq!['?']);
    let s = a + seq![e] + b;
    if b.len() == 0 {
        assert(s.drop_last() =~= a);
        assert(s.last() == e);
        assert(rows(s) =~= rows(a) + row(e) + rows(b));
    } else {
        let rest = b.drop_last();
        lemma_rows(a, e, rest);
        assert(s.drop_last() =~= a + seq![e] + rest);
        assert(s.last() == b.last());
        assert(rows(s) =~= rows(a) + row(e) + rows(b));
    }
}

/// The page of a listing names the directory, links to the one above it, and
/// then has its rows, by name; a directory that cannot be read is answered with
/// 403.
pub proof fn lemma_listing(dir: Seq<char>, entries: Seq<EntryView>)
    ensures
        ({
            let r = listing_view(dir, Some(entries));
            let sorted = listing::in_order(entries, false);
            &&& r.status == 200
            &&& value_of(r.headers, "Content-Type"@) == Some("text/html; charset=utf-8"@)
            &&& r.body == encode_utf8(
                "<!DOCTYPE html>\n<html><head><title>Index of "@ + dir
                    + "</title><style>body{font-family:monospace}td{padding:0 1em}</style></head>\n<body><h1>Index of "@
                    + dir + "</h1>\n<table><tr><th>Name</th><th>Size</th></tr>\n"@
                    + "<tr><td><a href=\"../\">../</a></td><td>-</td></tr>\n"@ + rows(sorted)
                    + "</table></body></html>\n"@,
            )
            &&& sorted.to_multiset() == entries.to_multiset()
            &&& forall|i: int, j: int|
                0 <= i < j < sorted.len() ==> listing::text_le(
                    (#[trigger] sorted[i]).name,
                    (#[trigger] sorted[j]).name,
                )
        }),
        listing_view(dir, None).status == 403,
{
    listing::lemma_in_order(entries, false);
    builder::lemma_typed(200, "text/html; charset=utf-8"@, encode_utf8(listing_page(dir, entries)));
}

/// Sizes below 1024 bytes are given in bytes, below 1024 times that in KiB, and
/// from there on in MiB.
pub proof fn lemma_size(bytes: u64)
    ensures
        bytes < 1024 ==> size_text(bytes) == text::decimal(bytes as nat) + seq![' ', 'B'],
        1024 <= bytes < 1024 * 1024 ==> size_text(bytes) == listing::scaled(
            bytes,
            1024,
            seq!['K', 'i', 'B'],
        ),
        bytes >= 1024 * 1024 ==> size_text(bytes) == listing::scaled(
            bytes,
            1_048_576,
            seq!['M', 'i', 'B'],
        ),
{
    reveal_strlit(" B");
    reveal_strlit("KiB");
    reveal_strlit("MiB");
    assert(" B"@ =~= seq![' ', 'B']);
    assert("KiB"@ =~= seq!['K', 'i', 'B']);
    assert("MiB"@ =~= seq!['M', 'i', 'B']);
}

} // verus!
