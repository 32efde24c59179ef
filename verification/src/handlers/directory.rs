//! Listings of directories, with directories before files.

use vstd::prelude::*;
use vstd::string::*;
use vstd::utf8::encode_utf8;

use crate::config::types::{RouteConfig, RouteView};
use crate::handlers;
use crate::handlers::listing;
use crate::handlers::listing::{DirEntry, EntryView};
use crate::handlers::static_file::opt_entries;
use crate::handlers::{FileKind, Observed, ObservedView};
use crate::http::request::types::{Request, RequestView};
use crate::http::response::builder;
use crate::http::response::types::{value_of, Response, ResponseView};
use crate::text;

verus! {

/// What is to be done about a listing.
#[derive(Debug)]
pub enum ListStep {
    /// Answer at once.
    Respond(Response),
    /// Read the entries of this directory, and answer as [`render_listing`]
    /// says.
    List(String),
}

/// A [`ListStep`] with views for its parts.
#[verifier::ext_equal]
pub enum ListView {
    Respond(ResponseView),
    List(Seq<char>),
}

impl View for ListStep {
    type V = ListView;

    open spec fn view(&self) -> ListView {
        match self {
            ListStep::Respond(r) => ListView::Respond(r@),
            ListStep::List(p) => ListView::List(p@),
        }
    }
}

/// What is to be done about a request for a listing.
pub open spec fn step_for(req: RequestView, route: RouteView, seen: ObservedView) -> ListView {
    if !route.directory_listing {
        ListView::Respond(builder::error_view(403, None))
    } else {
        match route.root {
            None => ListView::Respond(builder::error_view(404, None)),
            Some(root) => match handlers::place(root, req.path, seen) {
                None => ListView::Respond(builder::error_view(404, None)),
                Some(p) => if seen.kind == FileKind::Directory {
                    ListView::List(p)
                } else {
                    ListView::Respond(builder::error_view(404, None))
                },
            },
        }
    }
}

/// Serves a listing: forbidden where the route does not allow listings, and not
/// found where there is no directory.
pub fn serve(request: &Request, route: &RouteConfig, seen: &Observed) -> (r: ListStep)
    ensures
        r@ == step_for(request@, route@, seen@),
{
    if !route.directory_listing {
        return ListStep::Respond(builder::forbidden(None));
    }
    let root: &str = match &route.root {
        Some(s) => s.as_str(),
        None => {
            return ListStep::Respond(builder::not_found(None));
        },
    };
    match handlers::locate(root, request.path.as_str(), seen) {
        Some(p) => if seen.kind == FileKind::Directory {
            ListStep::List(p)
        } else {
            ListStep::Respond(builder::not_found(None))
        },
        None => ListStep::Respond(builder::not_found(None)),
    }
}

// ---------------------------------------------------------------------------
// The page
// ---------------------------------------------------------------------------

/// A character as it stands in HTML.
pub open spec fn escaped_char(c: char) -> Seq<char> {
    if c == '<' {
        "&lt;"@
    } else if c == '>' {
        "&gt;"@
    } else if c == '&' {
        "&amp;"@
    } else if c == '"' {
        "&quot;"@
    } else {
        seq![c]
    }
}

/// A text as it stands in HTML.
pub open spec fn escaped(s: Seq<char>) -> Seq<char>
    decreases s.len(),
{
    if s.len() == 0 {
        Seq::empty()
    } else {
        escaped(s.drop_last()) + escaped_char(s.last())
    }
}

/// A string as it stands in HTML.
pub fn html_escape(s: &str) -> (r: String)
    ensures
        r@ == escaped(s@),
{
    let v = text::chars_of(s);
    let mut out = String::new();
    let mut i: usize = 0;
    while i < v.len()
        invariant
            i <= v@.len(),
            v@ == s@,
            out@ == escaped(s@.take(i as int)),
        decreases v@.len() - i,
    {
        let c: char = v[i];
        if c == '<' {
            out.append("&lt;");
        } else if c == '>' {
            out.append("&gt;");
        } else if c == '&' {
            out.append("&amp;");
        } else if c == '"' {
            out.append("&quot;");
        } else {
            out.push(c);
        }
        proof {
            let t = s@.take(i + 1);
            assert(t.last() == c);
            assert(t.drop_last() =~= s@.take(i as int));
            assert(out@ =~= escaped(t));
        }
        i = i + 1;
    }
    assert(s@.take(i as int) =~= s@);
    out
}

/// The link text of an entry: directories end in a slash.
pub open spec fn link(e: EntryView) -> Seq<char> {
    if e.is_dir {
        escaped(e.name) + "/"@
    } else {
        escaped(e.name)
    }
}

/// The row of an entry.
pub open spec fn row(e: EntryView) -> Seq<char> {
    "    <tr><td><a href=\""@ + link(e) + "\">"@ + link(e) + "</a></td><td>"@ + (if e.is_dir {
        "directory"@
    } else {
        "file"@
    }) + "</td><td class=\"size\">"@ + (match e.size {
        Some(n) => size_text(n),
        None => "-"@,
    }) + "</td></tr>\n"@
}

/// The rows of entries.
pub open spec fn rows(s: Seq<EntryView>) -> Seq<char>
    decreases s.len(),
{
    if s.len() == 0 {
        Seq::empty()
    } else {
        rows(s.drop_last()) + row(s.last())
    }
}

/// The page up to its title.
pub open spec fn page_start() -> Seq<char> {
    "<!DOCTYPE html>\n<html>\n<head>\n<meta charset=\"utf-8\">\n<title>Index of "@
}

/// The page between the title and the heading.
pub open spec fn page_style() -> Seq<char> {
    "</title>\n<style>\nbody { font-family: monospace; margin: 2em; }\nh1   { font-size: 1.2em; }\ntable { border-collapse: collapse; }\nth, td { padding: 0.3em 1.5em 0.3em 0; text-align: left; }\ntr:hover { background: #f5f5f5; }\n.size { text-align: right; font-size: 0.9em; color: #555; }\n</style>\n</head>\n<body>\n<h1>Index of "@
}

/// The page between the heading and the rows.
pub open spec fn page_table() -> Seq<char> {
    "</h1>\n<table>\n<tr><th>Name</th><th>Type</th><th class=\"size\">Size</th></tr>\n"@
}

/// The link to the directory above; the root of the site has none.
pub open spec fn up_link(url: Seq<char>) -> Seq<char> {
    if url != "/"@ {
        "<tr><td colspan=\"3\"><a href=\"../\">../</a></td></tr>"@
    } else {
        Seq::empty()
    }
}

/// The page with the entries of a directory: directories before files, and both
/// by name.
pub open spec fn page(url: Seq<char>, entries: Seq<EntryView>) -> Seq<char> {
    page_start() + escaped(url) + page_style() + escaped(url) + page_table() + up_link(url) + "\n"@
        + rows(listing::in_order(entries, true)) + "</table>\n</body>\n</html>\n"@
}

fn push_row(s: &mut String, e: &DirEntry)
    ensures
        final(s)@ == old(s)@ + row(e@),
{
    let ghost before = s@;
    let mut href = html_escape(e.name.as_str());
    if e.is_dir {
        href.append("/");
    }
    assert(href@ == link(e@));
    s.append("    <tr><td><a href=\"");
    s.append(href.as_str());
    s.append("\">");
    s.append(href.as_str());
    s.append("</a></td><td>");
    if e.is_dir {
        s.append("directory");
    } else {
        s.append("file");
    }
    s.append("</td><td class=\"size\">");
    match &e.size {
        Some(n) => s.append(format_size(*n).as_str()),
        None => s.append("-"),
    }
    s.append("</td></tr>\n");
    assert(s@ =~= before + row(e@));
}

/// The rows of entries.
pub fn build_rows(items: &[DirEntry]) -> (r: String)
    ensures
        r@ == rows(listing::entry_views(items@)),
{
    let ghost all = listing::entry_views(items@);
    let mut out = String::new();
    let mut i: usize = 0;
    while i < items.len()
        invariant
            i <= items@.len(),
            all == listing::entry_views(items@),
            out@ == rows(all.take(i as int)),
        decreases items@.len() - i,
    {
        push_row(&mut out, &items[i]);
        proof {
            let t = all.take(i + 1);
            assert(t.last() == items@[i as int]@);
            assert(t.drop_last() =~= all.take(i as int));
        }
        i = i + 1;
    }
    assert(all.take(i as int) =~= all);
    out
}

/// The answer once the entries of a directory were to be read.
pub open spec fn listing_view(url: Seq<char>, entries: Option<Seq<EntryView>>) -> ResponseView {
    match entries {
        None => builder::error_view(403, None),
        Some(s) => builder::html(200, encode_utf8(page(url, s))),
    }
}

/// The answer once the entries of a directory were to be read: a page that
/// lists them.
pub fn render_listing(entries: Option<Vec<DirEntry>>, url_path: &str) -> (r: Response)
    ensures
        r@ == listing_view(url_path@, opt_entries(entries)),
{
    let entries = match entries {
        Some(v) => v,
        None => {
            return builder::forbidden(None);
        },
    };
    let sorted = listing::sort_entries(entries, true);
    let title = html_escape(url_path);
    let mut body = text::joined(
        "<!DOCTYPE html>\n<html>\n<head>\n<meta charset=\"utf-8\">\n<title>Index of ",
        title.as_str(),
    );
    body.append(
        "</title>\n<style>\nbody { font-family: monospace; margin: 2em; }\nh1   { font-size: 1.2em; }\ntable { border-collapse: collapse; }\nth, td { padding: 0.3em 1.5em 0.3em 0; text-align: left; }\ntr:hover { background: #f5f5f5; }\n.size { text-align: right; font-size: 0.9em; color: #555; }\n</style>\n</head>\n<body>\n<h1>Index of ",
    );
    body.append(title.as_str());
    body.append(
        "</h1>\n<table>\n<tr><th>Name</th><th>Type</th><th class=\"size\">Size</th></tr>\n",
    );
    let ghost lead = body@;
    if !text::same(url_path, "/") {
        body.append("<tr><td colspan=\"3\"><a href=\"../\">../</a></td></tr>");
    }
    assert(body@ =~= lead + up_link(url_path@));
    body.append("\n");
    body.append(build_rows(sorted.as_slice()).as_str());
    body.append("</table>\n</body>\n</html>\n");
    builder::ok(vstd::slice::slice_to_vec(body.as_str().as_bytes()), "text/html; charset=utf-8")
}

/// How the size of a file is written in a listing: in gibibytes, mebibytes,
/// kibibytes or bytes, in the largest of them that it has one of.
pub open spec fn size_text(bytes: u64) -> Seq<char> {
    if bytes >= 1_073_741_824 {
        listing::scaled(bytes, 1_073_741_824, "GiB"@)
    } else if bytes >= 1_048_576 {
        listing::scaled(bytes, 1_048_576, "MiB"@)
    } else if bytes >= 1024 {
        listing::scaled(bytes, 1024, "KiB"@)
    } else {
        text::decimal(bytes as nat) + " B"@
    }
}

/// How the size of a file is written in a listing.
pub fn format_size(bytes: u64) -> (r: String)
    ensures
        r@ == size_text(bytes),
{
    if bytes >= 1_073_741_824 {
        listing::scaled_text(bytes, 1_073_741_824, "GiB")
    } else if bytes >= 1_048_576 {
        listing::scaled_text(bytes, 1_048_576, "MiB")
    } else if bytes >= 1024 {
        listing::scaled_text(bytes, 1024, "KiB")
    } else {
        listing::bytes_text(bytes)
    }
}

// ---------------------------------------------------------------------------
// Laws
// ---------------------------------------------------------------------------

/// An escaped text holds no `<`, `>` or `"`, whatever the text holds, so that it
/// stays text where it stands in a page.
pub proof fn lemma_escaped(s: Seq<char>)
    ensures
        !escaped(s).contains('<'),
        !escaped(s).contains('>'),
        !escaped(s).contains('"'),
    decreases s.len(),
{
    reveal_strlit("&lt;");
    reveal_strlit("&gt;");
    reveal_strlit("&amp;");
    reveal_strlit("&quot;");
    if s.len() > 0 {
        lemma_escaped(s.drop_last());
        let a = escaped(s.drop_last());
        let b = escaped_char(s.last());
        assert forall|i: int| 0 <= i < b.len() implies b[i] != '<' && b[i] != '>' && b[i]
            != '"' by {}
        assert forall|i: int| 0 <= i < (a + b).len() implies (a + b)[i] != '<' && (a + b)[i] != '>'
            && (a + b)[i] != '"' by {
            if i < a.len() {
                assert(a.contains(a[i]));
            } else {
                assert((a + b)[i] == b[i - a.len()]);
            }
        }
    }
}

/// A directory is listed where the route allows it and the path leads to it under
/// the root; else the answer is 403 where the route does not allow it, and 404
/// where there is no such directory.
pub proof fn lemma_listed(req: RequestView, route: RouteView, seen: ObservedView)
    ensures
        !route.directory_listing ==> step_for(req, route, seen) == ListView::Respond(
            builder::error_view(403, None),
        ),
        route.directory_listing && route.root is None ==> step_for(req, route, seen)
            == ListView::Respond(builder::error_view(404, None)),
        route.directory_listing && route.root is Some && seen.kind != FileKind::Directory
            ==> step_for(req, route, seen) == ListView::Respond(builder::error_view(404, None)),
        route.directory_listing && route.root is Some && seen.kind == FileKind::Directory
            ==> step_for(req, route, seen) == match handlers::place(route.root->0, req.path, seen) {
            Some(p) => ListView::List(p),
            None => ListView::Respond(builder::error_view(404, None)),
        },
{
}

/// A text is escaped character by character: four characters become references,
/// and every other one stays.
pub proof fn lemma_escaped_parts(a: Seq<char>, c: char, b: Seq<char>)
    ensures
        escaped(Seq::empty()) == Seq::<char>::empty(),
        escaped(a + seq![c] + b) == escaped(a) + (if c == '<' {
            seq!['&', 'l', 't', ';']
        } else if c == '>' {
            seq!['&', 'g', 't', ';']
        } else if c == '&' {
            seq!['&', 'a', 'm', 'p', ';']
        } else if c == '"' {
            seq!['&', 'q', 'u', 'o', 't', ';']
        } else {
            seq![c]
        }) + escaped(b),
    decreases b.len(),
{
    reveal_strlit("&lt;");
    reveal_strlit("&gt;");
    reveal_strlit("&amp;");
    reveal_strlit("&quot;");
    assert("&lt;"@ =~= seq!['&', 'l', 't', ';']);
    assert("&gt;"@ =~= seq!['&', 'g', 't', ';']);
    assert("&amp;"@ =~= seq!['&', 'a', 'm', 'p', ';']);
    assert("&quot;"@ =~= seq!['&', 'q', 'u', 'o', 't', ';']);
    let s = a + seq![c] + b;
    if b.len() == 0 {
        assert(s.drop_last() =~= a);
        assert(s.last() == c);
        assert(escaped(s) =~= escaped(a) + escaped_char(c) + escaped(b));
    } else {
        let rest = b.drop_last();
        lemma_escaped_parts(a, c, rest);
        assert(s.drop_last() =~= a + seq![c] + rest);
        assert(s.last() == b.last());
        assert(escaped(s) =~= escaped(a) + escaped_char(c) + escaped(b));
    }
}

/// A listing has a row for each entry, in the order of the entries, with a link
/// to its name, behind which a directory has a slash, with its kind, and with its
/// size where it is known.
pub proof fn lemma_rows(a: Seq<EntryView>, e: EntryView, b: Seq<EntryView>)
    ensures
        rows(Seq::empty()) == Seq::<char>::empty(),
        ({
            let shown = if e.is_dir {
                escaped(e.name) + seq!['/']
            } else {
                escaped(e.name)
            };
            let kind = if e.is_dir {
                "directory"@
            } else {
                "file"@
            };
            let size = if e.size is None {
                seq!['-']
            } else {
                size_text(e.size->0)
            };
            rows(a + seq![e] + b) == rows(a) + ("    <tr><td><a href=\""@ + shown + "\">"@ + shown
                + "</a></td><td>"@ + kind + "</td><td class=\"size\">"@ + size
                + "</td></tr>\n"@) + rows(b)
        }),
    decreases b.len(),
{
    reveal_strlit("/");
    reveal_strlit("-");
    assert("/"@ =~= seq!['/']);
    assert("-"@ =~= seq!['-']);
    let s = a + seq![e] + b;
    if b.len() == 0 {
        assert(s.drop_last() =~= a);
        assert(s.last() == e);
        assert(rows(s) =~= rows(a) + row(e) + rows(b));
    } else {
        let rest = b.drop_last();
        lemma_rows(a, e, rest);
        assert(s.drop_last() =~= a + seq![e] + rest);
        assert(s.last() == b.last());
        assert(rows(s) =~= rows(a) + row(e) + rows(b));
    }
}

/// The page of a listing names the path twice, links to the one above it unless
/// it is the top, and then has its rows, directories first and else by name; a
/// directory that cannot be read is answered with 403.
pub proof fn lemma_listing(url: Seq<char>, entries: Seq<EntryView>)
    ensures
        ({
            let r = listing_view(url, Some(entries));
            let sorted = listing::in_order(entries, true);
            let above = if url == seq!['/'] {
                Seq::empty()
            } else {
                "<tr><td colspan=\"3\"><a href=\"../\">../</a></td></tr>"@
            };
            &&& r.status == 200
            &&& value_of(r.headers, "Content-Type"@) == Some("text/html; charset=utf-8"@)
            &&& r.body == encode_utf8(
                page_start() + escaped(url) + page_style() + escaped(url) + page_table() + above
                    + seq!['\n'] + rows(sorted) + "</table>\n</body>\n</html>\n"@,
            )
            &&& sorted.to_multiset() == entries.to_multiset()
            &&& forall|i: int, j: int|
                0 <= i < j < sorted.len() ==> (#[trigger] sorted[i]).is_dir || !(#[trigger]
                sorted[j]).is_dir
            &&& forall|i: int, j: int|
                0 <= i < j < sorted.len() && (#[trigger] sorted[i]).is_dir == (#[trigger]
                sorted[j]).is_dir ==> listing::text_le(sorted[i].name, sorted[j].name)
        }),
        listing_view(url, None).status == 403,
{
    reveal_strlit("/");
    reveal_strlit("\n");
    assert("/"@ =~= seq!['/']);
    assert("\n"@ =~= seq!['\n']);
    listing::lemma_in_order(entries, true);
    builder::lemma_typed(200, "text/html; charset=utf-8"@, encode_utf8(page(url, entries)));
}

/// Sizes below 1024 bytes are given in bytes, and each 1024 times larger ones in
/// KiB, in MiB, and in GiB.
pub proof fn lemma_size(bytes: u64)
    ensures
        bytes < 1024 ==> size_text(bytes) == text::decimal(bytes as nat) + seq![' ', 'B'],
        1024 <= bytes < 1024 * 1024 ==> size_text(bytes) == listing::scaled(
            bytes,
            1024,
            seq!['K', 'i', 'B'],
        ),
        1024 * 1024 <= bytes < 1024 * 1024 * 1024 ==> size_text(bytes) == listing::scaled(
            bytes,
            1_048_576,
            seq!['M', 'i', 'B'],
        ),
        bytes >= 1024 * 1024 * 1024 ==> size_text(bytes) == listing::scaled(
            bytes,
            1_073_741_824,
            seq!['G', 'i', 'B'],
        ),
{
    reveal_strlit(" B");
    reveal_strlit("KiB");
    reveal_strlit("MiB");
    reveal_strlit("GiB");
    assert(" B"@ =~= seq![' ', 'B']);
    assert("KiB"@ =~= seq!['K', 'i', 'B']);
    assert("MiB"@ =~= seq!['M', 'i', 'B']);
    assert("GiB"@ =~= seq!['G', 'i', 'B']);
}

} // verus!
