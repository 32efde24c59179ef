//! Scripts run by an interpreter, with the request in their environment and on
//! their input, and the response on their output.

use vstd::prelude::*;
use vstd::string::*;
use vstd::utf8::encode_utf8;

use crate::config::types::{RouteConfig, RouteView};
use crate::handlers;
use crate::handlers::{FileKind, Observed, ObservedView};
use crate::http::request::types::{Request, RequestView};
use crate::http::response::builder;
use crate::http::response::types::{Response, ResponseView, StatusCode};
use crate::text;
use crate::utils::path;

pub mod env;
pub mod executor;
pub mod io;

verus! {

// ---------------------------------------------------------------------------
// Targets
// ---------------------------------------------------------------------------

/// A script to run.
#[derive(Debug, Clone)]
pub struct CgiTarget {
    /// The interpreter that runs it.
    pub interpreter: String,
    /// The script.
    pub script_path: String,
    /// The directory it is run in.
    pub script_dir: String,
}

/// A [`CgiTarget`] with texts for its strings.
#[verifier::ext_equal]
pub struct TargetView {
    pub interpreter: Seq<char>,
    pub script_path: Seq<char>,
    pub script_dir: Seq<char>,
}

impl View for CgiTarget {
    type V = TargetView;

    open spec fn view(&self) -> TargetView {
        TargetView {
            interpreter: self.interpreter@,
            script_path: self.script_path@,
            script_dir: self.script_dir@,
        }
    }
}

/// The last segment of a path.
pub open spec fn last_segment(url: Seq<char>) -> Seq<char> {
    url.skip(text::after_last(url, '/'))
}

/// The extension of the last segment of a path: what follows its last dot. None
/// where there is no dot, or nothing behind it.
pub open spec fn extension(url: Seq<char>) -> Option<Seq<char>> {
    let name = last_segment(url);
    let at = text::after_last(name, '.');
    if at > 0 && at < name.len() {
        Some(name.skip(at))
    } else {
        None
    }
}

/// The extension of the last segment of a path.
pub fn file_extension(path: &str) -> (r: Option<&str>)
    ensures
        text::opt_str(r) == extension(path@),
{
    let v = text::chars_of(path);
    let n: usize = text::find_after_last(v.as_slice(), '/');
    let ghost name = last_segment(path@);
    let segment: &[char] = &v.as_slice()[n..v.len()];
    assert(segment@ =~= name);
    let at: usize = text::find_after_last(segment, '.');
    if at > 0 && at < segment.len() {
        assert(name.skip(at as int) =~= path@.subrange(n + at, path@.len() as int));
        Some(path.substring_char(n + at, v.len()))
    } else {
        None
    }
}

/// The script that a request asks to run, if it asks for one: its path has an
/// extension with an interpreter, the route has a root, and the path leads to a
/// file under it.
pub open spec fn target(req: RequestView, route: RouteView, seen: ObservedView) -> Option<
    TargetView,
> {
    match extension(req.path) {
        None => None,
        Some(ext) => match route.interpreter(text::lower(ext)) {
            None => None,
            Some(interpreter) => match route.root {
                None => None,
                Some(root) => match handlers::place(root, req.path, seen) {
                    None => None,
                    Some(script_path) => if seen.kind != FileKind::File {
                        None
                    } else {
                        match path::parent(path::parts(script_path)) {
                            None => None,
                            Some(script_dir) => Some(
                                TargetView { interpreter, script_path, script_dir },
                            ),
                        }
                    },
                },
            },
        },
    }
}

/// The view of an optional target.
pub open spec fn opt_target(o: Option<CgiTarget>) -> Option<TargetView> {
    match o {
        Some(t) => Some(t@),
        None => None,
    }
}

/// The script that a request asks to run, if it asks for one.
pub fn cgi_target(req: &Request, route: &RouteConfig, seen: &Observed) -> (r: Option<CgiTarget>)
    ensures
        opt_target(r) == target(req@, route@, seen@),
{
    let ext = match file_extension(req.path.as_str()) {
        Some(e) => e,
        None => {
            return None;
        },
    };
    let interpreter = match route.cgi_for_extension(text::lower_text(ext).as_str()) {
        Some(i) => i,
        None => {
            return None;
        },
    };
    let root: &str = match &route.root {
        Some(s) => s.as_str(),
        None => {
            return None;
        },
    };
    let script_path = match handlers::locate(root, req.path.as_str(), seen) {
        Some(p) => p,
        None => {
            return None;
        },
    };
    if seen.kind != FileKind::File {
        return None;
    }
    match path::parent_dir(script_path.as_str()) {
        Some(script_dir) => Some(
            CgiTarget { interpreter: text::owned(interpreter), script_path, script_dir },
        ),
        None => None,
    }
}

/// No script is run that does not lie under the root of the route, and none
/// with an interpreter that the route does not have for its extension.
pub proof fn lemma_runs_under_root(req: RequestView, route: RouteView, seen: ObservedView)
    ensures
        target(req, route, seen) matches Some(t) ==> {
            &&& seen.kind == FileKind::File
            &&& seen.real_root matches Some(root) && path::under(
                path::parts(t.script_path),
                path::parts(root),
            )
            &&& extension(req.path) matches Some(ext) && route.interpreter(text::lower(ext)) == Some(
                t.interpreter,
            )
        },
{
}

// ---------------------------------------------------------------------------
// Processes
// ---------------------------------------------------------------------------

/// A script that runs, and what has passed through its pipes.
#[derive(Debug)]
pub struct CgiProcess {
    /// The process.
    pub pid: i32,
    /// The pipe to its input, until that is closed.
    pub stdin_fd: Option<i32>,
    /// The pipe from its output.
    pub stdout_fd: i32,
    /// What it is to read.
    pub body: Vec<u8>,
    /// How much of that has been written.
    pub body_cursor: usize,
    /// What it has written.
    pub out_buf: Vec<u8>,
    /// Whether it answers `HEAD`, to which only the head of a response is sent.
    pub head_only: bool,
}

/// A [`CgiProcess`] with sequences for its buffers.
#[verifier::ext_equal]
pub struct ProcessView {
    pub pid: i32,
    pub stdin_fd: Option<i32>,
    pub stdout_fd: i32,
    pub body: Seq<u8>,
    pub body_cursor: usize,
    pub out_buf: Seq<u8>,
    pub head_only: bool,
}

impl View for CgiProcess {
    type V = ProcessView;

    open spec fn view(&self) -> ProcessView {
        ProcessView {
            pid: self.pid,
            stdin_fd: self.stdin_fd,
            stdout_fd: self.stdout_fd,
            body: self.body@,
            body_cursor: self.body_cursor,
            out_buf: self.out_buf@,
            head_only: self.head_only,
        }
    }
}

impl CgiProcess {
    /// No more has been written than there is.
    pub open spec fn wf(&self) -> bool {
        self.body_cursor <= self.body@.len()
    }

    /// Gives up the pipe to the script's input. The caller closes it, which
    /// tells the script that its input ends.
    pub fn close_stdin(&mut self) -> (fd: Option<i32>)
        ensures
            fd == old(self).stdin_fd,
            final(self)@ == (ProcessView { stdin_fd: None, ..old(self)@ }),
    {
        let fd = self.stdin_fd;
        self.stdin_fd = None;
        fd
    }
}

// ---------------------------------------------------------------------------
// Responses
// ---------------------------------------------------------------------------

/// The page for a script that gave no response.
pub open spec fn bad_gateway_page() -> Seq<char> {
    "<html><body><h1>502 Bad Gateway</h1><p>The CGI script produced no valid response.</p></body></html>"@
}

/// The response for a script that gave none.
pub open spec fn bad_gateway_view() -> ResponseView {
    builder::html(502, encode_utf8(bad_gateway_page()))
}

/// The response that the output of a script comes to.
pub open spec fn output_view(out: Seq<u8>) -> ResponseView {
    match builder::script_response(out) {
        Ok(r) => r,
        Err(_) => bad_gateway_view(),
    }
}

/// The response for a script that gave none.
pub fn bad_gateway() -> (r: Response)
    ensures
        r@ == bad_gateway_view(),
{
    let page: &str =
        "<html><body><h1>502 Bad Gateway</h1><p>The CGI script produced no valid response.</p></body></html>";
    builder::error(StatusCode::BAD_GATEWAY, vstd::slice::slice_to_vec(page.as_bytes()))
}

/// The response that the output of a script comes to; 502 where the output is
/// none.
pub fn build_response(out_buf: Vec<u8>) -> (r: Response)
    ensures
        r@ == output_view(out_buf@),
{
    match builder::from_cgi_output(out_buf) {
        Ok(resp) => resp,
        Err(_) => bad_gateway(),
    }
}

/// The extension of a path is what follows the last dot of its last segment, and
/// there is none where that segment has no dot.
pub proof fn lemma_extension(dir: Seq<char>, base: Seq<char>, ext: Seq<char>)
    requires
        ext.len() > 0,
        !ext.contains('.'),
        !ext.contains('/'),
        !base.contains('/'),
    ensures
        extension(dir + seq!['/'] + base + seq!['.'] + ext) == Some(ext),
        !base.contains('.') ==> extension(dir + seq!['/'] + base) is None,
        extension(dir + seq!['/'] + base + seq!['.']) is None,
{
    let name = base + seq!['.'] + ext;
    let n = dir.len() as int;
    let url = dir + seq!['/'] + base + seq!['.'] + ext;
    assert(url =~= dir + seq!['/'] + name);
    lemma_last_segment(dir, name);
    text::lemma_after_last(name, '.');
    let m = base.len() as int;
    assert(name[m] == '.');
    assert forall|j: int| m < j < name.len() implies name[j] != '.' by {
        assert(name[j] == ext[j - m - 1]);
        assert(ext.contains(ext[j - m - 1]));
    }
    assert(text::after_last(name, '.') == m + 1);
    assert(name.skip(m + 1) =~= ext);
    lemma_last_segment(dir, base);
    text::lemma_after_last(base, '.');
    if !base.contains('.') && text::after_last(base, '.') > 0 {
        assert(base.contains(base[text::after_last(base, '.') - 1]));
    }
    let dotted = base + seq!['.'];
    assert(dir + seq!['/'] + base + seq!['.'] =~= dir + seq!['/'] + dotted);
    assert(!dotted.contains('/')) by {
        if dotted.contains('/') {
            let j = choose|j: int| 0 <= j < dotted.len() && dotted[j] == '/';
            assert(base[j] == '/');
        }
    }
    lemma_last_segment(dir, dotted);
    assert(dotted.last() == '.');
}

proof fn lemma_last_segment(dir: Seq<char>, name: Seq<char>)
    requires
        forall|j: int| 0 <= j < name.len() ==> name[j] != '/',
    ensures
        last_segment(dir + seq!['/'] + name) == name,
{
    let url = dir + seq!['/'] + name;
    let n = dir.len() as int;
    text::lemma_after_last(url, '/');
    assert(url[n] == '/');
    assert forall|j: int| n < j < url.len() implies url[j] != '/' by {
        assert(url[j] == name[j - n - 1]);
    }
    assert(text::after_last(url, '/') == n + 1);
    assert(url.skip(n + 1) =~= name);
}

/// A path with an extension that the route has an interpreter for, whatever the
/// case of its letters, and that leads to a file under the root, is run: by that
/// interpreter, in the directory of the file. It is not where there is no file.
pub proof fn lemma_script_runs(
    req: RequestView,
    route: RouteView,
    seen: ObservedView,
    base: Seq<char>,
    ext: Seq<char>,
    at: path::Parts,
    more: Seq<Seq<char>>,
    name: Seq<char>,
)
    requires
        ext.len() > 0,
        !ext.contains('.'),
        !ext.contains('/'),
        req.path == base + seq!['.'] + ext,
        base.contains('/'),
        route.root is Some,
        route.cgi_extensions.dom().contains(text::lower(ext)),
        at.rooted,
        path::plain(at.names),
        path::plain(more),
        path::plain_name(name),
        seen.real_root == Some(path::rendered(at)),
        seen.real_path == Some(
            path::rendered(path::Parts { rooted: true, names: (at.names + more).push(name) }),
        ),
    ensures
        seen.kind == FileKind::File ==> target(req, route, seen) == Some(
            TargetView {
                interpreter: route.cgi_extensions[text::lower(ext)],
                script_path: path::rendered(
                    path::Parts { rooted: true, names: (at.names + more).push(name) },
                ),
                script_dir: path::rendered(
                    path::Parts { rooted: true, names: at.names + more },
                ),
            },
        ),
        seen.kind != FileKind::File ==> target(req, route, seen) is None,
{
    let cut = text::after_last(base, '/');
    text::lemma_after_last(base, '/');
    let k = choose|k: int| 0 <= k < base.len() && base[k] == '/';
    assert(cut > 0);
    let dir = base.take(cut - 1);
    let rest = base.skip(cut);
    assert(base =~= dir + seq!['/'] + rest);
    assert(!rest.contains('/')) by {
        if rest.contains('/') {
            let j = choose|j: int| 0 <= j < rest.len() && rest[j] == '/';
            assert(base[cut + j] == '/');
        }
    }
    lemma_extension(dir, rest, ext);
    assert(req.path =~= dir + seq!['/'] + rest + seq!['.'] + ext);
    let tail = more.push(name);
    assert(path::plain(tail)) by {
        assert forall|i: int| 0 <= i < tail.len() implies path::plain_name(#[trigger] tail[i]) by {
            if i < more.len() {
                assert(tail[i] == more[i]);
            }
        }
    }
    assert((at.names + more).push(name) =~= at.names + tail);
    path::lemma_on_disk(route.root->0, req.path, at, tail, at);
    let p = path::Parts { rooted: true, names: at.names + more };
    assert(path::plain(p.names)) by {
        assert forall|i: int| 0 <= i < p.names.len() implies path::plain_name(
            #[trigger] p.names[i],
        ) by {
            if i < at.names.len() {
                assert(p.names[i] == at.names[i]);
            } else {
                assert(p.names[i] == more[i - at.names.len()]);
            }
        }
    }
    path::lemma_parent(p, name);
}

/// What a script prints is its response; output that makes none is answered
/// with 502.
pub proof fn lemma_output(out: Seq<u8>, r: ResponseView)
    ensures
        builder::script_response(out) == Ok::<ResponseView, Seq<char>>(r) ==> output_view(out) == r,
        builder::script_response(out) is Err ==> output_view(out) == bad_gateway_view(),
        bad_gateway_view().status == 502,
        bad_gateway_view().body == encode_utf8(
            "<html><body><h1>502 Bad Gateway</h1><p>The CGI script produced no valid response.</p></body></html>"@,
        ),
{
}

} // verus!
