//! Removals.
//!
//! | What is found                       | Answer         |
//! |-------------------------------------|----------------|
//! | a file or empty directory, removed  | 204 No Content |
//! | a directory that is not empty       | 409 Conflict   |
//! | nothing, or a path out of the root  | 404 Not Found  |
//! | the root itself                     | 403 Forbidden  |
//! | no permission                       | 403 Forbidden  |
//! | a route without a root              | 403 Forbidden  |

use vstd::prelude::*;
use vstd::string::*;
use vstd::utf8::encode_utf8;

use crate::config::types::{RouteConfig, RouteView};
use crate::handlers;
use crate::handlers::{FileKind, IoFailure, Observed, ObservedView};
use crate::http::request::types::{Request, RequestView};
use crate::http::response::builder;
use crate::http::response::types::{Response, ResponseView, StatusCode};
use crate::utils::path;

verus! {

/// What is to be done about a removal.
#[derive(Debug)]
pub enum DeleteStep {
    /// Answer at once.
    Respond(Response),
    /// Remove this file, and answer as [`delete_file`] says.
    RemoveFile(String),
    /// Remove this directory if it is empty, and answer as [`delete_directory`]
    /// says.
    RemoveDirectory(String),
}

/// A [`DeleteStep`] with views for its parts.
#[verifier::ext_equal]
pub enum DeleteView {
    Respond(ResponseView),
    RemoveFile(Seq<char>),
    RemoveDirectory(Seq<char>),
}

impl View for DeleteStep {
    type V = DeleteView;

    open spec fn view(&self) -> DeleteView {
        match self {
            DeleteStep::Respond(r) => DeleteView::Respond(r@),
            DeleteStep::RemoveFile(p) => DeleteView::RemoveFile(p@),
            DeleteStep::RemoveDirectory(p) => DeleteView::RemoveDirectory(p@),
        }
    }
}

/// What is to be done about a removal.
pub open spec fn decided(req: RequestView, route: RouteView, seen: ObservedView) -> DeleteView {
    match route.root {
        None => DeleteView::Respond(builder::error_view(403, None)),
        Some(root) => match handlers::place(root, req.path, seen) {
            None => DeleteView::Respond(builder::error_view(404, None)),
            Some(p) => if path::parts(p) == path::parts(seen.real_root->0) {
                DeleteView::Respond(builder::error_view(403, None))
            } else {
                match seen.kind {
                    FileKind::File => DeleteView::RemoveFile(p),
                    FileKind::Directory => DeleteView::RemoveDirectory(p),
                    FileKind::Other => DeleteView::Respond(builder::error_view(404, None)),
                }
            },
        },
    }
}

/// Decides a removal.
pub fn handle(request: &Request, route: &RouteConfig, seen: &Observed) -> (r: DeleteStep)
    ensures
        r@ == decided(request@, route@, seen@),
{
    let root: &str = match &route.root {
        Some(s) => s.as_str(),
        None => {
            return DeleteStep::Respond(builder::forbidden(None));
        },
    };
    let p = match handlers::locate(root, request.path.as_str(), seen) {
        Some(p) => p,
        None => {
            return DeleteStep::Respond(builder::not_found(None));
        },
    };
    if let Some(real_root) = &seen.real_root {
        if path::same_path(p.as_str(), real_root.as_str()) {
            return DeleteStep::Respond(builder::forbidden(None));
        }
    }
    match seen.kind {
        FileKind::File => DeleteStep::RemoveFile(p),
        FileKind::Directory => DeleteStep::RemoveDirectory(p),
        FileKind::Other => DeleteStep::Respond(builder::not_found(None)),
    }
}

/// The page for a directory that is not empty.
pub open spec fn conflict_page() -> Seq<char> {
    "<html><head><title>409 Conflict</title></head><body><h1>409 Conflict</h1><p>Cannot delete a non-empty directory.</p></body></html>"@
}

/// The answer to a failure on disk.
pub open spec fn failure_view(e: IoFailure) -> ResponseView {
    match e {
        IoFailure::NotFound => builder::error_view(404, None),
        IoFailure::PermissionDenied => builder::error_view(403, None),
        _ => builder::error_view(500, None),
    }
}

/// The answer once a file was to be removed.
pub open spec fn file_answer(outcome: Result<(), IoFailure>) -> ResponseView {
    match outcome {
        Ok(_) => builder::no_content_view(),
        Err(e) => failure_view(e),
    }
}

/// The answer once a directory was to be removed.
pub open spec fn directory_answer(outcome: Result<(), IoFailure>) -> ResponseView {
    match outcome {
        Ok(_) => builder::no_content_view(),
        Err(IoFailure::NotEmpty) => builder::html(409, encode_utf8(conflict_page())),
        Err(e) => failure_view(e),
    }
}

/// The answer to a failure on disk.
pub fn map_io_error_to_response(e: IoFailure) -> (r: Response)
    ensures
        r@ == failure_view(e),
{
    match e {
        IoFailure::NotFound => builder::not_found(None),
        IoFailure::PermissionDenied => builder::forbidden(None),
        _ => builder::internal_server_error(None),
    }
}

/// The answer once a file was to be removed.
pub fn delete_file(outcome: Result<(), IoFailure>) -> (r: Response)
    ensures
        r@ == file_answer(outcome),
{
    match outcome {
        Ok(_) => builder::no_content(),
        Err(e) => map_io_error_to_response(e),
    }
}

/// The answer once a directory was to be removed.
pub fn delete_directory(outcome: Result<(), IoFailure>) -> (r: Response)
    ensures
        r@ == directory_answer(outcome),
{
    match outcome {
        Ok(_) => builder::no_content(),
        Err(IoFailure::NotEmpty) => {
            let page: &str =
                "<html><head><title>409 Conflict</title></head><body><h1>409 Conflict</h1><p>Cannot delete a non-empty directory.</p></body></html>";
            builder::error(StatusCode::CONFLICT, vstd::slice::slice_to_vec(page.as_bytes()))
        },
        Err(e) => map_io_error_to_response(e),
    }
}

/// Nothing is removed but what lies under the root of the route, and never the
/// root itself.
pub proof fn lemma_removes_under_root(req: RequestView, route: RouteView, seen: ObservedView)
    ensures
        match decided(req, route, seen) {
            DeleteView::RemoveFile(p) => seen.kind == FileKind::File && (seen.real_root matches Some(
                root,
            ) && path::under(path::parts(p), path::parts(root)) && path::parts(p) != path::parts(
                root,
            )),
            DeleteView::RemoveDirectory(p) => seen.kind == FileKind::Directory && (
            seen.real_root matches Some(root) && path::under(path::parts(p), path::parts(root))
                && path::parts(p) != path::parts(root)),
            DeleteView::Respond(_) => true,
        },
{
}

/// The answer to a removal, where `outcome` is what came of removing what was to
/// be removed.
pub open spec fn answered(
    req: RequestView,
    route: RouteView,
    seen: ObservedView,
    outcome: Result<(), IoFailure>,
) -> ResponseView {
    match decided(req, route, seen) {
        DeleteView::Respond(r) => r,
        DeleteView::RemoveFile(_) => file_answer(outcome),
        DeleteView::RemoveDirectory(_) => directory_answer(outcome),
    }
}

/// A removal is answered 204 exactly where a file, or an empty directory, was to
/// be removed and was, and it lies under the root and is not the root. Otherwise
/// the answer says why not: 403 without a root to remove from, for the root
/// itself, and where that is not permitted; 404 where the path leads out of the
/// root, or to nothing; and 409 for a directory that is not empty.
pub proof fn lemma_answered(
    req: RequestView,
    route: RouteView,
    seen: ObservedView,
    outcome: Result<(), IoFailure>,
)
    ensures
        ({
            let step = decided(req, route, seen);
            let status = answered(req, route, seen, outcome).status;
            &&& status == 204 <==> !(step is Respond) && outcome is Ok
            &&& status == 409 <==> step is RemoveDirectory && outcome == Err::<(), IoFailure>(
                IoFailure::NotEmpty,
            )
            &&& match route.root {
                None => step is Respond && status == 403,
                Some(root) => match handlers::place(root, req.path, seen) {
                    None => step is Respond && status == 404,
                    Some(p) => if path::parts(p) == path::parts(seen.real_root->0) {
                        step is Respond && status == 403
                    } else {
                        match seen.kind {
                            FileKind::File => step == DeleteView::RemoveFile(p),
                            FileKind::Directory => step == DeleteView::RemoveDirectory(p),
                            FileKind::Other => step is Respond && status == 404,
                        }
                    },
                },
            }
            &&& !(step is Respond) && outcome == Err::<(), IoFailure>(IoFailure::NotFound)
                ==> status == 404
            &&& !(step is Respond) && outcome == Err::<(), IoFailure>(IoFailure::PermissionDenied)
                ==> status == 403
        }),
{
}

/// What is removed is gone: the same request, once nothing stands where its path
/// leads, removes nothing, and is answered 404; or 403, where the words of its
/// path name the root.
pub proof fn lemma_repeated(
    req: RequestView,
    route: RouteView,
    seen: ObservedView,
    again: ObservedView,
    outcome: Result<(), IoFailure>,
    later: Result<(), IoFailure>,
)
    requires
        answered(req, route, seen, outcome).status == 204,
        again.real_root == seen.real_root,
        again.real_path is None,
        again.kind == FileKind::Other,
    ensures
        decided(req, route, again) is Respond,
        answered(req, route, again, later).status == if path::parts(
            path::rendered(path::normal(path::url_joined(seen.real_root->0, req.path))),
        ) == path::parts(seen.real_root->0) {
            403u16
        } else {
            404u16
        },
{
    let root = path::parts(seen.real_root->0);
    assert(root.names.take(root.names.len() as int) =~= root.names);
    assert(path::under(root, root));
}

/// A removal that fails for no named reason is answered with 500, and so is that
/// of a file for which the reason makes no sense; a directory that is not empty
/// is answered with a page that says so.
pub proof fn lemma_failures(e: IoFailure)
    ensures
        file_answer(Ok(())).status == 204,
        directory_answer(Ok(())).status == 204,
        file_answer(Err(IoFailure::NotFound)).status == 404,
        directory_answer(Err(IoFailure::NotFound)).status == 404,
        file_answer(Err(IoFailure::PermissionDenied)).status == 403,
        directory_answer(Err(IoFailure::PermissionDenied)).status == 403,
        file_answer(Err(IoFailure::NotEmpty)).status == 500,
        file_answer(Err(IoFailure::Other)).status == 500,
        directory_answer(Err(IoFailure::Other)).status == 500,
        directory_answer(Err(IoFailure::NotEmpty)).status == 409,
        directory_answer(Err(IoFailure::NotEmpty)).body == encode_utf8(
            "<html><head><title>409 Conflict</title></head><body><h1>409 Conflict</h1><p>Cannot delete a non-empty directory.</p></body></html>"@,
        ),
        e != IoFailure::NotEmpty ==> directory_answer(Err(e)) == file_answer(Err(e)),
{
}

/// What stands under the root, and is not the root, is removed at its own place.
pub proof fn lemma_removed(
    req: RequestView,
    route: RouteView,
    at: path::Parts,
    more: Seq<Seq<char>>,
    other: path::Parts,
    kind: FileKind,
)
    requires
        route.root is Some,
        path::plain(at.names),
        path::plain(more),
        path::plain(other.names),
        at.rooted,
        other.rooted,
        other.names.len() < at.names.len() || exists|i: int|
            0 <= i < at.names.len() && i < other.names.len() && #[trigger] other.names[i]
                != at.names[i],
    ensures
        ({
            let here = path::rendered(path::Parts { rooted: true, names: at.names + more });
            let seen = ObservedView {
                real_root: Some(path::rendered(at)),
                real_path: Some(here),
                kind,
            };
            let astray = ObservedView { real_path: Some(path::rendered(other)), ..seen };
            &&& more.len() > 0 && kind == FileKind::File ==> decided(req, route, seen)
                == DeleteView::RemoveFile(here)
            &&& more.len() > 0 && kind == FileKind::Directory ==> decided(req, route, seen)
                == DeleteView::RemoveDirectory(here)
            &&& more.len() == 0 ==> decided(req, route, seen) == DeleteView::Respond(
                builder::error_view(403, None),
            )
            &&& decided(req, route, astray) == DeleteView::Respond(builder::error_view(404, None))
        }),
{
    path::lemma_on_disk(route.root->0, req.path, at, more, other);
    let all = path::Parts { rooted: true, names: at.names + more };
    assert(path::plain(all.names)) by {
        assert forall|i: int| 0 <= i < all.names.len() implies path::plain_name(
            #[trigger] all.names[i],
        ) by {
            if i < at.names.len() {
                assert(all.names[i] == at.names[i]);
            } else {
                assert(all.names[i] == more[i - at.names.len()]);
            }
        }
    }
    path::lemma_parts_of_rendered(all);
    path::lemma_parts_of_rendered(at);
    if more.len() == 0 {
        assert(at.names + more =~= at.names);
    }
}

} // verus!
