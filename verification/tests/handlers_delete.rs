//! Removing files and directories.

use localhost::config::types::{Method, RouteConfig};
use localhost::handlers::delete::{
    delete_directory, delete_file, handle, map_io_error_to_response, DeleteStep,
};
use localhost::handlers::{FileKind, IoFailure, Observed};
use localhost::http::request::types::{HeaderMap, Request, Version};
use localhost::http::response::types::Response;

const ROOT: &str = "/tmp/delete_test";

fn delete_req(path: &str) -> Request {
    Request {
        method: Method::Delete,
        path: path.into(),
        query: String::new(),
        version: Version::Http11,
        headers: HeaderMap::new(),
        body: Vec::new(),
    }
}

fn route_for(root: &str) -> RouteConfig {
    RouteConfig {
        path: "/".into(),
        root: Some(root.into()),
        ..Default::default()
    }
}

fn seen(path: &str, kind: FileKind) -> Observed {
    Observed { real_root: Some(ROOT.into()), real_path: Some(path.into()), kind }
}

fn nothing() -> Observed {
    Observed { real_root: Some(ROOT.into()), real_path: None, kind: FileKind::Other }
}

fn responds(step: DeleteStep) -> Response {
    match step {
        DeleteStep::Respond(r) => r,
        other => panic!("expected an answer, got {:?}", other),
    }
}

// ---- file deletion --------------------------------------------------------

#[test]
fn delete_existing_file_returns_204() {
    let seen = seen("/tmp/delete_test/target.txt", FileKind::File);
    match handle(&delete_req("/target.txt"), &route_for(ROOT), &seen) {
        DeleteStep::RemoveFile(path) => assert_eq!(path, "/tmp/delete_test/target.txt"),
        other => panic!("unexpected {:?}", other),
    }
    assert_eq!(delete_file(Ok(())).status.code(), 204);
}

#[test]
fn delete_missing_file_returns_404() {
    let resp = responds(handle(&delete_req("/ghost.txt"), &route_for(ROOT), &nothing()));
    assert_eq!(resp.status.code(), 404);
}

// ---- directory deletion ---------------------------------------------------

#[test]
fn delete_empty_directory_returns_204() {
    let seen = seen("/tmp/delete_test/empty_dir", FileKind::Directory);
    match handle(&delete_req("/empty_dir"), &route_for(ROOT), &seen) {
        DeleteStep::RemoveDirectory(path) => assert_eq!(path, "/tmp/delete_test/empty_dir"),
        other => panic!("unexpected {:?}", other),
    }
    assert_eq!(delete_directory(Ok(())).status.code(), 204);
}

#[test]
fn delete_non_empty_directory_returns_409() {
    let seen = seen("/tmp/delete_test/has_files", FileKind::Directory);
    assert!(matches!(
        handle(&delete_req("/has_files"), &route_for(ROOT), &seen),
        DeleteStep::RemoveDirectory(_)
    ));
    assert_eq!(delete_directory(Err(IoFailure::NotEmpty)).status.code(), 409);
}

// ---- safety checks --------------------------------------------------------

#[test]
fn cannot_delete_root_directory() {
    let resp = responds(handle(&delete_req("/"), &route_for(ROOT), &seen(ROOT, FileKind::Directory)));
    assert_eq!(resp.status.code(), 403);
}

#[test]
fn traversal_attempt_returns_404() {
    let seen = seen("/etc/passwd", FileKind::File);
    let resp = responds(handle(&delete_req("/../etc/passwd"), &route_for(ROOT), &seen));
    assert_eq!(resp.status.code(), 404);
}

#[test]
fn delete_without_route_root_returns_403() {
    let route = RouteConfig { path: "/".into(), root: None, ..Default::default() };
    let resp = responds(handle(&delete_req("/anything"), &route, &nothing()));
    assert_eq!(resp.status.code(), 403);
}

// ---- idempotency ----------------------------------------------------------

#[test]
fn delete_same_file_twice_second_is_404() {
    let first = handle(
        &delete_req("/once.txt"),
        &route_for(ROOT),
        &seen("/tmp/delete_test/once.txt", FileKind::File),
    );
    assert!(matches!(first, DeleteStep::RemoveFile(_)));
    let r1 = delete_file(Ok(()));
    let r2 = responds(handle(&delete_req("/once.txt"), &route_for(ROOT), &nothing()));
    assert_eq!(r1.status.code(), 204);
    assert_eq!(r2.status.code(), 404);
}

// ---- failures -------------------------------------------------------------

#[test]
fn failures_are_answered_by_their_cause() {
    assert_eq!(map_io_error_to_response(IoFailure::NotFound).status.code(), 404);
    assert_eq!(map_io_error_to_response(IoFailure::PermissionDenied).status.code(), 403);
    assert_eq!(map_io_error_to_response(IoFailure::Other).status.code(), 500);
    assert_eq!(delete_file(Err(IoFailure::NotEmpty)).status.code(), 500);
    assert_eq!(delete_directory(Err(IoFailure::PermissionDenied)).status.code(), 403);
}

#[test]
fn what_is_removed_lies_under_the_root() {
    // A link that leads out of the root is not followed.
    let step = handle(
        &delete_req("/link.txt"),
        &route_for(ROOT),
        &seen("/home/user/notes.txt", FileKind::File),
    );
    assert_eq!(responds(step).status.code(), 404);
}

#[test]
fn every_answer_to_a_removal() {
    let dir = seen("/tmp/delete_test/d", FileKind::Directory);
    assert!(matches!(
        handle(&delete_req("/d"), &route_for(ROOT), &dir),
        DeleteStep::RemoveDirectory(_)
    ));
    for (outcome, code) in [
        (Ok(()), 204),
        (Err(IoFailure::NotEmpty), 409),
        (Err(IoFailure::NotFound), 404),
        (Err(IoFailure::PermissionDenied), 403),
        (Err(IoFailure::Other), 500),
    ] {
        assert_eq!(delete_directory(outcome).status.code(), code);
    }
    // Nothing is there any more.
    let gone = responds(handle(&delete_req("/d"), &route_for(ROOT), &nothing()));
    assert_eq!(gone.status.code(), 404);
}

#[test]
fn repeat_whose_words_name_the_root_is_403() {
    let resp = responds(handle(&delete_req("/a/.."), &route_for(ROOT), &nothing()));
    assert_eq!(resp.status.code(), 403);
}
