//! What is done with a request on a route.

use localhost::config::types::{Method, Redirect, RouteConfig, ServerConfig};
use localhost::handlers::delete::DeleteStep;
use localhost::handlers::static_file::{serve_file, ServeStep};
use localhost::handlers::{FileKind, Observed};
use localhost::http::request::types::{HeaderMap, Request, Version};
use localhost::http::response::types::Response;
use localhost::router::handler::{dispatch, options_response, static_answer, DispatchOutcome};

const ROOT: &str = "/tmp/handler_test";

fn get(path: &str) -> Request {
    Request {
        method: Method::Get,
        path: path.into(),
        query: String::new(),
        version: Version::Http11,
        headers: {
            let mut h = HeaderMap::new();
            h.insert("Host", "localhost");
            h
        },
        body: Vec::new(),
    }
}

fn server() -> ServerConfig {
    ServerConfig::default()
}

fn route_get_only(root: &str) -> RouteConfig {
    RouteConfig {
        path: "/".into(),
        methods: vec![Method::Get, Method::Head],
        root: Some(root.into()),
        ..Default::default()
    }
}

fn open_route(root: &str) -> RouteConfig {
    RouteConfig {
        path: "/".into(),
        root: Some(root.into()),
        ..Default::default()
    }
}

fn seen(path: &str, kind: FileKind) -> Observed {
    Observed { real_root: Some(ROOT.into()), real_path: Some(path.into()), kind }
}

fn root_seen() -> Observed {
    seen(ROOT, FileKind::Directory)
}

fn unwrap_response(outcome: DispatchOutcome) -> Response {
    match outcome {
        DispatchOutcome::Response(r) => r,
        other => panic!("expected an answer, got {:?}", other),
    }
}

// ---- method check ---------------------------------------------------------

#[test]
fn post_on_get_only_route_returns_405() {
    let route = route_get_only(ROOT);
    let req = Request { method: Method::Post, ..get("/") };
    let resp = unwrap_response(dispatch(&req, &route, &server(), None, None, &root_seen()));
    assert_eq!(resp.status.code(), 405);
    assert_eq!(resp.headers.get("Allow"), Some("GET, HEAD"));
}

// ---- redirect -------------------------------------------------------------

#[test]
fn redirect_route_returns_3xx() {
    let route = RouteConfig {
        path: "/old".into(),
        redirect: Some(Redirect { code: 301, target: "/new".into() }),
        ..Default::default()
    };
    let resp = unwrap_response(dispatch(&get("/old"), &route, &server(), None, None, &root_seen()));
    assert_eq!(resp.status.code(), 301);
    assert_eq!(resp.headers.get("Location"), Some("/new"));
}

// ---- static file ----------------------------------------------------------

fn read(outcome: DispatchOutcome, method: Method, path: &str, contents: &[u8]) -> Response {
    match outcome {
        DispatchOutcome::Serve(ServeStep::ReadFile(p)) => {
            assert_eq!(p, path);
            static_answer(method, serve_file(&p, Ok(contents.to_vec())))
        }
        other => panic!("unexpected {:?}", other),
    }
}

#[test]
fn get_existing_file_returns_200() {
    let route = open_route(ROOT);
    let seen = seen("/tmp/handler_test/hello.txt", FileKind::File);
    let outcome = dispatch(&get("/hello.txt"), &route, &server(), None, None, &seen);
    let resp = read(outcome, Method::Get, "/tmp/handler_test/hello.txt", b"world");
    assert_eq!(resp.status.code(), 200);
    assert_eq!(resp.body, b"world");
}

#[test]
fn head_request_has_empty_body_but_content_length() {
    let route = open_route(ROOT);
    let req = Request { method: Method::Head, ..get("/data.txt") };
    let seen = seen("/tmp/handler_test/data.txt", FileKind::File);
    let outcome = dispatch(&req, &route, &server(), None, None, &seen);
    let resp = read(outcome, Method::Head, "/tmp/handler_test/data.txt", b"12345");
    assert_eq!(resp.status.code(), 200);
    assert!(resp.body.is_empty(), "HEAD must have no body");
    assert_eq!(resp.headers.get("Content-Length"), Some("5"));
}

#[test]
fn custom_404_page_counts_where_configured() {
    let route = open_route(ROOT);
    let nothing = Observed { real_root: Some(ROOT.into()), real_path: None, kind: FileKind::Other };
    let mut s = server();
    let resp = unwrap_response(dispatch(&get("/x"), &route, &s, None, Some("<p>gone"), &nothing));
    assert_eq!(resp.status.code(), 404);
    assert_ne!(resp.body, b"<p>gone");
    s.error_pages.insert(404, "/pages/404.html".into());
    let resp = unwrap_response(dispatch(&get("/x"), &route, &s, None, Some("<p>gone"), &nothing));
    assert_eq!(resp.body, b"<p>gone");
}

// ---- body size limit ------------------------------------------------------

#[test]
fn body_exceeding_limit_returns_413() {
    let mut route = open_route(ROOT);
    route.client_body_limit = Some(4);
    let mut req = get("/");
    req.method = Method::Post;
    req.body = b"toolong".to_vec();
    let resp = unwrap_response(dispatch(&req, &route, &server(), None, None, &root_seen()));
    assert_eq!(resp.status.code(), 413);
}

// ---- options --------------------------------------------------------------

#[test]
fn options_returns_allow_header() {
    let route = open_route(ROOT);
    let req = Request { method: Method::Options, ..get("/") };
    let resp = unwrap_response(dispatch(&req, &route, &server(), None, None, &root_seen()));
    assert_eq!(resp.status.code(), 204);
    assert_eq!(resp.headers.get("Allow"), Some("GET, HEAD, POST, DELETE, OPTIONS"));
}

#[test]
fn options_names_itself_on_a_route_with_methods() {
    let resp = options_response(&route_get_only(ROOT));
    assert_eq!(resp.headers.get("Allow"), Some("GET, HEAD, OPTIONS"));
}

// ---- other methods --------------------------------------------------------

#[test]
fn put_is_refused() {
    let req = Request { method: Method::Put, ..get("/") };
    let resp = unwrap_response(dispatch(&req, &open_route(ROOT), &server(), None, None, &root_seen()));
    assert_eq!(resp.status.code(), 405);
    assert_eq!(resp.headers.get("Allow"), Some("GET, POST, DELETE"));
}

#[test]
fn post_and_delete_are_planned() {
    let req = Request { method: Method::Post, body: b"x".to_vec(), ..get("/a.bin") };
    match dispatch(&req, &open_route(ROOT), &server(), None, None, &root_seen()) {
        DispatchOutcome::Upload(plan) => assert_eq!(plan.writes[0].dest, "/tmp/handler_test/a.bin"),
        other => panic!("unexpected {:?}", other),
    }
    let req = Request { method: Method::Delete, ..get("/a.bin") };
    let seen = seen("/tmp/handler_test/a.bin", FileKind::File);
    match dispatch(&req, &open_route(ROOT), &server(), None, None, &seen) {
        DispatchOutcome::Delete(DeleteStep::RemoveFile(p)) => assert_eq!(p, "/tmp/handler_test/a.bin"),
        other => panic!("unexpected {:?}", other),
    }
}

#[test]
fn script_is_started() {
    let mut route = open_route(ROOT);
    route.cgi_extensions.insert("py".into(), "/usr/bin/python3".into());
    let seen = seen("/tmp/handler_test/run.py", FileKind::File);
    match dispatch(&get("/run.py"), &route, &server(), None, None, &seen) {
        DispatchOutcome::StartCgi(t) => assert_eq!(t.interpreter, "/usr/bin/python3"),
        other => panic!("unexpected {:?}", other),
    }
}
