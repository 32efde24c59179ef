//! Serving files and plain listings.

use localhost::config::types::{Method, RouteConfig};
use localhost::handlers::listing::DirEntry;
use localhost::handlers::static_file::{
    format_size, serve, serve_directory_listing, serve_file, serve_index, ServeStep,
};
use localhost::handlers::{FileKind, IoFailure, Observed};
use localhost::http::request::types::{HeaderMap, Request, Version};
use localhost::http::response::types::Response;

const ROOT: &str = "/tmp/static_test";

fn get(path: &str) -> Request {
    Request {
        method: Method::Get,
        path: path.into(),
        query: String::new(),
        version: Version::Http11,
        headers: HeaderMap::new(),
        body: Vec::new(),
    }
}

fn route_for(root: &str) -> RouteConfig {
    RouteConfig {
        path: "/".into(),
        root: Some(root.into()),
        ..Default::default()
    }
}

fn seen(path: &str, kind: FileKind) -> Observed {
    Observed { real_root: Some(ROOT.into()), real_path: Some(path.into()), kind }
}

fn nothing() -> Observed {
    Observed { real_root: Some(ROOT.into()), real_path: None, kind: FileKind::Other }
}

/// Serves from a disk with these files, each a path and its contents.
fn served(
    req: &Request,
    route: &RouteConfig,
    page: Option<&str>,
    seen: &Observed,
    files: &[(&str, &[u8])],
) -> Response {
    let mut step = serve(req, route, page, seen);
    loop {
        step = match step {
            ServeStep::Respond(r) => return r,
            ServeStep::ReadFile(path) => {
                let read = match files.iter().find(|f| f.0 == path) {
                    Some(f) => Ok(f.1.to_vec()),
                    None => Err(IoFailure::NotFound),
                };
                return serve_file(&path, read);
            }
            ServeStep::TryIndex { dir, index } => {
                let is_file = files.iter().any(|f| f.0 == index);
                serve_index(dir, index, is_file, route)
            }
            ServeStep::List(dir) => {
                let mut entries = Vec::new();
                for f in files {
                    if let Some(name) = f.0.strip_prefix(&format!("{dir}/")) {
                        entries.push(DirEntry {
                            name: name.into(),
                            is_dir: false,
                            size: Some(f.1.len() as u64),
                        });
                    }
                }
                return serve_directory_listing(&dir, Some(entries));
            }
        };
    }
}

#[test]
fn serves_existing_html_file() {
    let resp = served(
        &get("/index.html"),
        &route_for(ROOT),
        None,
        &seen("/tmp/static_test/index.html", FileKind::File),
        &[("/tmp/static_test/index.html", b"<h1>Hello</h1>")],
    );
    assert_eq!(resp.status.code(), 200);
    assert_eq!(resp.body, b"<h1>Hello</h1>");
    assert_eq!(resp.headers.get("Content-Type"), Some("text/html; charset=utf-8"));
}

#[test]
fn returns_404_for_missing_file() {
    let resp = served(&get("/missing.html"), &route_for(ROOT), None, &nothing(), &[]);
    assert_eq!(resp.status.code(), 404);
}

#[test]
fn returns_404_on_traversal() {
    let resp = served(
        &get("/../etc/passwd"),
        &route_for(ROOT),
        None,
        &seen("/etc/passwd", FileKind::File),
        &[("/etc/passwd", b"root")],
    );
    assert_eq!(resp.status.code(), 404);
}

#[test]
fn serves_index_file_for_directory() {
    let route = RouteConfig {
        path: "/".into(),
        root: Some(ROOT.into()),
        index_file: Some("index.html".into()),
        ..Default::default()
    };
    let resp = served(
        &get("/"),
        &route,
        None,
        &seen(ROOT, FileKind::Directory),
        &[("/tmp/static_test/index.html", b"index")],
    );
    assert_eq!(resp.status.code(), 200);
    assert_eq!(resp.body, b"index");
}

#[test]
fn returns_403_for_directory_without_listing() {
    let route = RouteConfig {
        path: "/".into(),
        root: Some(ROOT.into()),
        directory_listing: false,
        ..Default::default()
    };
    let resp = served(&get("/"), &route, None, &seen(ROOT, FileKind::Directory), &[]);
    assert_eq!(resp.status.code(), 403);
}

#[test]
fn returns_listing_when_enabled() {
    let route = RouteConfig {
        path: "/".into(),
        root: Some(ROOT.into()),
        directory_listing: true,
        ..Default::default()
    };
    let resp = served(
        &get("/"),
        &route,
        None,
        &seen(ROOT, FileKind::Directory),
        &[("/tmp/static_test/hello.txt", b"hi")],
    );
    assert_eq!(resp.status.code(), 200);
    let body = String::from_utf8_lossy(&resp.body);
    assert!(body.contains("hello.txt"));
    assert!(body.contains("<tr><td><a href=\"hello.txt\">hello.txt</a></td><td>2 B</td></tr>\n"));
}

#[test]
fn uses_custom_404_page() {
    let resp = served(
        &get("/missing"),
        &route_for(ROOT),
        Some("<h1>Custom 404</h1>"),
        &nothing(),
        &[],
    );
    assert_eq!(resp.body, b"<h1>Custom 404</h1>");
}

#[test]
fn mime_type_from_extension() {
    let resp = served(
        &get("/style.css"),
        &route_for(ROOT),
        None,
        &seen("/tmp/static_test/style.css", FileKind::File),
        &[("/tmp/static_test/style.css", b"body{}")],
    );
    assert_eq!(resp.headers.get("Content-Type"), Some("text/css; charset=utf-8"));
}

#[test]
fn format_size_units() {
    assert_eq!(format_size(500), "500 B");
    assert_eq!(format_size(2048), "2.0 KiB");
    assert_eq!(format_size(1024 * 1024), "1.0 MiB");
}

#[test]
fn format_size_stays_in_mebibytes() {
    for b in [1u64 << 20, (1 << 30) + 52_428_800, u64::MAX] {
        assert_eq!(format_size(b), format!("{:.1} MiB", b as f64 / (1024.0 * 1024.0)));
    }
}

#[test]
fn failed_reads_are_answered_by_their_cause() {
    assert_eq!(serve_file("/a", Err(IoFailure::NotFound)).status.code(), 404);
    assert_eq!(serve_file("/a", Err(IoFailure::PermissionDenied)).status.code(), 403);
    assert_eq!(serve_file("/a", Err(IoFailure::Other)).status.code(), 500);
    assert_eq!(serve_directory_listing("/a", None).status.code(), 403);
}

#[test]
fn route_without_root_serves_nothing() {
    let route = RouteConfig { path: "/".into(), root: None, ..Default::default() };
    let resp = served(&get("/a"), &route, None, &nothing(), &[]);
    assert_ne!(resp.status.code(), 200);
}
