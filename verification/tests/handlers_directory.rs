//! Listings with types and sizes.

use localhost::config::types::{Method, RouteConfig};
use localhost::handlers::directory::{
    build_rows, format_size, html_escape, render_listing, serve, ListStep,
};
use localhost::handlers::listing::{sort_entries, DirEntry};
use localhost::handlers::{FileKind, Observed};
use localhost::http::request::types::{HeaderMap, Request, Version};
use localhost::http::response::types::Response;

const ROOT: &str = "/tmp/dir_test";

fn get_req(path: &str) -> Request {
    Request {
        method: Method::Get,
        path: path.into(),
        query: String::new(),
        version: Version::Http11,
        headers: HeaderMap::new(),
        body: Vec::new(),
    }
}

fn listing_route(root: &str) -> RouteConfig {
    RouteConfig {
        path: "/".into(),
        root: Some(root.into()),
        directory_listing: true,
        ..Default::default()
    }
}

fn dir_seen(path: &str) -> Observed {
    Observed {
        real_root: Some(ROOT.into()),
        real_path: Some(path.into()),
        kind: FileKind::Directory,
    }
}

fn file(name: &str, size: u64) -> DirEntry {
    DirEntry { name: name.into(), is_dir: false, size: Some(size) }
}

fn dir(name: &str) -> DirEntry {
    DirEntry { name: name.into(), is_dir: true, size: None }
}

fn listed(url: &str, real: &str, entries: Vec<DirEntry>) -> Response {
    match serve(&get_req(url), &listing_route(ROOT), &dir_seen(real)) {
        ListStep::List(path) => assert_eq!(path, real),
        other => panic!("unexpected {:?}", other),
    }
    render_listing(Some(entries), url)
}

// ---- serve ----------------------------------------------------------------

#[test]
fn listing_disabled_returns_403() {
    let route = RouteConfig {
        path: "/".into(),
        root: Some(ROOT.into()),
        directory_listing: false,
        ..Default::default()
    };
    match serve(&get_req("/"), &route, &dir_seen(ROOT)) {
        ListStep::Respond(resp) => assert_eq!(resp.status.code(), 403),
        other => panic!("unexpected {:?}", other),
    }
}

#[test]
fn listing_returns_200_with_html() {
    let resp = listed("/", ROOT, vec![file("a.txt", 0)]);
    assert_eq!(resp.status.code(), 200);
    let body = String::from_utf8_lossy(&resp.body);
    assert!(body.contains("a.txt"));
    assert!(body.contains("<!DOCTYPE html>"));
}

#[test]
fn directories_listed_before_files() {
    let resp = listed("/", ROOT, vec![file("aaa.txt", 0), dir("zzz_dir")]);
    let body = String::from_utf8_lossy(&resp.body);
    let dir_pos = body.find("zzz_dir").unwrap();
    let file_pos = body.find("aaa.txt").unwrap();
    assert!(dir_pos < file_pos, "dirs should come before files");
}

#[test]
fn parent_link_present_for_non_root() {
    let resp = listed("/subdir", "/tmp/dir_test/subdir", vec![]);
    let body = String::from_utf8_lossy(&resp.body);
    assert!(body.contains("../"));
}

#[test]
fn no_parent_link_at_root() {
    let resp = listed("/", ROOT, vec![]);
    let body = String::from_utf8_lossy(&resp.body);
    assert!(!body.contains("href=\"../\""), "root should have no ../ link");
}

#[test]
fn unreadable_directory_is_forbidden() {
    assert_eq!(render_listing(None, "/").status.code(), 403);
}

// ---- html_escape ----------------------------------------------------------

#[test]
fn html_escape_encodes_special_chars() {
    assert_eq!(html_escape("<b>&\""), "&lt;b&gt;&amp;&quot;");
    assert_eq!(html_escape("normal"), "normal");
}

#[test]
fn row_exact() {
    assert_eq!(
        build_rows(&[file("a<b.txt", 1536)]),
        "    <tr><td><a href=\"a&lt;b.txt\">a&lt;b.txt</a></td><td>file</td><td class=\"size\">1.5 KiB</td></tr>\n"
    );
    assert_eq!(
        build_rows(&[dir("d")]),
        "    <tr><td><a href=\"d/\">d/</a></td><td>directory</td><td class=\"size\">-</td></tr>\n"
    );
}

#[test]
fn order_is_by_name_within_kinds() {
    let sorted = sort_entries(vec![file("b", 1), dir("z"), file("B", 1), file("a", 1), dir("c")], true);
    let names: Vec<&str> = sorted.iter().map(|e| e.name.as_str()).collect();
    assert_eq!(names, vec!["c", "z", "B", "a", "b"]);
    let sorted = sort_entries(vec![file("b", 1), dir("z"), file("ba", 1), dir("c")], false);
    let names: Vec<&str> = sorted.iter().map(|e| e.name.as_str()).collect();
    assert_eq!(names, vec!["b", "ba", "c", "z"]);
}

// ---- format_size ----------------------------------------------------------

#[test]
fn format_size_boundaries() {
    assert_eq!(format_size(0), "0 B");
    assert_eq!(format_size(1023), "1023 B");
    assert_eq!(format_size(1024), "1.0 KiB");
    assert_eq!(format_size(1024 * 1024), "1.0 MiB");
    assert_eq!(format_size(1024 * 1024 * 1024), "1.0 GiB");
}

#[test]
fn format_size_is_what_double_precision_gives() {
    let mut sizes: Vec<u64> = (1024..70_000).collect();
    // Halfway between two tenths, and just beside.
    for k in 0..200u64 {
        for unit in [1024u64, 1 << 20, 1 << 30] {
            let half = (2 * k + 21) * unit / 20;
            sizes.push(half);
            sizes.push(half + 1);
            sizes.push(half - 1);
        }
    }
    // Beyond 53 binary digits.
    let mut n: u64 = (1 << 53) - 3;
    while n < u64::MAX / 3 {
        for d in 0..7 {
            sizes.push(n + d);
            sizes.push(n * 2 + 53_687_091 + d);
        }
        n = n * 2 + 1;
    }
    sizes.push(u64::MAX);
    sizes.push(u64::MAX - 1023);
    sizes.push(u64::MAX - 1024);
    for b in sizes {
        let expected = if b >= 1 << 30 {
            format!("{:.1} GiB", b as f64 / (1u64 << 30) as f64)
        } else if b >= 1 << 20 {
            format!("{:.1} MiB", b as f64 / (1u64 << 20) as f64)
        } else if b >= 1024 {
            format!("{:.1} KiB", b as f64 / 1024.0)
        } else {
            format!("{b} B")
        };
        assert_eq!(format_size(b), expected);
    }
}

// ---- traversal ------------------------------------------------------------

#[test]
fn traversal_in_listing_returns_404() {
    match serve(&get_req("/../etc"), &listing_route(ROOT), &dir_seen("/etc")) {
        ListStep::Respond(resp) => assert_eq!(resp.status.code(), 404),
        other => panic!("unexpected {:?}", other),
    }
}
