//! Paths.

use localhost::utils::path::{
    join, join_url, lexical_normalize, parent_dir, resolve_safe, resolve_safe_virtual, same_path,
    starts_with, PathError,
};

const ROOT: &str = "/tmp/path_test";

#[test]
fn resolve_safe_normal_path() {
    let file = format!("{ROOT}/index.html");
    let result = resolve_safe(ROOT, "/index.html", Some(ROOT), Some(&file)).unwrap();
    assert_eq!(result, file);
}

#[test]
fn resolve_safe_blocks_traversal() {
    let result = resolve_safe(ROOT, "/../etc/passwd", Some(ROOT), Some("/etc/passwd"));
    assert!(result.is_err(), "should have blocked traversal");
    let result = resolve_safe(ROOT, "/../etc/passwd", Some(ROOT), None);
    assert!(result.is_err(), "should have blocked traversal");
}

#[test]
fn resolve_safe_blocks_dotdot_in_path() {
    let result = resolve_safe(ROOT, "/subdir/../../etc/passwd", Some(ROOT), None);
    assert!(result.is_err());
}

#[test]
fn resolve_safe_allows_subdirectory() {
    let real = format!("{ROOT}/static/app.js");
    let result = resolve_safe(ROOT, "/static/app.js", Some(ROOT), Some(&real));
    assert!(result.is_ok());
}

#[test]
fn resolve_safe_virtual_blocks_traversal() {
    let result = resolve_safe_virtual("/var/www", "/../etc/passwd");
    assert!(result.is_err());
}

#[test]
fn resolve_safe_virtual_allows_normal() {
    let result = resolve_safe_virtual("/var/www", "/static/app.js");
    assert!(result.is_ok());
    assert_eq!(result.unwrap(), "/var/www/static/app.js");
}

#[test]
fn lexical_normalize_resolves_dotdot() {
    let p = lexical_normalize("/a/b/../c");
    assert_eq!(p, "/a/c");
}

#[test]
fn lexical_normalize_resolves_dot() {
    let p = lexical_normalize("/a/./b");
    assert_eq!(p, "/a/b");
}

#[test]
fn normalising_twice_changes_nothing() {
    for p in ["/a/./b/../c", "a/../..", "/..", "/", "a//b/", "./x"] {
        let once = lexical_normalize(p);
        assert_eq!(lexical_normalize(&once), once);
    }
    assert_eq!(lexical_normalize("/../a"), "/a");
}

#[test]
fn path_errors() {
    match resolve_safe("/none", "/a", None, None) {
        Err(PathError::InvalidRoot(r)) => assert_eq!(r, "/none"),
        other => panic!("unexpected {:?}", other),
    }
    assert_eq!(PathError::Traversal.message(), "path traversal detected");
    assert_eq!(PathError::InvalidRoot("/x".into()).message(), "invalid root: /x");
    // A link that leads out of the root.
    assert!(resolve_safe(ROOT, "/link", Some(ROOT), Some("/etc")).is_err());
    // A sibling whose name begins like the root.
    assert!(resolve_safe(ROOT, "/x", Some(ROOT), Some("/tmp/path_test_other")).is_err());
}

#[test]
fn joining_and_comparing() {
    assert_eq!(join("/a", "b"), "/a/b");
    assert_eq!(join("/a", "/b"), "/b");
    assert_eq!(join_url("/a", "//b/c"), "/a/b/c");
    assert_eq!(parent_dir("/a/b"), Some("/a".to_string()));
    assert_eq!(parent_dir("/"), None);
    assert!(same_path("/a//b/", "/a/b"));
    assert!(starts_with("/a/b", "/a") && !starts_with("/ab", "/a"));
}
