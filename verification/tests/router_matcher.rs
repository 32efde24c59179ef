//! Selecting servers and routes.

use localhost::config::types::{RouteConfig, ServerConfig};
use localhost::router::matcher::{match_route, route_index, select_server, server_index};

// ---- helpers -----------------------------------------------------------

fn server(host: &str, port: u16, names: &[&str]) -> ServerConfig {
    ServerConfig {
        host:         host.into(),
        ports:        vec![port],
        server_names: names.iter().map(|s| s.to_string()).collect(),
        routes:       vec![route("/")],
        ..Default::default()
    }
}

fn route(path: &str) -> RouteConfig {
    RouteConfig {
        path: path.into(),
        root: Some("/var/www".into()),
        ..Default::default()
    }
}

// ---- select_server -----------------------------------------------------

#[test]
fn selects_by_server_name() {
    let configs = vec![
        server("0.0.0.0", 80, &["foo.com"]),
        server("0.0.0.0", 80, &["bar.com"]),
    ];
    let s = select_server("bar.com", 80, &configs);
    assert_eq!(s.server_names, vec!["bar.com"]);
}

#[test]
fn falls_back_to_first_for_port() {
    let configs = vec![
        server("0.0.0.0", 80, &["foo.com"]),
        server("0.0.0.0", 80, &["bar.com"]),
    ];
    // "unknown.com" matches no server_name → first server for port 80.
    let s = select_server("unknown.com", 80, &configs);
    assert_eq!(s.server_names, vec!["foo.com"]);
}

#[test]
fn server_name_matching_is_case_insensitive() {
    let configs = vec![server("0.0.0.0", 80, &["Example.COM"])];
    let s = select_server("example.com", 80, &configs);
    assert_eq!(s.server_names[0], "Example.COM");
}

#[test]
fn host_header_port_suffix_stripped() {
    // "example.com:8080" should match "example.com".
    let configs = vec![server("0.0.0.0", 8080, &["example.com"])];
    let s = select_server("example.com:8080", 8080, &configs);
    assert_eq!(s.server_names[0], "example.com");
}

#[test]
fn wildcard_server_name_match() {
    let configs = vec![server("0.0.0.0", 80, &["*.example.com"])];
    let s = select_server("www.example.com", 80, &configs);
    assert_eq!(s.server_names[0], "*.example.com");
}

#[test]
fn unknown_port_falls_back_to_first_config() {
    let configs = vec![server("0.0.0.0", 80, &["a.com"])];
    // Port 9999 has no matching config.
    let s = select_server("a.com", 9999, &configs);
    assert_eq!(s.server_names[0], "a.com");
}

// ---- match_route -------------------------------------------------------

#[test]
fn exact_match_wins_over_prefix() {
    let routes = vec![
        route("/"),
        route("/static"),
        route("/static/img"),
    ];
    let r = match_route("/static/img", &routes).unwrap();
    assert_eq!(r.path, "/static/img");
}

#[test]
fn longest_prefix_wins() {
    let routes = vec![
        route("/"),
        route("/static"),
        route("/static/img"),
    ];
    // "/static/img/logo.png" — longest matching prefix is "/static/img".
    let r = match_route("/static/img/logo.png", &routes).unwrap();
    assert_eq!(r.path, "/static/img");
}

#[test]
fn root_matches_any_path() {
    let routes = vec![route("/")];
    assert!(match_route("/anything/at/all", &routes).is_some());
}

#[test]
fn no_match_returns_none() {
    let routes = vec![route("/api"), route("/static")];
    // "/other" does not match "/api" or "/static".
    assert!(match_route("/other", &routes).is_none());
}

#[test]
fn prefix_does_not_match_partial_segment() {
    // "/stat" must NOT match the route "/static".
    let routes = vec![route("/static")];
    assert!(match_route("/stat", &routes).is_none());
}

#[test]
fn prefix_matches_at_slash_boundary() {
    let routes = vec![route("/static")];
    // "/static/file.css" — matches because boundary is '/'.
    let r = match_route("/static/file.css", &routes).unwrap();
    assert_eq!(r.path, "/static");
}

#[test]
fn empty_routes_returns_none() {
    assert!(match_route("/anything", &[]).is_none());
}

#[test]
fn single_slash_route_matches_root() {
    let routes = vec![route("/")];
    let r = match_route("/", &routes).unwrap();
    assert_eq!(r.path, "/");
}

#[test]
fn first_of_equal_names_and_last_of_equal_prefixes() {
    let configs = vec![server("0.0.0.0", 80, &["a.com"]), server("0.0.0.0", 80, &["A.com"])];
    assert_eq!(server_index("a.com", 80, &configs), 0);
    let routes = vec![route("/a"), route("/a"), route("/b")];
    assert_eq!(route_index("/a/x", &routes), Some(1));
    assert_eq!(route_index("/a", &routes), Some(0));
}

#[test]
fn exact_name_wins_over_star() {
    let configs =
        vec![server("0.0.0.0", 80, &["*.example.com"]), server("0.0.0.0", 80, &["www.example.com"])];
    assert_eq!(server_index("www.example.com", 80, &configs), 1);
    assert_eq!(server_index("api.example.com", 80, &configs), 0);
}

#[test]
fn prefix_ends_at_a_segment() {
    assert!(match_route("/statics", &[route("/static")]).is_none());
}

#[test]
fn star_asks_for_its_dot() {
    let configs =
        vec![server("0.0.0.0", 80, &["foo.com"]), server("0.0.0.0", 80, &["*.example.com"])];
    assert_eq!(server_index("badexample.com", 80, &configs), 0);
    assert_eq!(server_index("example.com", 80, &configs), 0);
    assert_eq!(server_index(".example.com", 80, &configs), 0);
    assert_eq!(server_index("a.example.com", 80, &configs), 1);
    assert_eq!(server_index("a.b.example.com", 80, &configs), 1);
}
