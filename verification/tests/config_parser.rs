//! Reading configuration texts.

use localhost::config::parser::{parse_size, parse_source, tokenise};
use localhost::config::types::{ConfigError, Method};

// ---- tokeniser ---------------------------------------------------------

#[test]
fn tokenise_braces_attached_to_words() {
    let tokens = tokenise("server{");
    assert_eq!(tokens.len(), 2);
    assert_eq!(tokens[0].value, "server");
    assert_eq!(tokens[1].value, "{");
}

#[test]
fn tokenise_tracks_line_numbers() {
    let src = "server {\n    host 127.0.0.1\n}";
    let tokens = tokenise(src);
    assert_eq!(tokens[0].line, 1); // server
    assert_eq!(tokens[1].line, 1); // {
    assert_eq!(tokens[2].line, 2); // host
    assert_eq!(tokens[3].line, 2); // 127.0.0.1
    assert_eq!(tokens[4].line, 3); // }
}

// ---- parse_size --------------------------------------------------------

#[test]
fn parse_size_raw_bytes() {
    assert_eq!(parse_size("1048576", 0).unwrap(), 1_048_576);
}

#[test]
fn parse_size_with_suffix() {
    assert_eq!(parse_size("1m", 0).unwrap(),   1_048_576);
    assert_eq!(parse_size("512k", 0).unwrap(), 524_288);
    assert_eq!(parse_size("2M", 0).unwrap(),   2_097_152);
    assert_eq!(parse_size("1G", 0).unwrap(),   1_073_741_824);
}

#[test]
fn parse_size_invalid() {
    assert!(parse_size("abc", 1).is_err());
}

// ---- minimal valid config ----------------------------------------------

#[test]
fn minimal_server_block() {
    let src = r#"
server {
host 127.0.0.1
port 8080

route / {
    root /var/www/html
}
}
"#;
    let servers = parse_source(src).expect("should parse");
    assert_eq!(servers.len(), 1);
    let s = &servers[0];
    assert_eq!(s.host, "127.0.0.1");
    assert_eq!(s.ports, vec![8080]);
    assert_eq!(s.routes.len(), 1);
    assert_eq!(s.routes[0].path, "/");
    assert_eq!(s.routes[0].root.as_deref(), Some("/var/www/html"));
}

#[test]
fn multiple_ports_same_line() {
    let src = r#"
server {
host 0.0.0.0
port 80 443 8080
route / { root /www }
}
"#;
    let servers = parse_source(src).unwrap();
    assert_eq!(servers[0].ports, vec![80, 443, 8080]);
}

#[test]
fn multiple_server_blocks() {
    let src = r#"
server { host 127.0.0.1  port 8080  route / { root /a } }
server { host 127.0.0.1  port 9090  route / { root /b } }
"#;
    let servers = parse_source(src).unwrap();
    assert_eq!(servers.len(), 2);
    assert_eq!(servers[0].ports[0], 8080);
    assert_eq!(servers[1].ports[0], 9090);
}

#[test]
fn error_pages_parsed() {
    let src = r#"
server {
host 0.0.0.0  port 80
error_page 404 /errors/404.html
error_page 500 /errors/500.html
route / { root /www }
}
"#;
    let servers = parse_source(src).unwrap();
    let pages = &servers[0].error_pages;
    assert_eq!(pages.get(&404).map(String::as_str), Some("/errors/404.html"));
    assert_eq!(pages.get(&500).map(String::as_str), Some("/errors/500.html"));
}

#[test]
fn route_with_redirect() {
    let src = r#"
server {
host 0.0.0.0  port 80
route /old { redirect 301 /new }
}
"#;
    let servers = parse_source(src).unwrap();
    let redir = servers[0].routes[0].redirect.as_ref().unwrap();
    assert_eq!(redir.code, 301);
    assert_eq!(redir.target, "/new");
}

#[test]
fn route_with_cgi() {
    let src = r#"
server {
host 0.0.0.0  port 80
route /cgi-bin {
    root /usr/lib/cgi-bin
    cgi .py /usr/bin/python3
}
}
"#;
    let servers = parse_source(src).unwrap();
    let route = &servers[0].routes[0];
    assert_eq!(route.cgi_extensions.get("py").map(String::as_str), Some("/usr/bin/python3"));
}

#[test]
fn route_methods_parsed() {
    let src = r#"
server {
host 0.0.0.0  port 80
route /upload {
    methods POST DELETE
    root /uploads
}
}
"#;
    let servers = parse_source(src).unwrap();
    let methods = &servers[0].routes[0].methods;
    assert!(methods.contains(&Method::Post));
    assert!(methods.contains(&Method::Delete));
    assert!(!methods.contains(&Method::Get));
}

#[test]
fn directory_listing_toggle() {
    let src = r#"
server {
host 0.0.0.0  port 80
route /files { root /files  directory_listing on }
}
"#;
    let servers = parse_source(src).unwrap();
    assert!(servers[0].routes[0].directory_listing);
}

#[test]
fn client_body_limit_per_route() {
    let src = r#"
server {
host 0.0.0.0  port 80
route /upload { root /up  client_body_limit 10m }
}
"#;
    let servers = parse_source(src).unwrap();
    assert_eq!(servers[0].routes[0].client_body_limit, Some(10 * 1_048_576));
}

#[test]
fn server_names_multiple() {
    let src = r#"
server {
host 0.0.0.0  port 80
server_name example.com www.example.com
route / { root /www }
}
"#;
    let servers = parse_source(src).unwrap();
    assert_eq!(servers[0].server_names, vec!["example.com", "www.example.com"]);
}

// ---- error cases -------------------------------------------------------

#[test]
fn unknown_top_level_directive_is_error() {
    let src = "garbage { }";
    assert!(parse_source(src).is_err());
}

#[test]
fn unclosed_server_block_is_error() {
    let src = "server { host 0.0.0.0  port 80";
    assert!(parse_source(src).is_err());
}

#[test]
fn invalid_redirect_code_is_error() {
    let src = r#"server { host 0.0.0.0 port 80 route /x { redirect 200 /y } }"#;
    assert!(parse_source(src).is_err());
}

#[test]
fn invalid_port_zero_is_error() {
    let src = "server { host 0.0.0.0  port 0  route / { root /w } }";
    assert!(parse_source(src).is_err());
}

#[test]
fn invalid_port_too_large_is_error() {
    let src = "server { host 0.0.0.0  port 99999  route / { root /w } }";
    assert!(parse_source(src).is_err());
}
#[test]
fn duplicate_root_in_route_is_rejected() {
    let src = "server { host 0.0.0.0 port 80 route / { root /a  root /b } }";
    assert!(matches!(parse_source(src).unwrap_err(),
        ConfigError::DuplicateDirective { directive: "root", .. }));
}

#[test]
fn index_and_default_file_conflict() {
    let src = "server { host 0.0.0.0 port 80 route / { index a.html  default_file b.html } }";
    assert!(matches!(parse_source(src).unwrap_err(),
        ConfigError::DuplicateDirective { directive: "index", .. }));
}

#[test]
fn duplicate_host_in_server_is_rejected() {
    let src = "server { host 0.0.0.0  host 127.0.0.1  port 80  route / { root /a } }";
    assert!(matches!(parse_source(src).unwrap_err(),
        ConfigError::DuplicateDirective { directive: "host", .. }));
}

#[test]
fn repeated_methods_still_accumulate() {
    let src = "server { host 0.0.0.0 port 80 route / { methods GET  methods POST  root /a } }";
    let s = parse_source(src).unwrap();
    let m = &s[0].routes[0].methods;
    assert!(m.contains(&Method::Get) && m.contains(&Method::Post));
}

// ---- more errors ----------------------------------------------------------

fn message(src: &str) -> String {
    parse_source(src).unwrap_err().message()
}

#[test]
fn errors_name_what_and_where() {
    assert_eq!(message("\n\ngarbage { }"), "unknown directive 'garbage' at line 3");
    assert_eq!(message("server"), "malformed block at line 0: unexpected end of file, expected '{' for server");
    assert_eq!(message("server x"), "malformed block at line 1: expected '{' to open server block, got 'x'");
    assert_eq!(
        message("server {\n host"),
        "missing directive 'host value' in end of file"
    );
    assert_eq!(
        message("server { port 80"),
        "malformed block at line 1: unexpected end of file inside server block"
    );
    assert_eq!(
        message("server { route / { root /a"),
        "malformed block at line 1: unexpected end of file inside route block"
    );
    assert_eq!(message("server { port x }"), "malformed block at line 1: invalid port 'x'");
    assert_eq!(message("server { port 0 }"), "port 0 is out of valid range 1\u{2013}65535");
    assert_eq!(
        message("server { error_page 99999 /a }"),
        "malformed block at line 1: invalid HTTP status code '99999'"
    );
    assert_eq!(
        message("server { route / { methods FETCH } }"),
        "malformed block at line 1: unknown HTTP method 'FETCH'"
    );
    assert_eq!(
        message("server { route / { directory_listing maybe } }"),
        "malformed block at line 1: expected on/off for boolean, got 'maybe'"
    );
    assert_eq!(
        message("server { route / { redirect 200 /y } }"),
        "invalid value for 'redirect code': '200' \u{2014} must be one of 301, 302, 307, 308"
    );
    assert_eq!(
        message("server { route / {\nroot /a\nroot /b } }"),
        "directive 'root' is set more than once (line 3; first seen at line 2)"
    );
    assert_eq!(
        message("server { client_body_limit 5x }"),
        "malformed block at line 1: invalid size '5x'"
    );
}

#[test]
fn sizes_that_cannot_be_counted_are_refused() {
    assert!(parse_size("18446744073709551615", 1).is_ok());
    assert!(parse_size("18446744073709551616", 1).is_err());
    assert!(parse_size("17179869184g", 1).is_err());
    assert_eq!(parse_size("17179869183G", 1).unwrap(), 17179869183 << 30);
    assert!(parse_size("k", 1).is_err());
    assert!(parse_size("1\u{212a}", 1).is_err());
}

#[test]
fn extension_is_kept_in_lower_case_without_its_dot() {
    let src = "server { route / { cgi ..PY /usr/bin/python3 } }";
    let servers = parse_source(src).unwrap();
    assert_eq!(
        servers[0].routes[0].cgi_extensions.get("py").map(String::as_str),
        Some("/usr/bin/python3")
    );
}

#[test]
fn braces_are_tokens_of_their_own() {
    let values: Vec<String> = tokenise("a{b}}c\n{").into_iter().map(|t| t.value).collect();
    assert_eq!(values, vec!["a", "{", "b", "}", "}", "c", "{"]);
}
