//! Validating configurations.

use localhost::config::load;
use localhost::config::parser::parse_source;
use localhost::config::types::{Redirect, RouteConfig, ServerConfig};
use localhost::config::validator::{validate, DiskFacts};

fn minimal_server(host: &str, ports: &[u16]) -> ServerConfig {
    ServerConfig {
        host:   host.into(),
        ports:  ports.to_vec(),
        routes: vec![RouteConfig {
            path: "/".into(),
            root: Some("/var/www".into()),
            ..Default::default()
        }],
        ..Default::default()
    }
}

// ---- port presence -----------------------------------------------------

#[test]
fn no_ports_is_error() {
    let cfg = ServerConfig { ports: vec![], ..minimal_server("0.0.0.0", &[]) };
    assert!(validate(&[cfg], None).is_err());
}

#[test]
fn single_port_ok() {
    let cfg = minimal_server("0.0.0.0", &[8080]);
    assert!(validate(&[cfg], None).is_ok());
}

// ---- duplicate host:port -----------------------------------------------

#[test]
fn two_servers_same_port_no_server_name_is_error() {
    let a = minimal_server("0.0.0.0", &[80]);
    let b = minimal_server("0.0.0.0", &[80]);
    assert!(validate(&[a, b], None).is_err());
}

#[test]
fn two_servers_same_port_distinct_server_names_ok() {
    let mut a = minimal_server("0.0.0.0", &[80]);
    a.server_names = vec!["foo.com".into()];
    let mut b = minimal_server("0.0.0.0", &[80]);
    b.server_names = vec!["bar.com".into()];
    assert!(validate(&[a, b], None).is_ok());
}

#[test]
fn two_servers_same_port_overlapping_server_names_is_error() {
    let mut a = minimal_server("0.0.0.0", &[80]);
    a.server_names = vec!["foo.com".into()];
    let mut b = minimal_server("0.0.0.0", &[80]);
    b.server_names = vec!["foo.com".into(), "bar.com".into()];
    assert!(validate(&[a, b], None).is_err());
}

#[test]
fn two_servers_different_ports_ok() {
    let a = minimal_server("0.0.0.0", &[80]);
    let b = minimal_server("0.0.0.0", &[443]);
    assert!(validate(&[a, b], None).is_ok());
}

#[test]
fn two_servers_different_hosts_same_port_ok() {
    let a = minimal_server("127.0.0.1", &[80]);
    let b = minimal_server("192.168.1.1", &[80]);
    assert!(validate(&[a, b], None).is_ok());
}

// ---- redirect target ---------------------------------------------------

#[test]
fn empty_redirect_target_is_error() {
    let mut server = minimal_server("0.0.0.0", &[80]);
    server.routes[0].redirect = Some(Redirect { code: 301, target: "   ".into() });
    assert!(validate(&[server], None).is_err());
}

#[test]
fn valid_redirect_ok() {
    let mut server = minimal_server("0.0.0.0", &[80]);
    server.routes[0].redirect = Some(Redirect { code: 301, target: "/new-path".into() });
    assert!(validate(&[server], None).is_ok());
}

// ---- CGI interpreter ---------------------------------------------------

#[test]
fn relative_cgi_path_is_error() {
    let mut server = minimal_server("0.0.0.0", &[80]);
    server.routes[0].cgi_extensions.insert("py".into(), "python3".into());
    assert!(validate(&[server], None).is_err());
}

#[test]
fn absolute_cgi_path_ok_in_test_mode() {
    // Without facts from the disk, any absolute path passes.
    let mut server = minimal_server("0.0.0.0", &[80]);
    server.routes[0]
        .cgi_extensions
        .insert("py".into(), "/usr/bin/python3".into());
    assert!(validate(&[server], None).is_ok());
}

// ---- combined parse + validate -----------------------------------------

#[test]
fn parse_then_validate_valid_config() {
    let src = r#"
server {
host 127.0.0.1
port 8080
server_name localhost
error_page 404 /errors/404.html
route / {
    methods GET HEAD
    root    /var/www/html
    index   index.html
}
}
"#;
    let configs = parse_source(src).expect("should parse");
    // Without facts from the disk, files and directories are not asked for.
    assert!(validate(&configs, None).is_ok());
}

// ---- the disk -------------------------------------------------------------

fn facts(files: &[&str], directories: &[&str]) -> DiskFacts {
    DiskFacts {
        files: files.iter().map(|s| s.to_string()).collect(),
        directories: directories.iter().map(|s| s.to_string()).collect(),
    }
}

fn refusal(server: ServerConfig, disk: &DiskFacts) -> String {
    validate(&[server], Some(disk)).unwrap_err().message()
}

#[test]
fn files_and_directories_must_be_there() {
    let mut server = minimal_server("0.0.0.0", &[80]);
    server.error_pages.insert(404, "/e/404.html".into());
    server.routes[0].cgi_extensions.insert("py".into(), "/usr/bin/python3".into());
    let all = facts(&["/e/404.html", "/usr/bin/python3"], &["/var/www"]);
    assert!(validate(std::slice::from_ref(&server), Some(&all)).is_ok());
    assert_eq!(
        refusal(server.clone(), &facts(&["/usr/bin/python3"], &["/var/www"])),
        "error page for 404 not found at '/e/404.html'"
    );
    assert_eq!(
        refusal(server.clone(), &facts(&["/e/404.html", "/usr/bin/python3"], &[])),
        "route root '/var/www' is not a valid directory"
    );
    assert_eq!(
        refusal(server, &facts(&["/e/404.html"], &["/var/www"])),
        "invalid value for 'cgi interpreter': '/usr/bin/python3' \u{2014} CGI interpreter not found on disk"
    );
}

#[test]
fn refusals_say_why() {
    let none = facts(&[], &["/var/www"]);
    let mut server = minimal_server("h", &[]);
    assert_eq!(
        refusal(server.clone(), &none),
        "missing directive 'port' in server block #1 (host: h)"
    );
    server.ports = vec![80];
    server.routes[0].redirect = Some(Redirect { code: 301, target: " ".into() });
    assert_eq!(
        refusal(server.clone(), &none),
        "invalid value for 'redirect target': '' \u{2014} redirect target URL must not be empty"
    );
    server.routes[0].redirect = None;
    server.routes[0].cgi_extensions.insert("py".into(), "python3".into());
    assert_eq!(
        refusal(server, &none),
        "invalid value for 'cgi interpreter': 'python3' \u{2014} CGI interpreter path must be absolute (start with '/')"
    );
}

#[test]
fn one_server_is_in_conflict_with_nobody() {
    let mut server = minimal_server("h", &[80, 80]);
    assert!(validate(std::slice::from_ref(&server), None).is_ok());
    server.server_names = vec!["a".into(), "a".into()];
    let mut other = minimal_server("h", &[80]);
    other.server_names = vec!["b".into()];
    assert!(validate(&[server, other], None).is_ok());
}

#[test]
fn shared_address_says_why() {
    let a = minimal_server("h", &[80]);
    let b = minimal_server("h", &[80]);
    assert_eq!(
        validate(&[a, b], None).unwrap_err().message(),
        "duplicate host:port 'h:80' with no distinct server_name"
    );
}

#[test]
fn load_reads_and_validates() {
    assert!(load("server { port 80 route / { root /a } }", None).is_ok());
    assert!(load("server { route / { root /a } }", None).is_err());
    assert!(load("server {", None).is_err());
    let text = "server { port 80 route / { root /a } }";
    assert!(load(text, Some(&facts(&[], &[]))).is_err());
    assert_eq!(load(text, Some(&facts(&[], &["/a"]))).unwrap().len(), 1);
}
