//! The model of a configuration.

use localhost::config::types::{ConfigError, Method, RouteConfig, ServerConfig};

#[test]
fn method_round_trip() {
    for s in &["GET", "POST", "DELETE", "HEAD", "PUT", "OPTIONS"] {
        let m = Method::from_str(s).expect("should parse");
        assert_eq!(m.as_str(), *s);
    }
    assert!(Method::from_str("PATCH").is_none());
    assert!(Method::from_str("get").is_none()); // case-sensitive
}

#[test]
fn route_allows_method_empty_means_all() {
    let route = RouteConfig::default();
    assert!(route.allows_method(&Method::Get));
    assert!(route.allows_method(&Method::Delete));
}

#[test]
fn route_allows_method_restricted() {
    let route = RouteConfig {
        methods: vec![Method::Get, Method::Head],
        ..Default::default()
    };
    assert!(route.allows_method(&Method::Get));
    assert!(!route.allows_method(&Method::Post));
}

#[test]
fn route_effective_index_fallback() {
    let route = RouteConfig::default();
    assert_eq!(route.effective_index(), "index.html");

    let route = RouteConfig {
        default_file: Some("home.html".into()),
        ..Default::default()
    };
    assert_eq!(route.effective_index(), "home.html");

    let route = RouteConfig {
        index_file:   Some("start.html".into()),
        default_file: Some("home.html".into()),
        ..Default::default()
    };
    // index_file wins over default_file
    assert_eq!(route.effective_index(), "start.html");
}

#[test]
fn server_default_body_limit() {
    let s = ServerConfig::default();
    assert_eq!(s.body_limit(), 1_048_576);
}

#[test]
fn config_error_display_does_not_panic() {
    let errors: Vec<ConfigError> = vec![
        ConfigError::MissingDirective { directive: "host", context: "server block".into() },
        ConfigError::InvalidValue { field: "port", value: "99999".into(), reason: "out of range" },
        ConfigError::DuplicateHostPort { host: "0.0.0.0".into(), port: 8080 },
        ConfigError::ErrorPageNotFound { code: 404, path: "/missing.html".into() },
        ConfigError::InvalidRoot { path: "/no/such/dir".into() },
        ConfigError::InvalidPort(0),
    ];
    for e in &errors {
        assert!(!e.message().is_empty());
    }
}

#[test]
fn config_error_messages() {
    let errors = vec![
        (ConfigError::Io("gone".into()), "I/O error reading config: gone"),
        (
            ConfigError::MissingDirective { directive: "host", context: "server block".into() },
            "missing directive 'host' in server block",
        ),
        (
            ConfigError::DuplicateHostPort { host: "0.0.0.0".into(), port: 8080 },
            "duplicate host:port '0.0.0.0:8080' with no distinct server_name",
        ),
        (
            ConfigError::ErrorPageNotFound { code: 404, path: "/missing.html".into() },
            "error page for 404 not found at '/missing.html'",
        ),
        (
            ConfigError::InvalidRoot { path: "/no/such/dir".into() },
            "route root '/no/such/dir' is not a valid directory",
        ),
    ];
    for (e, text) in errors {
        assert_eq!(e.message(), text);
    }
}

#[test]
fn defaults() {
    let s = ServerConfig::default();
    assert_eq!(s.host, "0.0.0.0");
    assert!(s.ports.is_empty() && s.routes.is_empty());
    let r = RouteConfig::at("/a".into());
    assert_eq!(r.path, "/a");
    assert!(!r.directory_listing);
    assert_eq!(r.cgi_for_extension("py"), None);
}
