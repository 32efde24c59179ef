//! The addresses to listen on, and accepting.

use localhost::config::types::{RouteConfig, ServerConfig};
use localhost::event_loop::registry::Registry;
use localhost::http::response::writer::EAGAIN;
use localhost::server::connection::PeerAddr;
use localhost::server::listener::{accept_one, bindings, AcceptResult, ListenerError};

fn test_server(host: &str, port: u16) -> ServerConfig {
    ServerConfig {
        host: host.into(),
        ports: vec![port],
        routes: vec![RouteConfig { path: "/".into(), root: Some("/tmp".into()), ..Default::default() }],
        ..Default::default()
    }
}

fn peer() -> PeerAddr {
    PeerAddr { ip: "127.0.0.1".into(), port: 40000 }
}

#[test]
fn bind_single_listener() {
    let configs = vec![test_server("127.0.0.1", 17890)];
    let bound = bindings(&configs);
    assert_eq!(bound.len(), 1);
    assert_eq!(bound[0].host, "127.0.0.1");
    assert_eq!(bound[0].port, 17890);
    assert_eq!(bound[0].server_id, 0);
}

#[test]
fn deduplicated_binding_for_virtual_hosts() {
    // Two servers on the same host:port should produce exactly ONE socket.
    let mut a = test_server("127.0.0.1", 17891);
    a.server_names = vec!["foo.example.com".into()];
    let mut b = test_server("127.0.0.1", 17891);
    b.server_names = vec!["bar.example.com".into()];

    let configs = vec![a, b];
    let bound = bindings(&configs);
    assert_eq!(bound.len(), 1, "expected exactly one socket for shared host:port");
    assert_eq!(bound[0].server_id, 0);
}

#[test]
fn listener_registered_in_registry() {
    let configs = vec![test_server("127.0.0.1", 17892)];
    let mut reg = Registry::new();
    let bound = bindings(&configs);
    let fd = 3;
    reg.register_listener(fd, bound[0].server_id, bound[0].port);

    assert_eq!(reg.listener_count(), 1);
    assert!(reg.is_listener(fd));
}

#[test]
fn every_address_and_port_is_bound_once() {
    let mut a = test_server("127.0.0.1", 80);
    a.ports = vec![80, 443];
    let mut b = test_server("127.0.0.1", 443);
    b.ports = vec![443, 8080];
    let c = test_server("0.0.0.0", 80);
    let bound: Vec<(String, u16, usize)> =
        bindings(&[a, b, c]).into_iter().map(|b| (b.host, b.port, b.server_id)).collect();
    assert_eq!(
        bound,
        vec![
            ("127.0.0.1".to_string(), 80, 0),
            ("127.0.0.1".to_string(), 443, 0),
            ("127.0.0.1".to_string(), 8080, 1),
            ("0.0.0.0".to_string(), 80, 2),
        ]
    );
}

#[test]
fn accept_one_would_block_on_idle_listener() {
    assert!(matches!(accept_one(-1, peer(), EAGAIN), AcceptResult::WouldBlock));
}

#[test]
fn accept_one_other_outcomes() {
    match accept_one(9, peer(), 0) {
        AcceptResult::Accepted { fd, peer } => {
            assert_eq!(fd, 9);
            assert_eq!(peer.port, 40000);
        }
        other => panic!("unexpected {:?}", other),
    }
    assert!(matches!(accept_one(-1, peer(), 24), AcceptResult::Error(24)));
}

#[test]
fn listener_error_messages() {
    let errors = vec![
        (
            ListenerError::SocketFailed { host: "h".into(), port: 80, errno: 24 },
            "socket() failed for h:80: errno 24",
        ),
        (
            ListenerError::SetsockoptFailed { option: "SO_REUSEADDR", errno: -1 },
            "setsockopt(SO_REUSEADDR) failed: errno -1",
        ),
        (
            ListenerError::BindFailed { addr: "h:80".into(), errno: 98 },
            "bind() failed for h:80: errno 98",
        ),
        (
            ListenerError::ListenFailed { addr: "fd=3".into(), errno: 95 },
            "listen() failed for fd=3: errno 95",
        ),
        (
            ListenerError::SetNonblockFailed { fd: 3, errno: 9 },
            "fcntl(O_NONBLOCK) failed for fd 3: errno 9",
        ),
        (
            ListenerError::InvalidHost("nope".into()),
            "cannot resolve host 'nope' to a bind address",
        ),
    ];
    for (e, text) in errors {
        assert_eq!(e.message(), text);
    }
}
