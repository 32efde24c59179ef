//! The registry.

use localhost::event_loop::registry::Registry;
use localhost::server::connection::{ConnectionState, PeerAddr};

fn addr(port: u16) -> PeerAddr {
    PeerAddr { ip: "127.0.0.1".into(), port }
}

fn conn(fd: i32) -> ConnectionState {
    ConnectionState::new(fd, 0, 9000, addr(9000), 0)
}

// ---- listeners ---------------------------------------------------------

#[test]
fn register_and_lookup_listener() {
    let mut reg = Registry::new();
    reg.register_listener(10, 0, 8080);
    assert!(reg.is_listener(10));
    assert_eq!(reg.listener(10).unwrap().server_id, 0);
    assert_eq!(reg.listener(10).unwrap().port,      8080);
}

#[test]
fn unknown_fd_is_not_listener() {
    let reg = Registry::new();
    assert!(!reg.is_listener(99));
    assert!(reg.listener(99).is_none());
}

#[test]
fn remove_listener() {
    let mut reg = Registry::new();
    reg.register_listener(10, 0, 8080);
    reg.remove_listener(10);
    assert!(!reg.is_listener(10));
}

#[test]
fn listener_count() {
    let mut reg = Registry::new();
    assert_eq!(reg.listener_count(), 0);
    reg.register_listener(10, 0, 8080);
    reg.register_listener(11, 1, 9090);
    assert_eq!(reg.listener_count(), 2);
}

// ---- connections -------------------------------------------------------

#[test]
fn register_and_lookup_connection() {
    let mut reg = Registry::new();
    reg.register_connection(20, conn(20));
    assert!(reg.get_connection(20).is_some());
    assert_eq!(reg.get_connection(20).unwrap().fd, 20);
}

#[test]
fn get_connection_mut_allows_mutation() {
    let mut reg = Registry::new();
    reg.register_connection(20, conn(20));
    reg.get_connection_mut(20).unwrap().keep_alive = true;
    assert!(reg.get_connection(20).unwrap().keep_alive);
}

#[test]
fn remove_connection_returns_state() {
    let mut reg = Registry::new();
    reg.register_connection(20, conn(20));
    let state = reg.remove(20).expect("should return state");
    assert_eq!(state.fd, 20);
    assert!(reg.get_connection(20).is_none());
}

#[test]
fn remove_unknown_fd_returns_none() {
    let mut reg = Registry::new();
    assert!(reg.remove(99).is_none());
}

#[test]
fn all_connection_fds_snapshot() {
    let mut reg = Registry::new();
    reg.register_connection(20, conn(20));
    reg.register_connection(21, conn(21));
    reg.register_connection(22, conn(22));
    let mut fds = reg.all_connection_fds();
    fds.sort();
    assert_eq!(fds, vec![20, 21, 22]);
}

#[test]
fn connection_count() {
    let mut reg = Registry::new();
    assert_eq!(reg.connection_count(), 0);
    reg.register_connection(20, conn(20));
    assert_eq!(reg.connection_count(), 1);
    reg.remove(20);
    assert_eq!(reg.connection_count(), 0);
}

#[test]
fn listeners_iter() {
    let mut reg = Registry::new();
    reg.register_listener(10, 0, 8080);
    reg.register_listener(11, 1, 9090);
    let count = reg.listeners().len();
    assert_eq!(count, 2);
}

// ---- separation of listener and connection maps -----------------------

#[test]
fn listener_fd_not_in_connections() {
    let mut reg = Registry::new();
    reg.register_listener(10, 0, 8080);
    // The same fd should NOT appear as a connection.
    assert!(reg.get_connection(10).is_none());
}

#[test]
fn pipes_are_known_by_their_connection() {
    let mut reg = Registry::default();
    assert!(!reg.is_cgi_fd(8));
    reg.register_cgi_fd(8, 5);
    assert!(reg.is_cgi_fd(8));
    assert_eq!(reg.cgi_owner(8), Some(5));
    reg.unregister_cgi_fd(8);
    assert_eq!(reg.cgi_owner(8), None);
}
