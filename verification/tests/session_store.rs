//! Sessions.

use localhost::session::resolve;
use localhost::session::store::{generate_id, SessionData, SessionStore};

const ENTROPY: [u8; 16] = [0, 1, 2, 3, 4, 5, 6, 7, 8, 9, 10, 11, 12, 13, 14, 255];
const OTHER: [u8; 16] = [0, 1, 2, 3, 4, 5, 6, 7, 8, 9, 10, 11, 12, 13, 15, 255];

#[test]
fn create_returns_32_char_hex() {
    let mut store = SessionStore::new();
    let id = store.create(ENTROPY, 1_000).unwrap();
    assert_eq!(id.len(), 32);
    assert!(id.chars().all(|c| c.is_ascii_hexdigit()));
}

#[test]
fn create_produces_unique_ids() {
    let mut store = SessionStore::new();
    let a = store.create(ENTROPY, 1_000).unwrap();
    let b = store.create(OTHER, 1_000).unwrap();
    assert_ne!(a, b);
}

#[test]
fn get_finds_created_session() {
    let mut store = SessionStore::new();
    let id = store.create(ENTROPY, 1_000).unwrap();
    assert!(store.get(&id).is_some());
}

#[test]
fn get_returns_none_for_unknown_id() {
    let store = SessionStore::new();
    assert!(store.get("nonexistent").is_none());
}

#[test]
fn get_mut_touches_last_accessed() {
    let mut store = SessionStore::new();
    let id = store.create(ENTROPY, 1_000).unwrap();
    let t0 = store.get(&id).unwrap().last_accessed;
    let _ = store.get_mut(&id, 1_005);
    let t1 = store.get(&id).unwrap().last_accessed;
    assert!(t1 > t0);
}

#[test]
fn get_mut_allows_value_insertion() {
    let mut store = SessionStore::new();
    let id = store.create(ENTROPY, 1_000).unwrap();
    store
        .get_mut(&id, 1_000)
        .unwrap()
        .values
        .insert("user".into(), "alice".into());
    assert_eq!(
        store.get(&id).unwrap().values.get("user").map(String::as_str),
        Some("alice")
    );
}

#[test]
fn destroy_removes_session() {
    let mut store = SessionStore::new();
    let id = store.create(ENTROPY, 1_000).unwrap();
    assert_eq!(store.len(), 1);
    store.destroy(&id);
    assert_eq!(store.len(), 0);
    assert!(store.get(&id).is_none());
}

#[test]
fn purge_expired_removes_old_sessions() {
    let mut store = SessionStore::new();
    let old = store.create(ENTROPY, 1_000).unwrap();
    let fresh = store.create(OTHER, 1_020).unwrap();

    // Purge anything older than 10 ms.
    store.purge_expired(10, 1_020);

    assert!(store.get(&old).is_none(), "old session should be purged");
    assert!(store.get(&fresh).is_some(), "fresh session should survive");
}

#[test]
fn len_and_is_empty() {
    let mut store = SessionStore::new();
    assert!(store.is_empty());
    assert_eq!(store.len(), 0);
    store.create(ENTROPY, 1_000).unwrap();
    assert!(!store.is_empty());
    assert_eq!(store.len(), 1);
}

#[test]
fn identifier_is_the_bytes_in_hexadecimal() {
    assert_eq!(generate_id(ENTROPY), "000102030405060708090a0b0c0d0eff");
}

#[test]
fn new_session_is_empty_and_dated() {
    let mut store = SessionStore::new();
    let id = store.create(ENTROPY, 7).unwrap();
    let data: &SessionData = store.get(&id).unwrap();
    assert!(data.values.is_empty());
    assert_eq!((data.created, data.last_accessed), (7, 7));
}

#[test]
fn client_is_given_its_session_again() {
    let mut store = SessionStore::new();
    let first = resolve(&mut store, None, ENTROPY, 1).unwrap();
    assert!(first.created);
    let header = format!("theme=dark; SID={}", first.id);
    let again = resolve(&mut store, Some(&header), OTHER, 5).unwrap();
    assert!(!again.created);
    assert_eq!(again.id, first.id);
    assert_eq!(store.get(&first.id).unwrap().last_accessed, 5);
    let unknown = resolve(&mut store, Some("SID=unknown"), OTHER, 6).unwrap();
    assert!(unknown.created);
    assert_ne!(unknown.id, first.id);
    assert_eq!(store.len(), 2);
}

#[test]
fn identifier_that_is_taken_makes_no_session() {
    let mut store = SessionStore::new();
    let id = store.create(ENTROPY, 1).unwrap();
    store.get_mut(&id, 2).unwrap().values.insert("user".into(), "alice".into());
    assert_eq!(store.create(ENTROPY, 3), None);
    assert!(resolve(&mut store, None, ENTROPY, 3).is_none());
    assert_eq!(store.len(), 1);
    let data = store.get(&id).unwrap();
    assert_eq!((data.created, data.last_accessed), (1, 2));
    assert_eq!(data.values.get("user").map(String::as_str), Some("alice"));
}
