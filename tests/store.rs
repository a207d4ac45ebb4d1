use std::collections::HashMap;

use session_store::key::SessionId;
use session_store::state::SessionState;
use session_store::table::{SessionTable, StoreError};

const HOUR: i64 = 3_600_000;
const NOW: i64 = 1_700_000_000_000;

fn map(pairs: &[(&str, &str)]) -> SessionState {
    pairs.iter().map(|(k, v)| (k.to_string(), v.to_string())).collect()
}

#[test]
fn test_one() {
    let mut sess = SessionTable::new();
    let data1 = HashMap::from([
        ("1".to_string(), "loremp".to_string()),
        ("2".to_string(), "Ipsum".to_string()),
    ]);
    let key1 = sess.save(&data1, HOUR, NOW).unwrap();
    let key2 = sess.save(&data1, HOUR, NOW).unwrap();
    assert!(SessionId::parse(&key2.to_string()).is_ok());
    assert_ne!(key1, key2);
}

#[test]
fn save_load_delete_scenario() {
    let mut store = SessionTable::new();
    let data = map(&[("a", "b")]);
    let k1 = store.save(&data, HOUR, NOW).unwrap().to_string();
    let k2 = store.save(&data, HOUR, NOW).unwrap().to_string();
    assert_ne!(k1, k2);
    assert_eq!(store.load(&k1, NOW + 1).unwrap(), Some(data.clone()));
    store.delete(&k1).unwrap();
    assert_eq!(store.load(&k1, NOW + 2).unwrap(), None);
    assert_eq!(store.load(&k2, NOW + 3).unwrap(), Some(data));
}

#[test]
fn round_trip_until_expiry_instant() {
    let mut store = SessionTable::new();
    let data = map(&[("user", "42"), ("quote", "say \"hi\"\n"), ("", "empty key")]);
    let id = SessionId { timestamp: NOW, random: 9 };
    assert_eq!(store.insert(id, &data, 1000, NOW), Ok(id));
    let key = id.to_string();
    assert_eq!(store.load(&key, NOW + 1000).unwrap(), Some(data));
    assert_eq!(store.len(), 1);
}

#[test]
fn empty_state_round_trip() {
    let mut store = SessionTable::new();
    let data: SessionState = HashMap::new();
    let id = store.save(&data, HOUR, NOW).unwrap();
    assert_eq!(store.load(&id.to_string(), NOW).unwrap(), Some(HashMap::new()));
}

#[test]
fn zero_ttl_expires_on_read() {
    let mut store = SessionTable::new();
    let id = store.save(&map(&[("a", "b")]), 0, NOW).unwrap();
    assert_eq!(store.load(&id.to_string(), NOW).unwrap(), Some(map(&[("a", "b")])));
    assert_eq!(store.load(&id.to_string(), NOW + 1).unwrap(), None);
    assert_eq!(store.len(), 0);
    assert_eq!(store.clean_database(NOW + 1), 0);
}

#[test]
fn sweep_removes_expired_unread() {
    let mut store = SessionTable::new();
    store.save(&map(&[("a", "1")]), 0, NOW).unwrap();
    let live = store.save(&map(&[("a", "2")]), HOUR, NOW).unwrap();
    store.save(&map(&[("a", "3")]), 10, NOW).unwrap();
    assert_eq!(store.clean_database(NOW + 11), 2);
    assert_eq!(store.len(), 1);
    assert_eq!(store.load(&live.to_string(), NOW + 11).unwrap(), Some(map(&[("a", "2")])));
}

#[test]
fn sweep_twice_second_is_zero() {
    let mut store = SessionTable::new();
    for i in 0..5 {
        store.save(&map(&[("i", &i.to_string())]), i * 10, NOW).unwrap();
    }
    let first = store.clean_database(NOW + 25);
    assert_eq!(first, 3);
    assert_eq!(store.clean_database(NOW + 25), 0);
    assert_eq!(store.len(), 2);
}

#[test]
fn sweep_keeps_record_expiring_now() {
    let mut store = SessionTable::new();
    store.save(&map(&[]), 5, NOW).unwrap();
    assert_eq!(store.clean_database(NOW + 5), 0);
    assert_eq!(store.clean_database(NOW + 6), 1);
}

#[test]
fn insert_refuses_identifier_in_use() {
    let mut store = SessionTable::new();
    let id = SessionId { timestamp: 1, random: 1 };
    assert_eq!(store.insert(id, &map(&[("x", "1")]), HOUR, NOW), Ok(id));
    assert_eq!(store.insert(id, &map(&[("x", "2")]), HOUR, NOW), Err(StoreError::Storage));
    assert_eq!(store.load(&id.to_string(), NOW).unwrap(), Some(map(&[("x", "1")])));
}

#[test]
fn update_keeps_key_and_replaces_data() {
    let mut store = SessionTable::new();
    let id = store.save(&map(&[("a", "1")]), 10, NOW).unwrap();
    let key = id.to_string();
    assert_eq!(store.update(&key, &map(&[("b", "2")]), HOUR, NOW + 5), Ok(id));
    assert_eq!(store.load(&key, NOW + 100).unwrap(), Some(map(&[("b", "2")])));
}

#[test]
fn update_of_absent_key_changes_nothing() {
    let mut store = SessionTable::new();
    let id = SessionId { timestamp: 5, random: 6 };
    let key = id.to_string();
    assert_eq!(store.update(&key, &map(&[("b", "2")]), HOUR, NOW), Ok(id));
    assert_eq!(store.len(), 0);
    assert_eq!(store.load(&key, NOW).unwrap(), None);
}

#[test]
fn update_ttl_extends_life() {
    let mut store = SessionTable::new();
    let id = store.save(&map(&[("a", "1")]), 10, NOW).unwrap();
    let key = id.to_string();
    store.update_ttl(&key, HOUR, NOW + 5).unwrap();
    assert_eq!(store.load(&key, NOW + 1000).unwrap(), Some(map(&[("a", "1")])));
    store.update_ttl(&key, 0, NOW + 1000).unwrap();
    assert_eq!(store.load(&key, NOW + 1001).unwrap(), None);
}

#[test]
fn delete_of_absent_key_is_no_error() {
    let mut store = SessionTable::new();
    assert_eq!(store.delete(&SessionId { timestamp: 1, random: 2 }.to_string()), Ok(()));
}

#[test]
fn foreign_keys_fail_to_decode() {
    let mut store = SessionTable::new();
    let legacy = "{\"a\":\"b\"}";
    assert_eq!(store.load(legacy, NOW), Err(StoreError::KeyDecode));
    assert_eq!(store.update(legacy, &map(&[]), HOUR, NOW), Err(StoreError::KeyDecode));
    assert_eq!(store.update_ttl(legacy, HOUR, NOW), Err(StoreError::KeyDecode));
    assert_eq!(store.delete(legacy), Err(StoreError::KeyDecode));
}
