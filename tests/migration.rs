use std::collections::HashMap;

use session_store::key::SessionId;
use session_store::shim::MigrationShim;
use session_store::state::SessionState;
use session_store::table::{SessionTable, StoreError};

const HOUR: i64 = 3_600_000;
const NOW: i64 = 1_700_000_000_000;

fn map(pairs: &[(&str, &str)]) -> SessionState {
    pairs.iter().map(|(k, v)| (k.to_string(), v.to_string())).collect()
}

#[test]
fn legacy_session_migrates_on_update() {
    let mut shim = MigrationShim::new(SessionTable::new());
    let legacy_key = "{\"sqlite\":\"false\"}";
    let legacy_value = map(&[("sqlite", "false")]);
    assert_eq!(shim.load(legacy_key, NOW, Some(legacy_value.clone())).unwrap(), Some(legacy_value));
    let new_data = map(&[("sqlite", "false"), ("migrated", "true")]);
    let new_key = shim.update(legacy_key, &new_data, HOUR, NOW, true).unwrap().to_string();
    assert_ne!(new_key, legacy_key);
    assert!(SessionId::parse(&new_key).is_ok());
    assert_eq!(shim.load(&new_key, NOW + 1, None).unwrap(), Some(new_data.clone()));
    assert_eq!(shim.update_ttl(legacy_key, HOUR, NOW + 2), Ok(()));
    assert_eq!(shim.delete(legacy_key), Ok(()));
    assert_eq!(shim.load(&new_key, NOW + 3, None).unwrap(), Some(new_data));
    assert_eq!(shim.primary().len(), 1);
}

#[test]
fn missing_legacy_session_is_not_fabricated() {
    let mut shim = MigrationShim::new(SessionTable::new());
    let r = shim.update("{\"gone\":\"1\"}", &map(&[("a", "b")]), HOUR, NOW, false);
    assert_eq!(r, Err(StoreError::MigrationInconsistency));
    assert_eq!(shim.primary().len(), 0);
}

#[test]
fn primary_keys_are_served_by_primary() {
    let mut shim = MigrationShim::new(SessionTable::new());
    let id = shim.save(&map(&[("a", "1")]), HOUR, NOW).unwrap();
    let key = id.to_string();
    assert_eq!(shim.update(&key, &map(&[("a", "2")]), HOUR, NOW, false), Ok(id));
    assert_eq!(shim.load(&key, NOW, Some(map(&[("ignored", "x")]))).unwrap(), Some(map(&[("a", "2")])));
    shim.delete(&key).unwrap();
    assert_eq!(shim.load(&key, NOW, None).unwrap(), None);
}

#[test]
fn test_shim() {
    let mut legacy: Vec<(String, SessionState)> = vec![];
    for i in 0..10 {
        let mp = HashMap::from([("id".to_string(), i.to_string()), ("sqlite".to_string(), "false".to_string())]);
        legacy.push((serde_json::to_string(&mp).unwrap(), mp));
    }
    let mut primary = SessionTable::new();
    let mut keys: Vec<String> = legacy.iter().map(|(k, _)| k.clone()).collect();
    for i in 10..20 {
        let mp = HashMap::from([("id".to_string(), i.to_string()), ("sqlite".to_string(), "true".to_string())]);
        keys.push(primary.save(&mp, HOUR, NOW).unwrap().to_string());
    }
    let mut shim = MigrationShim::new(primary);
    for i in 20..30 {
        let mp = HashMap::from([("id".to_string(), i.to_string()), ("sqlite".to_string(), "true".to_string())]);
        keys.push(shim.save(&mp, HOUR, NOW).unwrap().to_string());
    }
    let legacy_read = |k: &str| legacy.iter().find(|(lk, _)| lk == k).map(|(_, v)| v.clone());

    for k in &keys {
        let val = shim.load(k, NOW, legacy_read(k)).unwrap().unwrap();
        if val.get("sqlite").unwrap() == "true" {
            assert!(SessionId::parse(k).is_ok());
        }
    }
    for (n, k) in keys.iter().enumerate() {
        let mut v = shim.load(k, NOW, legacy_read(k)).unwrap().unwrap();
        v.insert("new_store".to_string(), "true".to_string());
        let found = legacy_read(k).is_some();
        let updated = shim.update(k, &v, HOUR, NOW, found).unwrap();
        assert!(SessionId::parse(&updated.to_string()).is_ok());
        println!("Updated: {}: {:?}", n, updated);
    }
    assert_eq!(shim.primary().len(), 30);
}
