use granat::KVPair;
use granat::entry::Entry;
use granat::errors::StoreError;
use granat::general::{GeneralStore, StoreMode};

fn create_kv(key: &str, value: &str) -> KVPair {
    (key.to_string(), Entry::new(value))
}

#[test]
fn get_set_single() {
    let mut gs = GeneralStore::new();

    let _ = gs.set(create_kv("string", "string test value"));
    let _ = gs.set(create_kv("number", "120"));
    let _ = gs.set(create_kv("float", "347.84"));

    assert!(gs.len() == 3);

    let mut res = gs.get("string");
    assert!(res.is_some());
    let mut value = res.unwrap();
    assert_eq!(value, "string test value".to_string());

    res = gs.get("number");
    assert!(res.is_some());
    value = res.unwrap();
    assert_eq!(value, "120".to_string());

    res = gs.get("float");
    assert!(res.is_some());
    value = res.unwrap();
    assert_eq!(value, "347.84".to_string());
}

#[test]
fn get_set_muiltiple() {
    let mut gs = GeneralStore::new();

    let inserts = vec![
        create_kv("test", "test_val"),
        create_kv("banana", "42"),
        create_kv("apple", "99.99"),
        create_kv("tucson", "arizona"),
    ];

    let _ = gs.set_multiple(inserts);

    let keys = vec![
        "banana".to_string(),
        "tucson".to_string(),
        "non-existant".to_string(),
        "apple".to_string(),
    ];

    let results = gs.get_multiple(&keys);
    let some_total = results.iter().filter(|e| e.is_some()).count();
    let none_total = results.iter().filter(|e| e.is_none()).count();
    assert_eq!(some_total, 3);
    assert_eq!(none_total, 1);
}

#[test]
fn increment_integer() {
    let mut gs = GeneralStore::new();
    let inserts = vec![
        create_kv("integer", "10"),
        create_kv("string", "not a number"),
    ];

    let _ = gs.set_multiple(inserts);

    let mut result = gs.increment("integer", 10);
    assert!(result.is_ok());
    let mut inner = result.unwrap();
    assert_eq!(inner, 20);

    result = gs.increment("integer", -25);
    assert!(result.is_ok());
    inner = result.unwrap();
    assert_eq!(inner, -5);

    result = gs.increment("string", 10);
    assert!(result.is_err());
}

#[test]
fn increment_initializes_absent_key() {
    let mut gs = GeneralStore::new();
    let first = gs.increment("counter", 10);
    assert_eq!(first.unwrap(), 10);
    assert_eq!(gs.get("counter").unwrap(), "10".to_string());

    let second = gs.increment("counter", -15);
    assert_eq!(second.unwrap(), -5);
    assert_eq!(gs.get("counter").unwrap(), "-5".to_string());
}

#[test]
fn increment_wraps_at_the_range_ends() {
    let mut gs = GeneralStore::new();
    let _ = gs.set(create_kv("big", "9223372036854775807"));
    let wrapped = gs.increment("big", 1);
    assert_eq!(wrapped.unwrap(), -9223372036854775808i64);

    // Integer syntax beyond the 64-bit range is a numeral, not an integer.
    let _ = gs.set(create_kv("huge", "9223372036854775808"));
    assert!(matches!(gs.increment("huge", 1), Err(StoreError::TypeMismatch)));

    // A floating-point numeral is not an integer either.
    let _ = gs.set(create_kv("fraction", "10.2"));
    assert!(matches!(gs.increment("fraction", 1), Err(StoreError::TypeMismatch)));
}

#[test]
fn safe_mode_rejects_overwrites() {
    let mut gs = GeneralStore::with_mode(StoreMode::Safe);
    assert!(gs.set(create_kv("k", "first")).is_ok());
    let res = gs.set(create_kv("k", "second"));
    assert!(matches!(res, Err(StoreError::SafeModeViolation)));
    assert_eq!(gs.get("k").unwrap(), "first".to_string());

    // A batch skips only the rejected pair; the others still land.
    let _ = gs.set_multiple(vec![create_kv("k", "third"), create_kv("fresh", "1")]);
    assert_eq!(gs.get("k").unwrap(), "first".to_string());
    assert_eq!(gs.get("fresh").unwrap(), "1".to_string());
}

#[test]
fn get_multiple_keeps_input_order() {
    let mut gs = GeneralStore::new();
    let _ = gs.set(create_kv("a", "1"));
    let _ = gs.set(create_kv("c", "3"));

    let keys = vec!["a".to_string(), "b".to_string(), "c".to_string()];
    let results = gs.get_multiple(&keys);
    assert_eq!(results.len(), 3);
    assert_eq!(results[0], Some("1".to_string()));
    assert_eq!(results[1], None);
    assert_eq!(results[2], Some("3".to_string()));
}
