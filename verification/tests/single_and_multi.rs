use raptor::value::copy_value;
use raptor::{DomainError, InMemoryStorage, Value};

const NOW: u64 = 1_000;

fn string(b: &[u8]) -> Value {
    Value::String(b.to_vec())
}

#[test]
fn test_single_key_get_set_delete_integration() {
    let mut s = InMemoryStorage::new(None);
    let value = string(b"test_value");

    assert_eq!(s.set(b"test_key", copy_value(&value), NOW), true);
    assert_eq!(s.get(b"test_key", NOW), Some(copy_value(&value)));
    assert_eq!(s.delete(b"test_key", NOW), Some(copy_value(&value)));
    assert_eq!(s.get(b"test_key", NOW), None);
    assert_eq!(s.get(b"nonexistent_key", NOW), None);
}

#[test]
fn test_single_key_set_overwrite_integration() {
    let mut s = InMemoryStorage::new(None);
    assert_eq!(s.set(b"overwrite_key", string(b"value1"), NOW), true);
    assert_eq!(s.set(b"overwrite_key", string(b"value2"), NOW), false);
    assert_eq!(s.get(b"overwrite_key", NOW), Some(string(b"value2")));
}

#[test]
fn test_single_key_delete_nonexistent_integration() {
    let mut s = InMemoryStorage::new(None);
    assert_eq!(s.delete(b"nonexistent_delete_key", NOW), None);
}

#[test]
fn test_multi_key_mset_mget_integration() {
    let mut s = InMemoryStorage::new(None);
    let pairs = vec![
        (b"mkey1".to_vec(), string(b"value1")),
        (b"mkey2".to_vec(), Value::Integer(100)),
    ];
    s.mset(&pairs, NOW);
    let keys = vec![b"mkey1".to_vec(), b"mkey2".to_vec(), b"mkey3".to_vec()];
    assert_eq!(
        s.mget(&keys, NOW),
        vec![Some(string(b"value1")), Some(Value::Integer(100)), None]
    );
}

#[test]
fn test_multi_key_mdel_integration() {
    let mut s = InMemoryStorage::new(None);
    s.mset(
        &vec![
            (b"mdel_key1".to_vec(), string(b"val1")),
            (b"mdel_key2".to_vec(), string(b"val2")),
        ],
        NOW,
    );
    let deleted = s.mdel(&vec![b"mdel_key1".to_vec(), b"nonexistent_key".to_vec()], NOW);
    assert_eq!(deleted, vec![Some(string(b"val1")), None]);
    assert_eq!(s.mget(&vec![b"mdel_key1".to_vec()], NOW), vec![None]);
    assert_eq!(s.mget(&vec![b"mdel_key2".to_vec()], NOW), vec![Some(string(b"val2"))]);
}

#[test]
fn test_counter_use_cases_integration() {
    let mut s = InMemoryStorage::new(None);
    assert_eq!(s.incr(b"test_counter", NOW), Ok(1));
    assert_eq!(s.get(b"test_counter", NOW), Some(Value::Integer(1)));
    assert_eq!(s.incr(b"test_counter", NOW), Ok(2));
    assert_eq!(s.get(b"test_counter", NOW), Some(Value::Integer(2)));
    assert_eq!(s.decr(b"test_counter", NOW), Ok(1));
    assert_eq!(s.get(b"test_counter", NOW), Some(Value::Integer(1)));
}

#[test]
fn test_counter_reset_integration() {
    let mut s = InMemoryStorage::new(None);
    for _ in 0..50 {
        s.incr(b"test_reset", NOW).unwrap();
    }
    assert_eq!(s.reset(b"test_reset", NOW), Ok(50));
    assert_eq!(s.get(b"test_reset", NOW), Some(Value::Integer(0)));
    assert_eq!(s.reset(b"nonexistent_reset", NOW), Ok(0));
}

#[test]
fn test_counter_wrong_type_integration() {
    let mut s = InMemoryStorage::new(None);
    s.set(b"wrong_type_counter", string(b"not_an_integer"), NOW);
    assert_eq!(s.incr(b"wrong_type_counter", NOW), Err(DomainError::WrongType));
    assert_eq!(s.decr(b"wrong_type_counter", NOW), Err(DomainError::WrongType));
    assert_eq!(s.reset(b"wrong_type_counter", NOW), Err(DomainError::WrongType));
}

#[test]
fn test_counter_decr_negative_prevention_integration() {
    let mut s = InMemoryStorage::new(None);
    assert_eq!(s.incr(b"test_decr_negative", NOW), Ok(1));
    assert_eq!(s.decr(b"test_decr_negative", NOW), Ok(0));
    assert_eq!(s.decr(b"test_decr_negative", NOW), Err(DomainError::NegativeCounterValue));
    assert_eq!(s.get(b"test_decr_negative", NOW), Some(Value::Integer(0)));
}

#[test]
fn test_audit_logging() {
    let mut s = InMemoryStorage::new(None);
    assert_eq!(s.set(b"audit_test_set", string(b"test_value"), NOW), true);
    assert_eq!(s.incr(b"audit_test_incr", NOW), Ok(1));
    assert_eq!(s.hset(b"audit_test_hset", b"field1", b"hval".to_vec(), NOW), Ok(true));
    s.set(b"audit_test_del", string(b"to_delete"), NOW);
    assert!(s.delete(b"audit_test_del", NOW).is_some());
    s.set(b"audit_test_error", string(b"not_a_number"), NOW);
    assert!(s.incr(b"audit_test_error", NOW).is_err());
}

#[test]
fn test_snapshot_save_restore() {
    let mut s = InMemoryStorage::new(None);
    s.set(b"test_key1", string(b"test_value"), NOW);
    s.set(b"test_key2", Value::Integer(42), NOW);

    let entries = s.get_all_entries(NOW);
    let mut restored = InMemoryStorage::new(None);
    restored.restore_entries(&entries, NOW);

    assert_eq!(restored.get(b"test_key1", NOW), Some(string(b"test_value")));
    assert_eq!(restored.get(b"test_key2", NOW), Some(Value::Integer(42)));
}

#[test]
fn test_expire_command() {
    let mut s = InMemoryStorage::new(None);
    s.set(b"expire_test_key", string(b"expire_test_value"), NOW);
    assert_eq!(s.ttl(b"expire_test_key", NOW), -1);
    assert!(s.expire(b"expire_test_key", 5, NOW));
    let left = s.ttl(b"expire_test_key", NOW);
    assert!(left <= 5 * 1000 && left > 0);
    assert!(s.get(b"expire_test_key", NOW).is_some());
}

#[test]
fn test_ttl_set_with_ttl_integration() {
    let mut s = InMemoryStorage::new(None);
    s.set_with_ttl(b"set_with_ttl_key", string(b"ttl_value"), 2, NOW);
    let left = s.ttl(b"set_with_ttl_key", NOW);
    assert!(left > 0 && left <= 2 * 1000);
    assert_eq!(s.get(b"set_with_ttl_key", NOW + 2100), None);

    s.set_with_ttl_ms(b"set_with_ttl_ms_key", string(b"ttl_value"), 2000, NOW);
    let left_ms = s.ttl(b"set_with_ttl_ms_key", NOW);
    assert!(left_ms > 0 && left_ms <= 2000);
    assert_eq!(s.get(b"set_with_ttl_ms_key", NOW + 2100), None);
}

#[test]
fn test_ttl_persist_expired_key_integration() {
    let mut s = InMemoryStorage::new(None);
    s.set_with_ttl(b"expired_persist_key_integration", string(b"test_value"), 1, NOW);
    assert!(!s.persist(b"expired_persist_key_integration", NOW + 1100));
    assert_eq!(s.get(b"expired_persist_key_integration", NOW + 1100), None);
}

#[test]
fn test_ttl_lazy_cleanup_on_operations() {
    let mut s = InMemoryStorage::new(None);
    s.set_with_ttl(b"lazy_cleanup_key", string(b"lazy_cleanup_value"), 1, NOW);
    assert_eq!(s.ttl(b"lazy_cleanup_key", NOW + 1100), -2);
    assert!(s.get(b"lazy_cleanup_key", NOW + 1100).is_none());
}

#[test]
fn test_ttl_expire_with_zero_ttl_integration() {
    let mut s = InMemoryStorage::new(None);
    s.set(b"zero_ttl_key_integration", string(b"test_value"), NOW);
    assert!(s.expire(b"zero_ttl_key_integration", 0, NOW));
    assert_eq!(s.get(b"zero_ttl_key_integration", NOW), None);
}

#[test]
fn test_ttl_after_type_conversion_integration() {
    let mut s = InMemoryStorage::new(None);
    s.set_with_ttl(b"converted_ttl_key", string(b"initial"), 10, NOW);
    s.set(b"converted_ttl_key", string(b"not_a_ttl_key"), NOW);
    assert_eq!(s.ttl(b"converted_ttl_key", NOW), -1);
}
