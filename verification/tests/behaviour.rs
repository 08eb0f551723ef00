use raptor::value::copy_value;
use raptor::zset::score_order_key;
use raptor::{get_audit_file_path, DomainError, InMemoryStorage, Value};

fn b(s: &str) -> Vec<u8> {
    s.as_bytes().to_vec()
}

fn string(s: &str) -> Value {
    Value::String(b(s))
}

#[test]
fn audit_file_path_is_the_base_path() {
    assert_eq!(get_audit_file_path("/tmp/audit.log"), "/tmp/audit.log".to_string());
    assert_eq!(get_audit_file_path(""), String::new());
}

#[test]
fn read_after_write_at_any_later_time() {
    let mut s = InMemoryStorage::new(None);
    s.set(b"k", string("v"), 5);
    assert_eq!(s.get(b"k", u64::MAX), Some(string("v")));
}

#[test]
fn write_leaves_other_keys_alone() {
    let mut s = InMemoryStorage::new(None);
    s.set(b"a", Value::Integer(1), 1);
    s.set(b"b", Value::Integer(2), 1);
    s.set(b"a", Value::Integer(3), 2);
    assert_eq!(s.get(b"b", 3), Some(Value::Integer(2)));
    assert_eq!(s.len(), 2);
}

#[test]
fn overwrite_with_other_kind_replaces_value() {
    let mut s = InMemoryStorage::new(None);
    s.hset(b"k", b"f", b("v"), 1).unwrap();
    assert_eq!(s.set(b"k", Value::Integer(7), 2), false);
    assert_eq!(s.get(b"k", 3), Some(Value::Integer(7)));
}

#[test]
fn wrong_type_leaves_store_unchanged() {
    let mut s = InMemoryStorage::new(None);
    s.set(b"k", string("plain"), 1);
    assert_eq!(s.hset(b"k", b"f", b("v"), 2), Err(DomainError::WrongType));
    assert_eq!(s.sadd(b"k", &vec![b("m")], 2), Err(DomainError::WrongType));
    assert_eq!(s.zadd(b"k", 1.0f64.to_bits(), b"m", 2), Err(DomainError::WrongType));
    assert_eq!(s.last_accessed(b"k"), Some(1));
    assert_eq!(s.get(b"k", 3), Some(string("plain")));
}

#[test]
fn counter_wraps_past_largest_count() {
    let mut s = InMemoryStorage::new(None);
    s.set(b"c", Value::Integer(i64::MAX), 1);
    assert_eq!(s.incr(b"c", 1), Ok(i64::MIN));
}

#[test]
fn decrement_of_missing_counter_is_refused() {
    let mut s = InMemoryStorage::new(None);
    assert_eq!(s.decr(b"c", 1), Err(DomainError::NegativeCounterValue));
    assert_eq!(s.get(b"c", 1), None);
    s.set(b"neg", Value::Integer(-5), 1);
    assert_eq!(s.decr(b"neg", 1), Err(DomainError::NegativeCounterValue));
    assert_eq!(s.get(b"neg", 1), Some(Value::Integer(-5)));
}

#[test]
fn incr_then_decr_restores_count() {
    let mut s = InMemoryStorage::new(None);
    s.set(b"c", Value::Integer(41), 1);
    assert_eq!(s.incr(b"c", 1), Ok(42));
    assert_eq!(s.decr(b"c", 1), Ok(41));
    assert_eq!(s.get(b"c", 1), Some(Value::Integer(41)));
}

#[test]
fn reset_of_missing_counter_creates_zero() {
    let mut s = InMemoryStorage::new(None);
    assert_eq!(s.reset(b"c", 1), Ok(0));
    assert_eq!(s.get(b"c", 1), Some(Value::Integer(0)));
}

#[test]
fn ttl_of_missing_and_plain_keys() {
    let mut s = InMemoryStorage::new(None);
    assert_eq!(s.ttl(b"missing", 1), -2);
    s.set(b"plain", string("v"), 1);
    assert_eq!(s.ttl(b"plain", 1), -1);
    assert!(!s.persist(b"plain", 1));
    assert!(!s.expire(b"missing", 10, 1));
}

#[test]
fn ttl_counts_down_in_milliseconds() {
    let mut s = InMemoryStorage::new(None);
    s.set_with_ttl(b"k", string("v"), 3, 1_000);
    assert_eq!(s.ttl(b"k", 1_000), 3_000);
    assert_eq!(s.ttl(b"k", 2_500), 1_500);
    assert_eq!(s.get(b"k", 3_999), Some(string("v")));
    assert_eq!(s.get(b"k", 4_000), None);
    assert_eq!(s.len(), 0);
}

#[test]
fn persist_keeps_key_alive() {
    let mut s = InMemoryStorage::new(None);
    s.set_with_ttl(b"test_persist_key", string("persist_value"), 2, 0);
    assert!(s.persist(b"test_persist_key", 100));
    assert_eq!(s.ttl(b"test_persist_key", 100), -1);
    assert_eq!(s.get(b"test_persist_key", 1_000_000), Some(string("persist_value")));
}

#[test]
fn expire_keeps_value_and_counts_from_now() {
    let mut s = InMemoryStorage::new(None);
    s.set(b"k", Value::Integer(1), 0);
    assert!(s.expire(b"k", 1, 500));
    assert_eq!(s.ttl(b"k", 500), 1_000);
    assert_eq!(s.get(b"k", 1_499), Some(Value::Integer(1)));
    assert_eq!(s.get(b"k", 1_500), None);
}

#[test]
fn memory_usage_counts_keys_and_values() {
    let mut s = InMemoryStorage::new(None);
    s.set(b"k", string("abc"), 1);
    assert_eq!(s.memory_usage(), 4);
    s.set(b"n", Value::Integer(5), 1);
    assert_eq!(s.memory_usage(), 4 + 1 + 8);
    s.hset(b"h", b"ff", b("vvv"), 1).unwrap();
    assert_eq!(s.memory_usage(), 13 + 1 + 5);
    s.zadd(b"z", 1.0f64.to_bits(), b"mm", 1).unwrap();
    assert_eq!(s.memory_usage(), 19 + 1 + 10);
}

#[test]
fn lru_evicts_oldest_keys_to_fit_limit() {
    let mut s = InMemoryStorage::new(Some(1000));
    for i in 0..20u64 {
        let key = format!("lru_key_{:02}", i);
        s.set(key.as_bytes(), Value::String(vec![b'x'; 100]), 100 + i);
    }
    let mut remaining = 0;
    for i in 0..20u64 {
        let key = format!("lru_key_{:02}", i);
        if s.get(key.as_bytes(), 1_000).is_some() {
            remaining += 1;
            assert!(i >= 11);
        }
    }
    assert!((5..=10).contains(&remaining));
    assert!(s.memory_usage() <= 1000);
}

#[test]
fn test_lru_eviction_e2e_scenario() {
    let mut s = InMemoryStorage::new(Some(300));
    for i in 0..15u64 {
        let key = format!("lru_key_{:02}", i);
        s.set(key.as_bytes(), Value::String(vec![b'x'; 80]), i);
    }
    assert_eq!(s.len(), 3);
    assert!(s.get(b"lru_key_14", 100).is_some());
    assert!(s.get(b"lru_key_00", 100).is_none());
}

#[test]
fn lru_spares_recently_read_key() {
    let mut s = InMemoryStorage::new(Some(60));
    s.set(b"a", Value::String(vec![0; 19]), 1);
    s.set(b"b", Value::String(vec![0; 19]), 2);
    s.set(b"c", Value::String(vec![0; 19]), 3);
    assert!(s.get(b"a", 4).is_some());
    s.set(b"d", Value::String(vec![0; 19]), 5);
    assert!(s.get(b"a", 6).is_some());
    assert!(s.get(b"b", 6).is_none());
    assert!(s.get(b"c", 6).is_some());
    assert!(s.get(b"d", 6).is_some());
}

#[test]
fn lru_memory_calculation_scenario() {
    let mut s = InMemoryStorage::new(Some(80));
    s.set(b"small_key", string("a"), 1);
    s.set(b"medium_key", string("medium_value_here"), 2);
    s.set(b"large_key", Value::String(vec![b'x'; 50]), 3);
    let remaining = [b"small_key".as_slice(), b"medium_key", b"large_key"]
        .iter()
        .filter(|k| s.get(k, 4).is_some())
        .count();
    assert!(remaining < 3);
    assert!(remaining > 0);
    assert!(s.get(b"large_key", 5).is_some());
}

#[test]
fn oversized_write_is_kept_alone() {
    let mut s = InMemoryStorage::new(Some(10));
    s.set(b"a", Value::Integer(1), 1);
    s.set(b"big", Value::String(vec![0; 100]), 2);
    assert_eq!(s.len(), 1);
    assert!(s.get(b"big", 3).is_some());
}

#[test]
fn no_limit_never_evicts() {
    let mut s = InMemoryStorage::new(None);
    for i in 0..10u64 {
        let key = format!("no_lru_key_{:02}", i);
        s.set(key.as_bytes(), string("value"), i);
    }
    assert_eq!(s.len(), 10);
}

#[test]
fn score_keys_follow_float_order() {
    let scores = [f64::MIN, -2.5, -1.0, -0.0, 0.0, 1.0, 2.5, f64::MAX, f64::INFINITY];
    for w in scores.windows(2) {
        assert!(score_order_key(w[0].to_bits()) <= score_order_key(w[1].to_bits()));
    }
    assert!(score_order_key((-1.0f64).to_bits()) < score_order_key(1.0f64.to_bits()));
}

#[test]
fn sorted_set_negative_scores_and_ties() {
    let mut s = InMemoryStorage::new(None);
    s.zadd(b"z", (-1.0f64).to_bits(), b"m1", 1).unwrap();
    s.zadd(b"z", (-2.0f64).to_bits(), b"m2", 1).unwrap();
    s.zadd(b"z", 0.0f64.to_bits(), b"m3", 1).unwrap();
    s.zadd(b"z", (-1.0f64).to_bits(), b"m4", 1).unwrap();
    assert_eq!(s.zrange(b"z", 0, -1, 1), Ok(vec![b("m2"), b("m1"), b("m4"), b("m3")]));
    assert_eq!(s.zcard(b"z", 1), Ok(4));
}

#[test]
fn list_range_edges() {
    let mut s = InMemoryStorage::new(None);
    s.rpush(b"l", &vec![b("a"), b("b"), b("c")], 1).unwrap();
    assert_eq!(s.lrange(b"l", -100, 1, 1), Ok(vec![b("a"), b("b")]));
    assert_eq!(s.lrange(b"l", 0, -100, 1), Ok(vec![]));
    assert_eq!(s.lrange(b"l", 3, 10, 1), Ok(vec![]));
    assert_eq!(s.lrange(b"l", i64::MIN, i64::MAX, 1), Ok(vec![b("a"), b("b"), b("c")]));
    assert_eq!(s.lrange(b"missing", 0, -1, 1), Ok(vec![]));
}

#[test]
fn lpush_reverses_and_rpop_is_fifo() {
    let mut s = InMemoryStorage::new(None);
    s.lpush(b"l", &vec![b("1"), b("2"), b("3")], 1).unwrap();
    assert_eq!(s.lrange(b"l", 0, -1, 1), Ok(vec![b("3"), b("2"), b("1")]));
    assert_eq!(s.lpop(b"l", 1), Ok(Some(b("3"))));
    assert_eq!(s.rpop(b"l", 1), Ok(Some(b("1"))));
}

#[test]
fn array_slice_past_end_is_clipped() {
    let mut s = InMemoryStorage::new(None);
    s.array_set(b"a", vec![Value::Integer(0), Value::Integer(1), Value::Integer(2)], 1);
    assert_eq!(s.array_slice(b"a", 1, Some(99), 1), Ok(vec![Value::Integer(1), Value::Integer(2)]));
    assert_eq!(s.array_slice(b"a", 2, Some(1), 1), Ok(vec![]));
    assert_eq!(s.array_update(b"missing", &vec![(0, Value::Integer(1))], 1), Err(DomainError::WrongType));
}

#[test]
fn sadd_of_present_members_changes_nothing() {
    let mut s = InMemoryStorage::new(None);
    s.sadd(b"s", &vec![b("a"), b("b")], 1).unwrap();
    assert_eq!(s.sadd(b"s", &vec![b("b"), b("a")], 1), Ok(0));
    assert_eq!(s.smembers(b"s", 1), Ok(vec![b("a"), b("b")]));
}

#[test]
fn hset_of_present_field_keeps_length() {
    let mut s = InMemoryStorage::new(None);
    s.hset(b"h", b"f", b("1"), 1).unwrap();
    assert_eq!(s.hset(b"h", b"f", b("2"), 1), Ok(false));
    assert_eq!(s.hlen(b"h", 1), Ok(1));
    assert_eq!(s.hget(b"h", b"f", 1), Ok(Some(b("2"))));
    assert_eq!(s.hget(b"h", b"g", 1), Ok(None));
    assert_eq!(s.hget(b"missing", b"g", 1), Ok(None));
}

#[test]
fn snapshot_round_trip_restores_values_without_expiry() {
    let mut s = InMemoryStorage::new(None);
    s.set_with_ttl(b"t", string("temp"), 10, 1);
    s.sadd(b"s", &vec![b("x")], 1).unwrap();
    s.array_set(b"a", vec![Value::List(vec![b("i")])], 1);
    let entries = s.get_all_entries(1);
    assert_eq!(entries.len(), 3);
    let mut r = InMemoryStorage::new(None);
    r.restore_entries(&entries, 2);
    assert_eq!(r.len(), 3);
    assert_eq!(r.ttl(b"t", 2), -1);
    assert_eq!(r.get(b"t", 2), Some(string("temp")));
    assert_eq!(r.smembers(b"s", 2), Ok(vec![b("x")]));
    assert_eq!(r.get(b"a", 2), Some(Value::Array(vec![Value::List(vec![b("i")])])));
}

#[test]
fn copy_value_is_equal() {
    let v = Value::Array(vec![
        Value::Members(vec![b("a")]),
        Value::SortedSet(vec![(b("m"), 1.0f64.to_bits())]),
        Value::Hash(vec![(b("f"), b("v"))]),
    ]);
    assert_eq!(copy_value(&v), v);
}

#[test]
fn mset_of_no_pairs_changes_nothing() {
    let mut s = InMemoryStorage::new(Some(1));
    s.set(b"k", string("value"), 1);
    s.mset(&vec![], 2);
    assert_eq!(s.len(), 1);
}

#[test]
fn snapshot_leaves_out_expired_keys() {
    let mut s = InMemoryStorage::new(None);
    s.set_with_ttl_ms(b"short", string("gone"), 10, 0);
    s.set(b"long", string("kept"), 0);
    let entries = s.get_all_entries(10);
    assert_eq!(entries, vec![(b("long"), string("kept"))]);
    let mut r = InMemoryStorage::new(None);
    r.restore_entries(&entries, 20);
    assert_eq!(r.get(b"short", 20), None);
    assert_eq!(r.get(b"long", 20), Some(string("kept")));
}

#[test]
fn whole_values_are_stored_well_formed() {
    let mut s = InMemoryStorage::new(None);
    s.set(b"h", Value::Hash(vec![(b("f"), b("1")), (b("g"), b("2")), (b("f"), b("3"))]), 1);
    assert_eq!(s.get(b"h", 1), Some(Value::Hash(vec![(b("f"), b("3")), (b("g"), b("2"))])));
    assert_eq!(s.hlen(b"h", 1), Ok(2));

    s.set(b"s", Value::Members(vec![b("a"), b("b"), b("a")]), 1);
    assert_eq!(s.scard(b"s", 1), Ok(2));

    s.set(
        b"z",
        Value::SortedSet(vec![(b("hi"), 3.0f64.to_bits()), (b("lo"), 1.0f64.to_bits()), (b("hi"), 0.5f64.to_bits())]),
        1,
    );
    assert_eq!(s.zrange(b"z", 0, -1, 1), Ok(vec![b("hi"), b("lo")]));
    assert_eq!(s.zscore(b"z", b"hi", 1), Ok(Some(0.5f64.to_bits())));

    s.array_set(b"a", vec![Value::Members(vec![b("x"), b("x")])], 1);
    assert_eq!(s.array_get(b"a", &vec![0], 1), Ok(vec![Some(Value::Members(vec![b("x")]))]));
    assert_eq!(s.array_append(b"a", vec![Value::Members(vec![b("y"), b("y")])], 1), Ok(2));
    assert_eq!(s.array_update(b"a", &vec![(0, Value::Members(vec![b("z"), b("z")]))], 1), Ok(1));
    assert_eq!(
        s.get(b"a", 1),
        Some(Value::Array(vec![Value::Members(vec![b("z")]), Value::Members(vec![b("y")])]))
    );
}

#[test]
fn eviction_leaves_a_store_within_its_limit_alone() {
    let mut s = InMemoryStorage::new(Some(100));
    s.set(b"a", Value::String(vec![0; 30]), 1);
    s.set(b"b", Value::String(vec![0; 30]), 2);
    s.set(b"c", Value::String(vec![0; 30]), 3);
    assert_eq!(s.len(), 3);
    assert_eq!(s.memory_usage(), 93);
    s.set(b"d", Value::String(vec![0; 30]), 4);
    assert_eq!(s.len(), 3);
    assert!(s.get(b"a", 5).is_none());
    assert!(s.get(b"b", 5).is_some());
}
