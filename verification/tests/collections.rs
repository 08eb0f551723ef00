use raptor::value::copy_value;
use raptor::{DomainError, InMemoryStorage, Value};

const NOW: u64 = 1_000;

fn b(s: &str) -> Vec<u8> {
    s.as_bytes().to_vec()
}

fn string(s: &str) -> Value {
    Value::String(b(s))
}

#[test]
fn test_hash_hdel_integration() {
    let mut s = InMemoryStorage::new(None);
    let key = b"test_hash_hdel";
    assert_eq!(s.hset(key, b"field1", b("value1"), NOW), Ok(true));
    assert_eq!(s.hset(key, b"field2", b("value2"), NOW), Ok(true));
    assert_eq!(s.hset(key, b"field3", b("value3"), NOW), Ok(true));
    assert_eq!(s.hdel(key, &vec![b("field2")], NOW), Ok(1));
    assert_eq!(s.hexists(key, b"field2", NOW), Ok(false));
    assert_eq!(s.hdel(key, &vec![b("field1"), b("nonexistent")], NOW), Ok(1));
    assert_eq!(s.hdel(key, &vec![b("field3")], NOW), Ok(1));
    assert_eq!(s.hlen(key, NOW), Ok(0));
}

#[test]
fn test_hash_hexists_integration() {
    let mut s = InMemoryStorage::new(None);
    let key = b"test_hash_hexists";
    assert_eq!(s.hexists(key, b"nonexistent", NOW), Ok(false));
    assert_eq!(s.hset(key, b"existing", b("value"), NOW), Ok(true));
    assert_eq!(s.hexists(key, b"existing", NOW), Ok(true));
    assert_eq!(s.hexists(key, b"nonexistent", NOW), Ok(false));
}

#[test]
fn test_hash_hkeys_integration() {
    let mut s = InMemoryStorage::new(None);
    let key = b"test_hash_hkeys";
    assert_eq!(s.hkeys(key, NOW), Ok(vec![]));
    s.hset(key, b"key1", b("value1"), NOW).unwrap();
    s.hset(key, b"key2", b("value2"), NOW).unwrap();
    s.hset(key, b"key3", b("value3"), NOW).unwrap();
    let result = s.hkeys(key, NOW).unwrap();
    assert_eq!(result.len(), 3);
    assert!(result.contains(&b("key1")));
    assert!(result.contains(&b("key2")));
    assert!(result.contains(&b("key3")));
}

#[test]
fn test_hash_hvals_integration() {
    let mut s = InMemoryStorage::new(None);
    let key = b"test_hash_hvals";
    assert_eq!(s.hvals(key, NOW), Ok(vec![]));
    s.hset(key, b"key1", b("value1"), NOW).unwrap();
    s.hset(key, b"key2", b("value2"), NOW).unwrap();
    s.hset(key, b"key3", b("value3"), NOW).unwrap();
    let result = s.hvals(key, NOW).unwrap();
    assert_eq!(result.len(), 3);
    assert!(result.contains(&b("value1")));
    assert!(result.contains(&b("value2")));
    assert!(result.contains(&b("value3")));
}

#[test]
fn test_hash_hlen_integration() {
    let mut s = InMemoryStorage::new(None);
    let key = b"test_hash_hlen";
    assert_eq!(s.hlen(key, NOW), Ok(0));
    s.hset(key, b"field1", b("value1"), NOW).unwrap();
    assert_eq!(s.hlen(key, NOW), Ok(1));
    s.hset(key, b"field2", b("value2"), NOW).unwrap();
    assert_eq!(s.hlen(key, NOW), Ok(2));
    s.hdel(key, &vec![b("field1")], NOW).unwrap();
    assert_eq!(s.hlen(key, NOW), Ok(1));
}

#[test]
fn test_hash_complex_operations_integration() {
    let mut s = InMemoryStorage::new(None);
    let key = b"test_hash_complex";
    let fields = vec![
        ("user_id", "12345"),
        ("username", "johndoe"),
        ("email", "john@example.com"),
        ("role", "admin"),
        ("last_login", "2024-01-15"),
    ];
    for (field, value) in &fields {
        s.hset(key, field.as_bytes(), b(value), NOW).unwrap();
    }
    assert_eq!(s.hlen(key, NOW), Ok(5));
    for (field, _) in &fields {
        assert_eq!(s.hexists(key, field.as_bytes(), NOW), Ok(true));
    }
    let keys = s.hkeys(key, NOW).unwrap();
    assert_eq!(keys.len(), 5);
    for (field, _) in &fields {
        assert!(keys.contains(&b(field)));
    }
    let vals = s.hvals(key, NOW).unwrap();
    assert_eq!(vals.len(), 5);
    for (_, value) in &fields {
        assert!(vals.contains(&b(value)));
    }
    assert_eq!(s.hdel(key, &vec![b("role"), b("last_login")], NOW), Ok(2));
    assert_eq!(s.hlen(key, NOW), Ok(3));
    assert_eq!(s.hexists(key, b"role", NOW), Ok(false));
    assert_eq!(s.hexists(key, b"last_login", NOW), Ok(false));
    for field in ["user_id", "username", "email"] {
        assert_eq!(s.hexists(key, field.as_bytes(), NOW), Ok(true));
    }
}

#[test]
fn test_hash_hset_empty_field_and_value_integration() {
    let mut s = InMemoryStorage::new(None);
    let key = b"test_hash_empty_field_value";
    assert_eq!(s.hset(key, b"", b("value"), NOW), Ok(true));
    assert_eq!(s.hget(key, b"", NOW), Ok(Some(b("value"))));
    assert_eq!(s.hset(key, b"field_empty_val", Vec::new(), NOW), Ok(true));
    assert_eq!(s.hget(key, b"field_empty_val", NOW), Ok(Some(Vec::new())));
    assert_eq!(s.hset(key, b"", Vec::new(), NOW), Ok(false));
    assert_eq!(s.hget(key, b"", NOW), Ok(Some(Vec::new())));
}

#[test]
fn test_hash_hget_after_type_conversion_integration() {
    let mut s = InMemoryStorage::new(None);
    let key = b"test_hash_type_conversion";
    s.hset(key, b"field1", b("value1"), NOW).unwrap();
    s.set(key, string("not_a_hash"), NOW);
    assert_eq!(s.hget(key, b"field1", NOW), Err(DomainError::WrongType));
}

#[test]
fn test_hash_hset_updates_access_time_integration() {
    let mut s = InMemoryStorage::new(None);
    let key = b"test_hset_access_time";
    s.hset(key, b"field1", b("value1"), NOW).unwrap();
    let initial_access = s.last_accessed(key).unwrap();
    s.hget(key, b"field1", NOW + 10).unwrap();
    let updated_access = s.last_accessed(key).unwrap();
    assert!(updated_access >= initial_access);
    let intermediate_access = s.last_accessed(key).unwrap();
    s.hget(key, b"field1", NOW + 20).unwrap();
    let final_access = s.last_accessed(key).unwrap();
    assert!(final_access >= intermediate_access);
}

#[test]
fn test_list_lpush_rpop_integration() {
    let mut s = InMemoryStorage::new(None);
    let key = b"test_list";
    assert_eq!(s.lpush(key, &vec![b("value1"), b("value2"), b("value3")], NOW), Ok(3));
    assert_eq!(s.rpop(key, NOW), Ok(Some(b("value1"))));
    assert_eq!(s.rpop(key, NOW), Ok(Some(b("value2"))));
    assert_eq!(s.rpop(key, NOW), Ok(Some(b("value3"))));
    assert_eq!(s.rpop(key, NOW), Ok(None));
}

#[test]
fn test_list_multiple_lpush() {
    let mut s = InMemoryStorage::new(None);
    let key = b"test_list";
    assert_eq!(s.lpush(key, &vec![b("first")], NOW), Ok(1));
    assert_eq!(s.lpush(key, &vec![b("second"), b("third")], NOW), Ok(3));
    assert_eq!(s.rpop(key, NOW), Ok(Some(b("first"))));
    assert_eq!(s.rpop(key, NOW), Ok(Some(b("second"))));
}

#[test]
fn test_list_empty_list_operations() {
    let mut s = InMemoryStorage::new(None);
    let key = b"empty_list";
    assert_eq!(s.rpop(key, NOW), Ok(None));
    assert_eq!(s.lpush(key, &vec![b("single_value")], NOW), Ok(1));
    assert_eq!(s.rpop(key, NOW), Ok(Some(b("single_value"))));
    assert_eq!(s.rpop(key, NOW), Ok(None));
}

#[test]
fn test_list_wrong_type_error() {
    let mut s = InMemoryStorage::new(None);
    let key = b"wrong_type_key";
    s.set(key, string("string_value"), NOW);
    assert_eq!(s.lpush(key, &vec![b("list_value")], NOW), Err(DomainError::WrongType));
    assert_eq!(s.rpop(key, NOW), Err(DomainError::WrongType));
}

#[test]
fn test_list_large_list_operations() {
    let mut s = InMemoryStorage::new(None);
    let key = b"large_list";
    for i in 0..100 {
        s.lpush(key, &vec![format!("value_{}", i).into_bytes()], NOW).unwrap();
    }
    for i in 0..10 {
        assert_eq!(s.rpop(key, NOW), Ok(Some(format!("value_{}", i).into_bytes())));
    }
    let popped = s.rpop(key, NOW);
    assert!(popped.is_ok());
    assert!(popped.unwrap().is_some());
}

#[test]
fn test_list_lrange_integration() {
    let mut s = InMemoryStorage::new(None);
    let key = b"lrange_test_list";
    s.rpush(key, &vec![b("one"), b("two"), b("three"), b("four"), b("five")], NOW).unwrap();
    assert_eq!(s.lrange(key, 0, 2, NOW).unwrap(), vec![b("one"), b("two"), b("three")]);
    assert_eq!(s.lrange(key, -3, -1, NOW).unwrap(), vec![b("three"), b("four"), b("five")]);
    assert_eq!(
        s.lrange(key, 0, 100, NOW).unwrap(),
        vec![b("one"), b("two"), b("three"), b("four"), b("five")]
    );
    assert!(s.lrange(key, 3, 1, NOW).unwrap().is_empty());

    let empty_key = b"empty_lrange";
    s.lpush(empty_key, &vec![], NOW).unwrap();
    assert!(s.lrange(empty_key, 0, -1, NOW).unwrap().is_empty());
}

#[test]
fn test_list_empty_values_vec_integration() {
    let mut s = InMemoryStorage::new(None);
    let key_lpush = b"empty_lpush";
    s.lpush(key_lpush, &vec![b("initial")], NOW).unwrap();
    let initial_len_lpush = s.lrange(key_lpush, 0, -1, NOW).unwrap().len();
    assert_eq!(s.lpush(key_lpush, &vec![], NOW).unwrap(), initial_len_lpush);
    assert_eq!(s.lrange(key_lpush, 0, -1, NOW).unwrap().len(), initial_len_lpush);

    let key_rpush = b"empty_rpush";
    s.rpush(key_rpush, &vec![b("initial")], NOW).unwrap();
    let initial_len_rpush = s.lrange(key_rpush, 0, -1, NOW).unwrap().len();
    assert_eq!(s.rpush(key_rpush, &vec![], NOW).unwrap(), initial_len_rpush);
    assert_eq!(s.lrange(key_rpush, 0, -1, NOW).unwrap().len(), initial_len_rpush);
}

#[test]
fn test_list_lpop_rpop_empty_then_refill_integration() {
    let mut s = InMemoryStorage::new(None);
    let key = b"refill_list_integration";
    s.rpush(key, &vec![b("A"), b("B")], NOW).unwrap();
    assert_eq!(s.lrange(key, 0, -1, NOW).unwrap().len(), 2);
    assert_eq!(s.lpop(key, NOW).unwrap(), Some(b("A")));
    assert_eq!(s.lpop(key, NOW).unwrap(), Some(b("B")));
    assert_eq!(s.lpop(key, NOW).unwrap(), None);
    assert!(s.lrange(key, 0, -1, NOW).unwrap().is_empty());

    s.lpush(key, &vec![b("C"), b("D")], NOW).unwrap();
    assert_eq!(s.lrange(key, 0, -1, NOW).unwrap().len(), 2);
    assert_eq!(s.lrange(key, 0, -1, NOW).unwrap(), vec![b("D"), b("C")]);
    assert_eq!(s.rpop(key, NOW).unwrap(), Some(b("C")));
    assert_eq!(s.rpop(key, NOW).unwrap(), Some(b("D")));
    assert_eq!(s.rpop(key, NOW).unwrap(), None);
}

#[test]
fn test_list_pop_after_type_conversion_integration() {
    let mut s = InMemoryStorage::new(None);
    let key = b"converted_list_key";
    s.lpush(key, &vec![b("initial")], NOW).unwrap();
    s.set(key, string("not_a_list"), NOW);
    assert_eq!(s.lpop(key, NOW), Err(DomainError::WrongType));
    assert_eq!(s.rpop(key, NOW), Err(DomainError::WrongType));
}

#[test]
fn test_set_sadd_smembers_integration() {
    let mut s = InMemoryStorage::new(None);
    let key = b"test_set";
    assert_eq!(s.sadd(key, &vec![b("member1"), b("member2")], NOW), Ok(2));
    assert_eq!(s.sadd(key, &vec![b("member2"), b("member3")], NOW), Ok(1));
    let members = s.smembers(key, NOW).unwrap();
    assert_eq!(members.len(), 3);
    assert!(members.contains(&b("member1")));
    assert!(members.contains(&b("member2")));
    assert!(members.contains(&b("member3")));
}

#[test]
fn test_set_srem_sismember_integration() {
    let mut s = InMemoryStorage::new(None);
    let key = b"test_set_ops";
    assert_eq!(s.sadd(key, &vec![b("alice"), b("bob"), b("charlie")], NOW), Ok(3));
    assert_eq!(s.sismember(key, b"alice", NOW), Ok(true));
    assert_eq!(s.sismember(key, b"dave", NOW), Ok(false));
    assert_eq!(s.srem(key, &vec![b("alice"), b("nonexistent")], NOW), Ok(1));
    assert_eq!(s.sismember(key, b"alice", NOW), Ok(false));
    assert_eq!(s.sismember(key, b"bob", NOW), Ok(true));
}

#[test]
fn test_set_scard_integration() {
    let mut s = InMemoryStorage::new(None);
    let key = b"test_set_card";
    assert_eq!(s.scard(key, NOW), Ok(0));
    assert_eq!(s.sadd(key, &vec![b("one"), b("two")], NOW), Ok(2));
    assert_eq!(s.scard(key, NOW), Ok(2));
    assert_eq!(s.sadd(key, &vec![b("three")], NOW), Ok(1));
    assert_eq!(s.scard(key, NOW), Ok(3));
    assert_eq!(s.srem(key, &vec![b("one"), b("two")], NOW), Ok(2));
    assert_eq!(s.scard(key, NOW), Ok(1));
}

#[test]
fn test_set_empty_operations_integration() {
    let mut s = InMemoryStorage::new(None);
    let key = b"empty_set";
    assert_eq!(s.smembers(key, NOW), Ok(vec![]));
    assert_eq!(s.scard(key, NOW), Ok(0));
    assert_eq!(s.sismember(key, b"nonexistent", NOW), Ok(false));
    assert_eq!(s.srem(key, &vec![b("nonexistent")], NOW), Ok(0));
}

#[test]
fn test_set_duplicates_integration() {
    let mut s = InMemoryStorage::new(None);
    let key = b"test_duplicates";
    assert_eq!(s.sadd(key, &vec![b("same"), b("same"), b("different")], NOW), Ok(2));
    assert_eq!(s.scard(key, NOW), Ok(2));
    assert_eq!(s.smembers(key, NOW).unwrap().len(), 2);
}

#[test]
fn test_set_sadd_empty_members_integration() {
    let mut s = InMemoryStorage::new(None);
    let key = b"test_sadd_empty";
    s.sadd(key, &vec![b("initial")], NOW).unwrap();
    let initial_card = s.scard(key, NOW).unwrap();
    assert_eq!(s.sadd(key, &vec![], NOW), Ok(0));
    assert_eq!(s.scard(key, NOW).unwrap(), initial_card);
}

#[test]
fn test_set_srem_empty_members_integration() {
    let mut s = InMemoryStorage::new(None);
    let key = b"test_srem_empty";
    s.sadd(key, &vec![b("initial")], NOW).unwrap();
    let initial_card = s.scard(key, NOW).unwrap();
    assert_eq!(s.srem(key, &vec![], NOW), Ok(0));
    assert_eq!(s.scard(key, NOW).unwrap(), initial_card);
}

#[test]
fn test_set_sismember_empty_member_integration() {
    let mut s = InMemoryStorage::new(None);
    let key = b"test_sismember_empty";
    s.sadd(key, &vec![b("nonempty"), Vec::new()], NOW).unwrap();
    assert_eq!(s.sismember(key, b"", NOW), Ok(true));
    assert_eq!(s.sismember(key, b"nonempty", NOW), Ok(true));
    assert_eq!(s.sismember(b"nonexistent_set", b"", NOW), Ok(false));
}

#[test]
fn test_set_smembers_after_type_conversion_integration() {
    let mut s = InMemoryStorage::new(None);
    let key = b"test_set_type_conversion";
    s.sadd(key, &vec![b("member1")], NOW).unwrap();
    s.set(key, string("not_a_set"), NOW);
    assert_eq!(s.smembers(key, NOW), Err(DomainError::WrongType));
}

#[test]
fn test_sorted_set_zadd_zrange_integration() {
    let mut s = InMemoryStorage::new(None);
    let key = b"test_sorted_set";
    assert_eq!(s.zadd(key, 2.5f64.to_bits(), b"member2", NOW), Ok(true));
    assert_eq!(s.zadd(key, 1.0f64.to_bits(), b"member1", NOW), Ok(true));
    assert_eq!(s.zadd(key, 3.0f64.to_bits(), b"member3", NOW), Ok(true));
    assert_eq!(s.zrange(key, 0, -1, NOW), Ok(vec![b("member1"), b("member2"), b("member3")]));
    assert_eq!(s.zrange(key, 1, 2, NOW), Ok(vec![b("member2"), b("member3")]));
}

#[test]
fn test_sorted_set_zadd_min_max_nan_scores_integration() {
    let mut s = InMemoryStorage::new(None);
    let key = b"test_zset_min_max_nan";
    s.zadd(key, f64::MAX.to_bits(), b"max_member", NOW).unwrap();
    s.zadd(key, f64::MIN.to_bits(), b"min_member", NOW).unwrap();
    s.zadd(key, 0.0f64.to_bits(), b"zero_member", NOW).unwrap();
    let result = s.zrange(key, 0, -1, NOW).unwrap();
    assert_eq!(result.len(), 3);
    assert_eq!(result[0], b("min_member"));
    assert_eq!(result[1], b("zero_member"));
    assert_eq!(result[2], b("max_member"));

    s.zadd(key, f64::NAN.to_bits(), b"nan_member", NOW).unwrap();
    let result_nan = s.zrange(key, 0, -1, NOW).unwrap();
    assert_eq!(result_nan.len(), 4);
    assert!(result_nan.contains(&b("nan_member")));
}

#[test]
fn test_sorted_set_zrem_empty_members_integration() {
    let mut s = InMemoryStorage::new(None);
    let key = b"test_zrem_empty";
    s.zadd(key, 1.0f64.to_bits(), b"initial", NOW).unwrap();
    let initial_card = s.zcard(key, NOW).unwrap();
    assert_eq!(s.zrem(key, &vec![], NOW), Ok(0));
    assert_eq!(s.zcard(key, NOW).unwrap(), initial_card);
}

#[test]
fn test_sorted_set_zrange_single_element_integration() {
    let mut s = InMemoryStorage::new(None);
    let key = b"test_zrange_single";
    s.zadd(key, 1.0f64.to_bits(), b"member1", NOW).unwrap();
    assert_eq!(s.zrange(key, 0, 0, NOW).unwrap(), vec![b("member1")]);
    assert_eq!(s.zrange(key, -1, -1, NOW).unwrap(), vec![b("member1")]);
}

#[test]
fn test_sorted_set_zrange_after_type_conversion_integration() {
    let mut s = InMemoryStorage::new(None);
    let key = b"test_zrange_type_conversion";
    s.zadd(key, 1.0f64.to_bits(), b"member1", NOW).unwrap();
    s.set(key, string("not_a_zset"), NOW);
    assert_eq!(s.zrange(key, 0, -1, NOW), Err(DomainError::WrongType));
}

#[test]
fn test_sorted_set_zrem_zcard_zscore_integration() {
    let mut s = InMemoryStorage::new(None);
    let key = b"test_sorted_set_ops";
    assert_eq!(s.zadd(key, 1.5f64.to_bits(), b"member1", NOW), Ok(true));
    assert_eq!(s.zcard(key, NOW), Ok(1));
    assert_eq!(s.zscore(key, b"member1", NOW), Ok(Some(1.5f64.to_bits())));
    assert_eq!(s.zscore(key, b"nonexistent", NOW), Ok(None));
    assert_eq!(s.zrem(key, &vec![b("member1")], NOW), Ok(1));
    assert_eq!(s.zcard(key, NOW), Ok(0));
}

#[test]
fn test_sorted_set_update_score_integration() {
    let mut s = InMemoryStorage::new(None);
    let key = b"test_sorted_set_update";
    assert_eq!(s.zadd(key, 1.0f64.to_bits(), b"member1", NOW), Ok(true));
    assert_eq!(s.zadd(key, 2.0f64.to_bits(), b"member2", NOW), Ok(true));
    assert_eq!(s.zadd(key, 3.0f64.to_bits(), b"member3", NOW), Ok(true));
    assert_eq!(s.zadd(key, 2.5f64.to_bits(), b"member1", NOW), Ok(false));
    assert_eq!(s.zrange(key, 0, -1, NOW), Ok(vec![b("member2"), b("member1"), b("member3")]));
    assert_eq!(s.zscore(key, b"member1", NOW), Ok(Some(2.5f64.to_bits())));
}

#[test]
fn test_sorted_set_negative_ranges_integration() {
    let mut s = InMemoryStorage::new(None);
    let key = b"test_sorted_set_ranges";
    for i in 1..=5 {
        let member = format!("member{}", i);
        assert_eq!(s.zadd(key, (i as f64).to_bits(), member.as_bytes(), NOW), Ok(true));
    }
    assert_eq!(s.zrange(key, -2, -1, NOW), Ok(vec![b("member4"), b("member5")]));
    assert_eq!(
        s.zrange(key, 1, -1, NOW),
        Ok(vec![b("member2"), b("member3"), b("member4"), b("member5")])
    );
}

#[test]
fn test_sorted_set_empty_operations_integration() {
    let mut s = InMemoryStorage::new(None);
    let key = b"test_empty_sorted_set";
    assert_eq!(s.zcard(key, NOW), Ok(0));
    assert_eq!(s.zrange(key, 0, -1, NOW), Ok(vec![]));
    assert_eq!(s.zscore(key, b"nonexistent", NOW), Ok(None));
    assert_eq!(s.zrem(key, &vec![b("nonexistent")], NOW), Ok(0));
}

#[test]
fn test_array_use_cases_integration() {
    let mut s = InMemoryStorage::new(None);
    let key = b"test_array";
    let values = vec![string("value1"), Value::Integer(42), string("value3")];
    s.array_set(key, values.iter().map(copy_value).collect(), NOW);
    assert_eq!(
        s.array_get(key, &vec![0, 1, 2, 3], NOW),
        Ok(vec![
            Some(copy_value(&values[0])),
            Some(copy_value(&values[1])),
            Some(copy_value(&values[2])),
            None,
        ])
    );
    let new_values = vec![string("new_val1"), string("new_val2")];
    s.array_set(key, new_values.iter().map(copy_value).collect(), NOW);
    assert_eq!(
        s.array_get(key, &vec![0, 1, 2], NOW),
        Ok(vec![Some(copy_value(&new_values[0])), Some(copy_value(&new_values[1])), None])
    );
}

#[test]
fn test_array_append_nonexistent_key_integration() {
    let mut s = InMemoryStorage::new(None);
    let key = b"nonexistent_array_append";
    assert_eq!(s.array_append(key, vec![string("element")], NOW), Err(DomainError::WrongType));
    assert_eq!(s.array_get(key, &vec![0], NOW), Ok(vec![None]));
}

#[test]
fn test_array_slice_empty_array_integration() {
    let mut s = InMemoryStorage::new(None);
    s.array_set(b"empty_array_slice", vec![], NOW);
    assert_eq!(s.array_slice(b"empty_array_slice", 0, Some(10), NOW), Ok(Vec::new()));
    assert_eq!(s.array_slice(b"nonexistent_key_slice", 0, Some(10), NOW), Ok(Vec::new()));
}

#[test]
fn test_array_update_empty_updates_integration() {
    let mut s = InMemoryStorage::new(None);
    let key = b"empty_updates_array";
    s.array_set(key, vec![Value::Integer(1), Value::Integer(2)], NOW);
    assert_eq!(s.array_update(key, &vec![], NOW), Ok(0));
    assert_eq!(
        s.array_get(key, &vec![0, 1], NOW),
        Ok(vec![Some(Value::Integer(1)), Some(Value::Integer(2))])
    );
}

#[test]
fn test_array_append_integration() {
    let mut s = InMemoryStorage::new(None);
    let key = b"test_array_append";
    s.array_set(key, vec![string("initial")], NOW);
    assert_eq!(s.array_append(key, vec![Value::Integer(100), string("appended")], NOW), Ok(3));
    assert_eq!(
        s.array_get(key, &vec![0, 1, 2], NOW),
        Ok(vec![Some(string("initial")), Some(Value::Integer(100)), Some(string("appended"))])
    );
}

#[test]
fn test_array_slice_integration() {
    let mut s = InMemoryStorage::new(None);
    let key = b"test_array_slice";
    s.array_set(key, vec![string("zero"), string("one"), string("two"), string("three"), string("four")], NOW);
    assert_eq!(
        s.array_slice(key, 1, Some(4), NOW),
        Ok(vec![string("one"), string("two"), string("three")])
    );
    assert_eq!(s.array_slice(key, 3, None, NOW), Ok(vec![string("three"), string("four")]));
    assert_eq!(s.array_slice(key, 10, Some(15), NOW), Ok(Vec::new()));
}

#[test]
fn test_array_update_integration() {
    let mut s = InMemoryStorage::new(None);
    let key = b"test_array_update";
    s.array_set(key, vec![string("original1"), string("original2"), string("original3")], NOW);
    let updates = vec![
        (0, string("updated1")),
        (2, Value::Integer(999)),
        (5, string("out_of_bounds")),
    ];
    assert_eq!(s.array_update(key, &updates, NOW), Ok(2));
    assert_eq!(
        s.array_get(key, &vec![0, 1, 2], NOW),
        Ok(vec![Some(string("updated1")), Some(string("original2")), Some(Value::Integer(999))])
    );
}

#[test]
fn test_array_length_integration() {
    let mut s = InMemoryStorage::new(None);
    let key = b"test_array_length";
    assert_eq!(s.array_len(key, NOW), Ok(None));
    s.array_set(key, vec![string("item1"), string("item2")], NOW);
    assert_eq!(s.array_len(key, NOW), Ok(Some(2)));
    assert_eq!(s.array_append(key, vec![Value::Integer(42), string("item4")], NOW), Ok(4));
    assert_eq!(s.array_len(key, NOW), Ok(Some(4)));
}

#[test]
fn test_array_operations_on_wrong_type() {
    let mut s = InMemoryStorage::new(None);
    let key = b"wrong_type_key";
    s.set(key, string("string_value"), NOW);
    assert_eq!(s.array_get(key, &vec![0], NOW), Err(DomainError::WrongType));
    assert_eq!(s.array_append(key, vec![string("new")], NOW), Err(DomainError::WrongType));
    assert_eq!(s.array_slice(key, 0, Some(1), NOW), Err(DomainError::WrongType));
    assert_eq!(s.array_update(key, &vec![(0, string("updated"))], NOW), Err(DomainError::WrongType));
    assert_eq!(s.array_len(key, NOW), Err(DomainError::WrongType));
}

#[test]
fn test_array_complex_operations() {
    let mut s = InMemoryStorage::new(None);
    let key = b"complex_array";
    let make = || {
        vec![
            string("string_value"),
            Value::Integer(42),
            Value::Hash(vec![
                (b("field1"), b("hash_value1")),
                (b("field2"), b("hash_value2")),
            ]),
            Value::List(vec![b("list_item1"), b("list_item2")]),
        ]
    };
    s.array_set(key, make(), NOW);
    let expected: Vec<Option<Value>> = make().into_iter().map(Some).collect();
    assert_eq!(s.array_get(key, &vec![0, 1, 2, 3], NOW), Ok(expected));
    assert_eq!(s.array_update(key, &vec![(1, Value::Integer(100))], NOW), Ok(1));
    assert_eq!(s.array_get(key, &vec![1], NOW), Ok(vec![Some(Value::Integer(100))]));
    assert_eq!(s.array_append(key, vec![string("appended_string"), Value::Integer(200)], NOW), Ok(6));
    assert_eq!(s.array_len(key, NOW), Ok(Some(6)));
}
