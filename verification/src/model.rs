use vstd::prelude::*;
use crate::array::{array_get, array_slice, array_update};
use crate::bytes::{keys_of, vals_of};
use crate::hash::{hash_get, hash_put};
use crate::list::{lpush, lpop, rpop, lrange};
use crate::members::set_add;
use crate::pairs::{del_keys, del_all};
use crate::value::{ValueModel, value_size, cap};
use crate::wellformed::{wf, normalized, normalized_all};
use crate::zset::{zadd, zscore, zrange};

verus! {

/// Why a command was refused.
#[derive(Debug, PartialEq, Eq, Clone, Copy)]
pub enum DomainError {
    /// The key holds a value of another kind than the command works on.
    WrongType,
    /// A decrement would take the counter below zero.
    NegativeCounterValue,
}

/// What the store holds under one key.
pub struct Record {
    pub value: ValueModel,
    /// The time (in milliseconds) from which the key no longer exists.
    pub expires_at: Option<u64>,
    /// The time (in milliseconds) of the last command that used the key.
    pub last_access: u64,
}

pub type StoreModel = Map<Seq<u8>, Record>;

pub open spec fn expired(r: Record, now: u64) -> bool {
    match r.expires_at {
        Some(t) => t <= now,
        None => false,
    }
}

/// The key holds a value that has not expired at `now`.
pub open spec fn live(m: StoreModel, k: Seq<u8>, now: u64) -> bool {
    m.contains_key(k) && !expired(m[k], now)
}

/// The store after an expired entry under `k` has been dropped.
pub open spec fn purge(m: StoreModel, k: Seq<u8>, now: u64) -> StoreModel {
    if m.contains_key(k) && expired(m[k], now) {
        m.remove(k)
    } else {
        m
    }
}

/// The value a read of `k` sees at `now`.
pub open spec fn lookup(m: StoreModel, k: Seq<u8>, now: u64) -> Option<ValueModel> {
    if live(m, k, now) {
        Some(m[k].value)
    } else {
        None
    }
}

/// Marks `k` as used at `now`, if it is present.
pub open spec fn touch(p: StoreModel, k: Seq<u8>, now: u64) -> StoreModel {
    if p.contains_key(k) {
        p.insert(k, Record { last_access: now, ..p[k] })
    } else {
        p
    }
}

/// A new entry: no expiry, used at `now`.
pub open spec fn fresh(v: ValueModel, now: u64) -> Record {
    Record { value: v, expires_at: None, last_access: now }
}

/// Replaces the value under a present key, keeping its expiry.
pub open spec fn rewrite(p: StoreModel, k: Seq<u8>, v: ValueModel, now: u64) -> StoreModel {
    p.insert(k, Record { value: v, expires_at: p[k].expires_at, last_access: now })
}

// ---------------------------------------------------------------- plain keys

pub open spec fn get_op(m: StoreModel, k: Seq<u8>, now: u64) -> (StoreModel, Option<ValueModel>) {
    (touch(purge(m, k, now), k, now), lookup(m, k, now))
}

/// Stores `v` (in its well-formed form) under `k`, dropping any expiry; tells
/// whether the key was new.
pub open spec fn set_op(m: StoreModel, k: Seq<u8>, v: ValueModel, now: u64) -> (StoreModel, bool) {
    let p = purge(m, k, now);
    (p.insert(k, fresh(normalized(v), now)), !p.contains_key(k))
}

pub open spec fn delete_op(m: StoreModel, k: Seq<u8>, now: u64) -> (StoreModel, Option<ValueModel>) {
    (purge(m, k, now).remove(k), lookup(m, k, now))
}

pub open spec fn mget_op(m: StoreModel, ks: Seq<Seq<u8>>, now: u64) -> (StoreModel, Seq<Option<ValueModel>>)
    decreases ks.len(),
{
    if ks.len() == 0 {
        (m, Seq::empty())
    } else {
        let (m1, r) = mget_op(m, ks.drop_last(), now);
        let (m2, x) = get_op(m1, ks.last(), now);
        (m2, r.push(x))
    }
}

pub open spec fn mset_op(m: StoreModel, kvs: Seq<(Seq<u8>, ValueModel)>, now: u64) -> StoreModel
    decreases kvs.len(),
{
    if kvs.len() == 0 {
        m
    } else {
        set_op(mset_op(m, kvs.drop_last(), now), kvs.last().0, kvs.last().1, now).0
    }
}

pub open spec fn mdel_op(m: StoreModel, ks: Seq<Seq<u8>>, now: u64) -> (StoreModel, Seq<Option<ValueModel>>)
    decreases ks.len(),
{
    if ks.len() == 0 {
        (m, Seq::empty())
    } else {
        let (m1, r) = mdel_op(m, ks.drop_last(), now);
        let (m2, x) = delete_op(m1, ks.last(), now);
        (m2, r.push(x))
    }
}

// ---------------------------------------------------------------- counters

/// `i + 1`, wrapping from the largest `i64` to the smallest.
pub open spec fn wrap_incr(i: i64) -> i64 {
    if i == i64::MAX {
        i64::MIN
    } else {
        (i + 1) as i64
    }
}

pub open spec fn incr_op(m: StoreModel, k: Seq<u8>, now: u64) -> (StoreModel, Result<i64, DomainError>) {
    let p = purge(m, k, now);
    if !p.contains_key(k) {
        (p.insert(k, fresh(ValueModel::Int(1), now)), Ok(1))
    } else {
        match p[k].value {
            ValueModel::Int(i) => (rewrite(p, k, ValueModel::Int(wrap_incr(i)), now), Ok(wrap_incr(i))),
            _ => (p, Err(DomainError::WrongType)),
        }
    }
}

/// Counts down by one; a missing key counts as zero, and no count goes below zero.
pub open spec fn decr_op(m: StoreModel, k: Seq<u8>, now: u64) -> (StoreModel, Result<i64, DomainError>) {
    let p = purge(m, k, now);
    if !p.contains_key(k) {
        (p, Err(DomainError::NegativeCounterValue))
    } else {
        match p[k].value {
            ValueModel::Int(i) => if i <= 0 {
                (p, Err(DomainError::NegativeCounterValue))
            } else {
                (rewrite(p, k, ValueModel::Int((i - 1) as i64), now), Ok((i - 1) as i64))
            },
            _ => (p, Err(DomainError::WrongType)),
        }
    }
}

/// Sets the counter to zero and gives its former count (zero for a missing key).
pub open spec fn reset_op(m: StoreModel, k: Seq<u8>, now: u64) -> (StoreModel, Result<i64, DomainError>) {
    let p = purge(m, k, now);
    if !p.contains_key(k) {
        (p.insert(k, fresh(ValueModel::Int(0), now)), Ok(0))
    } else {
        match p[k].value {
            ValueModel::Int(i) => (rewrite(p, k, ValueModel::Int(0), now), Ok(i)),
            _ => (p, Err(DomainError::WrongType)),
        }
    }
}

// ---------------------------------------------------------------- expiry

/// `now + ms`, saturated at the largest `u64`.
pub open spec fn deadline(now: u64, ms: u64) -> u64 {
    if now + ms > u64::MAX {
        u64::MAX
    } else {
        (now + ms) as u64
    }
}

/// A number of seconds in milliseconds, saturated at the largest `u64`.
pub open spec fn secs_to_ms(secs: u64) -> u64 {
    if secs * 1000 > u64::MAX {
        u64::MAX
    } else {
        (secs * 1000) as u64
    }
}

pub open spec fn set_with_ttl_ms_op(m: StoreModel, k: Seq<u8>, v: ValueModel, ms: u64, now: u64) -> StoreModel {
    purge(m, k, now).insert(k, Record { value: normalized(v), expires_at: Some(deadline(now, ms)), last_access: now })
}

/// Gives a present key a lifetime of `secs` seconds from `now`; zero seconds
/// removes it at once.
pub open spec fn expire_op(m: StoreModel, k: Seq<u8>, secs: u64, now: u64) -> (StoreModel, bool) {
    let p = purge(m, k, now);
    if !p.contains_key(k) {
        (p, false)
    } else if secs == 0 {
        (p.remove(k), true)
    } else {
        (p.insert(k, Record { expires_at: Some(deadline(now, secs_to_ms(secs))), last_access: now, ..p[k] }), true)
    }
}

/// Milliseconds left to live: -2 for a missing key, -1 for one without expiry.
pub open spec fn ttl_op(m: StoreModel, k: Seq<u8>, now: u64) -> (StoreModel, i64) {
    let p = purge(m, k, now);
    if !p.contains_key(k) {
        (p, -2i64)
    } else {
        match p[k].expires_at {
            None => (p, -1i64),
            Some(t) => (p, if t - now > i64::MAX { i64::MAX } else { (t - now) as i64 }),
        }
    }
}

/// Drops the expiry of a present key; tells whether it had one.
pub open spec fn persist_op(m: StoreModel, k: Seq<u8>, now: u64) -> (StoreModel, bool) {
    let p = purge(m, k, now);
    if p.contains_key(k) && p[k].expires_at is Some {
        (p.insert(k, Record { expires_at: None, last_access: now, ..p[k] }), true)
    } else {
        (p, false)
    }
}

// ---------------------------------------------------------------- hashes

pub open spec fn hset_op(m: StoreModel, k: Seq<u8>, f: Seq<u8>, v: Seq<u8>, now: u64) -> (StoreModel, Result<bool, DomainError>) {
    let p = purge(m, k, now);
    if !p.contains_key(k) {
        (p.insert(k, fresh(ValueModel::Hash(seq![(f, v)]), now)), Ok(true))
    } else {
        match p[k].value {
            ValueModel::Hash(h) => (rewrite(p, k, ValueModel::Hash(hash_put(h, f, v)), now), Ok(!keys_of(h).contains(f))),
            _ => (p, Err(DomainError::WrongType)),
        }
    }
}

pub open spec fn hget_op(m: StoreModel, k: Seq<u8>, f: Seq<u8>, now: u64) -> (StoreModel, Result<Option<Seq<u8>>, DomainError>) {
    let p = purge(m, k, now);
    if !p.contains_key(k) {
        (p, Ok(None))
    } else {
        match p[k].value {
            ValueModel::Hash(h) => (touch(p, k, now), Ok(hash_get(h, f))),
            _ => (p, Err(DomainError::WrongType)),
        }
    }
}

pub open spec fn hdel_op(m: StoreModel, k: Seq<u8>, fs: Seq<Seq<u8>>, now: u64) -> (StoreModel, Result<nat, DomainError>) {
    let p = purge(m, k, now);
    if !p.contains_key(k) {
        (p, Ok(0))
    } else {
        match p[k].value {
            ValueModel::Hash(h) => (rewrite(p, k, ValueModel::Hash(del_keys(h, fs).0), now), Ok(del_keys(h, fs).1)),
            _ => (p, Err(DomainError::WrongType)),
        }
    }
}

pub open spec fn hexists_op(m: StoreModel, k: Seq<u8>, f: Seq<u8>, now: u64) -> (StoreModel, Result<bool, DomainError>) {
    let p = purge(m, k, now);
    if !p.contains_key(k) {
        (p, Ok(false))
    } else {
        match p[k].value {
            ValueModel::Hash(h) => (touch(p, k, now), Ok(keys_of(h).contains(f))),
            _ => (p, Err(DomainError::WrongType)),
        }
    }
}

pub open spec fn hlen_op(m: StoreModel, k: Seq<u8>, now: u64) -> (StoreModel, Result<nat, DomainError>) {
    let p = purge(m, k, now);
    if !p.contains_key(k) {
        (p, Ok(0))
    } else {
        match p[k].value {
            ValueModel::Hash(h) => (touch(p, k, now), Ok(h.len())),
            _ => (p, Err(DomainError::WrongType)),
        }
    }
}

pub open spec fn hkeys_op(m: StoreModel, k: Seq<u8>, now: u64) -> (StoreModel, Result<Seq<Seq<u8>>, DomainError>) {
    let p = purge(m, k, now);
    if !p.contains_key(k) {
        (p, Ok(Seq::empty()))
    } else {
        match p[k].value {
            ValueModel::Hash(h) => (touch(p, k, now), Ok(keys_of(h))),
            _ => (p, Err(DomainError::WrongType)),
        }
    }
}

pub open spec fn hvals_op(m: StoreModel, k: Seq<u8>, now: u64) -> (StoreModel, Result<Seq<Seq<u8>>, DomainError>) {
    let p = purge(m, k, now);
    if !p.contains_key(k) {
        (p, Ok(Seq::empty()))
    } else {
        match p[k].value {
            ValueModel::Hash(h) => (touch(p, k, now), Ok(vals_of(h))),
            _ => (p, Err(DomainError::WrongType)),
        }
    }
}

// ---------------------------------------------------------------- lists

pub open spec fn lpush_op(m: StoreModel, k: Seq<u8>, vs: Seq<Seq<u8>>, now: u64) -> (StoreModel, Result<nat, DomainError>) {
    let p = purge(m, k, now);
    if !p.contains_key(k) {
        (p.insert(k, fresh(ValueModel::List(lpush(Seq::empty(), vs)), now)), Ok(vs.len()))
    } else {
        match p[k].value {
            ValueModel::List(l) => (rewrite(p, k, ValueModel::List(lpush(l, vs)), now), Ok(l.len() + vs.len())),
            _ => (p, Err(DomainError::WrongType)),
        }
    }
}

pub open spec fn rpush_op(m: StoreModel, k: Seq<u8>, vs: Seq<Seq<u8>>, now: u64) -> (StoreModel, Result<nat, DomainError>) {
    let p = purge(m, k, now);
    if !p.contains_key(k) {
        (p.insert(k, fresh(ValueModel::List(vs), now)), Ok(vs.len()))
    } else {
        match p[k].value {
            ValueModel::List(l) => (rewrite(p, k, ValueModel::List(l + vs), now), Ok(l.len() + vs.len())),
            _ => (p, Err(DomainError::WrongType)),
        }
    }
}

pub open spec fn lpop_op(m: StoreModel, k: Seq<u8>, now: u64) -> (StoreModel, Result<Option<Seq<u8>>, DomainError>) {
    let p = purge(m, k, now);
    if !p.contains_key(k) {
        (p, Ok(None))
    } else {
        match p[k].value {
            ValueModel::List(l) => (rewrite(p, k, ValueModel::List(lpop(l).0), now), Ok(lpop(l).1)),
            _ => (p, Err(DomainError::WrongType)),
        }
    }
}

pub open spec fn rpop_op(m: StoreModel, k: Seq<u8>, now: u64) -> (StoreModel, Result<Option<Seq<u8>>, DomainError>) {
    let p = purge(m, k, now);
    if !p.contains_key(k) {
        (p, Ok(None))
    } else {
        match p[k].value {
            ValueModel::List(l) => (rewrite(p, k, ValueModel::List(rpop(l).0), now), Ok(rpop(l).1)),
            _ => (p, Err(DomainError::WrongType)),
        }
    }
}

pub open spec fn lrange_op(m: StoreModel, k: Seq<u8>, start: i64, stop: i64, now: u64) -> (StoreModel, Result<Seq<Seq<u8>>, DomainError>) {
    let p = purge(m, k, now);
    if !p.contains_key(k) {
        (p, Ok(Seq::empty()))
    } else {
        match p[k].value {
            ValueModel::List(l) => (touch(p, k, now), Ok(lrange(l, start, stop))),
            _ => (p, Err(DomainError::WrongType)),
        }
    }
}

// ---------------------------------------------------------------- sets

pub open spec fn sadd_op(m: StoreModel, k: Seq<u8>, ms: Seq<Seq<u8>>, now: u64) -> (StoreModel, Result<nat, DomainError>) {
    let p = purge(m, k, now);
    if !p.contains_key(k) {
        (p.insert(k, fresh(ValueModel::Members(set_add(Seq::empty(), ms).0), now)), Ok(set_add(Seq::empty(), ms).1))
    } else {
        match p[k].value {
            ValueModel::Members(s) => (rewrite(p, k, ValueModel::Members(set_add(s, ms).0), now), Ok(set_add(s, ms).1)),
            _ => (p, Err(DomainError::WrongType)),
        }
    }
}

pub open spec fn srem_op(m: StoreModel, k: Seq<u8>, ms: Seq<Seq<u8>>, now: u64) -> (StoreModel, Result<nat, DomainError>) {
    let p = purge(m, k, now);
    if !p.contains_key(k) {
        (p, Ok(0))
    } else {
        match p[k].value {
            ValueModel::Members(s) => (rewrite(p, k, ValueModel::Members(del_all(s, ms).0), now), Ok(del_all(s, ms).1)),
            _ => (p, Err(DomainError::WrongType)),
        }
    }
}

pub open spec fn smembers_op(m: StoreModel, k: Seq<u8>, now: u64) -> (StoreModel, Result<Seq<Seq<u8>>, DomainError>) {
    let p = purge(m, k, now);
    if !p.contains_key(k) {
        (p, Ok(Seq::empty()))
    } else {
        match p[k].value {
            ValueModel::Members(s) => (touch(p, k, now), Ok(s)),
            _ => (p, Err(DomainError::WrongType)),
        }
    }
}

pub open spec fn scard_op(m: StoreModel, k: Seq<u8>, now: u64) -> (StoreModel, Result<nat, DomainError>) {
    let p = purge(m, k, now);
    if !p.contains_key(k) {
        (p, Ok(0))
    } else {
        match p[k].value {
            ValueModel::Members(s) => (touch(p, k, now), Ok(s.len())),
            _ => (p, Err(DomainError::WrongType)),
        }
    }
}

pub open spec fn sismember_op(m: StoreModel, k: Seq<u8>, x: Seq<u8>, now: u64) -> (StoreModel, Result<bool, DomainError>) {
    let p = purge(m, k, now);
    if !p.contains_key(k) {
        (p, Ok(false))
    } else {
        match p[k].value {
            ValueModel::Members(s) => (touch(p, k, now), Ok(s.contains(x))),
            _ => (p, Err(DomainError::WrongType)),
        }
    }
}

// ---------------------------------------------------------------- sorted sets

pub open spec fn zadd_op(m: StoreModel, k: Seq<u8>, bits: u64, x: Seq<u8>, now: u64) -> (StoreModel, Result<bool, DomainError>) {
    let p = purge(m, k, now);
    if !p.contains_key(k) {
        (p.insert(k, fresh(ValueModel::Zset(zadd(Seq::empty(), x, bits).0), now)), Ok(true))
    } else {
        match p[k].value {
            ValueModel::Zset(z) => (rewrite(p, k, ValueModel::Zset(zadd(z, x, bits).0), now), Ok(zadd(z, x, bits).1)),
            _ => (p, Err(DomainError::WrongType)),
        }
    }
}

pub open spec fn zrem_op(m: StoreModel, k: Seq<u8>, xs: Seq<Seq<u8>>, now: u64) -> (StoreModel, Result<nat, DomainError>) {
    let p = purge(m, k, now);
    if !p.contains_key(k) {
        (p, Ok(0))
    } else {
        match p[k].value {
            ValueModel::Zset(z) => (rewrite(p, k, ValueModel::Zset(del_keys(z, xs).0), now), Ok(del_keys(z, xs).1)),
            _ => (p, Err(DomainError::WrongType)),
        }
    }
}

pub open spec fn zscore_op(m: StoreModel, k: Seq<u8>, x: Seq<u8>, now: u64) -> (StoreModel, Result<Option<u64>, DomainError>) {
    let p = purge(m, k, now);
    if !p.contains_key(k) {
        (p, Ok(None))
    } else {
        match p[k].value {
            ValueModel::Zset(z) => (touch(p, k, now), Ok(zscore(z, x))),
            _ => (p, Err(DomainError::WrongType)),
        }
    }
}

pub open spec fn zcard_op(m: StoreModel, k: Seq<u8>, now: u64) -> (StoreModel, Result<nat, DomainError>) {
    let p = purge(m, k, now);
    if !p.contains_key(k) {
        (p, Ok(0))
    } else {
        match p[k].value {
            ValueModel::Zset(z) => (touch(p, k, now), Ok(z.len())),
            _ => (p, Err(DomainError::WrongType)),
        }
    }
}

pub open spec fn zrange_op(m: StoreModel, k: Seq<u8>, start: i64, stop: i64, now: u64) -> (StoreModel, Result<Seq<Seq<u8>>, DomainError>) {
    let p = purge(m, k, now);
    if !p.contains_key(k) {
        (p, Ok(Seq::empty()))
    } else {
        match p[k].value {
            ValueModel::Zset(z) => (touch(p, k, now), Ok(zrange(z, start, stop))),
            _ => (p, Err(DomainError::WrongType)),
        }
    }
}

// ---------------------------------------------------------------- arrays

pub open spec fn array_set_op(m: StoreModel, k: Seq<u8>, vs: Seq<ValueModel>, now: u64) -> StoreModel {
    purge(m, k, now).insert(k, fresh(ValueModel::Array(normalized_all(vs)), now))
}

pub open spec fn array_get_op(m: StoreModel, k: Seq<u8>, idx: Seq<usize>, now: u64) -> (StoreModel, Result<Seq<Option<ValueModel>>, DomainError>) {
    let p = purge(m, k, now);
    if !p.contains_key(k) {
        (p, Ok(Seq::new(idx.len(), |j: int| None)))
    } else {
        match p[k].value {
            ValueModel::Array(a) => (touch(p, k, now), Ok(array_get(a, idx))),
            _ => (p, Err(DomainError::WrongType)),
        }
    }
}

pub open spec fn array_slice_op(m: StoreModel, k: Seq<u8>, start: usize, end: Option<usize>, now: u64) -> (StoreModel, Result<Seq<ValueModel>, DomainError>) {
    let p = purge(m, k, now);
    if !p.contains_key(k) {
        (p, Ok(Seq::empty()))
    } else {
        match p[k].value {
            ValueModel::Array(a) => (touch(p, k, now), Ok(array_slice(a, start, end))),
            _ => (p, Err(DomainError::WrongType)),
        }
    }
}

/// Updates need an existing array: a missing key is refused as of the wrong kind.
pub open spec fn array_update_op(m: StoreModel, k: Seq<u8>, ups: Seq<(usize, ValueModel)>, now: u64) -> (StoreModel, Result<nat, DomainError>) {
    let p = purge(m, k, now);
    if !p.contains_key(k) {
        (p, Err(DomainError::WrongType))
    } else {
        match p[k].value {
            ValueModel::Array(a) => (rewrite(p, k, ValueModel::Array(array_update(a, ups).0), now), Ok(array_update(a, ups).1)),
            _ => (p, Err(DomainError::WrongType)),
        }
    }
}

/// Appending needs an existing array: a missing key is refused as of the wrong kind.
pub open spec fn array_append_op(m: StoreModel, k: Seq<u8>, vs: Seq<ValueModel>, now: u64) -> (StoreModel, Result<nat, DomainError>) {
    let p = purge(m, k, now);
    if !p.contains_key(k) {
        (p, Err(DomainError::WrongType))
    } else {
        match p[k].value {
            ValueModel::Array(a) => (rewrite(p, k, ValueModel::Array(a + normalized_all(vs)), now), Ok(a.len() + vs.len())),
            _ => (p, Err(DomainError::WrongType)),
        }
    }
}

pub open spec fn array_len_op(m: StoreModel, k: Seq<u8>, now: u64) -> (StoreModel, Result<Option<nat>, DomainError>) {
    let p = purge(m, k, now);
    if !p.contains_key(k) {
        (p, Ok(None))
    } else {
        match p[k].value {
            ValueModel::Array(a) => (touch(p, k, now), Ok(Some(a.len()))),
            _ => (p, Err(DomainError::WrongType)),
        }
    }
}

// ---------------------------------------------------------------- memory limit

/// Bytes counted for one key: the key and its value.
pub open spec fn record_size(k: Seq<u8>, r: Record) -> nat {
    k.len() + value_size(r.value)
}

/// Bytes counted for a whole store: the sum of `record_size` over its keys.
pub open spec fn map_size(m: StoreModel) -> nat
    decreases m.dom().len(),
    when m.dom().finite()
{
    if m.dom().len() == 0 {
        0
    } else {
        let k = m.dom().choose();
        proof {
            vstd::set::axiom_set_choose_len(m.dom());
            assert(m.remove(k).dom() =~= m.dom().remove(k));
        }
        record_size(k, m[k]) + map_size(m.remove(k))
    }
}

/// The bytes a store counts against its limit, saturated at the largest `u64`.
pub open spec fn store_usage(m: StoreModel) -> u64 {
    cap(map_size(m))
}

/// The size of a store is that of any one key plus that of the others.
pub proof fn lemma_map_size_remove(m: StoreModel, k: Seq<u8>)
    requires
        m.dom().finite(),
        m.contains_key(k),
    ensures
        map_size(m) == record_size(k, m[k]) + map_size(m.remove(k)),
        m.remove(k).dom().finite(),
    decreases m.dom().len(),
{
    assert(m.remove(k).dom() =~= m.dom().remove(k));
    vstd::set::axiom_set_choose_len(m.dom());
    let c = m.dom().choose();
    if c != k {
        let mc = m.remove(c);
        let mk = m.remove(k);
        assert(mc.dom() =~= m.dom().remove(c));
        lemma_map_size_remove(mc, k);
        lemma_map_size_remove(mk, c);
        assert(mc.remove(k) =~= mk.remove(c));
    }
}

/// Adding a new key adds its size.
pub proof fn lemma_map_size_insert(m: StoreModel, k: Seq<u8>, r: Record)
    requires
        m.dom().finite(),
        !m.contains_key(k),
    ensures
        map_size(m.insert(k, r)) == record_size(k, r) + map_size(m),
        m.insert(k, r).dom().finite(),
{
    let m2 = m.insert(k, r);
    assert(m2.dom() =~= m.dom().insert(k));
    lemma_map_size_remove(m2, k);
    assert(m2.remove(k) =~= m);
}

/// What eviction under a memory limit does. Without a limit nothing changes.
/// With one: a store already within the limit is left as it is; otherwise only
/// keys other than `protect` go, each used no later than every key kept (other
/// than `protect`); the store ends within the limit unless only `protect` is
/// left; and it stops as soon as it fits: putting back the most recently used
/// key it evicted would take it over the limit again.
///
/// This is plain least-recently-used eviction, keyed on last use alone and run
/// right after each write. The weighted, periodically scheduled policy of the
/// `SMART_LRU_*` settings (scores mixing time to live, last use and size with
/// fractional weights, a fill threshold and eviction ratios) is computed in
/// floating point and is not modelled here.
pub open spec fn lru_evicted(before: StoreModel, after: StoreModel, protect: Seq<u8>, limit: Option<u64>) -> bool {
    match limit {
        None => after == before,
        Some(l) => {
            &&& forall|k: Seq<u8>| #[trigger] after.contains_key(k) ==> before.contains_key(k) && after[k] == before[k]
            &&& before.contains_key(protect) ==> after.contains_key(protect)
            &&& forall|k1: Seq<u8>, k2: Seq<u8>|
                before.contains_key(k1) && !after.contains_key(k1) && #[trigger] after.contains_key(k2) && k2 != protect
                    ==> #[trigger] before[k1].last_access <= before[k2].last_access
            &&& store_usage(after) <= l || forall|k: Seq<u8>| #[trigger] after.contains_key(k) ==> k == protect
            &&& store_usage(before) <= l ==> after == before
            &&& (exists|k: Seq<u8>| #[trigger] before.contains_key(k) && !after.contains_key(k)) ==> exists|k: Seq<u8>|
                #[trigger] last_evicted(before, after, k) && store_usage(after.insert(k, before[k])) > l
        },
    }
}

/// `k` was evicted, and no evicted key was used after it.
pub open spec fn last_evicted(before: StoreModel, after: StoreModel, k: Seq<u8>) -> bool {
    &&& before.contains_key(k)
    &&& !after.contains_key(k)
    &&& forall|j: Seq<u8>| before.contains_key(j) && !after.contains_key(j) ==> #[trigger] before[j].last_access <= before[k].last_access
}

/// Every value held is well-formed.
pub open spec fn store_wf(m: StoreModel) -> bool {
    forall|k: Seq<u8>| #[trigger] m.contains_key(k) ==> wf(m[k].value)
}

} // verus!
