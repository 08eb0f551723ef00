use vstd::prelude::*;
use crate::array::opt_models;
use crate::bytes::{copy_bytes, lemma_bytes_deep_view};
use crate::model::{
    Record, DomainError, purge, lru_evicted, get_op, set_op, delete_op, mget_op, mset_op, mdel_op,
    incr_op, decr_op, reset_op, wrap_incr, deadline, secs_to_ms, set_with_ttl_ms_op, expire_op,
    ttl_op, persist_op,
};
use crate::store::InMemoryStorage;
use crate::value::{Value, ValueModel, copy_value, opt_model};
use crate::wellformed::{normalized, normalize_value};

verus! {

/// The keys and models of key/value pairs.
pub open spec fn pair_models(s: Seq<(Vec<u8>, Value)>) -> Seq<(Seq<u8>, ValueModel)> {
    Seq::new(s.len(), |i: int| (s[i].0@, s[i].1.model()))
}

pub fn deadline_of(now: u64, ms: u64) -> (r: u64)
    ensures
        r == deadline(now, ms),
{
    if now > u64::MAX - ms {
        u64::MAX
    } else {
        now + ms
    }
}

pub fn secs_in_ms(secs: u64) -> (r: u64)
    ensures
        r == secs_to_ms(secs),
{
    if secs > u64::MAX / 1000 {
        u64::MAX
    } else {
        secs * 1000
    }
}

impl InMemoryStorage {
    /// Reads the value under `key`.
    pub fn get(&mut self, key: &[u8], now: u64) -> (r: Option<Value>)
        ensures
            opt_model(r) == get_op(old(self)@, key@, now).1,
            final(self)@ == get_op(old(self)@, key@, now).0,
            final(self).limit() == old(self).limit(),
    {
        let ghost p = purge(self@, key@, now);
        match self.locate(key, now) {
            None => None,
            Some(i) => {
                let e = self.remove_at(i);
                let c = copy_value(&e.value);
                self.put_back(e.key, e.value, e.expires_at, now);
                proof {
                    assert(self@ =~= p.insert(key@, Record { last_access: now, ..p[key@] }));
                }
                Some(c)
            },
        }
    }

    /// Stores `value` under `key`, replacing what was there and any expiry;
    /// tells whether the key is new.
    pub fn set(&mut self, key: &[u8], value: Value, now: u64) -> (created: bool)
        ensures
            created == set_op(old(self)@, key@, value.model(), now).1,
            lru_evicted(set_op(old(self)@, key@, value.model(), now).0, final(self)@, key@, old(self).limit()),
            final(self).limit() == old(self).limit(),
    {
        let ghost p = purge(self@, key@, now);
        let ghost vm = value.model();
        let created = match self.locate(key, now) {
            Some(i) => {
                let _former = self.remove_at(i);
                false
            },
            None => true,
        };
        let k = copy_bytes(key);
        self.put_back(k, normalize_value(&value), None, now);
        proof {
            assert(self@ =~= p.insert(key@, Record { value: normalized(vm), expires_at: None, last_access: now }));
        }
        self.evict_to_limit(key);
        created
    }

    /// Removes `key` and gives back what it held.
    pub fn delete(&mut self, key: &[u8], now: u64) -> (r: Option<Value>)
        ensures
            opt_model(r) == delete_op(old(self)@, key@, now).1,
            final(self)@ == delete_op(old(self)@, key@, now).0,
            final(self).limit() == old(self).limit(),
    {
        let ghost p = purge(self@, key@, now);
        match self.locate(key, now) {
            None => {
                proof {
                    assert(self@ =~= p.remove(key@));
                }
                None
            },
            Some(i) => {
                let e = self.remove_at(i);
                Some(e.value)
            },
        }
    }

    /// Reads several keys in turn.
    pub fn mget(&mut self, keys: &Vec<Vec<u8>>, now: u64) -> (r: Vec<Option<Value>>)
        ensures
            opt_models(r@) == mget_op(old(self)@, keys.deep_view(), now).1,
            final(self)@ == mget_op(old(self)@, keys.deep_view(), now).0,
            final(self).limit() == old(self).limit(),
    {
        let ghost kd = keys.deep_view();
        let ghost m0 = self@;
        let mut r: Vec<Option<Value>> = Vec::new();
        let mut i: usize = 0;
        proof {
            assert(kd.take(0) =~= Seq::<Seq<u8>>::empty());
            assert(opt_models(r@) =~= Seq::<Option<ValueModel>>::empty());
        }
        while i < keys.len()
            invariant
                kd == keys.deep_view(),
                0 <= i <= keys@.len(),
                self.limit() == old(self).limit(),
                (self@, opt_models(r@)) == mget_op(m0, kd.take(i as int), now),
            decreases keys@.len() - i,
        {
            proof {
                lemma_bytes_deep_view(&keys@[i as int]);
                assert(kd.take(i + 1).drop_last() =~= kd.take(i as int));
            }
            let ghost before = r@;
            let x = self.get(keys[i].as_slice(), now);
            r.push(x);
            proof {
                assert(opt_models(r@) =~= opt_models(before).push(opt_model(x)));
            }
            i = i + 1;
        }
        proof {
            assert(kd.take(keys@.len() as int) =~= kd);
        }
        r
    }

    /// Stores several pairs in turn, then evicts under the memory limit,
    /// sparing the last key written.
    pub fn mset(&mut self, pairs: &Vec<(Vec<u8>, Value)>, now: u64)
        ensures
            pairs@.len() == 0 ==> final(self)@ == old(self)@,
            pairs@.len() > 0 ==> lru_evicted(
                mset_op(old(self)@, pair_models(pairs@), now),
                final(self)@,
                pairs@.last().0@,
                old(self).limit(),
            ),
            final(self).limit() == old(self).limit(),
    {
        let ghost pm = pair_models(pairs@);
        let ghost m0 = self@;
        let mut i: usize = 0;
        proof {
            assert(pm.take(0) =~= Seq::<(Seq<u8>, ValueModel)>::empty());
        }
        while i < pairs.len()
            invariant
                pm == pair_models(pairs@),
                0 <= i <= pairs@.len(),
                self.limit() == old(self).limit(),
                self@ == mset_op(m0, pm.take(i as int), now),
            decreases pairs@.len() - i,
        {
            proof {
                assert(pm.take(i + 1).drop_last() =~= pm.take(i as int));
            }
            let ghost before = self@;
            let key = pairs[i].0.as_slice();
            let c = normalize_value(&pairs[i].1);
            let ghost p = purge(before, key@, now);
            match self.locate(key, now) {
                Some(j) => {
                    let _former = self.remove_at(j);
                },
                None => {},
            }
            let k = copy_bytes(key);
            self.put_back(k, c, None, now);
            proof {
                assert(self@ =~= p.insert(key@, Record { value: normalized(pm[i as int].1), expires_at: None, last_access: now }));
            }
            i = i + 1;
        }
        proof {
            assert(pm.take(pairs@.len() as int) =~= pm);
        }
        if pairs.len() > 0 {
            let last = pairs.len() - 1;
            self.evict_to_limit(pairs[last].0.as_slice());
        }
    }

    /// Removes several keys in turn, giving back what each held.
    pub fn mdel(&mut self, keys: &Vec<Vec<u8>>, now: u64) -> (r: Vec<Option<Value>>)
        ensures
            opt_models(r@) == mdel_op(old(self)@, keys.deep_view(), now).1,
            final(self)@ == mdel_op(old(self)@, keys.deep_view(), now).0,
            final(self).limit() == old(self).limit(),
    {
        let ghost kd = keys.deep_view();
        let ghost m0 = self@;
        let mut r: Vec<Option<Value>> = Vec::new();
        let mut i: usize = 0;
        proof {
            assert(kd.take(0) =~= Seq::<Seq<u8>>::empty());
            assert(opt_models(r@) =~= Seq::<Option<ValueModel>>::empty());
        }
        while i < keys.len()
            invariant
                kd == keys.deep_view(),
                0 <= i <= keys@.len(),
                self.limit() == old(self).limit(),
                (self@, opt_models(r@)) == mdel_op(m0, kd.take(i as int), now),
            decreases keys@.len() - i,
        {
            proof {
                lemma_bytes_deep_view(&keys@[i as int]);
                assert(kd.take(i + 1).drop_last() =~= kd.take(i as int));
            }
            let ghost before = r@;
            let x = self.delete(keys[i].as_slice(), now);
            r.push(x);
            proof {
                assert(opt_models(r@) =~= opt_models(before).push(opt_model(x)));
            }
            i = i + 1;
        }
        proof {
            assert(kd.take(keys@.len() as int) =~= kd);
        }
        r
    }

    /// Adds one to the counter under `key` (a missing key counts from zero),
    /// wrapping past the largest `i64`.
    pub fn incr(&mut self, key: &[u8], now: u64) -> (r: Result<i64, DomainError>)
        ensures
            r == incr_op(old(self)@, key@, now).1,
            r is Ok ==> lru_evicted(incr_op(old(self)@, key@, now).0, final(self)@, key@, old(self).limit()),
            r is Err ==> final(self)@ == incr_op(old(self)@, key@, now).0,
            final(self).limit() == old(self).limit(),
    {
        let ghost p = purge(self@, key@, now);
        match self.locate(key, now) {
            None => {
                let k = copy_bytes(key);
                self.put_back(k, Value::Integer(1), None, now);
                proof {
                    assert(self@ =~= p.insert(key@, Record { value: ValueModel::Int(1), expires_at: None, last_access: now }));
                }
                self.evict_to_limit(key);
                Ok(1)
            },
            Some(i) => {
                let cur = match &self.entries[i].value {
                    Value::Integer(n) => Some(*n),
                    _ => None,
                };
                match cur {
                    None => Err(DomainError::WrongType),
                    Some(n) => {
                        let e = self.remove_at(i);
                        let next = n.wrapping_add(1);
                        proof {
                            assert(next == wrap_incr(n));
                        }
                        self.put_back(e.key, Value::Integer(next), e.expires_at, now);
                        proof {
                            assert(self@ =~= p.insert(key@, Record { value: ValueModel::Int(next), expires_at: p[key@].expires_at, last_access: now }));
                        }
                        self.evict_to_limit(key);
                        Ok(next)
                    },
                }
            },
        }
    }

    /// Takes one from the counter under `key`, refusing to go below zero.
    pub fn decr(&mut self, key: &[u8], now: u64) -> (r: Result<i64, DomainError>)
        ensures
            r == decr_op(old(self)@, key@, now).1,
            r is Ok ==> lru_evicted(decr_op(old(self)@, key@, now).0, final(self)@, key@, old(self).limit()),
            r is Err ==> final(self)@ == decr_op(old(self)@, key@, now).0,
            final(self).limit() == old(self).limit(),
    {
        let ghost p = purge(self@, key@, now);
        match self.locate(key, now) {
            None => Err(DomainError::NegativeCounterValue),
            Some(i) => {
                let cur = match &self.entries[i].value {
                    Value::Integer(n) => Some(*n),
                    _ => None,
                };
                match cur {
                    None => Err(DomainError::WrongType),
                    Some(n) => {
                        if n <= 0 {
                            return Err(DomainError::NegativeCounterValue);
                        }
                        let e = self.remove_at(i);
                        let next = n - 1;
                        self.put_back(e.key, Value::Integer(next), e.expires_at, now);
                        proof {
                            assert(self@ =~= p.insert(key@, Record { value: ValueModel::Int(next), expires_at: p[key@].expires_at, last_access: now }));
                        }
                        self.evict_to_limit(key);
                        Ok(next)
                    },
                }
            },
        }
    }

    /// Sets the counter under `key` to zero and gives its former count.
    pub fn reset(&mut self, key: &[u8], now: u64) -> (r: Result<i64, DomainError>)
        ensures
            r == reset_op(old(self)@, key@, now).1,
            r is Ok ==> lru_evicted(reset_op(old(self)@, key@, now).0, final(self)@, key@, old(self).limit()),
            r is Err ==> final(self)@ == reset_op(old(self)@, key@, now).0,
            final(self).limit() == old(self).limit(),
    {
        let ghost p = purge(self@, key@, now);
        match self.locate(key, now) {
            None => {
                let k = copy_bytes(key);
                self.put_back(k, Value::Integer(0), None, now);
                proof {
                    assert(self@ =~= p.insert(key@, Record { value: ValueModel::Int(0), expires_at: None, last_access: now }));
                }
                self.evict_to_limit(key);
                Ok(0)
            },
            Some(i) => {
                let cur = match &self.entries[i].value {
                    Value::Integer(n) => Some(*n),
                    _ => None,
                };
                match cur {
                    None => Err(DomainError::WrongType),
                    Some(n) => {
                        let e = self.remove_at(i);
                        self.put_back(e.key, Value::Integer(0), e.expires_at, now);
                        proof {
                            assert(self@ =~= p.insert(key@, Record { value: ValueModel::Int(0), expires_at: p[key@].expires_at, last_access: now }));
                        }
                        self.evict_to_limit(key);
                        Ok(n)
                    },
                }
            },
        }
    }

    /// Stores `value` under `key` to live for `ms` milliseconds from `now`.
    pub fn set_with_ttl_ms(&mut self, key: &[u8], value: Value, ms: u64, now: u64)
        ensures
            lru_evicted(set_with_ttl_ms_op(old(self)@, key@, value.model(), ms, now), final(self)@, key@, old(self).limit()),
            final(self).limit() == old(self).limit(),
    {
        let ghost p = purge(self@, key@, now);
        let ghost vm = value.model();
        match self.locate(key, now) {
            Some(i) => {
                let _former = self.remove_at(i);
            },
            None => {},
        }
        let k = copy_bytes(key);
        let t = deadline_of(now, ms);
        self.put_back(k, normalize_value(&value), Some(t), now);
        proof {
            assert(self@ =~= p.insert(key@, Record { value: normalized(vm), expires_at: Some(deadline(now, ms)), last_access: now }));
        }
        self.evict_to_limit(key);
    }

    /// Stores `value` under `key` to live for `secs` seconds from `now`.
    pub fn set_with_ttl(&mut self, key: &[u8], value: Value, secs: u64, now: u64)
        ensures
            lru_evicted(set_with_ttl_ms_op(old(self)@, key@, value.model(), secs_to_ms(secs), now), final(self)@, key@, old(self).limit()),
            final(self).limit() == old(self).limit(),
    {
        let ms = secs_in_ms(secs);
        self.set_with_ttl_ms(key, value, ms, now);
    }

    /// Gives `key` a lifetime of `secs` seconds from `now`; zero removes it.
    pub fn expire(&mut self, key: &[u8], secs: u64, now: u64) -> (r: bool)
        ensures
            r == expire_op(old(self)@, key@, secs, now).1,
            final(self)@ == expire_op(old(self)@, key@, secs, now).0,
            final(self).limit() == old(self).limit(),
    {
        let ghost p = purge(self@, key@, now);
        match self.locate(key, now) {
            None => false,
            Some(i) => {
                let e = self.remove_at(i);
                if secs == 0 {
                    true
                } else {
                    let t = deadline_of(now, secs_in_ms(secs));
                    self.put_back(e.key, e.value, Some(t), now);
                    proof {
                        assert(self@ =~= p.insert(key@, Record { expires_at: Some(t), last_access: now, ..p[key@] }));
                    }
                    true
                }
            },
        }
    }

    /// Milliseconds that `key` has left: -2 when missing, -1 without expiry.
    pub fn ttl(&mut self, key: &[u8], now: u64) -> (r: i64)
        ensures
            r == ttl_op(old(self)@, key@, now).1,
            final(self)@ == ttl_op(old(self)@, key@, now).0,
            final(self).limit() == old(self).limit(),
    {
        match self.locate(key, now) {
            None => -2,
            Some(i) => match self.entries[i].expires_at {
                None => -1,
                Some(t) => {
                    let left = t - now;
                    if left > i64::MAX as u64 {
                        i64::MAX
                    } else {
                        left as i64
                    }
                },
            },
        }
    }

    /// Drops the expiry of `key`; tells whether it had one.
    pub fn persist(&mut self, key: &[u8], now: u64) -> (r: bool)
        ensures
            r == persist_op(old(self)@, key@, now).1,
            final(self)@ == persist_op(old(self)@, key@, now).0,
            final(self).limit() == old(self).limit(),
    {
        let ghost p = purge(self@, key@, now);
        match self.locate(key, now) {
            None => false,
            Some(i) => {
                if self.entries[i].expires_at.is_none() {
                    return false;
                }
                let e = self.remove_at(i);
                self.put_back(e.key, e.value, None, now);
                proof {
                    assert(self@ =~= p.insert(key@, Record { expires_at: None, last_access: now, ..p[key@] }));
                }
                true
            },
        }
    }
}

} // verus!
