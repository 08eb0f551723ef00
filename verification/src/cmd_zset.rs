use vstd::prelude::*;
use crate::bytes::copy_bytes;
use crate::model::{
    Record, DomainError, purge, lru_evicted, zadd_op, zrem_op, zscore_op, zcard_op, zrange_op,
};
use crate::pairs::del_keys_in;
use crate::store::{InMemoryStorage, Entry};
use crate::value::{Value, ValueModel};
use crate::views::{res_nat, res_byte_list};
use crate::zset::{zadd_in, zscore_in, zrange_in};

use crate::laws::law_zadd_keeps_order;
use crate::held_values::{lemma_del_keys_distinct, lemma_del_keys_sorted};
use crate::bytes::keys_of;

verus! {

impl InMemoryStorage {
    /// Sets the score (given as IEEE-754 bits) of `member` in the sorted set
    /// under `key`; tells whether the member is new.
    pub fn zadd(&mut self, key: &[u8], score_bits: u64, member: &[u8], now: u64) -> (r: Result<bool, DomainError>)
        ensures
            r == zadd_op(old(self)@, key@, score_bits, member@, now).1,
            r is Ok ==> lru_evicted(zadd_op(old(self)@, key@, score_bits, member@, now).0, final(self)@, key@, old(self).limit()),
            r is Err ==> final(self)@ == zadd_op(old(self)@, key@, score_bits, member@, now).0,
            final(self).limit() == old(self).limit(),
    {
        let ghost p = purge(self@, key@, now);
        match self.locate(key, now) {
            None => {
                let mut z: Vec<(Vec<u8>, u64)> = Vec::new();
                proof {
                    assert(z.deep_view() =~= Seq::<(Seq<u8>, u64)>::empty());
                    assert(keys_of(z.deep_view()) =~= Seq::<Seq<u8>>::empty());
                    law_zadd_keeps_order(z.deep_view(), member@, score_bits);
                }
                let _added = zadd_in(&mut z, member, score_bits);
                let ghost nz = z.deep_view();
                let k = copy_bytes(key);
                self.put_back(k, Value::SortedSet(z), None, now);
                proof {
                    assert(self@ =~= p.insert(key@, Record { value: ValueModel::Zset(nz), expires_at: None, last_access: now }));
                }
                self.evict_to_limit(key);
                Ok(true)
            },
            Some(i) => {
                if !matches!(self.entries[i].value, Value::SortedSet(_)) {
                    return Err(DomainError::WrongType);
                }
                let e = self.remove_at(i);
                let Entry { key: k, value, expires_at, .. } = e;
                match value {
                    Value::SortedSet(mut z) => {
                        proof {
                            law_zadd_keeps_order(z.deep_view(), member@, score_bits);
                        }
                        let added = zadd_in(&mut z, member, score_bits);
                        let ghost nz = z.deep_view();
                        self.put_back(k, Value::SortedSet(z), expires_at, now);
                        proof {
                            assert(self@ =~= p.insert(key@, Record { value: ValueModel::Zset(nz), expires_at: p[key@].expires_at, last_access: now }));
                        }
                        self.evict_to_limit(key);
                        Ok(added)
                    },
                    _ => {
                        proof {
                            assert(false);
                        }
                        Err(DomainError::WrongType)
                    },
                }
            },
        }
    }

    /// Removes `members` from the sorted set under `key`; counts those removed.
    pub fn zrem(&mut self, key: &[u8], members: &Vec<Vec<u8>>, now: u64) -> (r: Result<usize, DomainError>)
        ensures
            res_nat(r) == zrem_op(old(self)@, key@, members.deep_view(), now).1,
            final(self)@ == zrem_op(old(self)@, key@, members.deep_view(), now).0,
            final(self).limit() == old(self).limit(),
    {
        let ghost p = purge(self@, key@, now);
        match self.locate(key, now) {
            None => Ok(0),
            Some(i) => {
                if !matches!(self.entries[i].value, Value::SortedSet(_)) {
                    return Err(DomainError::WrongType);
                }
                let e = self.remove_at(i);
                let Entry { key: k, value, expires_at, .. } = e;
                match value {
                    Value::SortedSet(mut z) => {
                        proof {
                            lemma_del_keys_distinct(z.deep_view(), members.deep_view());
                            lemma_del_keys_sorted(z.deep_view(), members.deep_view());
                        }
                        let n = del_keys_in(&mut z, members);
                        let ghost nz = z.deep_view();
                        self.put_back(k, Value::SortedSet(z), expires_at, now);
                        proof {
                            assert(self@ =~= p.insert(key@, Record { value: ValueModel::Zset(nz), expires_at: p[key@].expires_at, last_access: now }));
                        }
                        Ok(n)
                    },
                    _ => {
                        proof {
                            assert(false);
                        }
                        Err(DomainError::WrongType)
                    },
                }
            },
        }
    }

    /// The score bits of `member` in the sorted set under `key`.
    pub fn zscore(&mut self, key: &[u8], member: &[u8], now: u64) -> (r: Result<Option<u64>, DomainError>)
        ensures
            r == zscore_op(old(self)@, key@, member@, now).1,
            final(self)@ == zscore_op(old(self)@, key@, member@, now).0,
            final(self).limit() == old(self).limit(),
    {
        match self.locate(key, now) {
            None => Ok(None),
            Some(i) => {
                let found = match &self.entries[i].value {
                    Value::SortedSet(z) => Some(zscore_in(z, member)),
                    _ => None,
                };
                match found {
                    None => Err(DomainError::WrongType),
                    Some(x) => {
                        self.touch_at(i, now);
                        Ok(x)
                    },
                }
            },
        }
    }

    /// The number of members of the sorted set under `key`.
    pub fn zcard(&mut self, key: &[u8], now: u64) -> (r: Result<usize, DomainError>)
        ensures
            res_nat(r) == zcard_op(old(self)@, key@, now).1,
            final(self)@ == zcard_op(old(self)@, key@, now).0,
            final(self).limit() == old(self).limit(),
    {
        match self.locate(key, now) {
            None => Ok(0),
            Some(i) => {
                let found = match &self.entries[i].value {
                    Value::SortedSet(z) => Some(z.len()),
                    _ => None,
                };
                match found {
                    None => Err(DomainError::WrongType),
                    Some(x) => {
                        self.touch_at(i, now);
                        Ok(x)
                    },
                }
            },
        }
    }

    /// The members, in score order, at the inclusive rank range `start..=stop`
    /// of the sorted set under `key`; negative ranks count from the end.
    pub fn zrange(&mut self, key: &[u8], start: i64, stop: i64, now: u64) -> (r: Result<Vec<Vec<u8>>, DomainError>)
        ensures
            res_byte_list(r) == zrange_op(old(self)@, key@, start, stop, now).1,
            final(self)@ == zrange_op(old(self)@, key@, start, stop, now).0,
            final(self).limit() == old(self).limit(),
    {
        match self.locate(key, now) {
            None => {
                let v: Vec<Vec<u8>> = Vec::new();
                proof {
                    assert(v.deep_view() =~= Seq::<Seq<u8>>::empty());
                }
                Ok(v)
            },
            Some(i) => {
                let found = match &self.entries[i].value {
                    Value::SortedSet(z) => Some(zrange_in(z, start, stop)),
                    _ => None,
                };
                match found {
                    None => Err(DomainError::WrongType),
                    Some(x) => {
                        self.touch_at(i, now);
                        Ok(x)
                    },
                }
            },
        }
    }
}

} // verus!
