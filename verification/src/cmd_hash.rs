use vstd::prelude::*;
use crate::bytes::{copy_bytes, lemma_bytes_deep_view};
use crate::hash::{hash_get_in, hash_put_in, hash_fields, hash_values};
use crate::model::{
    Record, DomainError, purge, lru_evicted, hset_op, hget_op, hdel_op, hexists_op, hlen_op,
    hkeys_op, hvals_op,
};
use crate::members::contains_bytes;
use crate::pairs::del_keys_in;
use crate::laws::law_hset_keeps_fields_distinct;
use crate::held_values::lemma_del_keys_distinct;
use crate::store::{InMemoryStorage, Entry};
use crate::value::{Value, ValueModel};
use crate::views::{res_nat, res_opt_bytes, res_byte_list};

verus! {

impl InMemoryStorage {
    /// Sets `field` of the hash under `key` to `val`; tells whether the field is new.
    pub fn hset(&mut self, key: &[u8], field: &[u8], val: Vec<u8>, now: u64) -> (r: Result<bool, DomainError>)
        ensures
            r == hset_op(old(self)@, key@, field@, val@, now).1,
            r is Ok ==> lru_evicted(hset_op(old(self)@, key@, field@, val@, now).0, final(self)@, key@, old(self).limit()),
            r is Err ==> final(self)@ == hset_op(old(self)@, key@, field@, val@, now).0,
            final(self).limit() == old(self).limit(),
    {
        let ghost p = purge(self@, key@, now);
        let ghost vv = val@;
        match self.locate(key, now) {
            None => {
                let mut h: Vec<(Vec<u8>, Vec<u8>)> = Vec::new();
                let f = copy_bytes(field);
                proof {
                    lemma_bytes_deep_view(&f);
                    lemma_bytes_deep_view(&val);
                }
                h.push((f, val));
                let k = copy_bytes(key);
                proof {
                    assert(h.deep_view() =~= seq![(field@, vv)]);
                }
                self.put_back(k, Value::Hash(h), None, now);
                proof {
                    assert(self@ =~= p.insert(key@, Record { value: ValueModel::Hash(seq![(field@, vv)]), expires_at: None, last_access: now }));
                }
                self.evict_to_limit(key);
                Ok(true)
            },
            Some(i) => {
                if !matches!(self.entries[i].value, Value::Hash(_)) {
                    return Err(DomainError::WrongType);
                }
                let e = self.remove_at(i);
                let Entry { key: k, value, expires_at, .. } = e;
                match value {
                    Value::Hash(mut h) => {
                        proof {
                            law_hset_keeps_fields_distinct(h.deep_view(), field@, vv);
                        }
                        let added = hash_put_in(&mut h, field, val);
                        let ghost nh = h.deep_view();
                        self.put_back(k, Value::Hash(h), expires_at, now);
                        proof {
                            assert(self@ =~= p.insert(key@, Record { value: ValueModel::Hash(nh), expires_at: p[key@].expires_at, last_access: now }));
                        }
                        self.evict_to_limit(key);
                        Ok(added)
                    },
                    _ => {
                        proof {
                            assert(false);
                        }
                        Err(DomainError::WrongType)
                    },
                }
            },
        }
    }

    /// The value of `field` in the hash under `key`.
    pub fn hget(&mut self, key: &[u8], field: &[u8], now: u64) -> (r: Result<Option<Vec<u8>>, DomainError>)
        ensures
            res_opt_bytes(r) == hget_op(old(self)@, key@, field@, now).1,
            final(self)@ == hget_op(old(self)@, key@, field@, now).0,
            final(self).limit() == old(self).limit(),
    {
        match self.locate(key, now) {
            None => Ok(None),
            Some(i) => {
                let found = match &self.entries[i].value {
                    Value::Hash(h) => Some(hash_get_in(h, field)),
                    _ => None,
                };
                match found {
                    None => Err(DomainError::WrongType),
                    Some(x) => {
                        self.touch_at(i, now);
                        Ok(x)
                    },
                }
            },
        }
    }

    /// Removes the fields `fields` from the hash under `key`; counts those removed.
    pub fn hdel(&mut self, key: &[u8], fields: &Vec<Vec<u8>>, now: u64) -> (r: Result<usize, DomainError>)
        ensures
            res_nat(r) == hdel_op(old(self)@, key@, fields.deep_view(), now).1,
            final(self)@ == hdel_op(old(self)@, key@, fields.deep_view(), now).0,
            final(self).limit() == old(self).limit(),
    {
        let ghost p = purge(self@, key@, now);
        match self.locate(key, now) {
            None => Ok(0),
            Some(i) => {
                if !matches!(self.entries[i].value, Value::Hash(_)) {
                    return Err(DomainError::WrongType);
                }
                let e = self.remove_at(i);
                let Entry { key: k, value, expires_at, .. } = e;
                match value {
                    Value::Hash(mut h) => {
                        proof {
                            lemma_del_keys_distinct(h.deep_view(), fields.deep_view());
                        }
                        let n = del_keys_in(&mut h, fields);
                        let ghost nh = h.deep_view();
                        self.put_back(k, Value::Hash(h), expires_at, now);
                        proof {
                            assert(self@ =~= p.insert(key@, Record { value: ValueModel::Hash(nh), expires_at: p[key@].expires_at, last_access: now }));
                        }
                        Ok(n)
                    },
                    _ => {
                        proof {
                            assert(false);
                        }
                        Err(DomainError::WrongType)
                    },
                }
            },
        }
    }

    /// Whether the hash under `key` has `field`.
    pub fn hexists(&mut self, key: &[u8], field: &[u8], now: u64) -> (r: Result<bool, DomainError>)
        ensures
            r == hexists_op(old(self)@, key@, field@, now).1,
            final(self)@ == hexists_op(old(self)@, key@, field@, now).0,
            final(self).limit() == old(self).limit(),
    {
        match self.locate(key, now) {
            None => Ok(false),
            Some(i) => {
                let found = match &self.entries[i].value {
                    Value::Hash(h) => {
                        let fs = hash_fields(h);
                        Some(contains_bytes(&fs, field))
                    },
                    _ => None,
                };
                match found {
                    None => Err(DomainError::WrongType),
                    Some(x) => {
                        self.touch_at(i, now);
                        Ok(x)
                    },
                }
            },
        }
    }

    /// The number of fields of the hash under `key`.
    pub fn hlen(&mut self, key: &[u8], now: u64) -> (r: Result<usize, DomainError>)
        ensures
            res_nat(r) == hlen_op(old(self)@, key@, now).1,
            final(self)@ == hlen_op(old(self)@, key@, now).0,
            final(self).limit() == old(self).limit(),
    {
        match self.locate(key, now) {
            None => Ok(0),
            Some(i) => {
                let found = match &self.entries[i].value {
                    Value::Hash(h) => Some(h.len()),
                    _ => None,
                };
                match found {
                    None => Err(DomainError::WrongType),
                    Some(x) => {
                        self.touch_at(i, now);
                        Ok(x)
                    },
                }
            },
        }
    }

    /// The fields of the hash under `key`, in order.
    pub fn hkeys(&mut self, key: &[u8], now: u64) -> (r: Result<Vec<Vec<u8>>, DomainError>)
        ensures
            res_byte_list(r) == hkeys_op(old(self)@, key@, now).1,
            final(self)@ == hkeys_op(old(self)@, key@, now).0,
            final(self).limit() == old(self).limit(),
    {
        match self.locate(key, now) {
            None => {
                let v: Vec<Vec<u8>> = Vec::new();
                proof {
                    assert(v.deep_view() =~= Seq::<Seq<u8>>::empty());
                }
                Ok(v)
            },
            Some(i) => {
                let found = match &self.entries[i].value {
                    Value::Hash(h) => Some(hash_fields(h)),
                    _ => None,
                };
                match found {
                    None => Err(DomainError::WrongType),
                    Some(x) => {
                        self.touch_at(i, now);
                        Ok(x)
                    },
                }
            },
        }
    }

    /// The values of the hash under `key`, in field order.
    pub fn hvals(&mut self, key: &[u8], now: u64) -> (r: Result<Vec<Vec<u8>>, DomainError>)
        ensures
            res_byte_list(r) == hvals_op(old(self)@, key@, now).1,
            final(self)@ == hvals_op(old(self)@, key@, now).0,
            final(self).limit() == old(self).limit(),
    {
        match self.locate(key, now) {
            None => {
                let v: Vec<Vec<u8>> = Vec::new();
                proof {
                    assert(v.deep_view() =~= Seq::<Seq<u8>>::empty());
                }
                Ok(v)
            },
            Some(i) => {
                let found = match &self.entries[i].value {
                    Value::Hash(h) => Some(hash_values(h)),
                    _ => None,
                };
                match found {
                    None => Err(DomainError::WrongType),
                    Some(x) => {
                        self.touch_at(i, now);
                        Ok(x)
                    },
                }
            },
        }
    }
}

} // verus!
