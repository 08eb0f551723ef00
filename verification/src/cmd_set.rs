use vstd::prelude::*;
use crate::bytes::{copy_bytes, copy_byte_list};
use crate::members::{set_add_in, contains_bytes};
use crate::model::{
    Record, DomainError, purge, lru_evicted, sadd_op, srem_op, smembers_op, scard_op, sismember_op,
};
use crate::pairs::del_all_in;
use crate::store::{InMemoryStorage, Entry};
use crate::value::{Value, ValueModel};
use crate::views::{res_nat, res_byte_list};

use crate::laws::law_sadd;
use crate::held_values::lemma_del_all_distinct;

verus! {

impl InMemoryStorage {
    /// Adds `members` to the set under `key`; counts those that were new.
    pub fn sadd(&mut self, key: &[u8], members: &Vec<Vec<u8>>, now: u64) -> (r: Result<usize, DomainError>)
        ensures
            res_nat(r) == sadd_op(old(self)@, key@, members.deep_view(), now).1,
            r is Ok ==> lru_evicted(sadd_op(old(self)@, key@, members.deep_view(), now).0, final(self)@, key@, old(self).limit()),
            r is Err ==> final(self)@ == sadd_op(old(self)@, key@, members.deep_view(), now).0,
            final(self).limit() == old(self).limit(),
    {
        let ghost p = purge(self@, key@, now);
        match self.locate(key, now) {
            None => {
                let mut s: Vec<Vec<u8>> = Vec::new();
                proof {
                    assert(s.deep_view() =~= Seq::<Seq<u8>>::empty());
                    law_sadd(s.deep_view(), members.deep_view());
                }
                let n = set_add_in(&mut s, members);
                let ghost ns = s.deep_view();
                let k = copy_bytes(key);
                self.put_back(k, Value::Members(s), None, now);
                proof {
                    assert(self@ =~= p.insert(key@, Record { value: ValueModel::Members(ns), expires_at: None, last_access: now }));
                }
                self.evict_to_limit(key);
                Ok(n)
            },
            Some(i) => {
                if !matches!(self.entries[i].value, Value::Members(_)) {
                    return Err(DomainError::WrongType);
                }
                let e = self.remove_at(i);
                let Entry { key: k, value, expires_at, .. } = e;
                match value {
                    Value::Members(mut s) => {
                        proof {
                            law_sadd(s.deep_view(), members.deep_view());
                        }
                        let n = set_add_in(&mut s, members);
                        let ghost ns = s.deep_view();
                        self.put_back(k, Value::Members(s), expires_at, now);
                        proof {
                            assert(self@ =~= p.insert(key@, Record { value: ValueModel::Members(ns), expires_at: p[key@].expires_at, last_access: now }));
                        }
                        self.evict_to_limit(key);
                        Ok(n)
                    },
                    _ => {
                        proof {
                            assert(false);
                        }
                        Err(DomainError::WrongType)
                    },
                }
            },
        }
    }

    /// Removes `members` from the set under `key`; counts those removed.
    pub fn srem(&mut self, key: &[u8], members: &Vec<Vec<u8>>, now: u64) -> (r: Result<usize, DomainError>)
        ensures
            res_nat(r) == srem_op(old(self)@, key@, members.deep_view(), now).1,
            final(self)@ == srem_op(old(self)@, key@, members.deep_view(), now).0,
            final(self).limit() == old(self).limit(),
    {
        let ghost p = purge(self@, key@, now);
        match self.locate(key, now) {
            None => Ok(0),
            Some(i) => {
                if !matches!(self.entries[i].value, Value::Members(_)) {
                    return Err(DomainError::WrongType);
                }
                let e = self.remove_at(i);
                let Entry { key: k, value, expires_at, .. } = e;
                match value {
                    Value::Members(mut s) => {
                        proof {
                            lemma_del_all_distinct(s.deep_view(), members.deep_view());
                        }
                        let n = del_all_in(&mut s, members);
                        let ghost ns = s.deep_view();
                        self.put_back(k, Value::Members(s), expires_at, now);
                        proof {
                            assert(self@ =~= p.insert(key@, Record { value: ValueModel::Members(ns), expires_at: p[key@].expires_at, last_access: now }));
                        }
                        Ok(n)
                    },
                    _ => {
                        proof {
                            assert(false);
                        }
                        Err(DomainError::WrongType)
                    },
                }
            },
        }
    }

    /// The members of the set under `key`, in the order they were added.
    pub fn smembers(&mut self, key: &[u8], now: u64) -> (r: Result<Vec<Vec<u8>>, DomainError>)
        ensures
            res_byte_list(r) == smembers_op(old(self)@, key@, now).1,
            final(self)@ == smembers_op(old(self)@, key@, now).0,
            final(self).limit() == old(self).limit(),
    {
        match self.locate(key, now) {
            None => {
                let v: Vec<Vec<u8>> = Vec::new();
                proof {
                    assert(v.deep_view() =~= Seq::<Seq<u8>>::empty());
                }
                Ok(v)
            },
            Some(i) => {
                let found = match &self.entries[i].value {
                    Value::Members(s) => Some(copy_byte_list(s)),
                    _ => None,
                };
                match found {
                    None => Err(DomainError::WrongType),
                    Some(x) => {
                        self.touch_at(i, now);
                        Ok(x)
                    },
                }
            },
        }
    }

    /// The number of members of the set under `key`.
    pub fn scard(&mut self, key: &[u8], now: u64) -> (r: Result<usize, DomainError>)
        ensures
            res_nat(r) == scard_op(old(self)@, key@, now).1,
            final(self)@ == scard_op(old(self)@, key@, now).0,
            final(self).limit() == old(self).limit(),
    {
        match self.locate(key, now) {
            None => Ok(0),
            Some(i) => {
                let found = match &self.entries[i].value {
                    Value::Members(s) => Some(s.len()),
                    _ => None,
                };
                match found {
                    None => Err(DomainError::WrongType),
                    Some(x) => {
                        self.touch_at(i, now);
                        Ok(x)
                    },
                }
            },
        }
    }

    /// Whether `member` is in the set under `key`.
    pub fn sismember(&mut self, key: &[u8], member: &[u8], now: u64) -> (r: Result<bool, DomainError>)
        ensures
            r == sismember_op(old(self)@, key@, member@, now).1,
            final(self)@ == sismember_op(old(self)@, key@, member@, now).0,
            final(self).limit() == old(self).limit(),
    {
        match self.locate(key, now) {
            None => Ok(false),
            Some(i) => {
                let found = match &self.entries[i].value {
                    Value::Members(s) => Some(contains_bytes(s, member)),
                    _ => None,
                };
                match found {
                    None => Err(DomainError::WrongType),
                    Some(x) => {
                        self.touch_at(i, now);
                        Ok(x)
                    },
                }
            },
        }
    }
}

} // verus!
