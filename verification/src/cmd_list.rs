use vstd::prelude::*;
use crate::bytes::copy_bytes;
use crate::list::{lpush, lemma_lpush_len, lpush_in, rpush_in, lpop_in, rpop_in, lrange_in};
use crate::model::{
    Record, DomainError, purge, lru_evicted, lpush_op, rpush_op, lpop_op, rpop_op, lrange_op,
};
use crate::store::{InMemoryStorage, Entry};
use crate::value::{Value, ValueModel};
use crate::views::{res_nat, res_opt_bytes, res_byte_list};

verus! {

impl InMemoryStorage {
    /// Pushes each of `values` in turn onto the front of the list under `key`;
    /// gives the new length.
    pub fn lpush(&mut self, key: &[u8], values: &Vec<Vec<u8>>, now: u64) -> (r: Result<usize, DomainError>)
        ensures
            res_nat(r) == lpush_op(old(self)@, key@, values.deep_view(), now).1,
            r is Ok ==> lru_evicted(lpush_op(old(self)@, key@, values.deep_view(), now).0, final(self)@, key@, old(self).limit()),
            r is Err ==> final(self)@ == lpush_op(old(self)@, key@, values.deep_view(), now).0,
            final(self).limit() == old(self).limit(),
    {
        let ghost p = purge(self@, key@, now);
        let ghost vd = values.deep_view();
        match self.locate(key, now) {
            None => {
                let mut l: Vec<Vec<u8>> = Vec::new();
                proof {
                    assert(l.deep_view() =~= Seq::<Seq<u8>>::empty());
                }
                lpush_in(&mut l, values);
                proof {
                    lemma_lpush_len(Seq::<Seq<u8>>::empty(), vd);
                }
                let n = l.len();
                let ghost nl = l.deep_view();
                let k = copy_bytes(key);
                self.put_back(k, Value::List(l), None, now);
                proof {
                    assert(self@ =~= p.insert(key@, Record { value: ValueModel::List(nl), expires_at: None, last_access: now }));
                }
                self.evict_to_limit(key);
                Ok(n)
            },
            Some(i) => {
                if !matches!(self.entries[i].value, Value::List(_)) {
                    return Err(DomainError::WrongType);
                }
                let e = self.remove_at(i);
                let Entry { key: k, value, expires_at, .. } = e;
                match value {
                    Value::List(mut l) => {
                        let ghost ol = l.deep_view();
                        lpush_in(&mut l, values);
                        proof {
                            lemma_lpush_len(ol, vd);
                        }
                        let n = l.len();
                        let ghost nl = l.deep_view();
                        self.put_back(k, Value::List(l), expires_at, now);
                        proof {
                            assert(self@ =~= p.insert(key@, Record { value: ValueModel::List(nl), expires_at: p[key@].expires_at, last_access: now }));
                        }
                        self.evict_to_limit(key);
                        Ok(n)
                    },
                    _ => {
                        proof {
                            assert(false);
                        }
                        Err(DomainError::WrongType)
                    },
                }
            },
        }
    }

    /// Appends `values` to the list under `key`; gives the new length.
    pub fn rpush(&mut self, key: &[u8], values: &Vec<Vec<u8>>, now: u64) -> (r: Result<usize, DomainError>)
        ensures
            res_nat(r) == rpush_op(old(self)@, key@, values.deep_view(), now).1,
            r is Ok ==> lru_evicted(rpush_op(old(self)@, key@, values.deep_view(), now).0, final(self)@, key@, old(self).limit()),
            r is Err ==> final(self)@ == rpush_op(old(self)@, key@, values.deep_view(), now).0,
            final(self).limit() == old(self).limit(),
    {
        let ghost p = purge(self@, key@, now);
        let ghost vd = values.deep_view();
        match self.locate(key, now) {
            None => {
                let mut l: Vec<Vec<u8>> = Vec::new();
                proof {
                    assert(l.deep_view() =~= Seq::<Seq<u8>>::empty());
                }
                rpush_in(&mut l, values);
                proof {
                    assert(l.deep_view() =~= vd);
                }
                let n = l.len();
                proof {
                    assert(l.deep_view().len() == l@.len());
                }
                let k = copy_bytes(key);
                self.put_back(k, Value::List(l), None, now);
                proof {
                    assert(self@ =~= p.insert(key@, Record { value: ValueModel::List(vd), expires_at: None, last_access: now }));
                }
                self.evict_to_limit(key);
                Ok(n)
            },
            Some(i) => {
                if !matches!(self.entries[i].value, Value::List(_)) {
                    return Err(DomainError::WrongType);
                }
                let e = self.remove_at(i);
                let Entry { key: k, value, expires_at, .. } = e;
                match value {
                    Value::List(mut l) => {
                        let ghost ol = l.deep_view();
                        rpush_in(&mut l, values);
                        let n = l.len();
                        proof {
                            assert(l.deep_view().len() == l@.len());
                            assert(n == ol.len() + vd.len());
                        }
                        let ghost nl = l.deep_view();
                        self.put_back(k, Value::List(l), expires_at, now);
                        proof {
                            assert(self@ =~= p.insert(key@, Record { value: ValueModel::List(nl), expires_at: p[key@].expires_at, last_access: now }));
                        }
                        self.evict_to_limit(key);
                        Ok(n)
                    },
                    _ => {
                        proof {
                            assert(false);
                        }
                        Err(DomainError::WrongType)
                    },
                }
            },
        }
    }

    /// Takes the first item off the list under `key`.
    pub fn lpop(&mut self, key: &[u8], now: u64) -> (r: Result<Option<Vec<u8>>, DomainError>)
        ensures
            res_opt_bytes(r) == lpop_op(old(self)@, key@, now).1,
            final(self)@ == lpop_op(old(self)@, key@, now).0,
            final(self).limit() == old(self).limit(),
    {
        let ghost p = purge(self@, key@, now);
        match self.locate(key, now) {
            None => Ok(None),
            Some(i) => {
                if !matches!(self.entries[i].value, Value::List(_)) {
                    return Err(DomainError::WrongType);
                }
                let e = self.remove_at(i);
                let Entry { key: k, value, expires_at, .. } = e;
                match value {
                    Value::List(mut l) => {
                        let x = lpop_in(&mut l);
                        let ghost nl = l.deep_view();
                        self.put_back(k, Value::List(l), expires_at, now);
                        proof {
                            assert(self@ =~= p.insert(key@, Record { value: ValueModel::List(nl), expires_at: p[key@].expires_at, last_access: now }));
                        }
                        Ok(x)
                    },
                    _ => {
                        proof {
                            assert(false);
                        }
                        Err(DomainError::WrongType)
                    },
                }
            },
        }
    }

    /// Takes the last item off the list under `key`.
    pub fn rpop(&mut self, key: &[u8], now: u64) -> (r: Result<Option<Vec<u8>>, DomainError>)
        ensures
            res_opt_bytes(r) == rpop_op(old(self)@, key@, now).1,
            final(self)@ == rpop_op(old(self)@, key@, now).0,
            final(self).limit() == old(self).limit(),
    {
        let ghost p = purge(self@, key@, now);
        match self.locate(key, now) {
            None => Ok(None),
            Some(i) => {
                if !matches!(self.entries[i].value, Value::List(_)) {
                    return Err(DomainError::WrongType);
                }
                let e = self.remove_at(i);
                let Entry { key: k, value, expires_at, .. } = e;
                match value {
                    Value::List(mut l) => {
                        let x = rpop_in(&mut l);
                        let ghost nl = l.deep_view();
                        self.put_back(k, Value::List(l), expires_at, now);
                        proof {
                            assert(self@ =~= p.insert(key@, Record { value: ValueModel::List(nl), expires_at: p[key@].expires_at, last_access: now }));
                        }
                        Ok(x)
                    },
                    _ => {
                        proof {
                            assert(false);
                        }
                        Err(DomainError::WrongType)
                    },
                }
            },
        }
    }

    /// The items of the list under `key` in the inclusive index range
    /// `start..=stop`, where negative indices count from the end.
    pub fn lrange(&mut self, key: &[u8], start: i64, stop: i64, now: u64) -> (r: Result<Vec<Vec<u8>>, DomainError>)
        ensures
            res_byte_list(r) == lrange_op(old(self)@, key@, start, stop, now).1,
            final(self)@ == lrange_op(old(self)@, key@, start, stop, now).0,
            final(self).limit() == old(self).limit(),
    {
        match self.locate(key, now) {
            None => {
                let v: Vec<Vec<u8>> = Vec::new();
                proof {
                    assert(v.deep_view() =~= Seq::<Seq<u8>>::empty());
                }
                Ok(v)
            },
            Some(i) => {
                let found = match &self.entries[i].value {
                    Value::List(l) => Some(lrange_in(l, start, stop)),
                    _ => None,
                };
                match found {
                    None => Err(DomainError::WrongType),
                    Some(x) => {
                        self.touch_at(i, now);
                        Ok(x)
                    },
                }
            },
        }
    }
}

} // verus!
