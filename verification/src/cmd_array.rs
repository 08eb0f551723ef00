use vstd::prelude::*;
use crate::array::{
    opt_models, update_models, array_get_in, array_slice_in,
    array_update_in, array_append_in,
};
use crate::bytes::copy_bytes;
use crate::model::{
    Record, DomainError, purge, lru_evicted, array_set_op, array_get_op, array_slice_op,
    array_update_op, array_append_op, array_len_op,
};
use crate::store::{InMemoryStorage, Entry};
use crate::value::{Value, ValueModel, models_of, lemma_models_of};
use crate::views::{res_nat, res_opt_nat, res_values, res_opt_values};
use crate::wellformed::{wf, normalized_all, normalize_values, law_normalized_is_wf};
use crate::held_values::{lemma_array_update_wf, lemma_wf_all_concat};

verus! {

impl InMemoryStorage {
    /// Stores `values` as an array under `key`, replacing what was there.
    pub fn array_set(&mut self, key: &[u8], values: Vec<Value>, now: u64)
        ensures
            lru_evicted(array_set_op(old(self)@, key@, models_of(values@), now), final(self)@, key@, old(self).limit()),
            final(self).limit() == old(self).limit(),
    {
        let ghost p = purge(self@, key@, now);
        let ghost vm = normalized_all(models_of(values@));
        match self.locate(key, now) {
            Some(i) => {
                let _former = self.remove_at(i);
            },
            None => {},
        }
        let k = copy_bytes(key);
        self.put_back(k, Value::Array(normalize_values(&values)), None, now);
        proof {
            assert(self@ =~= p.insert(key@, Record { value: ValueModel::Array(vm), expires_at: None, last_access: now }));
        }
        self.evict_to_limit(key);
    }

    /// The elements at `indices` of the array under `key`; nothing past the end
    /// or for a missing key.
    pub fn array_get(&mut self, key: &[u8], indices: &Vec<usize>, now: u64) -> (r: Result<Vec<Option<Value>>, DomainError>)
        ensures
            res_opt_values(r) == array_get_op(old(self)@, key@, indices@, now).1,
            final(self)@ == array_get_op(old(self)@, key@, indices@, now).0,
            final(self).limit() == old(self).limit(),
    {
        match self.locate(key, now) {
            None => {
                let mut v: Vec<Option<Value>> = Vec::new();
                let mut j: usize = 0;
                while j < indices.len()
                    invariant
                        0 <= j <= indices@.len(),
                        v@.len() == j,
                        forall|k: int| 0 <= k < j ==> #[trigger] v@[k] is None,
                    decreases indices@.len() - j,
                {
                    v.push(None);
                    j = j + 1;
                }
                proof {
                    assert(opt_models(v@) =~= Seq::new(indices@.len(), |j: int| None::<ValueModel>));
                }
                Ok(v)
            },
            Some(i) => {
                let found = match &self.entries[i].value {
                    Value::Array(a) => Some(array_get_in(a, indices)),
                    _ => None,
                };
                match found {
                    None => Err(DomainError::WrongType),
                    Some(x) => {
                        self.touch_at(i, now);
                        Ok(x)
                    },
                }
            },
        }
    }

    /// The elements of the array under `key` from `start` up to `end` (or its
    /// end).
    pub fn array_slice(&mut self, key: &[u8], start: usize, end: Option<usize>, now: u64) -> (r: Result<Vec<Value>, DomainError>)
        ensures
            res_values(r) == array_slice_op(old(self)@, key@, start, end, now).1,
            final(self)@ == array_slice_op(old(self)@, key@, start, end, now).0,
            final(self).limit() == old(self).limit(),
    {
        match self.locate(key, now) {
            None => {
                let v: Vec<Value> = Vec::new();
                proof {
                    lemma_models_of(v@);
                    assert(models_of(v@) =~= Seq::<ValueModel>::empty());
                }
                Ok(v)
            },
            Some(i) => {
                let found = match &self.entries[i].value {
                    Value::Array(a) => Some(array_slice_in(a, start, end)),
                    _ => None,
                };
                match found {
                    None => Err(DomainError::WrongType),
                    Some(x) => {
                        self.touch_at(i, now);
                        Ok(x)
                    },
                }
            },
        }
    }

    /// Applies `updates` (index and value) in turn to the array under `key`,
    /// skipping indices past the end; counts those applied.
    pub fn array_update(&mut self, key: &[u8], updates: &Vec<(usize, Value)>, now: u64) -> (r: Result<usize, DomainError>)
        ensures
            res_nat(r) == array_update_op(old(self)@, key@, update_models(updates@), now).1,
            r is Ok ==> lru_evicted(array_update_op(old(self)@, key@, update_models(updates@), now).0, final(self)@, key@, old(self).limit()),
            r is Err ==> final(self)@ == array_update_op(old(self)@, key@, update_models(updates@), now).0,
            final(self).limit() == old(self).limit(),
    {
        let ghost p = purge(self@, key@, now);
        match self.locate(key, now) {
            None => Err(DomainError::WrongType),
            Some(i) => {
                if !matches!(self.entries[i].value, Value::Array(_)) {
                    return Err(DomainError::WrongType);
                }
                let e = self.remove_at(i);
                let Entry { key: k, value, expires_at, .. } = e;
                match value {
                    Value::Array(mut a) => {
                        let ghost oa = models_of(a@);
                        let n = array_update_in(&mut a, updates);
                        let ghost na = models_of(a@);
                        proof {
                            let ups = update_models(updates@);
                            assert forall|j: int| 0 <= j < ups.len() implies wf(#[trigger] ups[j].1) by {
                                law_normalized_is_wf(updates@[j].1.model());
                            }
                            lemma_array_update_wf(oa, ups);
                        }
                        self.put_back(k, Value::Array(a), expires_at, now);
                        proof {
                            assert(self@ =~= p.insert(key@, Record { value: ValueModel::Array(na), expires_at: p[key@].expires_at, last_access: now }));
                        }
                        self.evict_to_limit(key);
                        Ok(n)
                    },
                    _ => {
                        proof {
                            assert(false);
                        }
                        Err(DomainError::WrongType)
                    },
                }
            },
        }
    }

    /// Appends `values` to the array under `key`; gives the new length.
    pub fn array_append(&mut self, key: &[u8], values: Vec<Value>, now: u64) -> (r: Result<usize, DomainError>)
        ensures
            res_nat(r) == array_append_op(old(self)@, key@, models_of(values@), now).1,
            r is Ok ==> lru_evicted(array_append_op(old(self)@, key@, models_of(values@), now).0, final(self)@, key@, old(self).limit()),
            r is Err ==> final(self)@ == array_append_op(old(self)@, key@, models_of(values@), now).0,
            final(self).limit() == old(self).limit(),
    {
        let ghost p = purge(self@, key@, now);
        let ghost vm = normalized_all(models_of(values@));
        proof {
            crate::wellformed::lemma_normalized_all(models_of(values@));
            lemma_models_of(values@);
        }
        match self.locate(key, now) {
            None => Err(DomainError::WrongType),
            Some(i) => {
                if !matches!(self.entries[i].value, Value::Array(_)) {
                    return Err(DomainError::WrongType);
                }
                let e = self.remove_at(i);
                let Entry { key: k, value, expires_at, .. } = e;
                match value {
                    Value::Array(mut a) => {
                        let ghost oa = models_of(a@);
                        let nv = normalize_values(&values);
                        let ghost nvm = models_of(nv@);
                        array_append_in(&mut a, nv);
                        let n = a.len();
                        let ghost na = models_of(a@);
                        proof {
                            lemma_models_of(a@);
                            assert(na.len() == oa.len() + vm.len());
                            lemma_wf_all_concat(oa, nvm);
                        }
                        self.put_back(k, Value::Array(a), expires_at, now);
                        proof {
                            assert(self@ =~= p.insert(key@, Record { value: ValueModel::Array(na), expires_at: p[key@].expires_at, last_access: now }));
                        }
                        self.evict_to_limit(key);
                        Ok(n)
                    },
                    _ => {
                        proof {
                            assert(false);
                        }
                        Err(DomainError::WrongType)
                    },
                }
            },
        }
    }

    /// The length of the array under `key`; nothing for a missing key.
    pub fn array_len(&mut self, key: &[u8], now: u64) -> (r: Result<Option<usize>, DomainError>)
        ensures
            res_opt_nat(r) == array_len_op(old(self)@, key@, now).1,
            final(self)@ == array_len_op(old(self)@, key@, now).0,
            final(self).limit() == old(self).limit(),
    {
        match self.locate(key, now) {
            None => Ok(None),
            Some(i) => {
                let found = match &self.entries[i].value {
                    Value::Array(a) => {
                        proof {
                            lemma_models_of(a@);
                        }
                        Some(a.len())
                    },
                    _ => None,
                };
                match found {
                    None => Err(DomainError::WrongType),
                    Some(x) => {
                        self.touch_at(i, now);
                        Ok(Some(x))
                    },
                }
            },
        }
    }
}

} // verus!
