use vstd::prelude::*;
use crate::bytes::{copy_bytes, keys_of};
use crate::model::{StoreModel, fresh, live, expired, store_wf};
use crate::store::{InMemoryStorage, entry_keys, lemma_entries_at, lemma_entries_contains};
use crate::value::{Value, ValueModel, copy_value};
use crate::wellformed::{normalized, normalize_value};
use crate::cmd_keys::pair_models;

verus! {

/// `pairs` lists the keys of `m` that are live at `now`, each once, with the
/// value it holds.
pub open spec fn lists_contents(m: StoreModel, pairs: Seq<(Seq<u8>, ValueModel)>, now: u64) -> bool {
    &&& keys_of(pairs).no_duplicates()
    &&& forall|i: int| 0 <= i < pairs.len() ==> #[trigger] live(m, pairs[i].0, now) && m[pairs[i].0].value == pairs[i].1
    &&& forall|k: Seq<u8>| #[trigger] live(m, k, now) ==> keys_of(pairs).contains(k)
}

/// Stores each pair in turn as a new entry without expiry.
pub open spec fn restore_op(m: StoreModel, pairs: Seq<(Seq<u8>, ValueModel)>, now: u64) -> StoreModel
    decreases pairs.len(),
{
    if pairs.len() == 0 {
        m
    } else {
        restore_op(m, pairs.drop_last(), now).insert(pairs.last().0, fresh(normalized(pairs.last().1), now))
    }
}

impl InMemoryStorage {
    /// Every key live at `now` with its value, each key once, in no particular
    /// order; keys whose lifetime has run out are left out. Every value the
    /// store holds is well-formed.
    pub fn get_all_entries(&self, now: u64) -> (r: Vec<(Vec<u8>, Value)>)
        ensures
            lists_contents(self@, pair_models(r@), now),
            store_wf(self@),
    {
        proof {
            use_type_invariant(self);
            self.lemma_view();
            self.lemma_values_wf();
        }
        let ghost es = self.entries@;
        let ghost mut idx: Seq<int> = Seq::empty();
        let mut r: Vec<(Vec<u8>, Value)> = Vec::new();
        let mut i: usize = 0;
        while i < self.entries.len()
            invariant
                es == self.entries@,
                self@ == crate::store::entries_map(es),
                entry_keys(es).no_duplicates(),
                0 <= i <= es.len(),
                r@.len() == idx.len(),
                forall|j: int| 0 <= j < idx.len() ==> 0 <= #[trigger] idx[j] < i,
                forall|a: int, b: int| 0 <= a < b < idx.len() ==> idx[a] < idx[b],
                forall|j: int| 0 <= j < idx.len() ==> #[trigger] r@[j].0@ == es[idx[j]].key@
                    && r@[j].1.model() == es[idx[j]].value.model() && !expired(es[idx[j]].record(), now),
                forall|x: int| 0 <= x < i && !expired(#[trigger] es[x].record(), now) ==> exists|j: int| 0 <= j < idx.len() && idx[j] == x,
            decreases es.len() - i,
        {
            let dead = match self.entries[i].expires_at {
                Some(t) => t <= now,
                None => false,
            };
            if !dead {
                let k = copy_bytes(self.entries[i].key.as_slice());
                let v = copy_value(&self.entries[i].value);
                r.push((k, v));
                proof {
                    let oidx = idx;
                    idx = idx.push(i as int);
                    assert forall|x: int| 0 <= x < i + 1 && !expired(#[trigger] es[x].record(), now) implies exists|j: int| 0 <= j < idx.len() && idx[j] == x by {
                        if x == i {
                            assert(idx[idx.len() - 1] == x);
                        } else {
                            assert(!expired(es[x].record(), now));
                            let j = choose|j: int| 0 <= j < oidx.len() && oidx[j] == x;
                            assert(idx[j] == x);
                        }
                    }
                }
            }
            i = i + 1;
        }
        proof {
            let pm = pair_models(r@);
            assert forall|a: int, b: int| 0 <= a < pm.len() && 0 <= b < pm.len() && a != b implies keys_of(pm)[a] != keys_of(pm)[b] by {
                assert(idx[a] != idx[b]);
                assert(entry_keys(es)[idx[a]] != entry_keys(es)[idx[b]]);
            }
            assert forall|j: int| 0 <= j < pm.len() implies #[trigger] live(self@, pm[j].0, now) && self@[pm[j].0].value == pm[j].1 by {
                lemma_entries_at(es, idx[j]);
            }
            assert forall|k: Seq<u8>| #[trigger] live(self@, k, now) implies keys_of(pm).contains(k) by {
                lemma_entries_contains(es, k);
                let x = choose|x: int| 0 <= x < es.len() && #[trigger] es[x].key@ == k;
                lemma_entries_at(es, x);
                let j = choose|j: int| 0 <= j < idx.len() && idx[j] == x;
                assert(keys_of(pm)[j] == k);
            }
        }
        r
    }

    /// Stores `value` (in its well-formed form) under `key` as a new entry
    /// without expiry, used at `now`, replacing what was there; nothing is
    /// evicted.
    pub fn insert_entry(&mut self, key: &[u8], value: Value, now: u64)
        ensures
            final(self)@ == old(self)@.insert(key@, fresh(normalized(value.model()), now)),
            final(self).limit() == old(self).limit(),
    {
        let ghost m = self@;
        let ghost vm = value.model();
        match self.find(key) {
            Some(i) => {
                let _former = self.remove_at(i);
            },
            None => {},
        }
        let k = copy_bytes(key);
        self.put_back(k, normalize_value(&value), None, now);
        proof {
            assert(self@ =~= m.insert(key@, fresh(normalized(vm), now)));
        }
    }

    /// Stores each of `pairs` in turn with `insert_entry`.
    pub fn restore_entries(&mut self, pairs: &Vec<(Vec<u8>, Value)>, now: u64)
        ensures
            final(self)@ == restore_op(old(self)@, pair_models(pairs@), now),
            final(self).limit() == old(self).limit(),
    {
        let ghost pm = pair_models(pairs@);
        let ghost m0 = self@;
        let mut i: usize = 0;
        proof {
            assert(pm.take(0) =~= Seq::<(Seq<u8>, ValueModel)>::empty());
        }
        while i < pairs.len()
            invariant
                pm == pair_models(pairs@),
                0 <= i <= pairs@.len(),
                self.limit() == old(self).limit(),
                self@ == restore_op(m0, pm.take(i as int), now),
            decreases pairs@.len() - i,
        {
            proof {
                assert(pm.take(i + 1).drop_last() =~= pm.take(i as int));
            }
            let c = copy_value(&pairs[i].1);
            self.insert_entry(pairs[i].0.as_slice(), c, now);
            i = i + 1;
        }
        proof {
            assert(pm.take(pairs@.len() as int) =~= pm);
        }
    }
}

} // verus!
