use vstd::prelude::*;
use crate::bytes::bytes_eq;
use crate::model::{
    Record, StoreModel, expired, purge, lru_evicted, last_evicted, store_usage, map_size,
    lemma_map_size_insert, store_wf,
};
use crate::wellformed::wf;
use crate::value::{Value, value_size, cap, cap_add, size_of_value};

verus! {

/// One key of the store with what it holds.
pub struct Entry {
    pub(crate) key: Vec<u8>,
    pub(crate) value: Value,
    pub(crate) expires_at: Option<u64>,
    pub(crate) last_accessed: u64,
}

impl Entry {
    pub(crate) open spec fn record(&self) -> Record {
        Record { value: self.value.model(), expires_at: self.expires_at, last_access: self.last_accessed }
    }
}

/// The keys of a sequence of entries.
pub(crate) open spec fn entry_keys(s: Seq<Entry>) -> Seq<Seq<u8>> {
    Seq::new(s.len(), |i: int| s[i].key@)
}

/// The map that a sequence of entries with distinct keys stands for.
pub closed spec fn entries_map(s: Seq<Entry>) -> StoreModel {
    Map::new(
        |k: Seq<u8>| entry_keys(s).contains(k),
        |k: Seq<u8>| s[entry_keys(s).index_of(k)].record(),
    )
}

/// Every entry of the sequence holds a well-formed value.
pub(crate) open spec fn entries_wf(s: Seq<Entry>) -> bool {
    forall|i: int| 0 <= i < s.len() ==> wf(#[trigger] s[i].value.model())
}

/// The store that entries with well-formed values stand for holds only well-formed values.
pub(crate) proof fn lemma_entries_store_wf(s: Seq<Entry>)
    requires
        entry_keys(s).no_duplicates(),
        entries_wf(s),
    ensures
        store_wf(entries_map(s)),
{
    assert forall|k: Seq<u8>| #[trigger] entries_map(s).contains_key(k) implies wf(entries_map(s)[k].value) by {
        lemma_entries_contains(s, k);
        let j = choose|j: int| 0 <= j < s.len() && #[trigger] s[j].key@ == k;
        lemma_entries_at(s, j);
    }
}

/// Bytes counted for one entry: its key and its value.
pub closed spec fn entry_size(e: Entry) -> nat {
    e.key@.len() + value_size(e.value.model())
}

pub closed spec fn entries_usage(s: Seq<Entry>) -> nat
    decreases s.len(),
{
    if s.len() == 0 {
        0
    } else {
        entries_usage(s.drop_last()) + entry_size(s.last())
    }
}

pub(crate) proof fn lemma_entries_at(s: Seq<Entry>, i: int)
    requires
        entry_keys(s).no_duplicates(),
        0 <= i < s.len(),
    ensures
        entries_map(s).contains_key(s[i].key@),
        entries_map(s)[s[i].key@] == s[i].record(),
{
    let ks = entry_keys(s);
    assert(ks[i] == s[i].key@);
    assert(ks.contains(s[i].key@));
    let j = ks.index_of(s[i].key@);
    assert(0 <= j < ks.len() && ks[j] == s[i].key@);
}

pub(crate) proof fn lemma_entries_contains(s: Seq<Entry>, k: Seq<u8>)
    ensures
        entries_map(s).contains_key(k) <==> exists|i: int| 0 <= i < s.len() && #[trigger] s[i].key@ == k,
{
    let ks = entry_keys(s);
    if ks.contains(k) {
        let i = choose|i: int| 0 <= i < ks.len() && ks[i] == k;
        assert(s[i].key@ == k);
    }
    if exists|i: int| 0 <= i < s.len() && #[trigger] s[i].key@ == k {
        let i = choose|i: int| 0 <= i < s.len() && #[trigger] s[i].key@ == k;
        assert(ks[i] == k);
    }
}

pub(crate) proof fn lemma_entries_finite(s: Seq<Entry>)
    requires
        entry_keys(s).no_duplicates(),
    ensures
        entries_map(s).dom().finite(),
        entries_map(s).dom().len() == s.len(),
{
    let ks = entry_keys(s);
    assert(entries_map(s).dom() =~= ks.to_set());
    ks.unique_seq_to_set();
}

/// The bytes counted for a sequence of entries are those of the store it stands for.
proof fn lemma_entries_usage(s: Seq<Entry>)
    requires
        entry_keys(s).no_duplicates(),
    ensures
        entries_usage(s) == map_size(entries_map(s)),
    decreases s.len(),
{
    lemma_entries_finite(s);
    if s.len() == 0 {
        assert(entries_map(s).dom() =~= Set::<Seq<u8>>::empty());
    } else {
        let init = s.drop_last();
        let e = s.last();
        lemma_entries_remove(s, s.len() - 1);
        assert(s.remove(s.len() - 1) =~= init);
        lemma_entries_usage(init);
        lemma_entries_finite(init);
        lemma_entries_contains(init, e.key@);
        if exists|i: int| 0 <= i < init.len() && #[trigger] init[i].key@ == e.key@ {
            let i = choose|i: int| 0 <= i < init.len() && #[trigger] init[i].key@ == e.key@;
            assert(entry_keys(s)[i] == entry_keys(s)[s.len() - 1]);
        }
        lemma_entries_push(init, e);
        assert(init.push(e) =~= s);
        lemma_map_size_insert(entries_map(init), e.key@, e.record());
    }
}

proof fn lemma_entries_remove(s: Seq<Entry>, i: int)
    requires
        entry_keys(s).no_duplicates(),
        0 <= i < s.len(),
    ensures
        entry_keys(s.remove(i)).no_duplicates(),
        entries_map(s.remove(i)) == entries_map(s).remove(s[i].key@),
{
    let r = s.remove(i);
    let k0 = s[i].key@;
    assert forall|a: int, b: int| 0 <= a < r.len() && 0 <= b < r.len() && a != b implies entry_keys(r)[a] != entry_keys(r)[b] by {
        let a2 = if a < i { a } else { a + 1 };
        let b2 = if b < i { b } else { b + 1 };
        assert(entry_keys(s)[a2] != entry_keys(s)[b2]);
    }
    assert forall|k: Seq<u8>| #[trigger] entries_map(r).contains_key(k) == entries_map(s).remove(k0).contains_key(k) by {
        lemma_entries_contains(r, k);
        lemma_entries_contains(s, k);
        if entries_map(r).contains_key(k) {
            let j = choose|j: int| 0 <= j < r.len() && #[trigger] r[j].key@ == k;
            let j2 = if j < i { j } else { j + 1 };
            assert(s[j2].key@ == k);
            assert(j2 != i);
            assert(entry_keys(s)[j2] != entry_keys(s)[i]);
        }
        if entries_map(s).remove(k0).contains_key(k) {
            let j = choose|j: int| 0 <= j < s.len() && #[trigger] s[j].key@ == k;
            assert(j != i);
            let j2 = if j < i { j } else { j - 1 };
            assert(r[j2].key@ == k);
        }
    }
    assert forall|k: Seq<u8>| #[trigger] entries_map(r).contains_key(k) implies entries_map(r)[k] == entries_map(s)[k] by {
        lemma_entries_contains(r, k);
        let j = choose|j: int| 0 <= j < r.len() && #[trigger] r[j].key@ == k;
        let j2 = if j < i { j } else { j + 1 };
        lemma_entries_at(r, j);
        lemma_entries_at(s, j2);
    }
    assert(entries_map(r) =~= entries_map(s).remove(k0));
}

proof fn lemma_entries_push(s: Seq<Entry>, e: Entry)
    requires
        entry_keys(s).no_duplicates(),
        !entries_map(s).contains_key(e.key@),
    ensures
        entry_keys(s.push(e)).no_duplicates(),
        entries_map(s.push(e)) == entries_map(s).insert(e.key@, e.record()),
{
    let r = s.push(e);
    lemma_entries_contains(s, e.key@);
    assert forall|a: int, b: int| 0 <= a < r.len() && 0 <= b < r.len() && a != b implies entry_keys(r)[a] != entry_keys(r)[b] by {
        if a < s.len() && b < s.len() {
            assert(entry_keys(s)[a] != entry_keys(s)[b]);
        } else if a < s.len() {
            assert(s[a].key@ != e.key@);
        } else {
            assert(s[b].key@ != e.key@);
        }
    }
    assert forall|k: Seq<u8>| #[trigger] entries_map(r).contains_key(k) == entries_map(s).insert(e.key@, e.record()).contains_key(k) by {
        lemma_entries_contains(r, k);
        lemma_entries_contains(s, k);
        if entries_map(r).contains_key(k) {
            let j = choose|j: int| 0 <= j < r.len() && #[trigger] r[j].key@ == k;
            if j < s.len() {
                assert(s[j].key@ == k);
            }
        }
        if entries_map(s).contains_key(k) {
            let j = choose|j: int| 0 <= j < s.len() && #[trigger] s[j].key@ == k;
            assert(r[j].key@ == k);
        }
        if k == e.key@ {
            assert(r[s.len() as int].key@ == k);
        }
    }
    assert forall|k: Seq<u8>| #[trigger] entries_map(r).contains_key(k) implies entries_map(r)[k] == entries_map(s).insert(e.key@, e.record())[k] by {
        lemma_entries_contains(r, k);
        let j = choose|j: int| 0 <= j < r.len() && #[trigger] r[j].key@ == k;
        lemma_entries_at(r, j);
        if j < s.len() {
            lemma_entries_at(s, j);
        }
    }
    assert(entries_map(r) =~= entries_map(s).insert(e.key@, e.record()));
}

/// The in-memory key-value store, with an optional memory limit under which
/// the least recently used keys are evicted after each write (plain LRU by
/// last use; the weighted `SMART_LRU_*` scoring is not modelled). Each key is
/// held once and every value held is well-formed.
pub struct InMemoryStorage {
    pub(crate) entries: Vec<Entry>,
    pub(crate) max_memory: Option<u64>,
}

impl View for InMemoryStorage {
    type V = StoreModel;

    closed spec fn view(&self) -> StoreModel {
        entries_map(self.entries@)
    }
}

impl InMemoryStorage {
    /// Each key is held once, and every value held is well-formed.
    #[verifier::type_invariant]
    pub(crate) open spec fn well_formed(&self) -> bool {
        &&& entry_keys(self.entries@).no_duplicates()
        &&& entries_wf(self.entries@)
    }

    /// Every value the store holds is well-formed.
    pub(crate) proof fn lemma_values_wf(&self)
        requires
            self.well_formed(),
        ensures
            store_wf(self@),
    {
        lemma_entries_store_wf(self.entries@);
    }

    pub(crate) proof fn lemma_view(&self)
        ensures
            self@ == entries_map(self.entries@),
    {
    }

    /// The memory limit the store was made with.
    pub closed spec fn limit(&self) -> Option<u64> {
        self.max_memory
    }

    /// An empty store; `max_memory` is the memory limit, if any.
    pub fn new(max_memory: Option<u64>) -> (s: Self)
        ensures
            s@ == Map::<Seq<u8>, Record>::empty(),
            s.limit() == max_memory,
    {
        let s = InMemoryStorage { entries: Vec::new(), max_memory };
        proof {
            assert(entry_keys(s.entries@) =~= Seq::<Seq<u8>>::empty());
            assert(s@ =~= Map::<Seq<u8>, Record>::empty());
        }
        s
    }

    /// The number of keys held, expired ones not yet dropped included.
    pub fn len(&self) -> (n: usize)
        ensures
            n as nat == self@.dom().len(),
    {
        proof {
            use_type_invariant(self);
            self.lemma_dom_len();
        }
        self.entries.len()
    }

    /// When `key` was last used, if it is held (expired or not).
    pub fn last_accessed(&self, key: &[u8]) -> (r: Option<u64>)
        ensures
            r == if self@.contains_key(key@) { Some(self@[key@].last_access) } else { None::<u64> },
    {
        match self.find(key) {
            Some(i) => Some(self.entries[i].last_accessed),
            None => None,
        }
    }

    proof fn lemma_dom_len(&self)
        requires
            entry_keys(self.entries@).no_duplicates(),
        ensures
            self@.dom().len() == self.entries@.len(),
            self@.dom().finite(),
    {
        let ks = entry_keys(self.entries@);
        assert(self@.dom() =~= ks.to_set());
        ks.unique_seq_to_set();
    }

    pub(crate) fn find(&self, key: &[u8]) -> (r: Option<usize>)
        ensures
            match r {
                Some(i) => {
                    &&& i < self.entries@.len()
                    &&& self.entries@[i as int].key@ == key@
                    &&& self@.contains_key(key@)
                    &&& self@[key@] == self.entries@[i as int].record()
                },
                None => !self@.contains_key(key@),
            },
    {
        proof {
            use_type_invariant(self);
        }
        let mut i: usize = 0;
        while i < self.entries.len()
            invariant
                entry_keys(self.entries@).no_duplicates(),
                0 <= i <= self.entries@.len(),
                forall|j: int| 0 <= j < i ==> self.entries@[j].key@ != key@,
            decreases self.entries@.len() - i,
        {
            if bytes_eq(self.entries[i].key.as_slice(), key) {
                proof {
                    lemma_entries_at(self.entries@, i as int);
                }
                return Some(i);
            }
            i = i + 1;
        }
        proof {
            lemma_entries_contains(self.entries@, key@);
        }
        None
    }

    pub(crate) fn remove_at(&mut self, i: usize) -> (e: Entry)
        requires
            i < old(self).entries@.len(),
        ensures
            e == old(self).entries@[i as int],
            wf(e.value.model()),
            old(self)@.contains_key(e.key@),
            old(self)@[e.key@] == e.record(),
            final(self)@ == old(self)@.remove(e.key@),
            final(self).max_memory == old(self).max_memory,
            final(self).limit() == old(self).limit(),
            final(self).entries@.len() == old(self).entries@.len() - 1,
    {
        proof {
            use_type_invariant(&*self);
            lemma_entries_at(self.entries@, i as int);
            lemma_entries_remove(self.entries@, i as int);
            let r = self.entries@.remove(i as int);
            assert forall|j: int| 0 <= j < r.len() implies wf(#[trigger] r[j].value.model()) by {
                let j2 = if j < i { j } else { j + 1 };
                assert(r[j] == self.entries@[j2]);
            }
        }
        let mut v: Vec<Entry> = Vec::new();
        std::mem::swap(&mut v, &mut self.entries);
        let e = v.remove(i);
        self.entries = v;
        e
    }

    pub(crate) fn insert_new(&mut self, e: Entry)
        requires
            !old(self)@.contains_key(e.key@),
            wf(e.value.model()),
        ensures
            final(self)@ == old(self)@.insert(e.key@, e.record()),
            final(self).max_memory == old(self).max_memory,
            final(self).limit() == old(self).limit(),
    {
        proof {
            use_type_invariant(&*self);
            lemma_entries_push(self.entries@, e);
            let r = self.entries@.push(e);
            assert forall|j: int| 0 <= j < r.len() implies wf(#[trigger] r[j].value.model()) by {
                if j < self.entries@.len() {
                    assert(r[j] == self.entries@[j]);
                }
            }
        }
        let mut v: Vec<Entry> = Vec::new();
        std::mem::swap(&mut v, &mut self.entries);
        v.push(e);
        self.entries = v;
    }

    /// Drops the entry under `key` if it has expired at `now`, and finds the
    /// entry that remains.
    pub(crate) fn locate(&mut self, key: &[u8], now: u64) -> (r: Option<usize>)
        ensures
            final(self)@ == purge(old(self)@, key@, now),
            final(self).max_memory == old(self).max_memory,
            final(self).limit() == old(self).limit(),
            match r {
                Some(i) => {
                    &&& i < final(self).entries@.len()
                    &&& final(self).entries@[i as int].key@ == key@
                    &&& final(self)@.contains_key(key@)
                    &&& final(self)@[key@] == final(self).entries@[i as int].record()
                },
                None => !final(self)@.contains_key(key@),
            },
    {
        match self.find(key) {
            None => None,
            Some(i) => {
                let dead = match self.entries[i].expires_at {
                    Some(t) => t <= now,
                    None => false,
                };
                if dead {
                    let _gone = self.remove_at(i);
                    None
                } else {
                    Some(i)
                }
            },
        }
    }

    /// Puts back an entry under a key just taken out.
    pub(crate) fn put_back(&mut self, key: Vec<u8>, value: Value, expires_at: Option<u64>, now: u64)
        requires
            !old(self)@.contains_key(key@),
            wf(value.model()),
        ensures
            final(self)@ == old(self)@.insert(
                key@,
                Record { value: value.model(), expires_at, last_access: now },
            ),
            final(self).max_memory == old(self).max_memory,
            final(self).limit() == old(self).limit(),
    {
        let e = Entry { key, value, expires_at, last_accessed: now };
        proof {
            assert(e.record() == Record { value: value.model(), expires_at, last_access: now });
        }
        self.insert_new(e);
    }

    /// Marks the entry at `i` as used at `now`.
    pub(crate) fn touch_at(&mut self, i: usize, now: u64)
        requires
            i < old(self).entries@.len(),
        ensures
            old(self)@.contains_key(old(self).entries@[i as int].key@),
            final(self)@ == old(self)@.insert(
                old(self).entries@[i as int].key@,
                Record { last_access: now, ..old(self)@[old(self).entries@[i as int].key@] },
            ),
            final(self).limit() == old(self).limit(),
    {
        let ghost m = self@;
        let e = self.remove_at(i);
        let ghost k = e.key@;
        self.put_back(e.key, e.value, e.expires_at, now);
        proof {
            assert(self@ =~= m.insert(k, Record { last_access: now, ..m[k] }));
        }
    }

    /// The bytes counted against the memory limit, saturated at the largest `u64`;
    /// expired keys not yet dropped are counted.
    pub fn memory_usage(&self) -> (r: u64)
        ensures
            r == store_usage(self@),
    {
        proof {
            use_type_invariant(self);
            lemma_entries_usage(self.entries@);
        }
        let mut total: u64 = 0;
        let mut i: usize = 0;
        while i < self.entries.len()
            invariant
                0 <= i <= self.entries@.len(),
                total == cap(entries_usage(self.entries@.take(i as int))),
            decreases self.entries@.len() - i,
        {
            proof {
                assert(self.entries@.take(i + 1).drop_last() =~= self.entries@.take(i as int));
            }
            let e = &self.entries[i];
            let ks = e.key.len() as u64;
            let vs = size_of_value(&e.value);
            let es = cap_add(ks, vs, Ghost(e.key@.len() as nat), Ghost(value_size(e.value.model())));
            total = cap_add(total, es, Ghost(entries_usage(self.entries@.take(i as int))), Ghost(entry_size(*e)));
            i = i + 1;
        }
        proof {
            assert(self.entries@.take(self.entries@.len() as int) =~= self.entries@);
        }
        total
    }

    /// The entry used longest ago among those not under `protect`.
    fn least_recent(&self, protect: &[u8]) -> (r: Option<usize>)
        ensures
            match r {
                Some(i) => {
                    &&& i < self.entries@.len()
                    &&& self.entries@[i as int].key@ != protect@
                    &&& forall|j: int| 0 <= j < self.entries@.len() && self.entries@[j].key@ != protect@
                        ==> self.entries@[i as int].last_accessed <= #[trigger] self.entries@[j].last_accessed
                },
                None => forall|j: int| 0 <= j < self.entries@.len() ==> #[trigger] self.entries@[j].key@ == protect@,
            },
    {
        let mut best: Option<usize> = None;
        let mut i: usize = 0;
        while i < self.entries.len()
            invariant
                0 <= i <= self.entries@.len(),
                match best {
                    Some(b) => {
                        &&& b < i
                        &&& self.entries@[b as int].key@ != protect@
                        &&& forall|j: int| 0 <= j < i && self.entries@[j].key@ != protect@
                            ==> self.entries@[b as int].last_accessed <= #[trigger] self.entries@[j].last_accessed
                    },
                    None => forall|j: int| 0 <= j < i ==> #[trigger] self.entries@[j].key@ == protect@,
                },
            decreases self.entries@.len() - i,
        {
            let same = bytes_eq(self.entries[i].key.as_slice(), protect);
            if !same {
                match best {
                    None => {
                        best = Some(i);
                    },
                    Some(b) => {
                        if self.entries[i].last_accessed < self.entries[b].last_accessed {
                            best = Some(i);
                        }
                    },
                }
            }
            i = i + 1;
        }
        best
    }

    /// Evicts least recently used keys, never `protect`, until the store is
    /// within its memory limit. Keys are ranked by last use alone; the weighted
    /// scores of the `SMART_LRU_*` settings are not computed here (see
    /// `lru_evicted`).
    pub fn evict_to_limit(&mut self, protect: &[u8])
        ensures
            lru_evicted(old(self)@, final(self)@, protect@, old(self).limit()),
            final(self).limit() == old(self).limit(),
    {
        let ghost orig = self@;
        match self.max_memory {
            None => {},
            Some(limit) => {
                let ghost mut last: Seq<u8> = protect@;
                loop
                    invariant
                        self.max_memory == Some(limit),
                        orig == old(self)@,
                        old(self).max_memory == Some(limit),
                        forall|k: Seq<u8>| #[trigger] self@.contains_key(k) ==> orig.contains_key(k) && self@[k] == orig[k],
                        orig.contains_key(protect@) ==> self@.contains_key(protect@),
                        forall|k1: Seq<u8>, k2: Seq<u8>|
                            orig.contains_key(k1) && !self@.contains_key(k1) && #[trigger] self@.contains_key(k2) && k2 != protect@
                                ==> #[trigger] orig[k1].last_access <= orig[k2].last_access,
                        store_usage(orig) <= limit ==> self@ == orig,
                        (exists|k: Seq<u8>| #[trigger] orig.contains_key(k) && !self@.contains_key(k)) ==>
                            last_evicted(orig, self@, last) && store_usage(self@.insert(last, orig[last])) > limit,
                    ensures
                        self.max_memory == Some(limit),
                        forall|k: Seq<u8>| #[trigger] self@.contains_key(k) ==> orig.contains_key(k) && self@[k] == orig[k],
                        orig.contains_key(protect@) ==> self@.contains_key(protect@),
                        forall|k1: Seq<u8>, k2: Seq<u8>|
                            orig.contains_key(k1) && !self@.contains_key(k1) && #[trigger] self@.contains_key(k2) && k2 != protect@
                                ==> #[trigger] orig[k1].last_access <= orig[k2].last_access,
                        store_usage(self@) <= limit || forall|k: Seq<u8>| #[trigger] self@.contains_key(k) ==> k == protect@,
                        store_usage(orig) <= limit ==> self@ == orig,
                        (exists|k: Seq<u8>| #[trigger] orig.contains_key(k) && !self@.contains_key(k)) ==>
                            last_evicted(orig, self@, last) && store_usage(self@.insert(last, orig[last])) > limit,
                    decreases self.entries@.len(),
                {
                    let used = self.memory_usage();
                    if used <= limit {
                        break;
                    }
                    proof {
                        use_type_invariant(&*self);
                    }
                    match self.least_recent(protect) {
                        None => {
                            proof {
                                assert forall|k: Seq<u8>| #[trigger] self@.contains_key(k) implies k == protect@ by {
                                    lemma_entries_contains(self.entries@, k);
                                }
                            }
                            break;
                        },
                        Some(i) => {
                            let ghost bent = self.entries@;
                            let ghost before = self@;
                            let e = self.remove_at(i);
                            proof {
                                let ke = e.key@;
                                assert forall|k1: Seq<u8>, k2: Seq<u8>|
                                    orig.contains_key(k1) && !self@.contains_key(k1) && #[trigger] self@.contains_key(k2) && k2 != protect@
                                        implies #[trigger] orig[k1].last_access <= orig[k2].last_access by {
                                    if k1 == ke {
                                        lemma_entries_contains(bent, k2);
                                        let j = choose|j: int| 0 <= j < bent.len() && #[trigger] bent[j].key@ == k2;
                                        lemma_entries_at(bent, j);
                                        assert(bent[i as int].last_accessed <= bent[j].last_accessed);
                                    }
                                }
                                assert(before.contains_key(ke) && before[ke] == orig[ke]);
                                assert(ke != protect@);
                                assert forall|j: Seq<u8>| orig.contains_key(j) && !self@.contains_key(j)
                                    implies #[trigger] orig[j].last_access <= orig[ke].last_access by {
                                    if j != ke {
                                        assert(!before.contains_key(j));
                                        assert(before.contains_key(ke));
                                    }
                                }
                                assert(self@.insert(ke, orig[ke]) =~= before);
                                last = ke;
                                assert(last_evicted(orig, self@, last));
                            }
                        },
                    }
                }
            },
        }
    }
}

} // verus!
