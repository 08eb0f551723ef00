use vstd::prelude::*;
use crate::bytes::{keys_of, copy_bytes, lemma_bytes_deep_view, lemma_first_pos};
use crate::hash::{hash_put, hash_put_in};
use crate::members::{set_add, set_add_in};
use crate::pairs::{remove_key, lemma_contains_push};
use crate::value::{Value, ValueModel, models_of, lemma_models_of, copy_value};
use crate::zset::{zadd, zadd_in, zsorted, order_key, after_flags, insert_pos};

verus! {

/// A value as the store keeps it: hash fields and set members each once, and
/// sorted-set members each once and in score order, all the way down arrays.
pub open spec fn wf(m: ValueModel) -> bool
    decreases m,
{
    match m {
        ValueModel::Hash(h) => keys_of(h).no_duplicates(),
        ValueModel::Members(s) => s.no_duplicates(),
        ValueModel::Zset(z) => keys_of(z).no_duplicates() && zsorted(z),
        ValueModel::Array(a) => wf_all(a),
        _ => true,
    }
}

pub open spec fn wf_all(a: Seq<ValueModel>) -> bool
    decreases a,
{
    if a.len() == 0 {
        true
    } else {
        wf_all(a.drop_last()) && wf(a.last())
    }
}

/// A hash built by setting each pair's field in turn: a repeated field keeps
/// its first place and its last value.
pub open spec fn hash_from(h: Seq<(Seq<u8>, Seq<u8>)>) -> Seq<(Seq<u8>, Seq<u8>)>
    decreases h.len(),
{
    if h.len() == 0 {
        h
    } else {
        hash_put(hash_from(h.drop_last()), h.last().0, h.last().1)
    }
}

/// A sorted set built by adding each entry in turn: a repeated member keeps
/// its last score, and the entries come in score order.
pub open spec fn zset_from(z: Seq<(Seq<u8>, u64)>) -> Seq<(Seq<u8>, u64)>
    decreases z.len(),
{
    if z.len() == 0 {
        z
    } else {
        zadd(zset_from(z.drop_last()), z.last().0, z.last().1).0
    }
}

/// The well-formed value that a value given whole is stored as.
pub open spec fn normalized(m: ValueModel) -> ValueModel
    decreases m,
{
    match m {
        ValueModel::Hash(h) => ValueModel::Hash(hash_from(h)),
        ValueModel::Members(s) => ValueModel::Members(set_add(Seq::empty(), s).0),
        ValueModel::Zset(z) => ValueModel::Zset(zset_from(z)),
        ValueModel::Array(a) => ValueModel::Array(normalized_all(a)),
        _ => m,
    }
}

pub open spec fn normalized_all(a: Seq<ValueModel>) -> Seq<ValueModel>
    decreases a,
{
    if a.len() == 0 {
        a
    } else {
        normalized_all(a.drop_last()).push(normalized(a.last()))
    }
}

pub proof fn lemma_normalized_all(a: Seq<ValueModel>)
    ensures
        normalized_all(a).len() == a.len(),
        forall|i: int| 0 <= i < a.len() ==> #[trigger] normalized_all(a)[i] == normalized(a[i]),
    decreases a.len(),
{
    if a.len() > 0 {
        lemma_normalized_all(a.drop_last());
    }
}

pub proof fn lemma_wf_all(a: Seq<ValueModel>)
    ensures
        wf_all(a) <==> forall|i: int| 0 <= i < a.len() ==> #[trigger] wf(a[i]),
    decreases a.len(),
{
    if a.len() > 0 {
        lemma_wf_all(a.drop_last());
        if forall|i: int| 0 <= i < a.len() ==> #[trigger] wf(a[i]) {
            assert forall|i: int| 0 <= i < a.drop_last().len() implies #[trigger] wf(a.drop_last()[i]) by {
                assert(wf(a[i]));
            }
            assert(wf(a[a.len() - 1]));
        }
        if wf_all(a) {
            assert forall|i: int| 0 <= i < a.len() implies #[trigger] wf(a[i]) by {
                if i < a.len() - 1 {
                    assert(a.drop_last()[i] == a[i]);
                }
            }
        }
    }
}

proof fn lemma_hash_from_distinct(h: Seq<(Seq<u8>, Seq<u8>)>)
    ensures
        keys_of(hash_from(h)).no_duplicates(),
    decreases h.len(),
{
    if h.len() > 0 {
        lemma_hash_from_distinct(h.drop_last());
        crate::laws::law_hset_keeps_fields_distinct(hash_from(h.drop_last()), h.last().0, h.last().1);
    } else {
        assert(keys_of(hash_from(h)) =~= Seq::<Seq<u8>>::empty());
    }
}

proof fn lemma_zset_from_ordered(z: Seq<(Seq<u8>, u64)>)
    ensures
        keys_of(zset_from(z)).no_duplicates(),
        zsorted(zset_from(z)),
    decreases z.len(),
{
    if z.len() > 0 {
        lemma_zset_from_ordered(z.drop_last());
        crate::laws::law_zadd_keeps_order(zset_from(z.drop_last()), z.last().0, z.last().1);
    } else {
        assert(keys_of(zset_from(z)) =~= Seq::<Seq<u8>>::empty());
    }
}

/// A value given whole is stored well-formed.
pub proof fn law_normalized_is_wf(m: ValueModel)
    ensures
        wf(normalized(m)),
    decreases m,
{
    match m {
        ValueModel::Hash(h) => lemma_hash_from_distinct(h),
        ValueModel::Members(s) => crate::laws::law_sadd(Seq::empty(), s),
        ValueModel::Zset(z) => lemma_zset_from_ordered(z),
        ValueModel::Array(a) => {
            lemma_normalized_all(a);
            lemma_wf_all(normalized_all(a));
            assert forall|i: int| 0 <= i < normalized_all(a).len() implies #[trigger] wf(normalized_all(a)[i]) by {
                law_normalized_is_wf(a[i]);
            }
        },
        _ => {},
    }
}

proof fn lemma_hash_from_same(h: Seq<(Seq<u8>, Seq<u8>)>)
    requires
        keys_of(h).no_duplicates(),
    ensures
        hash_from(h) == h,
    decreases h.len(),
{
    if h.len() > 0 {
        let init = h.drop_last();
        assert(keys_of(init) =~= keys_of(h).drop_last());
        assert forall|a: int, b: int| 0 <= a < keys_of(init).len() && 0 <= b < keys_of(init).len() && a != b implies keys_of(init)[a] != keys_of(init)[b] by {
            assert(keys_of(h)[a] != keys_of(h)[b]);
        }
        lemma_hash_from_same(init);
        lemma_first_pos(keys_of(init), h.last().0);
        if keys_of(init).contains(h.last().0) {
            let j = choose|j: int| 0 <= j < keys_of(init).len() && keys_of(init)[j] == h.last().0;
            assert(keys_of(h)[j] == keys_of(h)[h.len() - 1]);
        }
        assert(init.push((h.last().0, h.last().1)) =~= h);
    }
}

proof fn lemma_set_add_same(s: Seq<Seq<u8>>)
    requires
        s.no_duplicates(),
    ensures
        set_add(Seq::empty(), s).0 == s,
    decreases s.len(),
{
    if s.len() > 0 {
        let init = s.drop_last();
        assert forall|a: int, b: int| 0 <= a < init.len() && 0 <= b < init.len() && a != b implies init[a] != init[b] by {
            assert(s[a] != s[b]);
        }
        lemma_set_add_same(init);
        if init.contains(s.last()) {
            let j = choose|j: int| 0 <= j < init.len() && init[j] == s.last();
            assert(s[j] == s[s.len() - 1]);
        }
        assert(init.push(s.last()) =~= s);
    }
}

proof fn lemma_remove_absent_key<V>(s: Seq<(Seq<u8>, V)>, k: Seq<u8>)
    requires
        !keys_of(s).contains(k),
    ensures
        remove_key(s, k) == s,
    decreases s.len(),
{
    if s.len() > 0 {
        let init = s.drop_last();
        assert(keys_of(s) =~= keys_of(init).push(s.last().0));
        lemma_contains_push(keys_of(init), k, s.last().0);
        lemma_remove_absent_key(init, k);
        assert(init.push(s.last()) =~= s);
        assert(keys_of(s)[s.len() - 1] == s.last().0);
    }
}

proof fn lemma_zset_from_same(z: Seq<(Seq<u8>, u64)>)
    requires
        keys_of(z).no_duplicates(),
        zsorted(z),
    ensures
        zset_from(z) == z,
    decreases z.len(),
{
    if z.len() > 0 {
        let init = z.drop_last();
        let (m, bits) = z.last();
        assert(keys_of(init) =~= keys_of(z).drop_last());
        assert forall|a: int, b: int| 0 <= a < keys_of(init).len() && 0 <= b < keys_of(init).len() && a != b implies keys_of(init)[a] != keys_of(init)[b] by {
            assert(keys_of(z)[a] != keys_of(z)[b]);
        }
        assert forall|i: int, j: int| 0 <= i <= j < init.len() implies order_key(init[i].1) <= order_key(init[j].1) by {
            assert(init[i] == z[i] && init[j] == z[j]);
        }
        lemma_zset_from_same(init);
        if keys_of(init).contains(m) {
            let j = choose|j: int| 0 <= j < keys_of(init).len() && keys_of(init)[j] == m;
            assert(keys_of(z)[j] == keys_of(z)[z.len() - 1]);
        }
        lemma_remove_absent_key(init, m);
        let flags = after_flags(init, order_key(bits));
        flags.index_of_first_ensures(true);
        assert(!flags.contains(true)) by {
            if flags.contains(true) {
                let i = choose|i: int| 0 <= i < flags.len() && flags[i] == true;
                assert(order_key(z[i].1) <= order_key(z[z.len() - 1].1));
            }
        }
        assert(insert_pos(init, order_key(bits)) == init.len());
        assert(init.insert(init.len() as int, (m, bits)) =~= z);
    }
}

/// A well-formed value is stored as it is given.
pub proof fn law_normalized_keeps_wf(m: ValueModel)
    requires
        wf(m),
    ensures
        normalized(m) == m,
    decreases m,
{
    match m {
        ValueModel::Hash(h) => lemma_hash_from_same(h),
        ValueModel::Members(s) => lemma_set_add_same(s),
        ValueModel::Zset(z) => lemma_zset_from_same(z),
        ValueModel::Array(a) => {
            lemma_normalized_all(a);
            lemma_wf_all(a);
            assert forall|i: int| 0 <= i < a.len() implies #[trigger] normalized_all(a)[i] == a[i] by {
                law_normalized_keeps_wf(a[i]);
            }
            assert(normalized_all(a) =~= a);
        },
        _ => {},
    }
}

/// The stored form of each of a sequence of values is well-formed.
pub(crate) proof fn lemma_normalized_all_wf(vs: Seq<ValueModel>)
    ensures
        wf_all(normalized_all(vs)),
{
    lemma_normalized_all(vs);
    lemma_wf_all(normalized_all(vs));
    assert forall|i: int| 0 <= i < normalized_all(vs).len() implies #[trigger] wf(normalized_all(vs)[i]) by {
        law_normalized_is_wf(vs[i]);
    }
}

/// Builds the stored form of a value given whole.
pub fn normalize_value(v: &Value) -> (r: Value)
    ensures
        r.model() == normalized(v.model()),
        wf(r.model()),
    decreases v,
{
    broadcast use vstd::std_specs::vec::axiom_vec_index_decreases;

    proof {
        law_normalized_is_wf(v.model());
    }
    match v {
        Value::Hash(p) => {
            let ghost d = p.deep_view();
            let mut out: Vec<(Vec<u8>, Vec<u8>)> = Vec::new();
            let mut i: usize = 0;
            proof {
                assert(d.take(0) =~= Seq::<(Seq<u8>, Seq<u8>)>::empty());
                assert(out.deep_view() =~= Seq::<(Seq<u8>, Seq<u8>)>::empty());
            }
            while i < p.len()
                invariant
                    d == p.deep_view(),
                    0 <= i <= p@.len(),
                    out.deep_view() == hash_from(d.take(i as int)),
                decreases p@.len() - i,
            {
                proof {
                    assert(d.take(i + 1).drop_last() =~= d.take(i as int));
                    lemma_bytes_deep_view(&p@[i as int].0);
                    lemma_bytes_deep_view(&p@[i as int].1);
                }
                let val = copy_bytes(p[i].1.as_slice());
                let _added = hash_put_in(&mut out, p[i].0.as_slice(), val);
                i = i + 1;
            }
            proof {
                assert(d.take(p@.len() as int) =~= d);
            }
            Value::Hash(out)
        },
        Value::Members(s) => {
            let mut out: Vec<Vec<u8>> = Vec::new();
            proof {
                assert(out.deep_view() =~= Seq::<Seq<u8>>::empty());
            }
            let _n = set_add_in(&mut out, s);
            Value::Members(out)
        },
        Value::SortedSet(z) => {
            let ghost d = z.deep_view();
            let mut out: Vec<(Vec<u8>, u64)> = Vec::new();
            let mut i: usize = 0;
            proof {
                assert(d.take(0) =~= Seq::<(Seq<u8>, u64)>::empty());
                assert(out.deep_view() =~= Seq::<(Seq<u8>, u64)>::empty());
            }
            while i < z.len()
                invariant
                    d == z.deep_view(),
                    0 <= i <= z@.len(),
                    out.deep_view() == zset_from(d.take(i as int)),
                decreases z@.len() - i,
            {
                proof {
                    assert(d.take(i + 1).drop_last() =~= d.take(i as int));
                    lemma_bytes_deep_view(&z@[i as int].0);
                }
                let _added = zadd_in(&mut out, z[i].0.as_slice(), z[i].1);
                i = i + 1;
            }
            proof {
                assert(d.take(z@.len() as int) =~= d);
            }
            Value::SortedSet(out)
        },
        Value::Array(a) => Value::Array(normalize_values(a)),
        _ => copy_value(v),
    }
}

/// Builds the stored form of each of a sequence of values.
pub fn normalize_values(a: &Vec<Value>) -> (r: Vec<Value>)
    ensures
        models_of(r@) == normalized_all(models_of(a@)),
        wf_all(models_of(r@)),
    decreases a,
{
    broadcast use vstd::std_specs::vec::axiom_vec_index_decreases;

    let mut out: Vec<Value> = Vec::new();
    let mut i: usize = 0;
    while i < a.len()
        invariant
            0 <= i <= a@.len(),
            out@.len() == i,
            forall|j: int| 0 <= j < i ==> #[trigger] out@[j].model() == normalized(a@[j].model()),
        decreases a@.len() - i,
    {
        let c = normalize_value(&a[i]);
        out.push(c);
        i = i + 1;
    }
    proof {
        lemma_models_of(out@);
        lemma_models_of(a@);
        lemma_normalized_all(models_of(a@));
        assert(models_of(out@) =~= normalized_all(models_of(a@)));
        lemma_normalized_all_wf(models_of(a@));
    }
    out
}

} // verus!
