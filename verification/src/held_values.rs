use vstd::prelude::*;
use crate::array::array_update;
use crate::bytes::keys_of;
use crate::laws::{
    law_hset_keeps_fields_distinct, law_sadd, law_zadd_keeps_order,
    lemma_remove_key_sorted,
};
use crate::model::{
    StoreModel, Record, purge, touch, rewrite, fresh, set_op, set_with_ttl_ms_op, get_op, delete_op,
    incr_op, decr_op, reset_op, expire_op, persist_op, hset_op, hdel_op, lpush_op, rpush_op,
    lpop_op, rpop_op, sadd_op, srem_op, zadd_op, zrem_op, array_set_op, array_update_op,
    array_append_op, lru_evicted, mset_op, mget_op, mdel_op, store_wf,
};
use crate::pairs::{del_keys, del_all, lemma_remove_key, lemma_remove_all};
use crate::value::ValueModel;
use crate::wellformed::{
    wf, wf_all, lemma_wf_all, normalized, normalized_all, law_normalized_is_wf, lemma_normalized_all_wf,
};
use crate::zset::zsorted;

verus! {

proof fn lemma_wf_insert(m: StoreModel, k: Seq<u8>, r: Record)
    requires
        store_wf(m),
        wf(r.value),
    ensures
        store_wf(m.insert(k, r)),
{
    assert forall|j: Seq<u8>| #[trigger] m.insert(k, r).contains_key(j) implies wf(m.insert(k, r)[j].value) by {
        if j != k {
            assert(m.contains_key(j));
        }
    }
}

proof fn lemma_wf_purge(m: StoreModel, k: Seq<u8>, now: u64)
    requires
        store_wf(m),
    ensures
        store_wf(purge(m, k, now)),
        store_wf(touch(purge(m, k, now), k, now)),
        store_wf(purge(m, k, now).remove(k)),
{
    let p = purge(m, k, now);
    assert forall|j: Seq<u8>| #[trigger] p.contains_key(j) implies wf(p[j].value) by {
        assert(m.contains_key(j));
    }
    assert forall|j: Seq<u8>| #[trigger] p.remove(k).contains_key(j) implies wf(p.remove(k)[j].value) by {
        assert(p.contains_key(j));
    }
    if p.contains_key(k) {
        lemma_wf_insert(p, k, Record { last_access: now, ..p[k] });
    }
}

proof fn lemma_wf_rewrite(p: StoreModel, k: Seq<u8>, v: ValueModel, now: u64)
    requires
        store_wf(p),
        p.contains_key(k),
        wf(v),
    ensures
        store_wf(rewrite(p, k, v, now)),
{
    lemma_wf_insert(p, k, Record { value: v, expires_at: p[k].expires_at, last_access: now });
}

pub(crate) proof fn lemma_del_keys_distinct<V>(s: Seq<(Seq<u8>, V)>, ks: Seq<Seq<u8>>)
    requires
        keys_of(s).no_duplicates(),
    ensures
        keys_of(del_keys(s, ks).0).no_duplicates(),
    decreases ks.len(),
{
    if ks.len() > 0 {
        lemma_del_keys_distinct(s, ks.drop_last());
        lemma_remove_key(del_keys(s, ks.drop_last()).0, ks.last());
    }
}

pub(crate) proof fn lemma_del_keys_sorted(z: Seq<(Seq<u8>, u64)>, ks: Seq<Seq<u8>>)
    requires
        zsorted(z),
    ensures
        zsorted(del_keys(z, ks).0),
    decreases ks.len(),
{
    if ks.len() > 0 {
        lemma_del_keys_sorted(z, ks.drop_last());
        lemma_remove_key_sorted(del_keys(z, ks.drop_last()).0, ks.last());
    }
}

pub(crate) proof fn lemma_del_all_distinct(s: Seq<Seq<u8>>, xs: Seq<Seq<u8>>)
    requires
        s.no_duplicates(),
    ensures
        del_all(s, xs).0.no_duplicates(),
    decreases xs.len(),
{
    if xs.len() > 0 {
        lemma_del_all_distinct(s, xs.drop_last());
        lemma_remove_all(del_all(s, xs.drop_last()).0, xs.last());
    }
}

pub(crate) proof fn lemma_array_update_wf(a: Seq<ValueModel>, ups: Seq<(usize, ValueModel)>)
    requires
        wf_all(a),
        forall|j: int| 0 <= j < ups.len() ==> wf(#[trigger] ups[j].1),
    ensures
        wf_all(array_update(a, ups).0),
    decreases ups.len(),
{
    if ups.len() > 0 {
        let init = ups.drop_last();
        assert forall|j: int| 0 <= j < init.len() implies wf(#[trigger] init[j].1) by {
            assert(init[j] == ups[j]);
        }
        lemma_array_update_wf(a, init);
        let a1 = array_update(a, init).0;
        let (i, v) = ups.last();
        assert(wf(ups[ups.len() - 1].1));
        if (i as int) < a1.len() {
            lemma_wf_all(a1);
            lemma_wf_all(a1.update(i as int, v));
            assert forall|j: int| 0 <= j < a1.len() implies #[trigger] wf(a1.update(i as int, v)[j]) by {
                if j != i {
                    assert(wf(a1[j]));
                }
            }
        }
    }
}

/// Two sequences of well-formed values make one.
pub(crate) proof fn lemma_wf_all_concat(a: Seq<ValueModel>, b: Seq<ValueModel>)
    requires
        wf_all(a),
        wf_all(b),
    ensures
        wf_all(a + b),
{
    lemma_wf_all(a);
    lemma_wf_all(b);
    lemma_wf_all(a + b);
    assert forall|i: int| 0 <= i < (a + b).len() implies #[trigger] wf((a + b)[i]) by {
        if i < a.len() {
            assert(wf(a[i]));
        } else {
            assert(wf(b[i - a.len()]));
        }
    }
}

/// Writes of whole values, reads, deletes, expiry changes and counters keep
/// every held value well-formed.
pub proof fn law_key_commands_keep_values_wf(m: StoreModel, k: Seq<u8>, v: ValueModel, ms: u64, secs: u64, now: u64)
    requires
        store_wf(m),
    ensures
        store_wf(set_op(m, k, v, now).0),
        store_wf(set_with_ttl_ms_op(m, k, v, ms, now)),
        store_wf(get_op(m, k, now).0),
        store_wf(delete_op(m, k, now).0),
        store_wf(incr_op(m, k, now).0),
        store_wf(decr_op(m, k, now).0),
        store_wf(reset_op(m, k, now).0),
        store_wf(expire_op(m, k, secs, now).0),
        store_wf(persist_op(m, k, now).0),
{
    lemma_wf_purge(m, k, now);
    let p = purge(m, k, now);
    law_normalized_is_wf(v);
    lemma_wf_insert(p, k, fresh(normalized(v), now));
    lemma_wf_insert(p, k, fresh(ValueModel::Int(1), now));
    lemma_wf_insert(p, k, fresh(ValueModel::Int(0), now));
    lemma_wf_insert(p, k, Record { value: normalized(v), expires_at: Some(crate::model::deadline(now, ms)), last_access: now });
    if p.contains_key(k) {
        match p[k].value {
            ValueModel::Int(i) => {
                lemma_wf_rewrite(p, k, ValueModel::Int(crate::model::wrap_incr(i)), now);
                if i > 0 {
                    lemma_wf_rewrite(p, k, ValueModel::Int((i - 1) as i64), now);
                }
                lemma_wf_rewrite(p, k, ValueModel::Int(0), now);
            },
            _ => {},
        }
        lemma_wf_insert(p, k, Record { expires_at: Some(crate::model::deadline(now, crate::model::secs_to_ms(secs))), last_access: now, ..p[k] });
        lemma_wf_insert(p, k, Record { expires_at: None, last_access: now, ..p[k] });
    }
}

/// Multi-key reads, writes and deletes keep every held value well-formed.
pub proof fn law_multi_commands_keep_values_wf(m: StoreModel, ks: Seq<Seq<u8>>, kvs: Seq<(Seq<u8>, ValueModel)>, now: u64)
    requires
        store_wf(m),
    ensures
        store_wf(mset_op(m, kvs, now)),
        store_wf(mget_op(m, ks, now).0),
        store_wf(mdel_op(m, ks, now).0),
    decreases ks.len() + kvs.len(),
{
    if kvs.len() > 0 {
        law_multi_commands_keep_values_wf(m, Seq::empty(), kvs.drop_last(), now);
        law_key_commands_keep_values_wf(mset_op(m, kvs.drop_last(), now), kvs.last().0, kvs.last().1, 0, 0, now);
    }
    if ks.len() > 0 {
        law_multi_commands_keep_values_wf(m, ks.drop_last(), Seq::empty(), now);
        law_key_commands_keep_values_wf(mget_op(m, ks.drop_last(), now).0, ks.last(), ValueModel::Int(0), 0, 0, now);
        law_key_commands_keep_values_wf(mdel_op(m, ks.drop_last(), now).0, ks.last(), ValueModel::Int(0), 0, 0, now);
    }
}

/// Every hash and set command keeps every held value well-formed.
pub proof fn law_hash_and_set_commands_keep_values_wf(m: StoreModel, k: Seq<u8>, f: Seq<u8>, v: Seq<u8>, xs: Seq<Seq<u8>>, now: u64)
    requires
        store_wf(m),
    ensures
        store_wf(hset_op(m, k, f, v, now).0),
        store_wf(hdel_op(m, k, xs, now).0),
        store_wf(sadd_op(m, k, xs, now).0),
        store_wf(srem_op(m, k, xs, now).0),
{
    lemma_wf_purge(m, k, now);
    let p = purge(m, k, now);
    assert(keys_of(seq![(f, v)]).no_duplicates());
    lemma_wf_insert(p, k, fresh(ValueModel::Hash(seq![(f, v)]), now));
    law_sadd(Seq::empty(), xs);
    lemma_wf_insert(p, k, fresh(ValueModel::Members(crate::members::set_add(Seq::empty(), xs).0), now));
    if p.contains_key(k) {
        match p[k].value {
            ValueModel::Hash(h) => {
                law_hset_keeps_fields_distinct(h, f, v);
                lemma_wf_rewrite(p, k, ValueModel::Hash(crate::hash::hash_put(h, f, v)), now);
                lemma_del_keys_distinct(h, xs);
                lemma_wf_rewrite(p, k, ValueModel::Hash(del_keys(h, xs).0), now);
            },
            ValueModel::Members(s) => {
                law_sadd(s, xs);
                lemma_wf_rewrite(p, k, ValueModel::Members(crate::members::set_add(s, xs).0), now);
                lemma_del_all_distinct(s, xs);
                lemma_wf_rewrite(p, k, ValueModel::Members(del_all(s, xs).0), now);
            },
            _ => {},
        }
    }
}

/// Every list and sorted-set command keeps every held value well-formed.
pub proof fn law_list_and_zset_commands_keep_values_wf(m: StoreModel, k: Seq<u8>, bits: u64, x: Seq<u8>, xs: Seq<Seq<u8>>, now: u64)
    requires
        store_wf(m),
    ensures
        store_wf(lpush_op(m, k, xs, now).0),
        store_wf(rpush_op(m, k, xs, now).0),
        store_wf(lpop_op(m, k, now).0),
        store_wf(rpop_op(m, k, now).0),
        store_wf(zadd_op(m, k, bits, x, now).0),
        store_wf(zrem_op(m, k, xs, now).0),
{
    lemma_wf_purge(m, k, now);
    let p = purge(m, k, now);
    lemma_wf_insert(p, k, fresh(ValueModel::List(crate::list::lpush(Seq::empty(), xs)), now));
    lemma_wf_insert(p, k, fresh(ValueModel::List(xs), now));
    let e = Seq::<(Seq<u8>, u64)>::empty();
    assert(keys_of(e) =~= Seq::<Seq<u8>>::empty());
    law_zadd_keeps_order(e, x, bits);
    lemma_wf_insert(p, k, fresh(ValueModel::Zset(crate::zset::zadd(e, x, bits).0), now));
    if p.contains_key(k) {
        match p[k].value {
            ValueModel::List(l) => {
                lemma_wf_rewrite(p, k, ValueModel::List(crate::list::lpush(l, xs)), now);
                lemma_wf_rewrite(p, k, ValueModel::List(l + xs), now);
                lemma_wf_rewrite(p, k, ValueModel::List(crate::list::lpop(l).0), now);
                lemma_wf_rewrite(p, k, ValueModel::List(crate::list::rpop(l).0), now);
            },
            ValueModel::Zset(z) => {
                law_zadd_keeps_order(z, x, bits);
                lemma_wf_rewrite(p, k, ValueModel::Zset(crate::zset::zadd(z, x, bits).0), now);
                lemma_del_keys_distinct(z, xs);
                lemma_del_keys_sorted(z, xs);
                lemma_wf_rewrite(p, k, ValueModel::Zset(del_keys(z, xs).0), now);
            },
            _ => {},
        }
    }
}

/// Every array command keeps every held value well-formed.
pub proof fn law_array_commands_keep_values_wf(m: StoreModel, k: Seq<u8>, vs: Seq<ValueModel>, ups: Seq<(usize, ValueModel)>, now: u64)
    requires
        store_wf(m),
        forall|j: int| 0 <= j < ups.len() ==> wf(#[trigger] ups[j].1),
    ensures
        store_wf(array_set_op(m, k, vs, now)),
        store_wf(array_update_op(m, k, ups, now).0),
        store_wf(array_append_op(m, k, vs, now).0),
{
    lemma_wf_purge(m, k, now);
    let p = purge(m, k, now);
    lemma_normalized_all_wf(vs);
    lemma_wf_insert(p, k, fresh(ValueModel::Array(normalized_all(vs)), now));
    if p.contains_key(k) {
        match p[k].value {
            ValueModel::Array(a) => {
                assert(wf(p[k].value));
                lemma_array_update_wf(a, ups);
                lemma_wf_rewrite(p, k, ValueModel::Array(array_update(a, ups).0), now);
                lemma_wf_all_concat(a, normalized_all(vs));
                lemma_wf_rewrite(p, k, ValueModel::Array(a + normalized_all(vs)), now);
            },
            _ => {},
        }
    }
}

/// Eviction keeps every held value well-formed.
pub proof fn law_eviction_keeps_values_wf(before: StoreModel, after: StoreModel, k: Seq<u8>, limit: Option<u64>)
    requires
        store_wf(before),
        lru_evicted(before, after, k, limit),
    ensures
        store_wf(after),
{
    assert forall|j: Seq<u8>| #[trigger] after.contains_key(j) implies wf(after[j].value) by {
        assert(before.contains_key(j));
    }
}

} // verus!
