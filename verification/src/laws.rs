use vstd::prelude::*;
use crate::bytes::{keys_of, first_pos, lemma_first_pos};
use crate::model::{
    StoreModel, DomainError, live, lookup, purge, get_op, set_op, delete_op, incr_op, decr_op,
    reset_op, expire_op, ttl_op, persist_op, set_with_ttl_ms_op, hset_op, hget_op,
    lru_evicted, last_evicted, store_usage,
};
use crate::snapshot::{lists_contents, restore_op};
use crate::value::ValueModel;
use crate::bytes::{lemma_first_pos_at, lemma_first_pos_none};
use crate::hash::{hash_get, hash_put};
use crate::list::{lpush, lpop, rpop, lrange};
use crate::members::set_add;
use crate::pairs::{remove_key, lemma_remove_key, del_keys, del_all, lemma_remove_all, lemma_contains_push};
use crate::zset::{zadd, zscore, zsorted, zrange, order_key, after_flags, insert_pos};
use crate::array::array_get;
use crate::model::{array_set_op, array_get_op, store_wf, fresh};
use crate::wellformed::{wf, normalized, normalized_all, law_normalized_keeps_wf};

verus! {

/// A value just written under a key is what a later read of that key gets back,
/// whenever the read happens (a plain write drops any expiry): the value itself
/// when it is well-formed, else its well-formed form.
pub proof fn law_read_after_write(m: StoreModel, k: Seq<u8>, v: ValueModel, now: u64, later: u64)
    ensures
        get_op(set_op(m, k, v, now).0, k, later).1 == Some(normalized(v)),
        wf(v) ==> get_op(set_op(m, k, v, now).0, k, later).1 == Some(v),
{
    if wf(v) {
        law_normalized_keeps_wf(v);
    }
}

/// Writing a key reports it as new exactly when no live value was under it,
/// and a second write of the same key reports it as not new.
pub proof fn law_write_reports_new_key(m: StoreModel, k: Seq<u8>, v: ValueModel, w: ValueModel, now: u64)
    ensures
        set_op(m, k, v, now).1 == !live(m, k, now),
        set_op(set_op(m, k, v, now).0, k, w, now).1 == false,
        get_op(set_op(set_op(m, k, v, now).0, k, w, now).0, k, now).1 == Some(normalized(w)),
{
}

/// After a key is deleted a read of it finds nothing, and the delete gave back
/// the value that a read would have seen.
pub proof fn law_delete_then_read(m: StoreModel, k: Seq<u8>, now: u64, later: u64)
    ensures
        get_op(delete_op(m, k, now).0, k, later).1 is None,
        delete_op(m, k, now).1 == lookup(m, k, now),
{
}

/// A write to one key leaves every other key as it was.
pub proof fn law_write_isolated(m: StoreModel, k: Seq<u8>, v: ValueModel, now: u64, other: Seq<u8>)
    requires
        other != k,
    ensures
        set_op(m, k, v, now).0.contains_key(other) == m.contains_key(other),
        m.contains_key(other) ==> set_op(m, k, v, now).0[other] == m[other],
{
}

/// A read finds nothing under a key whose lifetime has run out.
pub proof fn law_expired_key_is_gone(m: StoreModel, k: Seq<u8>, now: u64)
    requires
        m.contains_key(k),
        m[k].expires_at matches Some(t) && t <= now,
    ensures
        get_op(m, k, now).1 is None,
        !get_op(m, k, now).0.contains_key(k),
{
}

/// A counter incremented and then decremented is back where it was, for every
/// count from zero up to (not including) the largest `i64`.
pub proof fn law_incr_then_decr(m: StoreModel, k: Seq<u8>, i: i64, now: u64)
    requires
        live(m, k, now),
        m[k].value == ValueModel::Int(i),
        0 <= i < i64::MAX,
    ensures
        incr_op(m, k, now).1 == Ok::<i64, DomainError>((i + 1) as i64),
        decr_op(incr_op(m, k, now).0, k, now).1 == Ok::<i64, DomainError>(i),
        get_op(decr_op(incr_op(m, k, now).0, k, now).0, k, now).1 == Some(ValueModel::Int(i)),
{
}

/// A decrement never yields a negative count.
pub proof fn law_decr_never_negative(m: StoreModel, k: Seq<u8>, now: u64)
    ensures
        decr_op(m, k, now).1 matches Ok(n) ==> n >= 0,
{
}

/// A missing counter starts from zero: incrementing it gives one.
pub proof fn law_incr_missing_is_one(m: StoreModel, k: Seq<u8>, now: u64)
    requires
        !live(m, k, now),
    ensures
        incr_op(m, k, now).1 == Ok::<i64, DomainError>(1),
{
}

/// After a reset the counter reads zero.
pub proof fn law_reset_reads_zero(m: StoreModel, k: Seq<u8>, now: u64)
    requires
        reset_op(m, k, now).1 is Ok,
    ensures
        get_op(reset_op(m, k, now).0, k, now).1 == Some(ValueModel::Int(0)),
{
}

/// A command refused for the wrong kind of value changes nothing.
pub proof fn law_wrong_type_changes_nothing(m: StoreModel, k: Seq<u8>, f: Seq<u8>, v: Seq<u8>, now: u64)
    requires
        live(m, k, now),
        !(m[k].value is Hash),
    ensures
        hset_op(m, k, f, v, now) == (m, Err::<bool, DomainError>(DomainError::WrongType)),
        hget_op(m, k, f, now).0 == m,
        hget_op(m, k, f, now).1 == Err::<Option<Seq<u8>>, DomainError>(DomainError::WrongType),
{
}

/// A key given a lifetime of `secs > 0` seconds has between one and
/// `secs * 1000` milliseconds left at once; one given zero seconds is gone.
pub proof fn law_expire_then_ttl(m: StoreModel, k: Seq<u8>, secs: u64, now: u64)
    requires
        live(m, k, now),
        secs <= u64::MAX / 1000,
        now + secs * 1000 <= u64::MAX,
    ensures
        expire_op(m, k, secs, now).1,
        secs > 0 ==> 0 < ttl_op(expire_op(m, k, secs, now).0, k, now).1 <= secs * 1000,
        secs == 0 ==> get_op(expire_op(m, k, secs, now).0, k, now).1 is None,
{
}

/// A key written with a lifetime of `ms` milliseconds is readable before the
/// lifetime ends and gone from then on.
pub proof fn law_ttl_write_expires(m: StoreModel, k: Seq<u8>, v: ValueModel, ms: u64, now: u64, later: u64)
    requires
        now + ms <= u64::MAX,
    ensures
        later < now + ms ==> get_op(set_with_ttl_ms_op(m, k, v, ms, now), k, later).1 == Some(normalized(v)),
        later >= now + ms ==> get_op(set_with_ttl_ms_op(m, k, v, ms, now), k, later).1 is None,
{
}

/// After persist a present key has no expiry (a ttl of -1); a missing key has
/// a ttl of -2; a plain write drops any expiry.
pub proof fn law_persist_and_ttl(m: StoreModel, k: Seq<u8>, v: ValueModel, now: u64)
    ensures
        live(m, k, now) ==> ttl_op(persist_op(m, k, now).0, k, now).1 == -1,
        !live(m, k, now) ==> ttl_op(m, k, now).1 == -2,
        ttl_op(set_op(m, k, v, now).0, k, now).1 == -1,
{
}

/// Without a memory limit, eviction changes nothing. With one: a store within
/// the limit is left as it is; the key just written is never evicted; every
/// evicted key was used no later than every other key kept; the store ends
/// within the limit unless the written key is all that is left; and eviction
/// stops as soon as the store fits, so putting back the most recently used
/// evicted key would take it over the limit.
pub proof fn law_eviction_is_lru_and_minimal(before: StoreModel, after: StoreModel, k: Seq<u8>, limit: Option<u64>)
    requires
        lru_evicted(before, after, k, limit),
    ensures
        limit is None ==> after == before,
        limit matches Some(l) ==> (store_usage(before) <= l ==> after == before),
        before.contains_key(k) ==> after.contains_key(k) && after[k] == before[k],
        forall|gone: Seq<u8>, kept: Seq<u8>|
            before.contains_key(gone) && !after.contains_key(gone) && after.contains_key(kept) && kept != k
                ==> before[gone].last_access <= before[kept].last_access,
        limit matches Some(l) ==> store_usage(after) <= l || after.dom().subset_of(set![k]),
        limit matches Some(l) ==> ((exists|g: Seq<u8>| before.contains_key(g) && !after.contains_key(g)) ==> exists|g: Seq<u8>|
            last_evicted(before, after, g) && store_usage(after.insert(g, before[g])) > l),
{
    if limit is Some {
        assert forall|gone: Seq<u8>, kept: Seq<u8>|
            before.contains_key(gone) && !after.contains_key(gone) && after.contains_key(kept) && kept != k
                implies before[gone].last_access <= before[kept].last_access by {
            assert(after.contains_key(kept));
        }
        if exists|g: Seq<u8>| before.contains_key(g) && !after.contains_key(g) {
            let g = choose|g: Seq<u8>| before.contains_key(g) && !after.contains_key(g);
            assert(before.contains_key(g) && !after.contains_key(g));
        }
    }
}

/// A read of a live key marks it as used at the time of the read, and changes
/// nothing else about it.
pub proof fn law_read_marks_use(m: StoreModel, k: Seq<u8>, now: u64)
    requires
        live(m, k, now),
    ensures
        get_op(m, k, now).0[k].last_access == now,
        get_op(m, k, now).0[k].value == m[k].value,
        get_op(m, k, now).0[k].expires_at == m[k].expires_at,
{
}

proof fn lemma_restore(m0: StoreModel, pairs: Seq<(Seq<u8>, ValueModel)>, now: u64, k: Seq<u8>)
    requires
        keys_of(pairs).no_duplicates(),
    ensures
        restore_op(m0, pairs, now).contains_key(k) == (m0.contains_key(k) || keys_of(pairs).contains(k)),
        forall|i: int| 0 <= i < pairs.len() && #[trigger] pairs[i].0 == k ==> restore_op(m0, pairs, now)[k] == fresh(normalized(pairs[i].1), now),
    decreases pairs.len(),
{
    if pairs.len() > 0 {
        let init = pairs.drop_last();
        assert(keys_of(init) =~= keys_of(pairs).drop_last());
        lemma_restore(m0, init, now, k);
        assert(keys_of(pairs) =~= keys_of(init).push(pairs.last().0));
        crate::pairs::lemma_contains_push(keys_of(init), k, pairs.last().0);
        assert forall|i: int| 0 <= i < pairs.len() && #[trigger] pairs[i].0 == k implies restore_op(m0, pairs, now)[k] == fresh(normalized(pairs[i].1), now) by {
            if i < pairs.len() - 1 && k == pairs.last().0 {
                assert(keys_of(pairs)[i] == keys_of(pairs)[pairs.len() - 1]);
            }
            if i < pairs.len() - 1 {
                assert(init[i] == pairs[i]);
            }
        }
    }
}

/// Restoring into an empty store the entries listed from a store at `now`
/// gives back every key live at `now` and no other key, each with no expiry
/// and with the value it held. A store holds only well-formed values (its
/// listing says so), and those come back exactly; any other value would come
/// back in its well-formed form.
pub proof fn law_snapshot_round_trip(m: StoreModel, pairs: Seq<(Seq<u8>, ValueModel)>, now: u64, later: u64, k: Seq<u8>)
    requires
        lists_contents(m, pairs, now),
    ensures
        restore_op(Map::empty(), pairs, later).contains_key(k) == live(m, k, now),
        live(m, k, now) ==> restore_op(Map::empty(), pairs, later)[k] == fresh(normalized(m[k].value), later),
        live(m, k, now) && store_wf(m) ==> restore_op(Map::empty(), pairs, later)[k] == fresh(m[k].value, later),
{
    if live(m, k, now) && store_wf(m) {
        law_normalized_keeps_wf(m[k].value);
    }
    lemma_restore(Map::empty(), pairs, later, k);
    if live(m, k, now) {
        let i = choose|i: int| 0 <= i < keys_of(pairs).len() && keys_of(pairs)[i] == k;
        assert(pairs[i].0 == k);
    }
    if keys_of(pairs).contains(k) {
        let i = choose|i: int| 0 <= i < keys_of(pairs).len() && keys_of(pairs)[i] == k;
        assert(pairs[i].0 == k);
    }
}

/// The value just set for a field is what a read of that field gives.
pub proof fn law_hget_after_hset(h: Seq<(Seq<u8>, Seq<u8>)>, f: Seq<u8>, v: Seq<u8>)
    ensures
        hash_get(hash_put(h, f, v), f) == Some(v),
{
    lemma_first_pos(keys_of(h), f);
    match first_pos(keys_of(h), f) {
        Some(i) => {
            let h2 = h.update(i, (f, v));
            assert(keys_of(h2) =~= keys_of(h));
            lemma_first_pos_at(keys_of(h2), f, i);
        },
        None => {
            let h2 = h.push((f, v));
            assert(keys_of(h2) =~= keys_of(h).push(f));
            assert forall|j: int| 0 <= j < h.len() implies keys_of(h2)[j] != f by {
                assert(keys_of(h)[j] == keys_of(h2)[j]);
            }
            lemma_first_pos_at(keys_of(h2), f, h.len() as int);
        },
    }
}

/// Setting a field keeps the fields distinct: a new field adds one to the
/// length, a present one none.
pub proof fn law_hset_keeps_fields_distinct(h: Seq<(Seq<u8>, Seq<u8>)>, f: Seq<u8>, v: Seq<u8>)
    requires
        keys_of(h).no_duplicates(),
    ensures
        keys_of(hash_put(h, f, v)).no_duplicates(),
        hash_put(h, f, v).len() == h.len() + if keys_of(h).contains(f) { 0int } else { 1int },
{
    lemma_first_pos(keys_of(h), f);
    match first_pos(keys_of(h), f) {
        Some(i) => {
            assert(keys_of(h.update(i, (f, v))) =~= keys_of(h));
        },
        None => {
            let h2 = h.push((f, v));
            assert(keys_of(h2) =~= keys_of(h).push(f));
            assert forall|a: int, b: int| 0 <= a < keys_of(h2).len() && 0 <= b < keys_of(h2).len() && a != b implies keys_of(h2)[a] != keys_of(h2)[b] by {
                if a < h.len() && b < h.len() {
                    assert(keys_of(h)[a] != keys_of(h)[b]);
                } else if a < h.len() {
                    assert(keys_of(h)[a] == keys_of(h2)[a]);
                } else {
                    assert(keys_of(h)[b] == keys_of(h2)[b]);
                }
            }
        },
    }
}

/// After fields are deleted the hash has none of them.
pub proof fn law_hdel_removes(h: Seq<(Seq<u8>, Seq<u8>)>, fs: Seq<Seq<u8>>, i: int)
    requires
        0 <= i < fs.len(),
    ensures
        !keys_of(del_keys(h, fs).0).contains(fs[i]),
    decreases fs.len(),
{
    let h1 = del_keys(h, fs.drop_last()).0;
    lemma_remove_key(h1, fs.last());
    if i < fs.len() - 1 {
        law_hdel_removes(h, fs.drop_last(), i);
        assert(fs.drop_last()[i] == fs[i]);
    }
}

/// On a store: a successful field write is read back.
pub proof fn law_store_hget_after_hset(m: StoreModel, k: Seq<u8>, f: Seq<u8>, v: Seq<u8>, now: u64)
    requires
        hset_op(m, k, f, v, now).1 is Ok,
    ensures
        hget_op(hset_op(m, k, f, v, now).0, k, f, now).1 == Ok::<Option<Seq<u8>>, DomainError>(Some(v)),
{
    let p = purge(m, k, now);
    if !p.contains_key(k) {
        law_hget_after_hset(Seq::empty(), f, v);
        lemma_first_pos_none(keys_of(Seq::<(Seq<u8>, Seq<u8>)>::empty()), f);
        assert(hash_put(Seq::empty(), f, v) =~= seq![(f, v)]);
    } else {
        match p[k].value {
            ValueModel::Hash(h) => {
                law_hget_after_hset(h, f, v);
            },
            _ => {},
        }
    }
}

/// Pushing values one by one onto the front leaves them in reverse order
/// before the former items.
pub proof fn law_lpush_reverses(l: Seq<Seq<u8>>, vs: Seq<Seq<u8>>)
    ensures
        lpush(l, vs) == vs.reverse() + l,
    decreases vs.len(),
{
    if vs.len() > 0 {
        law_lpush_reverses(l, vs.drop_last());
        assert(vs.reverse() =~= seq![vs.last()] + vs.drop_last().reverse());
        assert(lpush(l, vs) =~= vs.reverse() + l);
    } else {
        assert(lpush(l, vs) =~= vs.reverse() + l);
    }
}

/// Values pushed on the front of an empty list come off its back in the order
/// they were given.
pub proof fn law_lpush_rpop_fifo(vs: Seq<Seq<u8>>)
    requires
        vs.len() > 0,
    ensures
        rpop(lpush(Seq::empty(), vs)).1 == Some(vs[0]),
{
    law_lpush_reverses(Seq::empty(), vs);
    assert(lpush(Seq::empty(), vs) =~= vs.reverse());
}

/// Values appended to an empty list come off its front in the order given.
pub proof fn law_rpush_lpop_fifo(vs: Seq<Seq<u8>>)
    requires
        vs.len() > 0,
    ensures
        lpop(Seq::<Seq<u8>>::empty() + vs).1 == Some(vs[0]),
{
    assert(Seq::<Seq<u8>>::empty() + vs =~= vs);
}

/// The range `0..=-1` is the whole list.
pub proof fn law_lrange_whole(l: Seq<Seq<u8>>)
    ensures
        lrange(l, 0, -1i64) == l,
{
    assert(lrange(l, 0, -1i64) =~= l);
}

/// Adding members gives a set with each member once, holding exactly the
/// former members and the added ones, longer by the count reported.
pub proof fn law_sadd(s: Seq<Seq<u8>>, ms: Seq<Seq<u8>>)
    requires
        s.no_duplicates(),
    ensures
        set_add(s, ms).0.no_duplicates(),
        forall|x: Seq<u8>| #[trigger] set_add(s, ms).0.contains(x) <==> (s.contains(x) || ms.contains(x)),
        set_add(s, ms).0.len() == s.len() + set_add(s, ms).1,
    decreases ms.len(),
{
    if ms.len() > 0 {
        let init = ms.drop_last();
        law_sadd(s, init);
        let s1 = set_add(s, init).0;
        assert(ms =~= init.push(ms.last()));
        assert forall|x: Seq<u8>| #[trigger] ms.contains(x) == (init.contains(x) || x == ms.last()) by {
            lemma_contains_push(init, x, ms.last());
        }
        if !s1.contains(ms.last()) {
            let s2 = s1.push(ms.last());
            assert forall|x: Seq<u8>| #[trigger] s2.contains(x) == (s1.contains(x) || x == ms.last()) by {
                lemma_contains_push(s1, x, ms.last());
            }
            assert forall|a: int, b: int| 0 <= a < s2.len() && 0 <= b < s2.len() && a != b implies s2[a] != s2[b] by {
                if a < s1.len() && b < s1.len() {
                    assert(s1[a] != s1[b]);
                } else if a < s1.len() {
                    assert(s1.contains(s1[a]));
                } else {
                    assert(s1.contains(s1[b]));
                }
            }
        }
    }
}

/// Adding members that are all present already changes nothing and counts none.
pub proof fn law_sadd_present_is_noop(s: Seq<Seq<u8>>, ms: Seq<Seq<u8>>)
    requires
        forall|i: int| 0 <= i < ms.len() ==> s.contains(#[trigger] ms[i]),
    ensures
        set_add(s, ms) == (s, 0nat),
    decreases ms.len(),
{
    if ms.len() > 0 {
        let init = ms.drop_last();
        assert forall|i: int| 0 <= i < init.len() implies s.contains(#[trigger] init[i]) by {
            assert(init[i] == ms[i]);
        }
        law_sadd_present_is_noop(s, init);
        assert(s.contains(ms[ms.len() - 1]));
    }
}

/// After members are removed the set has none of them.
pub proof fn law_srem_removes(s: Seq<Seq<u8>>, ms: Seq<Seq<u8>>, i: int)
    requires
        0 <= i < ms.len(),
    ensures
        !del_all(s, ms).0.contains(ms[i]),
    decreases ms.len(),
{
    let s1 = del_all(s, ms.drop_last()).0;
    lemma_remove_all(s1, ms.last());
    if i < ms.len() - 1 {
        law_srem_removes(s, ms.drop_last(), i);
        assert(ms.drop_last()[i] == ms[i]);
    }
}

pub proof fn lemma_remove_key_sorted(z: Seq<(Seq<u8>, u64)>, k: Seq<u8>)
    requires
        zsorted(z),
    ensures
        zsorted(remove_key(z, k)),
    decreases z.len(),
{
    if z.len() > 0 {
        let init = z.drop_last();
        assert(zsorted(init)) by {
            assert forall|i: int, j: int| 0 <= i <= j < init.len() implies order_key(init[i].1) <= order_key(init[j].1) by {
                assert(init[i] == z[i] && init[j] == z[j]);
            }
        }
        lemma_remove_key_sorted(init, k);
        lemma_remove_key(init, k);
        let r0 = remove_key(init, k);
        if z.last().0 != k {
            let r = r0.push(z.last());
            assert forall|i: int, j: int| 0 <= i <= j < r.len() implies order_key(r[i].1) <= order_key(r[j].1) by {
                if j == r.len() - 1 && i < r.len() - 1 {
                    assert(r0.contains(r0[i]));
                    assert(init.contains(r0[i]));
                    let a = choose|a: int| 0 <= a < init.len() && init[a] == r0[i];
                    assert(z[a] == r0[i]);
                    assert(order_key(z[a].1) <= order_key(z[z.len() - 1].1));
                } else if j < r.len() - 1 {
                    assert(r[i] == r0[i] && r[j] == r0[j]);
                }
            }
        }
    }
}

/// Setting a member's score keeps a sorted set sorted by score with each
/// member once, and the member then has that score.
pub proof fn law_zadd_keeps_order(z: Seq<(Seq<u8>, u64)>, m: Seq<u8>, bits: u64)
    requires
        zsorted(z),
        keys_of(z).no_duplicates(),
    ensures
        zsorted(zadd(z, m, bits).0),
        keys_of(zadd(z, m, bits).0).no_duplicates(),
        zscore(zadd(z, m, bits).0, m) == Some(bits),
{
    let z1 = remove_key(z, m);
    lemma_remove_key(z, m);
    lemma_remove_key_sorted(z, m);
    let k = order_key(bits);
    let pos = insert_pos(z1, k);
    let flags = after_flags(z1, k);
    flags.index_of_first_ensures(true);
    assert(0 <= pos <= z1.len());
    assert(forall|j: int| 0 <= j < pos ==> !flags[j]);
    assert(pos < z1.len() ==> flags[pos]);
    let z2 = z1.insert(pos, (m, bits));
    assert forall|i: int, j: int| 0 <= i <= j < z2.len() implies order_key(z2[i].1) <= order_key(z2[j].1) by {
        if i < pos && j < pos {
            assert(z2[i] == z1[i] && z2[j] == z1[j]);
        } else if i < pos && j == pos {
            assert(!flags[i]);
        } else if i < pos {
            assert(z2[i] == z1[i] && z2[j] == z1[j - 1]);
        } else if i == pos && j > pos {
            assert(flags[pos]);
            assert(order_key(z1[pos].1) <= order_key(z1[j - 1].1));
        } else if i > pos {
            assert(z2[i] == z1[i - 1] && z2[j] == z1[j - 1]);
        }
    }
    assert(keys_of(z2) =~= keys_of(z1).insert(pos, m));
    assert forall|a: int, b: int| 0 <= a < keys_of(z2).len() && 0 <= b < keys_of(z2).len() && a != b implies keys_of(z2)[a] != keys_of(z2)[b] by {
        let a2 = if a < pos { a } else { a - 1 };
        let b2 = if b < pos { b } else { b - 1 };
        if a != pos && b != pos {
            assert(keys_of(z1)[a2] != keys_of(z1)[b2]);
        } else if a == pos {
            assert(keys_of(z1).contains(keys_of(z1)[b2]));
        } else {
            assert(keys_of(z1).contains(keys_of(z1)[a2]));
        }
    }
    assert forall|j: int| 0 <= j < pos implies keys_of(z2)[j] != m by {
        assert(keys_of(z1).contains(keys_of(z1)[j]));
    }
    lemma_first_pos_at(keys_of(z2), m, pos);
}

/// The rank range `0..=-1` is every member, in score order.
pub proof fn law_zrange_whole(z: Seq<(Seq<u8>, u64)>)
    ensures
        zrange(z, 0, -1i64) == keys_of(z),
{
    assert(zrange(z, 0, -1i64) =~= keys_of(z));
}

/// The elements of an array just stored are what reads of it give.
pub proof fn law_array_get_after_set(m: StoreModel, k: Seq<u8>, vs: Seq<ValueModel>, idx: Seq<usize>, now: u64)
    ensures
        array_get_op(array_set_op(m, k, vs, now), k, idx, now).1 == Ok::<Seq<Option<ValueModel>>, DomainError>(array_get(normalized_all(vs), idx)),
{
}

} // verus!
