use vstd::prelude::*;
use crate::bytes::keys_of;
use crate::laws::law_lpush_reverses;
use crate::model::{
    StoreModel, DomainError, lookup, purge, rpush_op, lpush_op, lpop_op, rpop_op,
    lrange_op, zrange_op, zcard_op, zrem_op, zadd_op, zscore_op, sadd_op, srem_op, smembers_op,
    scard_op, sismember_op, mdel_op, mget_op, mset_op, array_get_op,
    array_slice_op, array_len_op, array_update_op, array_append_op, hvals_op, hkeys_op,
    hlen_op, hget_op, hexists_op, hdel_op, hset_op,
};
use crate::pairs::{del_keys, del_all, lemma_remove_key, lemma_remove_all};
use crate::members::set_add;
use crate::value::ValueModel;
use crate::wellformed::normalized;

verus! {

// ---------------------------------------------------------------- lists

/// Pushing on the right of a live list keeps its items where they were and
/// puts the values after them, in the order given; the reply is the new length.
pub proof fn law_rpush_appends(m: StoreModel, k: Seq<u8>, l: Seq<Seq<u8>>, vs: Seq<Seq<u8>>, now: u64)
    requires
        lookup(m, k, now) == Some(ValueModel::List(l)),
    ensures
        rpush_op(m, k, vs, now).1 == Ok::<nat, DomainError>(l.len() + vs.len()),
        rpush_op(m, k, vs, now).0.contains_key(k),
        rpush_op(m, k, vs, now).0[k].value == ValueModel::List(l + vs),
        rpush_op(m, k, vs, now).0[k].expires_at == m[k].expires_at,
{
}


/// Pushing on the left of a live list puts the values before its items, the
/// last value given first; the reply is the new length.
pub proof fn law_lpush_prepends(m: StoreModel, k: Seq<u8>, l: Seq<Seq<u8>>, vs: Seq<Seq<u8>>, now: u64)
    requires
        lookup(m, k, now) == Some(ValueModel::List(l)),
    ensures
        lpush_op(m, k, vs, now).1 == Ok::<nat, DomainError>(l.len() + vs.len()),
        lpush_op(m, k, vs, now).0.contains_key(k),
        lpush_op(m, k, vs, now).0[k].value == ValueModel::List(Seq::new(vs.len(), |i: int| vs[vs.len() - 1 - i]) + l),
        lpush_op(m, k, vs, now).0[k].expires_at == m[k].expires_at,
{
    law_lpush_reverses(l, vs);
    assert(vs.reverse() =~= Seq::new(vs.len(), |i: int| vs[vs.len() - 1 - i]));
}

/// Pushing onto a key that holds nothing live makes a new list without expiry:
/// the values in the order given on the right, reversed on the left.
pub proof fn law_push_onto_missing_key(m: StoreModel, k: Seq<u8>, vs: Seq<Seq<u8>>, now: u64)
    requires
        lookup(m, k, now) is None,
    ensures
        rpush_op(m, k, vs, now).1 == Ok::<nat, DomainError>(vs.len()),
        rpush_op(m, k, vs, now).0.contains_key(k),
        rpush_op(m, k, vs, now).0[k].value == ValueModel::List(vs),
        rpush_op(m, k, vs, now).0[k].expires_at is None,
        lpush_op(m, k, vs, now).1 == Ok::<nat, DomainError>(vs.len()),
        lpush_op(m, k, vs, now).0.contains_key(k),
        lpush_op(m, k, vs, now).0[k].value == ValueModel::List(Seq::new(vs.len(), |i: int| vs[vs.len() - 1 - i])),
        lpush_op(m, k, vs, now).0[k].expires_at is None,
{
    law_lpush_reverses(Seq::empty(), vs);
    assert(vs.reverse() + Seq::<Seq<u8>>::empty() =~= Seq::new(vs.len(), |i: int| vs[vs.len() - 1 - i]));
}

/// Popping a live non-empty list gives its first (left) or last (right) item
/// and leaves the others in order; an empty list or a missing key gives nothing.
pub proof fn law_pops(m: StoreModel, k: Seq<u8>, l: Seq<Seq<u8>>, now: u64)
    requires
        lookup(m, k, now) == Some(ValueModel::List(l)),
    ensures
        l.len() > 0 ==> lpop_op(m, k, now).1 == Ok::<Option<Seq<u8>>, DomainError>(Some(l[0])),
        l.len() > 0 ==> lpop_op(m, k, now).0[k].value == ValueModel::List(l.subrange(1, l.len() as int)),
        l.len() > 0 ==> rpop_op(m, k, now).1 == Ok::<Option<Seq<u8>>, DomainError>(Some(l[l.len() - 1])),
        l.len() > 0 ==> rpop_op(m, k, now).0[k].value == ValueModel::List(l.subrange(0, l.len() - 1)),
        l.len() == 0 ==> lpop_op(m, k, now).1 == Ok::<Option<Seq<u8>>, DomainError>(None),
        l.len() == 0 ==> rpop_op(m, k, now).1 == Ok::<Option<Seq<u8>>, DomainError>(None),
{
}

/// Popping a key that holds nothing live gives nothing.
pub proof fn law_pop_missing_key(m: StoreModel, k: Seq<u8>, now: u64)
    requires
        lookup(m, k, now) is None,
    ensures
        lpop_op(m, k, now).1 == Ok::<Option<Seq<u8>>, DomainError>(None),
        rpop_op(m, k, now).1 == Ok::<Option<Seq<u8>>, DomainError>(None),
        lrange_op(m, k, 0i64, -1i64, now).1 == Ok::<Seq<Seq<u8>>, DomainError>(Seq::empty()),
{
}

/// An inclusive range `start..=stop` of a live list gives the items at those
/// positions: a stop past the end stops at the last item, negative positions
/// count from the end (`-1` is the last item), and a range that starts past
/// the end or after its stop is empty.
pub proof fn law_lrange_window(m: StoreModel, k: Seq<u8>, l: Seq<Seq<u8>>, start: i64, stop: i64, now: u64)
    requires
        lookup(m, k, now) == Some(ValueModel::List(l)),
    ensures
        0 <= start <= stop < l.len() ==> lrange_op(m, k, start, stop, now).1 == Ok::<Seq<Seq<u8>>, DomainError>(l.subrange(start as int, stop + 1)),
        0 <= start < l.len() <= stop ==> lrange_op(m, k, start, stop, now).1 == Ok::<Seq<Seq<u8>>, DomainError>(l.subrange(start as int, l.len() as int)),
        -l.len() <= start <= stop < 0 ==> lrange_op(m, k, start, stop, now).1 == Ok::<Seq<Seq<u8>>, DomainError>(l.subrange(l.len() + start, l.len() + stop + 1)),
        (start >= l.len() || 0 <= stop < start) ==> lrange_op(m, k, start, stop, now).1 == Ok::<Seq<Seq<u8>>, DomainError>(Seq::empty()),
{
    if start >= l.len() || 0 <= stop < start {
        assert(l.subrange(0, 0) =~= Seq::<Seq<u8>>::empty());
    }
}

// ---------------------------------------------------------------- sorted sets

/// An inclusive range `start..=stop` of ranks of a live sorted set gives the
/// members at those ranks, both ends included: a stop past the end stops at
/// the last member, negative ranks count from the end, and a range that starts
/// past the end or after its stop is empty. `zcard` counts the members.
pub proof fn law_zrange_window(m: StoreModel, k: Seq<u8>, z: Seq<(Seq<u8>, u64)>, start: i64, stop: i64, now: u64)
    requires
        lookup(m, k, now) == Some(ValueModel::Zset(z)),
    ensures
        0 <= start <= stop < z.len() ==> zrange_op(m, k, start, stop, now).1 == Ok::<Seq<Seq<u8>>, DomainError>(keys_of(z).subrange(start as int, stop + 1)),
        0 <= start <= stop < z.len() ==> zrange_op(m, k, start, stop, now).1->Ok_0.len() == stop - start + 1,
        0 <= start < z.len() <= stop ==> zrange_op(m, k, start, stop, now).1 == Ok::<Seq<Seq<u8>>, DomainError>(keys_of(z).subrange(start as int, z.len() as int)),
        -z.len() <= start <= stop < 0 ==> zrange_op(m, k, start, stop, now).1 == Ok::<Seq<Seq<u8>>, DomainError>(keys_of(z).subrange(z.len() + start, z.len() + stop + 1)),
        (start >= z.len() || 0 <= stop < start) ==> zrange_op(m, k, start, stop, now).1 == Ok::<Seq<Seq<u8>>, DomainError>(Seq::empty()),
        zcard_op(m, k, now).1 == Ok::<nat, DomainError>(z.len()),
{
    if start >= z.len() || 0 <= stop < start {
        assert(keys_of(z).subrange(0, 0) =~= Seq::<Seq<u8>>::empty());
    }
}

/// Removing keys from a sequence of pairs leaves exactly the other keys, each
/// pair kept as it was.
proof fn lemma_del_keys_members<V>(s: Seq<(Seq<u8>, V)>, ks: Seq<Seq<u8>>)
    ensures
        forall|y: Seq<u8>| #[trigger] keys_of(del_keys(s, ks).0).contains(y) <==> (keys_of(s).contains(y) && !ks.contains(y)),
        forall|p: (Seq<u8>, V)| #[trigger] del_keys(s, ks).0.contains(p) ==> s.contains(p),
    decreases ks.len(),
{
    if ks.len() > 0 {
        let init = ks.drop_last();
        lemma_del_keys_members(s, init);
        let s1 = del_keys(s, init).0;
        lemma_remove_key(s1, ks.last());
        assert forall|y: Seq<u8>| #[trigger] keys_of(del_keys(s, ks).0).contains(y) <==> (keys_of(s).contains(y) && !ks.contains(y)) by {
            crate::pairs::lemma_contains_push(init, y, ks.last());
            assert(ks =~= init.push(ks.last()));
        }
    }
}

/// Removing members from a live sorted set leaves exactly the members not
/// listed, each with its score, in the order they were.
pub proof fn law_zrem_removes(m: StoreModel, k: Seq<u8>, z: Seq<(Seq<u8>, u64)>, xs: Seq<Seq<u8>>, now: u64)
    requires
        lookup(m, k, now) == Some(ValueModel::Zset(z)),
    ensures
        zrem_op(m, k, xs, now).1 is Ok,
        zrem_op(m, k, xs, now).0[k].value is Zset,
        forall|y: Seq<u8>| #[trigger] keys_of(zrem_op(m, k, xs, now).0[k].value->Zset_0).contains(y) <==> (keys_of(z).contains(y) && !xs.contains(y)),
        forall|p: (Seq<u8>, u64)| #[trigger] (zrem_op(m, k, xs, now).0[k].value->Zset_0).contains(p) ==> z.contains(p),
{
    lemma_del_keys_members(z, xs);
}


/// Adding a member to a live sorted set keeps it in score order with each
/// member once; the set then holds exactly the former members and the new one,
/// whose score reads back; the reply tells whether it was new.
pub proof fn law_zadd_store(m: StoreModel, k: Seq<u8>, z: Seq<(Seq<u8>, u64)>, x: Seq<u8>, bits: u64, now: u64)
    requires
        lookup(m, k, now) == Some(ValueModel::Zset(z)),
        crate::zset::zsorted(z),
        keys_of(z).no_duplicates(),
    ensures
        zadd_op(m, k, bits, x, now).1 == Ok::<bool, DomainError>(!keys_of(z).contains(x)),
        zadd_op(m, k, bits, x, now).0[k].value is Zset,
        crate::zset::zsorted(zadd_op(m, k, bits, x, now).0[k].value->Zset_0),
        keys_of(zadd_op(m, k, bits, x, now).0[k].value->Zset_0).no_duplicates(),
        forall|y: Seq<u8>| #[trigger] keys_of(zadd_op(m, k, bits, x, now).0[k].value->Zset_0).contains(y) <==> (keys_of(z).contains(y) || y == x),
        zscore_op(zadd_op(m, k, bits, x, now).0, k, x, now).1 == Ok::<Option<u64>, DomainError>(Some(bits)),
{
    crate::laws::law_zadd_keeps_order(z, x, bits);
    let z1 = crate::pairs::remove_key(z, x);
    lemma_remove_key(z, x);
    let pos = crate::zset::insert_pos(z1, crate::zset::order_key(bits));
    let z2 = crate::zset::zadd(z, x, bits).0;
    assert(z2 == z1.insert(pos, (x, bits)));
    crate::zset::after_flags(z1, crate::zset::order_key(bits)).index_of_first_ensures(true);
    assert(0 <= pos <= z1.len());
    assert forall|y: Seq<u8>| #[trigger] keys_of(z2).contains(y) <==> (keys_of(z).contains(y) || y == x) by {
        if keys_of(z2).contains(y) {
            let i = choose|i: int| 0 <= i < keys_of(z2).len() && keys_of(z2)[i] == y;
            if i < pos {
                assert(keys_of(z1)[i] == y);
            } else if i > pos {
                assert(keys_of(z1)[i - 1] == y);
            }
        }
        if keys_of(z1).contains(y) {
            let i = choose|i: int| 0 <= i < keys_of(z1).len() && keys_of(z1)[i] == y;
            if i < pos {
                assert(keys_of(z2)[i] == y);
            } else {
                assert(keys_of(z2)[i + 1] == y);
            }
        }
        if y == x {
            assert(keys_of(z2)[pos] == y);
        }
    }
}

// ---------------------------------------------------------------- sets

/// Adding members to a list of distinct members keeps the former ones in place
/// and each member once; the list holds exactly the former and the added
/// members and grows by the count reported.
proof fn lemma_set_add_members(s: Seq<Seq<u8>>, ms: Seq<Seq<u8>>)
    requires
        s.no_duplicates(),
    ensures
        set_add(s, ms).0.no_duplicates(),
        forall|y: Seq<u8>| #[trigger] set_add(s, ms).0.contains(y) <==> (s.contains(y) || ms.contains(y)),
        set_add(s, ms).0.len() == s.len() + set_add(s, ms).1,
        set_add(s, ms).0.subrange(0, s.len() as int) == s,
    decreases ms.len(),
{
    crate::laws::law_sadd(s, ms);
    if ms.len() > 0 {
        lemma_set_add_members(s, ms.drop_last());
        let s1 = set_add(s, ms.drop_last()).0;
        if !s1.contains(ms.last()) {
            assert(s1.push(ms.last()).subrange(0, s.len() as int) =~= s1.subrange(0, s.len() as int));
        }
    }
}

/// Removing members leaves exactly the members not listed.
proof fn lemma_del_all_members(s: Seq<Seq<u8>>, xs: Seq<Seq<u8>>)
    ensures
        forall|y: Seq<u8>| #[trigger] del_all(s, xs).0.contains(y) <==> (s.contains(y) && !xs.contains(y)),
    decreases xs.len(),
{
    if xs.len() > 0 {
        let init = xs.drop_last();
        lemma_del_all_members(s, init);
        lemma_remove_all(del_all(s, init).0, xs.last());
        assert forall|y: Seq<u8>| #[trigger] del_all(s, xs).0.contains(y) <==> (s.contains(y) && !xs.contains(y)) by {
            crate::pairs::lemma_contains_push(init, y, xs.last());
            assert(xs =~= init.push(xs.last()));
        }
    }
}

/// A live set answers membership, size and listing from what it holds; adding
/// keeps its members in place and each member once, holds exactly the former
/// and the added members, and reports how many were new; removing leaves
/// exactly the members not listed.
pub proof fn law_set_commands(m: StoreModel, k: Seq<u8>, s: Seq<Seq<u8>>, ms: Seq<Seq<u8>>, x: Seq<u8>, now: u64)
    requires
        lookup(m, k, now) == Some(ValueModel::Members(s)),
        s.no_duplicates(),
    ensures
        smembers_op(m, k, now).1 == Ok::<Seq<Seq<u8>>, DomainError>(s),
        scard_op(m, k, now).1 == Ok::<nat, DomainError>(s.len()),
        sismember_op(m, k, x, now).1 == Ok::<bool, DomainError>(s.contains(x)),
        sadd_op(m, k, ms, now).1 is Ok,
        sadd_op(m, k, ms, now).0[k].value is Members,
        (sadd_op(m, k, ms, now).0[k].value->Members_0).no_duplicates(),
        forall|y: Seq<u8>| #[trigger] (sadd_op(m, k, ms, now).0[k].value->Members_0).contains(y) <==> (s.contains(y) || ms.contains(y)),
        (sadd_op(m, k, ms, now).0[k].value->Members_0).len() == s.len() + sadd_op(m, k, ms, now).1->Ok_0,
        (sadd_op(m, k, ms, now).0[k].value->Members_0).subrange(0, s.len() as int) == s,
        srem_op(m, k, ms, now).1 is Ok,
        srem_op(m, k, ms, now).0[k].value is Members,
        forall|y: Seq<u8>| #[trigger] (srem_op(m, k, ms, now).0[k].value->Members_0).contains(y) <==> (s.contains(y) && !ms.contains(y)),
{
    lemma_set_add_members(s, ms);
    lemma_del_all_members(s, ms);
}

/// Adding members under a key that holds nothing live makes a set of those
/// members, each once, in the order first given, and reports how many there are.
pub proof fn law_sadd_missing_key(m: StoreModel, k: Seq<u8>, ms: Seq<Seq<u8>>, now: u64)
    requires
        lookup(m, k, now) is None,
    ensures
        sadd_op(m, k, ms, now).1 is Ok,
        sadd_op(m, k, ms, now).0[k].value is Members,
        sadd_op(m, k, ms, now).0[k].expires_at is None,
        (sadd_op(m, k, ms, now).0[k].value->Members_0).no_duplicates(),
        forall|y: Seq<u8>| #[trigger] (sadd_op(m, k, ms, now).0[k].value->Members_0).contains(y) <==> ms.contains(y),
        (sadd_op(m, k, ms, now).0[k].value->Members_0).len() == sadd_op(m, k, ms, now).1->Ok_0,
{
    lemma_set_add_members(Seq::empty(), ms);
}

// ---------------------------------------------------------------- multi-key

/// After deleting a list of keys none of them is live, every other key is left
/// as it was, and the reply for each listed key is the value a read of it just
/// before would have seen: what the store held, or nothing when the same key
/// was listed earlier.
pub proof fn law_mdel_deletes_each(m: StoreModel, ks: Seq<Seq<u8>>, now: u64)
    ensures
        mdel_op(m, ks, now).1.len() == ks.len(),
        forall|i: int| 0 <= i < ks.len() ==> lookup(mdel_op(m, ks, now).0, #[trigger] ks[i], now) is None,
        forall|i: int| #![trigger mdel_op(m, ks, now).1[i]] 0 <= i < ks.len() ==>
            mdel_op(m, ks, now).1[i] == if ks.take(i).contains(ks[i]) { None } else { lookup(m, ks[i], now) },
        forall|j: Seq<u8>| !ks.contains(j) ==> (#[trigger] mdel_op(m, ks, now).0.contains_key(j) <==> m.contains_key(j)),
        forall|j: Seq<u8>| !ks.contains(j) && m.contains_key(j) ==> #[trigger] mdel_op(m, ks, now).0[j] == m[j],
    decreases ks.len(),
{
    if ks.len() > 0 {
        let init = ks.drop_last();
        let x = ks.last();
        law_mdel_deletes_each(m, init, now);
        let m1 = mdel_op(m, init, now).0;
        let r1 = mdel_op(m, init, now).1;
        let m2 = mdel_op(m, ks, now).0;
        let r2 = mdel_op(m, ks, now).1;
        assert(m2 == purge(m1, x, now).remove(x));
        assert(r2 == r1.push(lookup(m1, x, now)));
        assert forall|i: int| 0 <= i < ks.len() implies lookup(m2, #[trigger] ks[i], now) is None by {
            if i < init.len() {
                assert(ks[i] == init[i]);
                if ks[i] != x {
                    assert(lookup(m1, init[i], now) is None);
                }
            }
        }
        assert forall|i: int| #![trigger r2[i]] 0 <= i < ks.len() implies
            r2[i] == if ks.take(i).contains(ks[i]) { None } else { lookup(m, ks[i], now) } by {
            if i < init.len() {
                assert(ks.take(i) =~= init.take(i));
                assert(ks[i] == init[i]);
                assert(r2[i] == r1[i]);
            } else {
                assert(ks.take(i) =~= init);
                if init.contains(x) {
                    let j = choose|j: int| 0 <= j < init.len() && init[j] == x;
                    assert(lookup(m1, init[j], now) is None);
                } else {
                    assert(m1.contains_key(x) == m.contains_key(x));
                    if m.contains_key(x) {
                        assert(m1[x] == m[x]);
                    }
                }
            }
        }
        assert forall|j: Seq<u8>| !ks.contains(j) implies (#[trigger] m2.contains_key(j) <==> m.contains_key(j)) by {
            assert(j != x);
            if init.contains(j) {
                let i = choose|i: int| 0 <= i < init.len() && init[i] == j;
                assert(ks[i] == j);
            }
        }
        assert forall|j: Seq<u8>| !ks.contains(j) && m.contains_key(j) implies #[trigger] m2[j] == m[j] by {
            assert(j != x);
            if init.contains(j) {
                let i = choose|i: int| 0 <= i < init.len() && init[i] == j;
                assert(ks[i] == j);
            }
        }
    }
}


/// Reading a list of keys gives, for each, the value a single read of it sees,
/// and changes no value a later read sees.
pub proof fn law_mget_reads_each(m: StoreModel, ks: Seq<Seq<u8>>, now: u64)
    ensures
        mget_op(m, ks, now).1.len() == ks.len(),
        forall|i: int| 0 <= i < ks.len() ==> #[trigger] mget_op(m, ks, now).1[i] == lookup(m, ks[i], now),
        forall|j: Seq<u8>| #[trigger] lookup(mget_op(m, ks, now).0, j, now) == lookup(m, j, now),
    decreases ks.len(),
{
    if ks.len() > 0 {
        let init = ks.drop_last();
        let x = ks.last();
        law_mget_reads_each(m, init, now);
        let m1 = mget_op(m, init, now).0;
        assert forall|j: Seq<u8>| #[trigger] lookup(mget_op(m, ks, now).0, j, now) == lookup(m, j, now) by {
            assert(lookup(m1, j, now) == lookup(m, j, now));
        }
        assert forall|i: int| 0 <= i < ks.len() implies #[trigger] mget_op(m, ks, now).1[i] == lookup(m, ks[i], now) by {
            if i < init.len() {
                assert(ks[i] == init[i]);
            } else {
                assert(lookup(m1, x, now) == lookup(m, x, now));
            }
        }
    }
}

/// Writing a list of pairs stores, under each key, the value of the last pair
/// with that key (in its stored form, with no expiry), and leaves every key not
/// written as it was.
#[verifier::rlimit(50)]
pub proof fn law_mset_last_write_wins(m: StoreModel, kvs: Seq<(Seq<u8>, ValueModel)>, now: u64)
    ensures
        forall|i: int| #![trigger kvs[i]] 0 <= i < kvs.len() && (forall|j: int| i < j < kvs.len() ==> kvs[j].0 != kvs[i].0) ==>
            lookup(mset_op(m, kvs, now), kvs[i].0, now) == Some(normalized(kvs[i].1))
            && mset_op(m, kvs, now)[kvs[i].0].expires_at is None,
        forall|j: Seq<u8>| !keys_of(kvs).contains(j) ==> #[trigger] lookup(mset_op(m, kvs, now), j, now) == lookup(m, j, now),
    decreases kvs.len(),
{
    if kvs.len() > 0 {
        let init = kvs.drop_last();
        let x = kvs.last().0;
        let v = kvs.last().1;
        law_mset_last_write_wins(m, init, now);
        let m1 = mset_op(m, init, now);
        let m2 = mset_op(m, kvs, now);
        assert(m2 == crate::model::set_op(m1, x, v, now).0);
        assert(keys_of(kvs) =~= keys_of(init).push(x));
        assert forall|j: Seq<u8>| !keys_of(kvs).contains(j) implies #[trigger] lookup(m2, j, now) == lookup(m, j, now) by {
            crate::pairs::lemma_contains_push(keys_of(init), j, x);
            lemma_set_other_key(m1, x, v, j, now);
        }
        assert forall|i: int| #![trigger kvs[i]] 0 <= i < kvs.len() && (forall|j: int| i < j < kvs.len() ==> kvs[j].0 != kvs[i].0) implies
            lookup(m2, kvs[i].0, now) == Some(normalized(kvs[i].1))
            && m2[kvs[i].0].expires_at is None by {
            if i < init.len() {
                assert(kvs[i] == init[i]);
                assert(kvs[kvs.len() - 1].0 != kvs[i].0);
                assert forall|j: int| i < j < init.len() implies init[j].0 != init[i].0 by {
                    assert(init[j] == kvs[j]);
                }
                lemma_set_other_key(m1, x, v, kvs[i].0, now);
                assert(m2[kvs[i].0] == m1[kvs[i].0]);
            }
        }
    }
}

/// Setting one key changes what reads of no other key see.
proof fn lemma_set_other_key(m: StoreModel, x: Seq<u8>, v: ValueModel, j: Seq<u8>, now: u64)
    requires
        j != x,
    ensures
        lookup(crate::model::set_op(m, x, v, now).0, j, now) == lookup(m, j, now),
        crate::model::set_op(m, x, v, now).0.contains_key(j) == m.contains_key(j),
        m.contains_key(j) ==> crate::model::set_op(m, x, v, now).0[j] == m[j],
{
}

// ---------------------------------------------------------------- arrays

/// Each requested index of a live array gives the element at that index, or
/// nothing past the end, whatever the other requested indices are.
pub proof fn law_array_get_each(m: StoreModel, k: Seq<u8>, a: Seq<ValueModel>, idx: Seq<usize>, now: u64)
    requires
        lookup(m, k, now) == Some(ValueModel::Array(a)),
    ensures
        array_get_op(m, k, idx, now).1 is Ok,
        array_get_op(m, k, idx, now).1->Ok_0.len() == idx.len(),
        forall|j: int| 0 <= j < idx.len() ==> #[trigger] array_get_op(m, k, idx, now).1->Ok_0[j]
            == if (idx[j] as int) < a.len() { Some(a[idx[j] as int]) } else { None },
{
}


/// A slice `start..end` of a live array gives the elements from `start` up to
/// `end` (the length when `end` is missing or past it), and nothing when that
/// window is empty; `array_len` gives the length, and nothing for a missing key.
pub proof fn law_array_slice_window(m: StoreModel, k: Seq<u8>, a: Seq<ValueModel>, start: usize, end: Option<usize>, now: u64)
    requires
        lookup(m, k, now) == Some(ValueModel::Array(a)),
    ensures
        end is None && start < a.len() ==> array_slice_op(m, k, start, end, now).1 == Ok::<Seq<ValueModel>, DomainError>(a.subrange(start as int, a.len() as int)),
        end is Some && start < end.unwrap() <= a.len() ==> array_slice_op(m, k, start, end, now).1 == Ok::<Seq<ValueModel>, DomainError>(a.subrange(start as int, end.unwrap() as int)),
        end is Some && start < a.len() < end.unwrap() ==> array_slice_op(m, k, start, end, now).1 == Ok::<Seq<ValueModel>, DomainError>(a.subrange(start as int, a.len() as int)),
        (start >= a.len() || (end is Some && end.unwrap() <= start)) ==> array_slice_op(m, k, start, end, now).1 == Ok::<Seq<ValueModel>, DomainError>(Seq::empty()),
        array_len_op(m, k, now).1 == Ok::<Option<nat>, DomainError>(Some(a.len())),
{
    if start >= a.len() || (end is Some && end.unwrap() <= start) {
        assert(a.subrange(0, 0) =~= Seq::<ValueModel>::empty());
    }
}

/// On a key that holds nothing live, every requested index reads as missing,
/// the length is nothing, and updates and appends are refused.
pub proof fn law_array_missing_key(m: StoreModel, k: Seq<u8>, idx: Seq<usize>, ups: Seq<(usize, ValueModel)>, vs: Seq<ValueModel>, now: u64)
    requires
        lookup(m, k, now) is None,
    ensures
        array_get_op(m, k, idx, now).1 is Ok,
        array_get_op(m, k, idx, now).1->Ok_0.len() == idx.len(),
        forall|j: int| 0 <= j < idx.len() ==> #[trigger] array_get_op(m, k, idx, now).1->Ok_0[j] is None,
        array_len_op(m, k, now).1 == Ok::<Option<nat>, DomainError>(None),
        array_update_op(m, k, ups, now).1 == Err::<nat, DomainError>(DomainError::WrongType),
        array_append_op(m, k, vs, now).1 == Err::<nat, DomainError>(DomainError::WrongType),
{
}

/// Applying updates in turn: the length is kept, an element no update names is
/// kept, and an element named by updates ends up with the value of the last
/// of them; when every update names an element the count is the number of
/// updates, and when none does it is zero.
proof fn lemma_array_update_elements(a: Seq<ValueModel>, ups: Seq<(usize, ValueModel)>)
    ensures
        crate::array::array_update(a, ups).0.len() == a.len(),
        forall|x: int| 0 <= x < a.len() && (forall|j: int| 0 <= j < ups.len() ==> ups[j].0 != x) ==>
            #[trigger] crate::array::array_update(a, ups).0[x] == a[x],
        forall|j: int| #![trigger ups[j]] 0 <= j < ups.len() && (ups[j].0 as int) < a.len()
            && (forall|j2: int| j < j2 < ups.len() ==> ups[j2].0 != ups[j].0) ==>
            crate::array::array_update(a, ups).0[ups[j].0 as int] == ups[j].1,
        (forall|j: int| 0 <= j < ups.len() ==> (#[trigger] ups[j].0 as int) < a.len()) ==> crate::array::array_update(a, ups).1 == ups.len(),
        (forall|j: int| 0 <= j < ups.len() ==> (#[trigger] ups[j].0 as int) >= a.len()) ==> crate::array::array_update(a, ups).1 == 0,
    decreases ups.len(),
{
    if ups.len() > 0 {
        let init = ups.drop_last();
        lemma_array_update_elements(a, init);
        let (i, v) = ups.last();
        assert forall|x: int| 0 <= x < a.len() && (forall|j: int| 0 <= j < ups.len() ==> ups[j].0 != x) implies
            #[trigger] crate::array::array_update(a, ups).0[x] == a[x] by {
            assert(ups[ups.len() - 1].0 != x);
            assert forall|j: int| 0 <= j < init.len() implies init[j].0 != x by {
                assert(init[j] == ups[j]);
            }
        }
        assert forall|j: int| #![trigger ups[j]] 0 <= j < ups.len() && (ups[j].0 as int) < a.len()
            && (forall|j2: int| j < j2 < ups.len() ==> ups[j2].0 != ups[j].0) implies
            crate::array::array_update(a, ups).0[ups[j].0 as int] == ups[j].1 by {
            if j < init.len() {
                assert(init[j] == ups[j]);
                assert(ups[ups.len() - 1].0 != ups[j].0);
                assert forall|j2: int| j < j2 < init.len() implies init[j2].0 != init[j].0 by {
                    assert(init[j2] == ups[j2]);
                }
            }
        }
        if forall|j: int| 0 <= j < ups.len() ==> (#[trigger] ups[j].0 as int) < a.len() {
            assert forall|j: int| 0 <= j < init.len() implies (#[trigger] init[j].0 as int) < a.len() by {
                assert(init[j] == ups[j]);
            }
            assert(ups[ups.len() - 1].0 < a.len());
        }
        if forall|j: int| 0 <= j < ups.len() ==> (#[trigger] ups[j].0 as int) >= a.len() {
            assert forall|j: int| 0 <= j < init.len() implies (#[trigger] init[j].0 as int) >= a.len() by {
                assert(init[j] == ups[j]);
            }
            assert(ups[ups.len() - 1].0 >= a.len());
        }
    }
}

/// Updating a live array keeps its length and its expiry; an element no update
/// names is kept, and one named by updates takes the value of the last of them.
pub proof fn law_array_update_applies_last(m: StoreModel, k: Seq<u8>, a: Seq<ValueModel>, ups: Seq<(usize, ValueModel)>, now: u64)
    requires
        lookup(m, k, now) == Some(ValueModel::Array(a)),
    ensures
        array_update_op(m, k, ups, now).1 is Ok,
        array_update_op(m, k, ups, now).0[k].value is Array,
        array_update_op(m, k, ups, now).0[k].expires_at == m[k].expires_at,
        (array_update_op(m, k, ups, now).0[k].value->Array_0).len() == a.len(),
        forall|x: int| 0 <= x < a.len() && (forall|j: int| 0 <= j < ups.len() ==> ups[j].0 != x) ==>
            #[trigger] (array_update_op(m, k, ups, now).0[k].value->Array_0)[x] == a[x],
        forall|j: int| #![trigger ups[j]] 0 <= j < ups.len() && (ups[j].0 as int) < a.len()
            && (forall|j2: int| j < j2 < ups.len() ==> ups[j2].0 != ups[j].0) ==>
            (array_update_op(m, k, ups, now).0[k].value->Array_0)[ups[j].0 as int] == ups[j].1,
        (forall|j: int| 0 <= j < ups.len() ==> (#[trigger] ups[j].0 as int) < a.len()) ==> array_update_op(m, k, ups, now).1 == Ok::<nat, DomainError>(ups.len()),
        (forall|j: int| 0 <= j < ups.len() ==> (#[trigger] ups[j].0 as int) >= a.len()) ==> array_update_op(m, k, ups, now).1 == Ok::<nat, DomainError>(0),
{
    lemma_array_update_elements(a, ups);
}

/// Appending to a live array keeps its elements where they were and puts the
/// values (in their stored form) after them; the reply is the new length.
pub proof fn law_array_append_after(m: StoreModel, k: Seq<u8>, a: Seq<ValueModel>, vs: Seq<ValueModel>, now: u64)
    requires
        lookup(m, k, now) == Some(ValueModel::Array(a)),
    ensures
        array_append_op(m, k, vs, now).1 == Ok::<nat, DomainError>(a.len() + vs.len()),
        array_append_op(m, k, vs, now).0[k].value is Array,
        (array_append_op(m, k, vs, now).0[k].value->Array_0).len() == a.len() + vs.len(),
        forall|x: int| 0 <= x < a.len() ==> #[trigger] (array_append_op(m, k, vs, now).0[k].value->Array_0)[x] == a[x],
        forall|i: int| 0 <= i < vs.len() ==> #[trigger] (array_append_op(m, k, vs, now).0[k].value->Array_0)[a.len() + i] == normalized(vs[i]),
{
    crate::wellformed::lemma_normalized_all(vs);
}

// ---------------------------------------------------------------- hashes

/// The values of a live hash are one per field, in the order of its fields:
/// as many as `hlen` counts, the `j`-th being what `hget` gives for the `j`-th
/// field that `hkeys` lists.
pub proof fn law_hvals_match_hkeys(m: StoreModel, k: Seq<u8>, h: Seq<(Seq<u8>, Seq<u8>)>, now: u64)
    requires
        lookup(m, k, now) == Some(ValueModel::Hash(h)),
        keys_of(h).no_duplicates(),
    ensures
        hkeys_op(m, k, now).1 is Ok,
        hvals_op(m, k, now).1 is Ok,
        hlen_op(m, k, now).1 == Ok::<nat, DomainError>(h.len()),
        hkeys_op(m, k, now).1->Ok_0.len() == h.len(),
        hvals_op(m, k, now).1->Ok_0.len() == h.len(),
        forall|j: int| 0 <= j < h.len() ==> #[trigger] hvals_op(m, k, now).1->Ok_0[j] == h[j].1,
        forall|j: int| 0 <= j < h.len() ==> #[trigger] hkeys_op(m, k, now).1->Ok_0[j] == h[j].0,
        forall|j: int| 0 <= j < h.len() ==>
            hget_op(m, k, #[trigger] hkeys_op(m, k, now).1->Ok_0[j], now).1 == Ok::<Option<Seq<u8>>, DomainError>(Some(hvals_op(m, k, now).1->Ok_0[j])),
{
    assert forall|j: int| 0 <= j < h.len() implies
        hget_op(m, k, #[trigger] hkeys_op(m, k, now).1->Ok_0[j], now).1 == Ok::<Option<Seq<u8>>, DomainError>(Some(hvals_op(m, k, now).1->Ok_0[j])) by {
        assert(keys_of(h)[j] == h[j].0);
        assert forall|i: int| 0 <= i < j implies keys_of(h)[i] != h[j].0 by {
            assert(keys_of(h)[i] != keys_of(h)[j]);
        }
        crate::bytes::lemma_first_pos_at(keys_of(h), h[j].0, j);
    }
}

/// `hexists` of a field of a live hash tells whether `hget` finds it.
pub proof fn law_hexists_is_hget_some(m: StoreModel, k: Seq<u8>, f: Seq<u8>, now: u64)
    ensures
        hexists_op(m, k, f, now).1 is Ok <==> hget_op(m, k, f, now).1 is Ok,
        hexists_op(m, k, f, now).1 is Ok ==> (hexists_op(m, k, f, now).1->Ok_0 <==> hget_op(m, k, f, now).1->Ok_0 is Some),
{
    let p = purge(m, k, now);
    if p.contains_key(k) {
        match p[k].value {
            ValueModel::Hash(h) => {
                crate::bytes::lemma_first_pos(keys_of(h), f);
            },
            _ => {},
        }
    }
}

/// Deleting fields from a live hash leaves exactly the fields not listed, each
/// with its value, in the order they were.
pub proof fn law_hdel_leaves_others(m: StoreModel, k: Seq<u8>, h: Seq<(Seq<u8>, Seq<u8>)>, fs: Seq<Seq<u8>>, now: u64)
    requires
        lookup(m, k, now) == Some(ValueModel::Hash(h)),
    ensures
        hdel_op(m, k, fs, now).1 is Ok,
        hdel_op(m, k, fs, now).0[k].value is Hash,
        forall|y: Seq<u8>| #[trigger] keys_of(hdel_op(m, k, fs, now).0[k].value->Hash_0).contains(y) <==> (keys_of(h).contains(y) && !fs.contains(y)),
        forall|p: (Seq<u8>, Seq<u8>)| #[trigger] (hdel_op(m, k, fs, now).0[k].value->Hash_0).contains(p) ==> h.contains(p),
{
    lemma_del_keys_members(h, fs);
}

/// Setting a field of a live hash reads back under that field, leaves what
/// every other field reads unchanged, counts one more field exactly when the
/// field is new, and reports whether it was.
pub proof fn law_hset_store(m: StoreModel, k: Seq<u8>, h: Seq<(Seq<u8>, Seq<u8>)>, f: Seq<u8>, v: Seq<u8>, g: Seq<u8>, now: u64)
    requires
        lookup(m, k, now) == Some(ValueModel::Hash(h)),
        keys_of(h).no_duplicates(),
        g != f,
    ensures
        hset_op(m, k, f, v, now).1 == Ok::<bool, DomainError>(!keys_of(h).contains(f)),
        hget_op(hset_op(m, k, f, v, now).0, k, f, now).1 == Ok::<Option<Seq<u8>>, DomainError>(Some(v)),
        hget_op(hset_op(m, k, f, v, now).0, k, g, now).1 == hget_op(m, k, g, now).1,
        hlen_op(hset_op(m, k, f, v, now).0, k, now).1
            == Ok::<nat, DomainError>(h.len() + if keys_of(h).contains(f) { 0nat } else { 1nat }),
{
    crate::laws::law_store_hget_after_hset(m, k, f, v, now);
    crate::laws::law_hset_keeps_fields_distinct(h, f, v);
    let h2 = crate::hash::hash_put(h, f, v);
    crate::bytes::lemma_first_pos(keys_of(h), f);
    crate::bytes::lemma_first_pos(keys_of(h), g);
    crate::bytes::lemma_first_pos(keys_of(h2), g);
    match crate::bytes::first_pos(keys_of(h), f) {
        Some(i) => {
            assert(keys_of(h2) =~= keys_of(h));
        },
        None => {
            assert(keys_of(h2) =~= keys_of(h).push(f));
            crate::pairs::lemma_contains_push(keys_of(h), g, f);
            match crate::bytes::first_pos(keys_of(h2), g) {
                Some(j) => {
                    assert(j < h.len());
                    assert(keys_of(h)[j] == g);
                },
                None => {},
            }
            match crate::bytes::first_pos(keys_of(h), g) {
                Some(j) => {
                    assert(keys_of(h2)[j] == g);
                },
                None => {},
            }
        },
    }
    assert(crate::hash::hash_get(h2, g) == crate::hash::hash_get(h, g));
}

/// A field set or a member added under a key that holds nothing live makes a
/// new hash or sorted set, without expiry, holding just that one pair.
pub proof fn law_new_hash_and_zset(m: StoreModel, k: Seq<u8>, f: Seq<u8>, v: Seq<u8>, x: Seq<u8>, bits: u64, now: u64)
    requires
        lookup(m, k, now) is None,
    ensures
        hset_op(m, k, f, v, now).1 == Ok::<bool, DomainError>(true),
        hset_op(m, k, f, v, now).0.contains_key(k),
        hset_op(m, k, f, v, now).0[k].value == ValueModel::Hash(seq![(f, v)]),
        hset_op(m, k, f, v, now).0[k].expires_at is None,
        zadd_op(m, k, bits, x, now).1 == Ok::<bool, DomainError>(true),
        zadd_op(m, k, bits, x, now).0.contains_key(k),
        zadd_op(m, k, bits, x, now).0[k].value == ValueModel::Zset(seq![(x, bits)]),
        zadd_op(m, k, bits, x, now).0[k].expires_at is None,
{
    let e = Seq::<(Seq<u8>, u64)>::empty();
    assert(crate::pairs::remove_key(e, x) == e);
    let flags = crate::zset::after_flags(e, crate::zset::order_key(bits));
    flags.index_of_first_ensures(true);
    assert(crate::zset::insert_pos(e, crate::zset::order_key(bits)) == 0);
    assert(e.insert(0, (x, bits)) =~= seq![(x, bits)]);
}

} // verus!
