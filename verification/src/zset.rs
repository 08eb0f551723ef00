use vstd::prelude::*;
use crate::bytes::{keys_of, first_pos, lemma_first_pos, find_key, copy_bytes, lemma_bytes_deep_view};
use crate::pairs::{remove_key, remove_key_in};
use crate::range::{index_window, window};

verus! {

/// The integer by which a score is ordered, from the IEEE-754 bit pattern of
/// the score: negative scores have all bits flipped, the others the sign bit
/// set, so that the unsigned order of the results is the total order of the
/// scores.
pub open spec fn order_key(bits: u64) -> u64 {
    if bits >= 0x8000_0000_0000_0000u64 {
        !bits
    } else {
        bits | 0x8000_0000_0000_0000u64
    }
}

pub fn score_order_key(bits: u64) -> (r: u64)
    ensures
        r == order_key(bits),
{
    if bits >= 0x8000_0000_0000_0000u64 {
        !bits
    } else {
        bits | 0x8000_0000_0000_0000u64
    }
}

/// Whether each entry is ordered after the order key `k`.
pub open spec fn after_flags(z: Seq<(Seq<u8>, u64)>, k: u64) -> Seq<bool> {
    Seq::new(z.len(), |i: int| order_key(z[i].1) > k)
}

/// Where an entry with order key `k` goes: before the first entry ordered after
/// it, or at the end.
pub open spec fn insert_pos(z: Seq<(Seq<u8>, u64)>, k: u64) -> int {
    match after_flags(z, k).index_of_first(true) {
        Some(i) => i,
        None => z.len() as int,
    }
}

/// Sets the score of member `m`: any entry of `m` leaves, and the new entry goes
/// after every entry whose score orders at or before it. The flag tells whether
/// the member is new.
pub open spec fn zadd(z: Seq<(Seq<u8>, u64)>, m: Seq<u8>, bits: u64) -> (Seq<(Seq<u8>, u64)>, bool) {
    let z1 = remove_key(z, m);
    (z1.insert(insert_pos(z1, order_key(bits)), (m, bits)), !keys_of(z).contains(m))
}

/// The score bits of the first entry of member `m`.
pub open spec fn zscore(z: Seq<(Seq<u8>, u64)>, m: Seq<u8>) -> Option<u64> {
    match first_pos(keys_of(z), m) {
        Some(i) => Some(z[i].1),
        None => None,
    }
}

/// The members in the window that an inclusive index range picks.
pub open spec fn zrange(z: Seq<(Seq<u8>, u64)>, start: i64, stop: i64) -> Seq<Seq<u8>> {
    let w = index_window(z.len() as int, start, stop);
    keys_of(z).subrange(w.0, w.1)
}

/// Entries are in non-decreasing order of their order keys.
pub open spec fn zsorted(z: Seq<(Seq<u8>, u64)>) -> bool {
    forall|i: int, j: int| 0 <= i <= j < z.len() ==> order_key(z[i].1) <= order_key(z[j].1)
}

pub fn zadd_in(z: &mut Vec<(Vec<u8>, u64)>, m: &[u8], bits: u64) -> (added: bool)
    ensures
        (final(z).deep_view(), added) == zadd(old(z).deep_view(), m@, bits),
{
    let found = remove_key_in(z, m);
    let ghost z1 = z.deep_view();
    let k = score_order_key(bits);
    let ghost flags = after_flags(z1, k);
    let mut pos: usize = 0;
    while pos < z.len()
        invariant
            z1 == z.deep_view(),
            flags == after_flags(z1, k),
            0 <= pos <= z@.len(),
            forall|j: int| 0 <= j < pos ==> flags[j] == false,
        ensures
            0 <= pos <= z@.len(),
            forall|j: int| 0 <= j < pos ==> flags[j] == false,
            pos == z@.len() || flags[pos as int],
        decreases z@.len() - pos,
    {
        assert(z1[pos as int].1 == z@[pos as int].1);
        let kp = score_order_key(z[pos].1);
        if kp > k {
            break;
        }
        pos = pos + 1;
    }
    proof {
        flags.index_of_first_ensures(true);
        if pos < z@.len() {
            assert(flags[pos as int] == true);
            assert(flags.contains(true));
        } else {
            assert(!flags.contains(true));
        }
        assert(insert_pos(z1, k) == pos as int);
    }
    let key = copy_bytes(m);
    proof {
        lemma_bytes_deep_view(&key);
    }
    z.insert(pos, (key, bits));
    proof {
        assert(z.deep_view() =~= z1.insert(pos as int, (m@, bits)));
    }
    !found
}

pub fn zscore_in(z: &Vec<(Vec<u8>, u64)>, m: &[u8]) -> (r: Option<u64>)
    ensures
        r == zscore(z.deep_view(), m@),
{
    proof {
        lemma_first_pos(keys_of(z.deep_view()), m@);
    }
    match find_key(z, m) {
        Some(i) => Some(z[i].1),
        None => None,
    }
}

pub fn zrange_in(z: &Vec<(Vec<u8>, u64)>, start: i64, stop: i64) -> (r: Vec<Vec<u8>>)
    ensures
        r.deep_view() == zrange(z.deep_view(), start, stop),
{
    let ghost d = keys_of(z.deep_view());
    let (lo, hi) = window(z.len(), start, stop);
    let mut r: Vec<Vec<u8>> = Vec::new();
    let mut i: usize = lo;
    while i < hi
        invariant
            d == keys_of(z.deep_view()),
            lo <= i <= hi <= z@.len(),
            r.deep_view() == d.subrange(lo as int, i as int),
        decreases hi - i,
    {
        proof {
            lemma_bytes_deep_view(&z@[i as int].0);
        }
        let b = copy_bytes(z[i].0.as_slice());
        proof {
            lemma_bytes_deep_view(&b);
        }
        let ghost before = r.deep_view();
        r.push(b);
        proof {
            assert(r.deep_view() =~= before.push(d[i as int]));
            assert(d.subrange(lo as int, i + 1) =~= d.subrange(lo as int, i as int).push(d[i as int]));
        }
        i = i + 1;
    }
    r
}

} // verus!
