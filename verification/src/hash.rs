use vstd::prelude::*;
use crate::bytes::{
    keys_of, vals_of, first_pos, lemma_first_pos, find_key, copy_bytes, lemma_bytes_deep_view,
};

verus! {

/// The value of the first pair whose field is `f`.
pub open spec fn hash_get(h: Seq<(Seq<u8>, Seq<u8>)>, f: Seq<u8>) -> Option<Seq<u8>> {
    match first_pos(keys_of(h), f) {
        Some(i) => Some(h[i].1),
        None => None,
    }
}

/// Sets field `f` to `v`: the first pair with that field is replaced in place,
/// or the pair is appended when the field is new.
pub open spec fn hash_put(h: Seq<(Seq<u8>, Seq<u8>)>, f: Seq<u8>, v: Seq<u8>) -> Seq<(Seq<u8>, Seq<u8>)> {
    match first_pos(keys_of(h), f) {
        Some(i) => h.update(i, (f, v)),
        None => h.push((f, v)),
    }
}

pub open spec fn opt_bytes(o: Option<Vec<u8>>) -> Option<Seq<u8>> {
    match o {
        Some(v) => Some(v@),
        None => None,
    }
}

pub fn hash_get_in(h: &Vec<(Vec<u8>, Vec<u8>)>, f: &[u8]) -> (r: Option<Vec<u8>>)
    ensures
        opt_bytes(r) == hash_get(h.deep_view(), f@),
{
    proof {
        lemma_first_pos(keys_of(h.deep_view()), f@);
    }
    match find_key(h, f) {
        Some(i) => {
            proof {
                lemma_bytes_deep_view(&h@[i as int].1);
            }
            Some(copy_bytes(h[i].1.as_slice()))
        },
        None => None,
    }
}

pub fn hash_put_in(h: &mut Vec<(Vec<u8>, Vec<u8>)>, f: &[u8], v: Vec<u8>) -> (added: bool)
    ensures
        final(h).deep_view() == hash_put(old(h).deep_view(), f@, v@),
        added == !keys_of(old(h).deep_view()).contains(f@),
{
    let ghost d = h.deep_view();
    proof {
        lemma_first_pos(keys_of(d), f@);
        lemma_bytes_deep_view(&v);
    }
    let key = copy_bytes(f);
    proof {
        lemma_bytes_deep_view(&key);
    }
    match find_key(h, f) {
        Some(i) => {
            h.set(i, (key, v));
            proof {
                assert(h.deep_view() =~= d.update(i as int, (f@, v@)));
            }
            false
        },
        None => {
            h.push((key, v));
            proof {
                assert(h.deep_view() =~= d.push((f@, v@)));
            }
            true
        },
    }
}

/// The fields, in order.
pub fn hash_fields(h: &Vec<(Vec<u8>, Vec<u8>)>) -> (r: Vec<Vec<u8>>)
    ensures
        r.deep_view() == keys_of(h.deep_view()),
{
    let mut r: Vec<Vec<u8>> = Vec::new();
    let mut i: usize = 0;
    while i < h.len()
        invariant
            0 <= i <= h@.len(),
            r.deep_view() == keys_of(h.deep_view()).take(i as int),
        decreases h@.len() - i,
    {
        let b = copy_bytes(h[i].0.as_slice());
        proof {
            lemma_bytes_deep_view(&b);
            lemma_bytes_deep_view(&h@[i as int].0);
        }
        let ghost before = r.deep_view();
        r.push(b);
        proof {
            assert(r.deep_view() =~= before.push(keys_of(h.deep_view())[i as int]));
            assert(keys_of(h.deep_view()).take(i + 1) =~= keys_of(h.deep_view()).take(i as int).push(
                keys_of(h.deep_view())[i as int],
            ));
        }
        i = i + 1;
    }
    assert(keys_of(h.deep_view()).take(h@.len() as int) =~= keys_of(h.deep_view()));
    r
}

/// The values, in field order.
pub fn hash_values(h: &Vec<(Vec<u8>, Vec<u8>)>) -> (r: Vec<Vec<u8>>)
    ensures
        r.deep_view() == vals_of(h.deep_view()),
{
    let mut r: Vec<Vec<u8>> = Vec::new();
    let mut i: usize = 0;
    while i < h.len()
        invariant
            0 <= i <= h@.len(),
            r.deep_view() == vals_of(h.deep_view()).take(i as int),
        decreases h@.len() - i,
    {
        let b = copy_bytes(h[i].1.as_slice());
        proof {
            lemma_bytes_deep_view(&b);
            lemma_bytes_deep_view(&h@[i as int].1);
        }
        let ghost before = r.deep_view();
        r.push(b);
        proof {
            assert(r.deep_view() =~= before.push(vals_of(h.deep_view())[i as int]));
            assert(vals_of(h.deep_view()).take(i + 1) =~= vals_of(h.deep_view()).take(i as int).push(
                vals_of(h.deep_view())[i as int],
            ));
        }
        i = i + 1;
    }
    assert(vals_of(h.deep_view()).take(h@.len() as int) =~= vals_of(h.deep_view()));
    r
}

} // verus!
