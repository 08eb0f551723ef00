use vstd::prelude::*;
use crate::bytes::{copy_bytes, lemma_bytes_deep_view};
use crate::range::{index_window, window};
use crate::hash::opt_bytes;

verus! {

/// Pushes each value of `vs` in turn onto the front of `l`.
pub open spec fn lpush(l: Seq<Seq<u8>>, vs: Seq<Seq<u8>>) -> Seq<Seq<u8>>
    decreases vs.len(),
{
    if vs.len() == 0 {
        l
    } else {
        seq![vs.last()] + lpush(l, vs.drop_last())
    }
}

pub proof fn lemma_lpush_len(l: Seq<Seq<u8>>, vs: Seq<Seq<u8>>)
    ensures
        lpush(l, vs).len() == l.len() + vs.len(),
    decreases vs.len(),
{
    if vs.len() > 0 {
        lemma_lpush_len(l, vs.drop_last());
    }
}

/// Takes the first item off, if there is one.
pub open spec fn lpop(l: Seq<Seq<u8>>) -> (Seq<Seq<u8>>, Option<Seq<u8>>) {
    if l.len() == 0 {
        (l, None)
    } else {
        (l.drop_first(), Some(l[0]))
    }
}

/// Takes the last item off, if there is one.
pub open spec fn rpop(l: Seq<Seq<u8>>) -> (Seq<Seq<u8>>, Option<Seq<u8>>) {
    if l.len() == 0 {
        (l, None)
    } else {
        (l.drop_last(), Some(l.last()))
    }
}

/// The items of `l` in the window that an inclusive index range picks.
pub open spec fn lrange(l: Seq<Seq<u8>>, start: i64, stop: i64) -> Seq<Seq<u8>> {
    let w = index_window(l.len() as int, start, stop);
    l.subrange(w.0, w.1)
}

pub fn lpush_in(l: &mut Vec<Vec<u8>>, vs: &Vec<Vec<u8>>)
    ensures
        final(l).deep_view() == lpush(old(l).deep_view(), vs.deep_view()),
{
    let ghost orig = l.deep_view();
    let ghost vd = vs.deep_view();
    let mut i: usize = 0;
    proof {
        assert(vd.take(0) =~= Seq::<Seq<u8>>::empty());
    }
    while i < vs.len()
        invariant
            vd == vs.deep_view(),
            0 <= i <= vs@.len(),
            l.deep_view() == lpush(orig, vd.take(i as int)),
        decreases vs@.len() - i,
    {
        proof {
            lemma_bytes_deep_view(&vs@[i as int]);
            assert(vd.take(i + 1).drop_last() =~= vd.take(i as int));
        }
        let b = copy_bytes(vs[i].as_slice());
        proof {
            lemma_bytes_deep_view(&b);
        }
        let ghost before = l.deep_view();
        l.insert(0, b);
        proof {
            assert(l.deep_view() =~= seq![vd[i as int]] + before);
        }
        i = i + 1;
    }
    proof {
        assert(vd.take(vs@.len() as int) =~= vd);
    }
}

pub fn rpush_in(l: &mut Vec<Vec<u8>>, vs: &Vec<Vec<u8>>)
    ensures
        final(l).deep_view() == old(l).deep_view() + vs.deep_view(),
{
    let ghost orig = l.deep_view();
    let ghost vd = vs.deep_view();
    let mut i: usize = 0;
    proof {
        assert(orig + vd.take(0) =~= orig);
    }
    while i < vs.len()
        invariant
            vd == vs.deep_view(),
            0 <= i <= vs@.len(),
            l.deep_view() == orig + vd.take(i as int),
        decreases vs@.len() - i,
    {
        proof {
            lemma_bytes_deep_view(&vs@[i as int]);
        }
        let b = copy_bytes(vs[i].as_slice());
        proof {
            lemma_bytes_deep_view(&b);
        }
        let ghost before = l.deep_view();
        l.push(b);
        proof {
            assert(l.deep_view() =~= before.push(vd[i as int]));
            assert(orig + vd.take(i + 1) =~= (orig + vd.take(i as int)).push(vd[i as int]));
        }
        i = i + 1;
    }
    proof {
        assert(vd.take(vs@.len() as int) =~= vd);
    }
}

/// Removes and returns the first item, if any.
pub fn lpop_in(l: &mut Vec<Vec<u8>>) -> (r: Option<Vec<u8>>)
    ensures
        (final(l).deep_view(), opt_bytes(r)) == lpop(old(l).deep_view()),
{
    if l.len() == 0 {
        None
    } else {
        let ghost before = l.deep_view();
        let ghost bv = l@;
        let v = l.remove(0);
        proof {
            lemma_bytes_deep_view(&v);
            assert(l@ =~= bv.drop_first());
            assert(l.deep_view() =~= before.drop_first());
        }
        Some(v)
    }
}

/// Removes and returns the last item, if any.
pub fn rpop_in(l: &mut Vec<Vec<u8>>) -> (r: Option<Vec<u8>>)
    ensures
        (final(l).deep_view(), opt_bytes(r)) == rpop(old(l).deep_view()),
{
    if l.len() == 0 {
        None
    } else {
        let ghost before = l.deep_view();
        let v = l.pop();
        let v = v.unwrap();
        proof {
            lemma_bytes_deep_view(&v);
            assert(l.deep_view() =~= before.drop_last());
        }
        Some(v)
    }
}

/// Copies the items of `l` at positions `lo..hi`.
pub fn copy_window(l: &Vec<Vec<u8>>, lo: usize, hi: usize) -> (r: Vec<Vec<u8>>)
    requires
        lo <= hi <= l@.len(),
    ensures
        r.deep_view() == l.deep_view().subrange(lo as int, hi as int),
{
    let ghost d = l.deep_view();
    let mut r: Vec<Vec<u8>> = Vec::new();
    let mut i: usize = lo;
    while i < hi
        invariant
            d == l.deep_view(),
            lo <= i <= hi <= l@.len(),
            r.deep_view() == d.subrange(lo as int, i as int),
        decreases hi - i,
    {
        proof {
            lemma_bytes_deep_view(&l@[i as int]);
        }
        let b = copy_bytes(l[i].as_slice());
        proof {
            lemma_bytes_deep_view(&b);
        }
        let ghost before = r.deep_view();
        r.push(b);
        proof {
            assert(r.deep_view() =~= before.push(d[i as int]));
            assert(d.subrange(lo as int, i + 1) =~= d.subrange(lo as int, i as int).push(d[i as int]));
        }
        i = i + 1;
    }
    r
}

pub fn lrange_in(l: &Vec<Vec<u8>>, start: i64, stop: i64) -> (r: Vec<Vec<u8>>)
    ensures
        r.deep_view() == lrange(l.deep_view(), start, stop),
{
    let (lo, hi) = window(l.len(), start, stop);
    copy_window(l, lo, hi)
}

} // verus!
