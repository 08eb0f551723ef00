use vstd::prelude::*;
use crate::bytes::{keys_of, bytes_eq, lemma_bytes_deep_view};

verus! {

/// `s` without the pairs whose first component is `k`, the others in order.
pub open spec fn remove_key<V>(s: Seq<(Seq<u8>, V)>, k: Seq<u8>) -> Seq<(Seq<u8>, V)>
    decreases s.len(),
{
    if s.len() == 0 {
        s
    } else {
        let r = remove_key(s.drop_last(), k);
        if s.last().0 == k {
            r
        } else {
            r.push(s.last())
        }
    }
}

/// `s` without the occurrences of `x`, the others in order.
pub open spec fn remove_all(s: Seq<Seq<u8>>, x: Seq<u8>) -> Seq<Seq<u8>>
    decreases s.len(),
{
    if s.len() == 0 {
        s
    } else {
        let r = remove_all(s.drop_last(), x);
        if s.last() == x {
            r
        } else {
            r.push(s.last())
        }
    }
}

pub proof fn lemma_keys_of_take<V>(s: Seq<(Seq<u8>, V)>, i: int)
    requires
        0 <= i < s.len(),
    ensures
        keys_of(s.take(i + 1)) == keys_of(s.take(i)).push(s[i].0),
{
    assert(keys_of(s.take(i + 1)) =~= keys_of(s.take(i)).push(s[i].0));
}

pub proof fn lemma_contains_push(s: Seq<Seq<u8>>, x: Seq<u8>, y: Seq<u8>)
    ensures
        s.push(y).contains(x) == (s.contains(x) || x == y),
{
    if s.push(y).contains(x) {
        let j = choose|j: int| 0 <= j < s.push(y).len() && s.push(y)[j] == x;
        if j < s.len() {
            assert(s[j] == x);
        }
    }
    if s.contains(x) {
        let j = choose|j: int| 0 <= j < s.len() && s[j] == x;
        assert(s.push(y)[j] == x);
    }
    if x == y {
        assert(s.push(y)[s.len() as int] == x);
    }
}

/// Removes every pair whose first component is `k`; tells whether there was one.
pub fn remove_key_in<V: DeepView>(s: &mut Vec<(Vec<u8>, V)>, k: &[u8]) -> (found: bool)
    ensures
        final(s).deep_view() == remove_key(old(s).deep_view(), k@),
        found == keys_of(old(s).deep_view()).contains(k@),
{
    let ghost orig = s.deep_view();
    let mut src: Vec<(Vec<u8>, V)> = Vec::new();
    std::mem::swap(&mut src, s);
    let mut out: Vec<(Vec<u8>, V)> = Vec::new();
    let mut found = false;
    let ghost mut i: int = 0;
    proof {
        assert(orig.take(0) =~= Seq::<(Seq<u8>, V::V)>::empty());
        assert(keys_of(orig.take(0)) =~= Seq::<Seq<u8>>::empty());
        assert(src.deep_view() =~= orig.skip(0));
    }
    while src.len() > 0
        invariant
            0 <= i <= orig.len(),
            src.deep_view() == orig.skip(i),
            out.deep_view() == remove_key(orig.take(i), k@),
            found == keys_of(orig.take(i)).contains(k@),
        decreases src@.len(),
    {
        proof {
            assert(src.deep_view().len() == src@.len());
            assert(i < orig.len());
        }
        let ghost bs = src.deep_view();
        let ghost bv = src@;
        let e = src.remove(0);
        proof {
            assert(src@ =~= bv.skip(1));
            assert forall|j: int| 0 <= j < src.deep_view().len() implies src.deep_view()[j] == bs[j + 1] by {
                assert(src@[j] == bv[j + 1]);
            }
            assert(orig.skip(i)[0] == orig[i]);
            assert(e.deep_view() == orig[i]);
            lemma_bytes_deep_view(&e.0);
            assert(orig.take(i + 1).drop_last() =~= orig.take(i));
            lemma_keys_of_take(orig, i);
            lemma_contains_push(keys_of(orig.take(i)), k@, orig[i].0);
            assert(src.deep_view() =~= orig.skip(i + 1));
        }
        let same = bytes_eq(e.0.as_slice(), k);
        if same {
            found = true;
        } else {
            let ghost before = out.deep_view();
            out.push(e);
            proof {
                assert(out.deep_view() =~= before.push(orig[i]));
            }
        }
        proof {
            i = i + 1;
        }
    }
    proof {
        assert(orig.take(i) =~= orig);
    }
    *s = out;
    found
}

/// Removes every occurrence of `x`; tells whether there was one.
pub fn remove_all_in(s: &mut Vec<Vec<u8>>, x: &[u8]) -> (found: bool)
    ensures
        final(s).deep_view() == remove_all(old(s).deep_view(), x@),
        found == old(s).deep_view().contains(x@),
{
    let ghost orig = s.deep_view();
    let mut src: Vec<Vec<u8>> = Vec::new();
    std::mem::swap(&mut src, s);
    let mut out: Vec<Vec<u8>> = Vec::new();
    let mut found = false;
    let ghost mut i: int = 0;
    proof {
        assert(orig.take(0) =~= Seq::<Seq<u8>>::empty());
        assert(src.deep_view() =~= orig.skip(0));
    }
    while src.len() > 0
        invariant
            0 <= i <= orig.len(),
            src.deep_view() == orig.skip(i),
            out.deep_view() == remove_all(orig.take(i), x@),
            found == orig.take(i).contains(x@),
        decreases src@.len(),
    {
        proof {
            assert(src.deep_view().len() == src@.len());
            assert(i < orig.len());
        }
        let ghost bs = src.deep_view();
        let ghost bv = src@;
        let e = src.remove(0);
        proof {
            assert(src@ =~= bv.skip(1));
            assert forall|j: int| 0 <= j < src.deep_view().len() implies src.deep_view()[j] == bs[j + 1] by {
                assert(src@[j] == bv[j + 1]);
            }
            assert(orig.skip(i)[0] == orig[i]);
            lemma_bytes_deep_view(&e);
            assert(orig.take(i + 1).drop_last() =~= orig.take(i));
            assert(orig.take(i + 1) =~= orig.take(i).push(orig[i]));
            lemma_contains_push(orig.take(i), x@, orig[i]);
            assert(src.deep_view() =~= orig.skip(i + 1));
        }
        let same = bytes_eq(e.as_slice(), x);
        if same {
            found = true;
        } else {
            let ghost before = out.deep_view();
            out.push(e);
            proof {
                assert(out.deep_view() =~= before.push(orig[i]));
            }
        }
        proof {
            i = i + 1;
        }
    }
    proof {
        assert(orig.take(i) =~= orig);
    }
    *s = out;
    found
}

/// Removes the keys of `ks` one after another, counting those that were present.
pub open spec fn del_keys<V>(s: Seq<(Seq<u8>, V)>, ks: Seq<Seq<u8>>) -> (Seq<(Seq<u8>, V)>, nat)
    decreases ks.len(),
{
    if ks.len() == 0 {
        (s, 0)
    } else {
        let (s1, n) = del_keys(s, ks.drop_last());
        (remove_key(s1, ks.last()), if keys_of(s1).contains(ks.last()) { n + 1 } else { n })
    }
}

/// Removes the values of `xs` one after another, counting those that were present.
pub open spec fn del_all(s: Seq<Seq<u8>>, xs: Seq<Seq<u8>>) -> (Seq<Seq<u8>>, nat)
    decreases xs.len(),
{
    if xs.len() == 0 {
        (s, 0)
    } else {
        let (s1, n) = del_all(s, xs.drop_last());
        (remove_all(s1, xs.last()), if s1.contains(xs.last()) { n + 1 } else { n })
    }
}

pub fn del_keys_in<V: DeepView>(s: &mut Vec<(Vec<u8>, V)>, ks: &Vec<Vec<u8>>) -> (n: usize)
    ensures
        (final(s).deep_view(), n as nat) == del_keys(old(s).deep_view(), ks.deep_view()),
{
    let ghost orig = s.deep_view();
    let ghost kd = ks.deep_view();
    let mut n: usize = 0;
    let mut i: usize = 0;
    proof {
        assert(kd.take(0) =~= Seq::<Seq<u8>>::empty());
    }
    while i < ks.len()
        invariant
            kd == ks.deep_view(),
            0 <= i <= ks@.len(),
            n <= i,
            (s.deep_view(), n as nat) == del_keys(orig, kd.take(i as int)),
        decreases ks@.len() - i,
    {
        proof {
            lemma_bytes_deep_view(&ks@[i as int]);
            assert(kd.take(i + 1).drop_last() =~= kd.take(i as int));
        }
        let found = remove_key_in(s, ks[i].as_slice());
        if found {
            n = n + 1;
        }
        i = i + 1;
    }
    proof {
        assert(kd.take(ks@.len() as int) =~= kd);
    }
    n
}

pub fn del_all_in(s: &mut Vec<Vec<u8>>, xs: &Vec<Vec<u8>>) -> (n: usize)
    ensures
        (final(s).deep_view(), n as nat) == del_all(old(s).deep_view(), xs.deep_view()),
{
    let ghost orig = s.deep_view();
    let ghost xd = xs.deep_view();
    let mut n: usize = 0;
    let mut i: usize = 0;
    proof {
        assert(xd.take(0) =~= Seq::<Seq<u8>>::empty());
    }
    while i < xs.len()
        invariant
            xd == xs.deep_view(),
            0 <= i <= xs@.len(),
            n <= i,
            (s.deep_view(), n as nat) == del_all(orig, xd.take(i as int)),
        decreases xs@.len() - i,
    {
        proof {
            lemma_bytes_deep_view(&xs@[i as int]);
            assert(xd.take(i + 1).drop_last() =~= xd.take(i as int));
        }
        let found = remove_all_in(s, xs[i].as_slice());
        if found {
            n = n + 1;
        }
        i = i + 1;
    }
    proof {
        assert(xd.take(xs@.len() as int) =~= xd);
    }
    n
}

/// What removing a key keeps: exactly the other pairs, each a pair of the input.
pub proof fn lemma_remove_key<V>(s: Seq<(Seq<u8>, V)>, k: Seq<u8>)
    ensures
        !keys_of(remove_key(s, k)).contains(k),
        forall|x: Seq<u8>| #[trigger] keys_of(remove_key(s, k)).contains(x) <==> (keys_of(s).contains(x) && x != k),
        forall|p: (Seq<u8>, V)| #[trigger] remove_key(s, k).contains(p) ==> s.contains(p),
        keys_of(s).no_duplicates() ==> keys_of(remove_key(s, k)).no_duplicates(),
    decreases s.len(),
{
    if s.len() > 0 {
        let init = s.drop_last();
        lemma_remove_key(init, k);
        let r0 = remove_key(init, k);
        assert(keys_of(s) =~= keys_of(init).push(s.last().0));
        assert forall|x: Seq<u8>| #[trigger] keys_of(s).contains(x) == (keys_of(init).contains(x) || x == s.last().0) by {
            lemma_contains_push(keys_of(init), x, s.last().0);
        }
        assert forall|p: (Seq<u8>, V)| #[trigger] init.contains(p) implies s.contains(p) by {
            let j = choose|j: int| 0 <= j < init.len() && init[j] == p;
            assert(s[j] == p);
        }
        if s.last().0 != k {
            let r = r0.push(s.last());
            assert(keys_of(r) =~= keys_of(r0).push(s.last().0));
            assert forall|x: Seq<u8>| #[trigger] keys_of(r).contains(x) == (keys_of(r0).contains(x) || x == s.last().0) by {
                lemma_contains_push(keys_of(r0), x, s.last().0);
            }
            assert forall|p: (Seq<u8>, V)| #[trigger] r.contains(p) implies s.contains(p) by {
                let j = choose|j: int| 0 <= j < r.len() && r[j] == p;
                if j < r0.len() {
                    assert(r0[j] == p);
                    assert(r0.contains(p));
                } else {
                    assert(s[s.len() - 1] == p);
                }
            }
            if keys_of(s).no_duplicates() {
                assert(keys_of(init).no_duplicates()) by {
                    assert forall|a: int, b: int| 0 <= a < keys_of(init).len() && 0 <= b < keys_of(init).len() && a != b implies keys_of(init)[a] != keys_of(init)[b] by {
                        assert(keys_of(s)[a] != keys_of(s)[b]);
                    }
                }
                assert(!keys_of(init).contains(s.last().0)) by {
                    if keys_of(init).contains(s.last().0) {
                        let j = choose|j: int| 0 <= j < keys_of(init).len() && keys_of(init)[j] == s.last().0;
                        assert(keys_of(s)[j] == keys_of(s)[s.len() - 1]);
                    }
                }
                assert forall|a: int, b: int| 0 <= a < keys_of(r).len() && 0 <= b < keys_of(r).len() && a != b implies keys_of(r)[a] != keys_of(r)[b] by {
                    if a < r0.len() && b < r0.len() {
                        assert(keys_of(r0)[a] != keys_of(r0)[b]);
                    } else if a < r0.len() {
                        assert(keys_of(r0).contains(keys_of(r0)[a]));
                    } else {
                        assert(keys_of(r0).contains(keys_of(r0)[b]));
                    }
                }
            }
        } else {
            if keys_of(s).no_duplicates() {
                assert forall|a: int, b: int| 0 <= a < keys_of(init).len() && 0 <= b < keys_of(init).len() && a != b implies keys_of(init)[a] != keys_of(init)[b] by {
                    assert(keys_of(s)[a] != keys_of(s)[b]);
                }
            }
        }
    } else {
        assert(keys_of(remove_key(s, k)) =~= Seq::<Seq<u8>>::empty());
    }
}

/// What removing a value keeps: exactly the other values, no duplicates added.
pub proof fn lemma_remove_all(s: Seq<Seq<u8>>, x: Seq<u8>)
    ensures
        !remove_all(s, x).contains(x),
        forall|y: Seq<u8>| #[trigger] remove_all(s, x).contains(y) <==> (s.contains(y) && y != x),
        s.no_duplicates() ==> remove_all(s, x).no_duplicates(),
    decreases s.len(),
{
    if s.len() > 0 {
        let init = s.drop_last();
        lemma_remove_all(init, x);
        let r0 = remove_all(init, x);
        assert(s =~= init.push(s.last()));
        assert forall|y: Seq<u8>| #[trigger] s.contains(y) == (init.contains(y) || y == s.last()) by {
            lemma_contains_push(init, y, s.last());
        }
        if s.no_duplicates() {
            assert forall|a: int, b: int| 0 <= a < init.len() && 0 <= b < init.len() && a != b implies init[a] != init[b] by {
                assert(s[a] != s[b]);
            }
        }
        if s.last() != x {
            let r = r0.push(s.last());
            assert forall|y: Seq<u8>| #[trigger] r.contains(y) == (r0.contains(y) || y == s.last()) by {
                lemma_contains_push(r0, y, s.last());
            }
            if s.no_duplicates() {
                assert(!init.contains(s.last())) by {
                    if init.contains(s.last()) {
                        let j = choose|j: int| 0 <= j < init.len() && init[j] == s.last();
                        assert(s[j] == s[s.len() - 1]);
                    }
                }
                assert forall|a: int, b: int| 0 <= a < r.len() && 0 <= b < r.len() && a != b implies r[a] != r[b] by {
                    if a < r0.len() && b < r0.len() {
                        assert(r0[a] != r0[b]);
                    } else if a < r0.len() {
                        assert(r0.contains(r0[a]));
                    } else {
                        assert(r0.contains(r0[b]));
                    }
                }
            }
        }
    }
}

} // verus!
