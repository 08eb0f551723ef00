use vstd::prelude::*;
use crate::bytes::{lemma_first_pos, find_bytes, copy_bytes, lemma_bytes_deep_view};

verus! {

/// Adds the members of `ms` one after another, skipping those already present,
/// and counts the ones added.
pub open spec fn set_add(s: Seq<Seq<u8>>, ms: Seq<Seq<u8>>) -> (Seq<Seq<u8>>, nat)
    decreases ms.len(),
{
    if ms.len() == 0 {
        (s, 0)
    } else {
        let (s1, n) = set_add(s, ms.drop_last());
        if s1.contains(ms.last()) {
            (s1, n)
        } else {
            (s1.push(ms.last()), n + 1)
        }
    }
}

pub fn contains_bytes(s: &Vec<Vec<u8>>, x: &[u8]) -> (r: bool)
    ensures
        r == s.deep_view().contains(x@),
{
    proof {
        lemma_first_pos(s.deep_view(), x@);
    }
    let found = find_bytes(s, x);
    found.is_some()
}

pub fn set_add_in(s: &mut Vec<Vec<u8>>, ms: &Vec<Vec<u8>>) -> (n: usize)
    ensures
        (final(s).deep_view(), n as nat) == set_add(old(s).deep_view(), ms.deep_view()),
{
    let ghost orig = s.deep_view();
    let ghost md = ms.deep_view();
    let mut n: usize = 0;
    let mut i: usize = 0;
    proof {
        assert(md.take(0) =~= Seq::<Seq<u8>>::empty());
    }
    while i < ms.len()
        invariant
            md == ms.deep_view(),
            0 <= i <= ms@.len(),
            n <= i,
            (s.deep_view(), n as nat) == set_add(orig, md.take(i as int)),
        decreases ms@.len() - i,
    {
        proof {
            lemma_bytes_deep_view(&ms@[i as int]);
            assert(md.take(i + 1).drop_last() =~= md.take(i as int));
        }
        let present = contains_bytes(s, ms[i].as_slice());
        if !present {
            let b = copy_bytes(ms[i].as_slice());
            proof {
                lemma_bytes_deep_view(&b);
            }
            let ghost before = s.deep_view();
            s.push(b);
            proof {
                assert(s.deep_view() =~= before.push(md[i as int]));
            }
            n = n + 1;
        }
        i = i + 1;
    }
    proof {
        assert(md.take(ms@.len() as int) =~= md);
    }
    n
}

} // verus!
