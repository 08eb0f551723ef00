use vstd::prelude::*;

verus! {

/// The first components of a sequence of pairs.
pub open spec fn keys_of<V>(s: Seq<(Seq<u8>, V)>) -> Seq<Seq<u8>> {
    Seq::new(s.len(), |i: int| s[i].0)
}

/// The second components of a sequence of pairs.
pub open spec fn vals_of<V>(s: Seq<(Seq<u8>, V)>) -> Seq<V> {
    Seq::new(s.len(), |i: int| s[i].1)
}

/// The position of the first occurrence of `x` in `s`, if any.
pub open spec fn first_pos(s: Seq<Seq<u8>>, x: Seq<u8>) -> Option<int> {
    s.index_of_first(x)
}

pub proof fn lemma_first_pos(s: Seq<Seq<u8>>, x: Seq<u8>)
    ensures
        match first_pos(s, x) {
            Some(i) => {
                &&& s.contains(x)
                &&& 0 <= i < s.len()
                &&& s[i] == x
                &&& forall|j: int| 0 <= j < i ==> s[j] != x
            },
            None => !s.contains(x),
        },
{
    s.index_of_first_ensures(x);
}

/// A first occurrence found by a scan is the one `first_pos` names.
pub proof fn lemma_first_pos_at(s: Seq<Seq<u8>>, x: Seq<u8>, i: int)
    requires
        0 <= i < s.len(),
        s[i] == x,
        forall|j: int| 0 <= j < i ==> s[j] != x,
    ensures
        first_pos(s, x) == Some(i),
{
    lemma_first_pos(s, x);
    assert(s.contains(x));
}

pub proof fn lemma_first_pos_none(s: Seq<Seq<u8>>, x: Seq<u8>)
    requires
        forall|j: int| 0 <= j < s.len() ==> s[j] != x,
    ensures
        first_pos(s, x) is None,
        !s.contains(x),
{
    lemma_first_pos(s, x);
}

/// Compares two byte strings.
pub fn bytes_eq(a: &[u8], b: &[u8]) -> (r: bool)
    ensures
        r == (a@ == b@),
{
    if a.len() != b.len() {
        return false;
    }
    let mut i: usize = 0;
    while i < a.len()
        invariant
            a@.len() == b@.len(),
            0 <= i <= a@.len(),
            forall|j: int| 0 <= j < i ==> a@[j] == b@[j],
        decreases a@.len() - i,
    {
        if a[i] != b[i] {
            return false;
        }
        i = i + 1;
    }
    assert(a@ =~= b@);
    true
}

/// Copies a byte string into a new vector.
pub fn copy_bytes(a: &[u8]) -> (r: Vec<u8>)
    ensures
        r@ == a@,
{
    let mut r: Vec<u8> = Vec::new();
    let mut i: usize = 0;
    while i < a.len()
        invariant
            0 <= i <= a@.len(),
            r@ == a@.take(i as int),
        decreases a@.len() - i,
    {
        r.push(a[i]);
        i = i + 1;
        assert(r@ =~= a@.take(i as int));
    }
    assert(a@.take(a@.len() as int) =~= a@);
    r
}

pub proof fn lemma_bytes_deep_view(v: &Vec<u8>)
    ensures
        v.deep_view() == v@,
{
    assert(v.deep_view() =~= v@);
}

/// Copies a sequence of byte strings.
pub fn copy_byte_list(s: &Vec<Vec<u8>>) -> (r: Vec<Vec<u8>>)
    ensures
        r.deep_view() == s.deep_view(),
{
    let mut r: Vec<Vec<u8>> = Vec::new();
    let mut i: usize = 0;
    while i < s.len()
        invariant
            0 <= i <= s@.len(),
            r.deep_view() == s.deep_view().take(i as int),
        decreases s@.len() - i,
    {
        let b = copy_bytes(s[i].as_slice());
        proof {
            lemma_bytes_deep_view(&b);
            lemma_bytes_deep_view(&s@[i as int]);
        }
        let ghost before = r.deep_view();
        r.push(b);
        proof {
            assert(r.deep_view() =~= before.push(s.deep_view()[i as int]));
            assert(s.deep_view().take(i + 1) =~= s.deep_view().take(i as int).push(s.deep_view()[i as int]));
        }
        i = i + 1;
    }
    assert(s.deep_view().take(s@.len() as int) =~= s.deep_view());
    r
}

/// Copies a sequence of field/value pairs.
pub fn copy_pairs(s: &Vec<(Vec<u8>, Vec<u8>)>) -> (r: Vec<(Vec<u8>, Vec<u8>)>)
    ensures
        r.deep_view() == s.deep_view(),
{
    let mut r: Vec<(Vec<u8>, Vec<u8>)> = Vec::new();
    let mut i: usize = 0;
    while i < s.len()
        invariant
            0 <= i <= s@.len(),
            r.deep_view() == s.deep_view().take(i as int),
        decreases s@.len() - i,
    {
        let a = copy_bytes(s[i].0.as_slice());
        let b = copy_bytes(s[i].1.as_slice());
        proof {
            lemma_bytes_deep_view(&a);
            lemma_bytes_deep_view(&b);
            lemma_bytes_deep_view(&s@[i as int].0);
            lemma_bytes_deep_view(&s@[i as int].1);
        }
        let ghost before = r.deep_view();
        r.push((a, b));
        proof {
            assert(r.deep_view() =~= before.push(s.deep_view()[i as int]));
            assert(s.deep_view().take(i + 1) =~= s.deep_view().take(i as int).push(s.deep_view()[i as int]));
        }
        i = i + 1;
    }
    assert(s.deep_view().take(s@.len() as int) =~= s.deep_view());
    r
}

/// Copies a sequence of member/score pairs.
pub fn copy_scored(s: &Vec<(Vec<u8>, u64)>) -> (r: Vec<(Vec<u8>, u64)>)
    ensures
        r.deep_view() == s.deep_view(),
{
    let mut r: Vec<(Vec<u8>, u64)> = Vec::new();
    let mut i: usize = 0;
    while i < s.len()
        invariant
            0 <= i <= s@.len(),
            r.deep_view() == s.deep_view().take(i as int),
        decreases s@.len() - i,
    {
        let a = copy_bytes(s[i].0.as_slice());
        proof {
            lemma_bytes_deep_view(&a);
            lemma_bytes_deep_view(&s@[i as int].0);
        }
        let ghost before = r.deep_view();
        r.push((a, s[i].1));
        proof {
            assert(r.deep_view() =~= before.push(s.deep_view()[i as int]));
            assert(s.deep_view().take(i + 1) =~= s.deep_view().take(i as int).push(s.deep_view()[i as int]));
        }
        i = i + 1;
    }
    assert(s.deep_view().take(s@.len() as int) =~= s.deep_view());
    r
}

/// Finds the first occurrence of `x` in a list of byte strings.
pub fn find_bytes(s: &Vec<Vec<u8>>, x: &[u8]) -> (r: Option<usize>)
    ensures
        match r {
            Some(i) => first_pos(s.deep_view(), x@) == Some(i as int),
            None => first_pos(s.deep_view(), x@) is None,
        },
{
    let ghost d = s.deep_view();
    let mut i: usize = 0;
    while i < s.len()
        invariant
            d == s.deep_view(),
            0 <= i <= s@.len(),
            forall|j: int| 0 <= j < i ==> d[j] != x@,
        decreases s@.len() - i,
    {
        proof {
            lemma_bytes_deep_view(&s@[i as int]);
        }
        let hit = bytes_eq(s[i].as_slice(), x);
        if hit {
            proof {
                lemma_first_pos_at(d, x@, i as int);
            }
            return Some(i);
        }
        i = i + 1;
    }
    proof {
        lemma_first_pos_none(d, x@);
    }
    None
}

/// Finds the first pair whose first component is `x`.
pub fn find_key<V: DeepView>(s: &Vec<(Vec<u8>, V)>, x: &[u8]) -> (r: Option<usize>)
    ensures
        match r {
            Some(i) => first_pos(keys_of(s.deep_view()), x@) == Some(i as int),
            None => first_pos(keys_of(s.deep_view()), x@) is None,
        },
{
    let ghost d = keys_of(s.deep_view());
    let mut i: usize = 0;
    while i < s.len()
        invariant
            d == keys_of(s.deep_view()),
            0 <= i <= s@.len(),
            forall|j: int| 0 <= j < i ==> d[j] != x@,
        decreases s@.len() - i,
    {
        proof {
            lemma_bytes_deep_view(&s@[i as int].0);
        }
        let hit = bytes_eq(s[i].0.as_slice(), x);
        if hit {
            proof {
                lemma_first_pos_at(d, x@, i as int);
            }
            return Some(i);
        }
        i = i + 1;
    }
    proof {
        lemma_first_pos_none(d, x@);
    }
    None
}

} // verus!
