use vstd::prelude::*;
use crate::value::{Value, ValueModel, models_of, lemma_models_of, copy_value};
use crate::wellformed::{normalized, normalize_value};
use crate::range::{slice_window, slice_bounds};

verus! {

/// The element at each requested index, or nothing past the end.
pub open spec fn array_get(a: Seq<ValueModel>, idx: Seq<usize>) -> Seq<Option<ValueModel>> {
    Seq::new(idx.len(), |j: int| if (idx[j] as int) < a.len() { Some(a[idx[j] as int]) } else { None })
}

/// The elements in the window of a slice request.
pub open spec fn array_slice(a: Seq<ValueModel>, start: usize, end: Option<usize>) -> Seq<ValueModel> {
    let w = slice_window(a.len() as int, start, end);
    a.subrange(w.0, w.1)
}

/// Applies the updates in turn, skipping those past the end, and counts the
/// applied ones.
pub open spec fn array_update(a: Seq<ValueModel>, ups: Seq<(usize, ValueModel)>) -> (Seq<ValueModel>, nat)
    decreases ups.len(),
{
    if ups.len() == 0 {
        (a, 0)
    } else {
        let (a1, n) = array_update(a, ups.drop_last());
        let (i, v) = ups.last();
        if (i as int) < a1.len() {
            (a1.update(i as int, v), n + 1)
        } else {
            (a1, n)
        }
    }
}

pub open spec fn opt_models(s: Seq<Option<Value>>) -> Seq<Option<ValueModel>> {
    Seq::new(s.len(), |j: int| match s[j] {
        Some(v) => Some(v.model()),
        None => None,
    })
}

/// The updates, each value in its well-formed form.
pub open spec fn update_models(u: Seq<(usize, Value)>) -> Seq<(usize, ValueModel)> {
    Seq::new(u.len(), |j: int| (u[j].0, normalized(u[j].1.model())))
}

/// Updates never change an array's length, and no more of them apply than
/// were given.
pub proof fn law_array_update_keeps_length(a: Seq<ValueModel>, ups: Seq<(usize, ValueModel)>)
    ensures
        array_update(a, ups).0.len() == a.len(),
        array_update(a, ups).1 <= ups.len(),
    decreases ups.len(),
{
    if ups.len() > 0 {
        law_array_update_keeps_length(a, ups.drop_last());
    }
}

pub fn array_get_in(a: &Vec<Value>, idx: &Vec<usize>) -> (r: Vec<Option<Value>>)
    ensures
        opt_models(r@) == array_get(models_of(a@), idx@),
{
    proof {
        lemma_models_of(a@);
    }
    let mut r: Vec<Option<Value>> = Vec::new();
    let mut j: usize = 0;
    while j < idx.len()
        invariant
            0 <= j <= idx@.len(),
            r@.len() == j,
            models_of(a@).len() == a@.len(),
            forall|k: int| 0 <= k < a@.len() ==> #[trigger] models_of(a@)[k] == a@[k].model(),
            forall|k: int| 0 <= k < j ==> #[trigger] opt_models(r@)[k] == array_get(models_of(a@), idx@)[k],
        decreases idx@.len() - j,
    {
        let ghost before = r@;
        let i = idx[j];
        if i < a.len() {
            let c = copy_value(&a[i]);
            r.push(Some(c));
        } else {
            r.push(None);
        }
        proof {
            assert(opt_models(r@)[j as int] == array_get(models_of(a@), idx@)[j as int]);
            assert forall|k: int| 0 <= k < j + 1 implies #[trigger] opt_models(r@)[k] == array_get(models_of(a@), idx@)[k] by {
                if k < j {
                    assert(r@[k] == before[k]);
                    assert(opt_models(r@)[k] == opt_models(before)[k]);
                }
            }
        }
        j = j + 1;
    }
    assert(opt_models(r@) =~= array_get(models_of(a@), idx@));
    r
}

pub fn array_slice_in(a: &Vec<Value>, start: usize, end: Option<usize>) -> (r: Vec<Value>)
    ensures
        models_of(r@) == array_slice(models_of(a@), start, end),
{
    proof {
        lemma_models_of(a@);
    }
    let (lo, hi) = slice_bounds(a.len(), start, end);
    let mut r: Vec<Value> = Vec::new();
    let mut i: usize = lo;
    while i < hi
        invariant
            lo <= i <= hi <= a@.len(),
            r@.len() == i - lo,
            forall|k: int| 0 <= k < r@.len() ==> #[trigger] r@[k].model() == a@[lo + k].model(),
        decreases hi - i,
    {
        let c = copy_value(&a[i]);
        r.push(c);
        i = i + 1;
    }
    proof {
        lemma_models_of(r@);
        assert(models_of(r@) =~= models_of(a@).subrange(lo as int, hi as int));
    }
    r
}

pub fn array_update_in(a: &mut Vec<Value>, ups: &Vec<(usize, Value)>) -> (n: usize)
    ensures
        (models_of(final(a)@), n as nat) == array_update(models_of(old(a)@), update_models(ups@)),
{
    let ghost orig = models_of(a@);
    let ghost um = update_models(ups@);
    let mut n: usize = 0;
    let mut j: usize = 0;
    proof {
        assert(um.take(0) =~= Seq::<(usize, ValueModel)>::empty());
    }
    while j < ups.len()
        invariant
            um == update_models(ups@),
            0 <= j <= ups@.len(),
            n <= j,
            (models_of(a@), n as nat) == array_update(orig, um.take(j as int)),
        decreases ups@.len() - j,
    {
        proof {
            assert(um.take(j + 1).drop_last() =~= um.take(j as int));
            lemma_models_of(a@);
        }
        let i = ups[j].0;
        if i < a.len() {
            let c = normalize_value(&ups[j].1);
            let ghost before = a@;
            a.set(i, c);
            proof {
                lemma_models_of(a@);
                lemma_models_of(before);
                assert(models_of(a@) =~= models_of(before).update(i as int, um[j as int].1));
            }
            n = n + 1;
        }
        j = j + 1;
    }
    proof {
        assert(um.take(ups@.len() as int) =~= um);
    }
    n
}

pub fn array_append_in(a: &mut Vec<Value>, vs: Vec<Value>)
    ensures
        models_of(final(a)@) == models_of(old(a)@) + models_of(vs@),
{
    let ghost x = a@;
    let ghost y = vs@;
    let mut vs = vs;
    a.append(&mut vs);
    proof {
        lemma_models_of(x);
        lemma_models_of(y);
        lemma_models_of(a@);
        assert(models_of(a@) =~= models_of(x) + models_of(y));
    }
}

} // verus!
