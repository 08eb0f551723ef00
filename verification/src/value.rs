use vstd::prelude::*;
use crate::bytes::{copy_bytes, copy_byte_list, copy_pairs, copy_scored};

verus! {

/// A value held under a key of the store.
///
/// Field names, members and list items are byte strings. A sorted-set entry
/// carries its member and the IEEE-754 bit pattern of its score.
#[derive(Debug, PartialEq, Eq)]
pub enum Value {
    String(Vec<u8>),
    Integer(i64),
    Hash(Vec<(Vec<u8>, Vec<u8>)>),
    List(Vec<Vec<u8>>),
    Members(Vec<Vec<u8>>),
    SortedSet(Vec<(Vec<u8>, u64)>),
    Array(Vec<Value>),
}

/// The mathematical content of a `Value`.
pub enum ValueModel {
    Str(Seq<u8>),
    Int(i64),
    Hash(Seq<(Seq<u8>, Seq<u8>)>),
    List(Seq<Seq<u8>>),
    Members(Seq<Seq<u8>>),
    Zset(Seq<(Seq<u8>, u64)>),
    Array(Seq<ValueModel>),
}

impl Value {
    pub open spec fn model(&self) -> ValueModel
        decreases self,
    {
        match self {
            Value::String(b) => ValueModel::Str(b@),
            Value::Integer(i) => ValueModel::Int(*i),
            Value::Hash(p) => ValueModel::Hash(p.deep_view()),
            Value::List(l) => ValueModel::List(l.deep_view()),
            Value::Members(s) => ValueModel::Members(s.deep_view()),
            Value::SortedSet(z) => ValueModel::Zset(z.deep_view()),
            Value::Array(a) => ValueModel::Array(models_of(a@)),
        }
    }
}

pub open spec fn opt_model(o: Option<Value>) -> Option<ValueModel> {
    match o {
        Some(v) => Some(v.model()),
        None => None,
    }
}

pub open spec fn models_of(s: Seq<Value>) -> Seq<ValueModel>
    decreases s,
{
    if s.len() == 0 {
        Seq::empty()
    } else {
        models_of(s.drop_last()).push(s.last().model())
    }
}


pub proof fn lemma_models_of(s: Seq<Value>)
    ensures
        models_of(s).len() == s.len(),
        forall|i: int| 0 <= i < s.len() ==> #[trigger] models_of(s)[i] == s[i].model(),
    decreases s.len(),
{
    if s.len() > 0 {
        lemma_models_of(s.drop_last());
    }
}

/// Two value sequences with pointwise equal models have equal models.
pub proof fn lemma_models_of_ext(s: Seq<Value>, t: Seq<Value>)
    requires
        s.len() == t.len(),
        forall|i: int| 0 <= i < s.len() ==> #[trigger] s[i].model() == t[i].model(),
    ensures
        models_of(s) == models_of(t),
{
    lemma_models_of(s);
    lemma_models_of(t);
    assert(models_of(s) =~= models_of(t));
}

/// Makes an independent copy of a value.
pub fn copy_value(v: &Value) -> (r: Value)
    ensures
        r.model() == v.model(),
    decreases v,
{
    broadcast use vstd::std_specs::vec::axiom_vec_index_decreases;

    match v {
        Value::String(b) => Value::String(copy_bytes(b.as_slice())),
        Value::Integer(i) => Value::Integer(*i),
        Value::Hash(p) => Value::Hash(copy_pairs(p)),
        Value::List(l) => Value::List(copy_byte_list(l)),
        Value::Members(m) => Value::Members(copy_byte_list(m)),
        Value::SortedSet(z) => Value::SortedSet(copy_scored(z)),
        Value::Array(a) => Value::Array(copy_values(a)),
    }
}

/// Makes an independent copy of a sequence of values.
pub fn copy_values(a: &Vec<Value>) -> (r: Vec<Value>)
    ensures
        models_of(r@) == models_of(a@),
    decreases a,
{
    broadcast use vstd::std_specs::vec::axiom_vec_index_decreases;

    let mut out: Vec<Value> = Vec::new();
    let mut i: usize = 0;
    while i < a.len()
        invariant
            0 <= i <= a@.len(),
            out@.len() == i,
            forall|j: int| 0 <= j < i ==> #[trigger] out@[j].model() == a@[j].model(),
        decreases a@.len() - i,
    {
        let c = copy_value(&a[i]);
        out.push(c);
        i = i + 1;
    }
    proof {
        lemma_models_of_ext(out@, a@);
    }
    out
}

/// Sum of the lengths of byte strings.
pub open spec fn lens_sum(s: Seq<Seq<u8>>) -> nat
    decreases s.len(),
{
    if s.len() == 0 {
        0
    } else {
        lens_sum(s.drop_last()) + s.last().len()
    }
}

/// Sum of the lengths of fields and their values.
pub open spec fn pairs_size(s: Seq<(Seq<u8>, Seq<u8>)>) -> nat
    decreases s.len(),
{
    if s.len() == 0 {
        0
    } else {
        pairs_size(s.drop_last()) + s.last().0.len() + s.last().1.len()
    }
}

/// Sum of the lengths of members, with eight bytes for each score.
pub open spec fn scored_size(s: Seq<(Seq<u8>, u64)>) -> nat
    decreases s.len(),
{
    if s.len() == 0 {
        0
    } else {
        scored_size(s.drop_last()) + s.last().0.len() + 8
    }
}

/// The number of bytes that a value is counted as in the memory budget.
pub open spec fn value_size(m: ValueModel) -> nat
    decreases m,
{
    match m {
        ValueModel::Str(b) => b.len(),
        ValueModel::Int(_) => 8,
        ValueModel::Hash(h) => pairs_size(h),
        ValueModel::List(l) => lens_sum(l),
        ValueModel::Members(s) => lens_sum(s),
        ValueModel::Zset(z) => scored_size(z),
        ValueModel::Array(a) => array_size(a),
    }
}

pub open spec fn array_size(a: Seq<ValueModel>) -> nat
    decreases a,
{
    if a.len() == 0 {
        0
    } else {
        array_size(a.drop_last()) + value_size(a.last())
    }
}

/// A count saturated at the largest `u64`.
pub open spec fn cap(n: nat) -> u64 {
    if n > u64::MAX {
        u64::MAX
    } else {
        n as u64
    }
}

/// Saturating addition of two counts, proved to agree with `cap`.
pub fn cap_add(a: u64, b: u64, Ghost(x): Ghost<nat>, Ghost(y): Ghost<nat>) -> (r: u64)
    requires
        a == cap(x),
        b == cap(y),
    ensures
        r == cap(x + y),
{
    if a > u64::MAX - b {
        u64::MAX
    } else {
        a + b
    }
}

fn lens_size(s: &Vec<Vec<u8>>) -> (r: u64)
    ensures
        r == cap(lens_sum(s.deep_view())),
{
    let mut total: u64 = 0;
    let mut i: usize = 0;
    while i < s.len()
        invariant
            0 <= i <= s@.len(),
            total == cap(lens_sum(s.deep_view().take(i as int))),
        decreases s@.len() - i,
    {
        proof {
            crate::bytes::lemma_bytes_deep_view(&s@[i as int]);
            assert(s.deep_view().take(i + 1).drop_last() =~= s.deep_view().take(i as int));
        }
        let n = s[i].len() as u64;
        total = cap_add(total, n, Ghost(lens_sum(s.deep_view().take(i as int))), Ghost(s@[i as int]@.len()));
        i = i + 1;
    }
    assert(s.deep_view().take(s@.len() as int) =~= s.deep_view());
    total
}

fn pairs_size_of(s: &Vec<(Vec<u8>, Vec<u8>)>) -> (r: u64)
    ensures
        r == cap(pairs_size(s.deep_view())),
{
    let mut total: u64 = 0;
    let mut i: usize = 0;
    while i < s.len()
        invariant
            0 <= i <= s@.len(),
            total == cap(pairs_size(s.deep_view().take(i as int))),
        decreases s@.len() - i,
    {
        proof {
            crate::bytes::lemma_bytes_deep_view(&s@[i as int].0);
            crate::bytes::lemma_bytes_deep_view(&s@[i as int].1);
            assert(s.deep_view().take(i + 1).drop_last() =~= s.deep_view().take(i as int));
        }
        let a = s[i].0.len() as u64;
        let b = s[i].1.len() as u64;
        let t1 = cap_add(total, a, Ghost(pairs_size(s.deep_view().take(i as int))), Ghost(s@[i as int].0@.len()));
        total = cap_add(t1, b, Ghost(pairs_size(s.deep_view().take(i as int)) + s@[i as int].0@.len()), Ghost(s@[i as int].1@.len()));
        i = i + 1;
    }
    assert(s.deep_view().take(s@.len() as int) =~= s.deep_view());
    total
}

fn scored_size_of(s: &Vec<(Vec<u8>, u64)>) -> (r: u64)
    ensures
        r == cap(scored_size(s.deep_view())),
{
    let mut total: u64 = 0;
    let mut i: usize = 0;
    while i < s.len()
        invariant
            0 <= i <= s@.len(),
            total == cap(scored_size(s.deep_view().take(i as int))),
        decreases s@.len() - i,
    {
        proof {
            crate::bytes::lemma_bytes_deep_view(&s@[i as int].0);
            assert(s.deep_view().take(i + 1).drop_last() =~= s.deep_view().take(i as int));
        }
        let a = s[i].0.len() as u64;
        let t1 = cap_add(total, a, Ghost(scored_size(s.deep_view().take(i as int))), Ghost(s@[i as int].0@.len()));
        total = cap_add(t1, 8, Ghost(scored_size(s.deep_view().take(i as int)) + s@[i as int].0@.len()), Ghost(8));
        i = i + 1;
    }
    assert(s.deep_view().take(s@.len() as int) =~= s.deep_view());
    total
}

/// The memory-budget size of a value, saturated at the largest `u64`.
pub fn size_of_value(v: &Value) -> (r: u64)
    ensures
        r == cap(value_size(v.model())),
    decreases v,
{
    broadcast use vstd::std_specs::vec::axiom_vec_index_decreases;

    match v {
        Value::String(b) => b.len() as u64,
        Value::Integer(_) => 8,
        Value::Hash(p) => pairs_size_of(p),
        Value::List(l) => lens_size(l),
        Value::Members(m) => lens_size(m),
        Value::SortedSet(z) => scored_size_of(z),
        Value::Array(a) => size_of_values(a),
    }
}

fn size_of_values(a: &Vec<Value>) -> (r: u64)
    ensures
        r == cap(array_size(models_of(a@))),
    decreases a,
{
    broadcast use vstd::std_specs::vec::axiom_vec_index_decreases;

    proof {
        lemma_models_of(a@);
    }
    let mut total: u64 = 0;
    let mut i: usize = 0;
    while i < a.len()
        invariant
            0 <= i <= a@.len(),
            models_of(a@).len() == a@.len(),
            forall|j: int| 0 <= j < a@.len() ==> #[trigger] models_of(a@)[j] == a@[j].model(),
            total == cap(array_size(models_of(a@).take(i as int))),
        decreases a@.len() - i,
    {
        proof {
            assert(models_of(a@).take(i + 1).drop_last() =~= models_of(a@).take(i as int));
        }
        let n = size_of_value(&a[i]);
        total = cap_add(total, n, Ghost(array_size(models_of(a@).take(i as int))), Ghost(value_size(a@[i as int].model())));
        i = i + 1;
    }
    assert(models_of(a@).take(a@.len() as int) =~= models_of(a@));
    total
}

} // verus!
