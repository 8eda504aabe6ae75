use vstd::prelude::*;

verus! {

/// The mathematical model of a value: the tree that a buffer denotes.
pub enum Val {
    Null,
    Bool(bool),
    Int(i64),
    UInt(u64),
    /// A 64-bit float, as its IEEE-754 bit pattern.
    Float(u64),
    Str(Seq<char>),
    Blob(Seq<u8>),
    Dict(Seq<(Seq<char>, Val)>),
    Vector(Seq<Val>),
}

/// One key and its value inside a map.
#[derive(Debug, PartialEq)]
pub struct Entry {
    pub key: String,
    pub value: Value,
}

/// A self-describing value: a scalar, a map from string keys, or a vector.
/// The binary format stores maps sorted by key; the encoder sorts them.
#[derive(Debug, PartialEq)]
pub enum Value {
    Null,
    Bool(bool),
    Int(i64),
    UInt(u64),
    /// A 64-bit float, as its IEEE-754 bit pattern.
    Float(u64),
    Str(String),
    Blob(Vec<u8>),
    Dict(Vec<Entry>),
    Vector(Vec<Value>),
}

/// The models of a sequence of values, one for one.
pub open spec fn view_values(vs: Seq<Value>) -> Seq<Val>
    decreases vs,
{
    if vs.len() == 0 {
        Seq::empty()
    } else {
        view_values(vs.drop_last()).push(vs.last().view())
    }
}

/// The models of a sequence of entries, one for one.
pub open spec fn view_entries(es: Seq<Entry>) -> Seq<(Seq<char>, Val)>
    decreases es,
{
    if es.len() == 0 {
        Seq::empty()
    } else {
        view_entries(es.drop_last()).push((es.last().key@, es.last().value.view()))
    }
}

impl View for Value {
    type V = Val;

    open spec fn view(&self) -> Val
        decreases self,
    {
        match self {
            Value::Null => Val::Null,
            Value::Bool(b) => Val::Bool(*b),
            Value::Int(i) => Val::Int(*i),
            Value::UInt(u) => Val::UInt(*u),
            Value::Float(f) => Val::Float(*f),
            Value::Str(s) => Val::Str(s@),
            Value::Blob(b) => Val::Blob(b@),
            Value::Dict(es) => Val::Dict(view_entries(es@)),
            Value::Vector(vs) => Val::Vector(view_values(vs@)),
        }
    }
}

/// The value stored under `k` in a list of entries: the last entry with that
/// key wins, so appending an entry replaces any earlier one.
pub open spec fn lookup(es: Seq<(Seq<char>, Val)>, k: Seq<char>) -> Option<Val>
    decreases es.len(),
{
    if es.len() == 0 {
        None
    } else if es.last().0 == k {
        Some(es.last().1)
    } else {
        lookup(es.drop_last(), k)
    }
}

/// No two entries share a key.
pub open spec fn keys_distinct(es: Seq<(Seq<char>, Val)>) -> bool {
    forall|i: int, j: int| 0 <= i < j < es.len() ==> es[i].0 != es[j].0
}

/// A key is absent exactly when no entry holds it.
pub proof fn lemma_lookup_none(es: Seq<(Seq<char>, Val)>, k: Seq<char>)
    ensures
        lookup(es, k) is None <==> forall|i: int| 0 <= i < es.len() ==> es[i].0 != k,
    decreases es.len(),
{
    if es.len() > 0 {
        lemma_lookup_none(es.drop_last(), k);
        assert forall|i: int| 0 <= i < es.len() - 1 implies es.drop_last()[i] == es[i] by {}
    }
}

/// Finds the last entry of `es` whose key is `key`.
pub fn find_key(es: &Vec<Entry>, key: &String) -> (r: Option<usize>)
    ensures
        lookup(view_entries(es@), key@) is None <==> r is None,
        r matches Some(i) ==> i < es.len() && es@[i as int].key@ == key@
            && lookup(view_entries(es@), key@) == Some(es@[i as int].value@),
{
    proof {
        lemma_view_entries(es@);
        assert(view_entries(es@).take(es@.len() as int) =~= view_entries(es@));
    }
    let mut i: usize = es.len();
    while i > 0
        invariant
            i <= es.len(),
            view_entries(es@).len() == es.len(),
            forall|j: int| 0 <= j < es.len() ==> #[trigger] view_entries(es@)[j] == (es@[j].key@, es@[j].value@),
            lookup(view_entries(es@), key@) == lookup(view_entries(es@).take(i as int), key@),
        decreases i,
    {
        let ghost t = view_entries(es@).take(i as int);
        if es[i - 1].key == *key {
            return Some(i - 1);
        }
        assert(t.drop_last() =~= view_entries(es@).take(i - 1));
        i -= 1;
    }
    assert(view_entries(es@).take(0) =~= Seq::<(Seq<char>, Val)>::empty());
    None
}

/// The model of a sequence of values lines up with it, index by index.
pub proof fn lemma_view_values(vs: Seq<Value>)
    ensures
        view_values(vs).len() == vs.len(),
        forall|i: int| 0 <= i < vs.len() ==> #[trigger] view_values(vs)[i] == vs[i]@,
    decreases vs.len(),
{
    if vs.len() > 0 {
        let p = vs.drop_last();
        lemma_view_values(p);
        assert(p.len() == vs.len() - 1);
        assert(view_values(vs) == view_values(p).push(vs.last()@));
    } else {
        assert(view_values(vs) == Seq::<Val>::empty());
    }
}

/// The model of a sequence of entries lines up with it, index by index.
pub proof fn lemma_view_entries(es: Seq<Entry>)
    ensures
        view_entries(es).len() == es.len(),
        forall|i: int| 0 <= i < es.len() ==> #[trigger] view_entries(es)[i] == (es[i].key@, es[i].value@),
    decreases es.len(),
{
    if es.len() > 0 {
        let p = es.drop_last();
        lemma_view_entries(p);
        assert(p.len() == es.len() - 1);
        assert(view_entries(es) == view_entries(p).push((es.last().key@, es.last().value@)));
    } else {
        assert(view_entries(es) == Seq::<(Seq<char>, Val)>::empty());
    }
}

} // verus!
