use vstd::prelude::*;
use crate::value::{Entry, Value, lemma_view_entries, lemma_view_values};

verus! {

broadcast use vstd::std_specs::vec::group_vec_axioms;

/// Returns a structurally identical copy of `v`: every scalar keeps its
/// exact value and every container its shape and order.
pub fn deepcopy(v: &Value) -> (r: Value)
    ensures
        r@ == v@,
    decreases v, 0nat,
{
    match v {
        Value::Null => Value::Null,
        Value::Bool(b) => Value::Bool(*b),
        Value::Int(i) => Value::Int(*i),
        Value::UInt(u) => Value::UInt(*u),
        Value::Float(f) => Value::Float(*f),
        Value::Str(s) => Value::Str(s.clone()),
        Value::Blob(b) => Value::Blob(b.clone()),
        Value::Dict(es) => {
            let mut out: Vec<Entry> = Vec::new();
            let mut i: usize = 0;
            while i < es.len()
                invariant
                    *v == Value::Dict(*es),
                    i <= es.len(),
                    out.len() == i,
                    forall|j: int| 0 <= j < i ==> #[trigger] out@[j].key@ == es@[j].key@,
                    forall|j: int| 0 <= j < i ==> #[trigger] out@[j].value@ == es@[j].value@,
                decreases es.len() - i,
            {
                proof {
                    assert(decreases_to!(*v => (*v)->Dict_0));
                    assert(decreases_to!((*v)->Dict_0 => es@));
                    assert(decreases_to!(es@ => es@[i as int]));
                    assert(decreases_to!(es@[i as int] => es@[i as int].value));
                }
                deepcopy_map(&es[i].key, &es[i].value, &mut out);
                i += 1;
            }
            let r = Value::Dict(out);
            assert(r@ == v@) by {
                lemma_view_entries(out@);
                lemma_view_entries(es@);
                assert(r@->Dict_0 =~= v@->Dict_0);
            }
            r
        },
        Value::Vector(vs) => {
            let mut out: Vec<Value> = Vec::new();
            let mut i: usize = 0;
            while i < vs.len()
                invariant
                    *v == Value::Vector(*vs),
                    i <= vs.len(),
                    out.len() == i,
                    forall|j: int| 0 <= j < i ==> #[trigger] out@[j]@ == vs@[j]@,
                decreases vs.len() - i,
            {
                proof {
                    assert(decreases_to!(*v => (*v)->Vector_0));
                    assert(decreases_to!((*v)->Vector_0 => vs@));
                    assert(decreases_to!(vs@ => vs@[i as int]));
                }
                deepcopy_vec(&vs[i], &mut out);
                i += 1;
            }
            let r = Value::Vector(out);
            assert(r@ == v@) by {
                lemma_view_values(out@);
                lemma_view_values(vs@);
                assert(r@->Vector_0 =~= v@->Vector_0);
            }
            r
        },
    }
}

/// Appends a copy of `v` to the vector under construction.
pub fn deepcopy_vec(v: &Value, builder: &mut Vec<Value>)
    ensures
        final(builder)@.len() == old(builder)@.len() + 1,
        forall|j: int| 0 <= j < old(builder)@.len() ==> final(builder)@[j] == old(builder)@[j],
        final(builder)@.last()@ == v@,
    decreases v, 1nat,
{
    let c = deepcopy(v);
    builder.push(c);
}

/// Appends a copy of `v` under `key` to the map under construction.
pub fn deepcopy_map(key: &String, v: &Value, builder: &mut Vec<Entry>)
    ensures
        final(builder)@.len() == old(builder)@.len() + 1,
        forall|j: int| 0 <= j < old(builder)@.len() ==> final(builder)@[j] == old(builder)@[j],
        final(builder)@.last().key@ == key@,
        final(builder)@.last().value@ == v@,
    decreases v, 1nat,
{
    let c = deepcopy(v);
    builder.push(Entry { key: key.clone(), value: c });
}

} // verus!
