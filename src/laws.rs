use vstd::prelude::*;
use crate::embed::{Fault, elems_loads, embed_elems, embed_entries, embed_loads, embed_root_loads,
    embed_root_spec, embed_spec, entries_loads};
use crate::value::{Val, keys_distinct, lemma_lookup_none, lookup};

verus! {

/// A null frame copies any document as it is and requests nothing from the
/// store; projecting a stored root through it requests the root alone.
pub proof fn law_pass_through(d: Val, root: Seq<char>, st: Map<Seq<char>, Val>)
    ensures
        embed_spec(Val::Null, d, st) == Ok::<Option<Val>, Fault>(Some(d)),
        embed_loads(Val::Null, d, st) == Seq::<Seq<char>>::empty(),
        embed_root_loads(Val::Null, root, st) == seq![root],
{
    assert(seq![root] + Seq::<Seq<char>>::empty() =~= seq![root]);
}

/// What the map projection holds under key `k`: the projection of the
/// document's value through the frame's value, when both maps hold `k` and
/// that projection is present.
pub open spec fn projected_at(
    fes: Seq<(Seq<char>, Val)>,
    des: Seq<(Seq<char>, Val)>,
    k: Seq<char>,
    st: Map<Seq<char>, Val>,
) -> Option<Val> {
    match lookup(fes, k) {
        None => None,
        Some(fc) => match lookup(des, k) {
            None => None,
            Some(dv) => match embed_spec(fc, dv, st) {
                Ok(Some(o)) => Some(o),
                _ => None,
            },
        },
    }
}

/// A frame that asks only for what a frame may ask: every node is null, a
/// map, or a vector whose first element is again such a frame.
pub open spec fn valid_frame(f: Val) -> bool
    decreases f,
{
    match f {
        Val::Null => true,
        Val::Dict(es) => valid_frames(es),
        Val::Vector(vs) => vs.len() > 0 && valid_frame(vs[0]),
        _ => false,
    }
}

/// Every value of `es` is a valid frame.
pub open spec fn valid_frames(es: Seq<(Seq<char>, Val)>) -> bool
    decreases es,
{
    if es.len() == 0 {
        true
    } else {
        valid_frames(es.drop_last()) && valid_frame(es.last().1)
    }
}

/// A document with no string anywhere in it, hence with no reference.
pub open spec fn no_refs(d: Val) -> bool
    decreases d,
{
    match d {
        Val::Str(_) => false,
        Val::Dict(es) => entries_no_refs(es),
        Val::Vector(vs) => all_no_refs(vs),
        _ => true,
    }
}

/// No value of `es` holds a string.
pub open spec fn entries_no_refs(es: Seq<(Seq<char>, Val)>) -> bool
    decreases es,
{
    if es.len() == 0 {
        true
    } else {
        entries_no_refs(es.drop_last()) && no_refs(es.last().1)
    }
}

/// No element of `vs` holds a string.
pub open spec fn all_no_refs(vs: Seq<Val>) -> bool
    decreases vs,
{
    if vs.len() == 0 {
        true
    } else {
        all_no_refs(vs.drop_last()) && no_refs(vs.last())
    }
}

proof fn lemma_valid_frames(es: Seq<(Seq<char>, Val)>, i: int)
    requires
        valid_frames(es),
        0 <= i < es.len(),
    ensures
        valid_frame(es[i].1),
    decreases es.len(),
{
    if i < es.len() - 1 {
        lemma_valid_frames(es.drop_last(), i);
    }
}

proof fn lemma_lookup_no_refs(es: Seq<(Seq<char>, Val)>, k: Seq<char>)
    requires
        entries_no_refs(es),
    ensures
        lookup(es, k) matches Some(v) ==> no_refs(v),
    decreases es.len(),
{
    if es.len() > 0 {
        lemma_lookup_no_refs(es.drop_last(), k);
    }
}

proof fn lemma_all_no_refs(vs: Seq<Val>, i: int)
    requires
        all_no_refs(vs),
        0 <= i < vs.len(),
    ensures
        no_refs(vs[i]),
    decreases vs.len(),
{
    if i < vs.len() - 1 {
        lemma_all_no_refs(vs.drop_last(), i);
    }
}

/// A valid frame over a document without references never fails.
proof fn lemma_no_fault(f: Val, d: Val, st: Map<Seq<char>, Val>)
    requires
        valid_frame(f),
        no_refs(d),
    ensures
        embed_spec(f, d, st) is Ok,
    decreases f, 1nat, 0nat,
{
    match f {
        Val::Dict(fes) => {
            if let Val::Dict(des) = d {
                lemma_entries_no_fault(f, des, fes.len(), st);
            }
        },
        Val::Vector(fvs) => {
            if let Val::Vector(dvs) = d {
                lemma_elems_no_fault(f, dvs, dvs.len(), st);
            }
        },
        _ => {},
    }
}

proof fn lemma_entries_no_fault(f: Val, des: Seq<(Seq<char>, Val)>, n: nat, st: Map<Seq<char>, Val>)
    requires
        f is Dict,
        valid_frame(f),
        entries_no_refs(des),
        n <= f->Dict_0.len(),
    ensures
        embed_entries(f, des, n, st) is Ok,
    decreases f, 0nat, n,
{
    if n > 0 {
        let m = (n - 1) as nat;
        lemma_entries_no_fault(f, des, m, st);
        let fes = f->Dict_0;
        lemma_valid_frames(fes, m as int);
        lemma_lookup_no_refs(des, fes[m as int].0);
        if let Some(dv) = lookup(des, fes[m as int].0) {
            assert(decreases_to!(f => f->Dict_0));
            assert(decreases_to!(f->Dict_0 => fes[m as int]));
            assert(decreases_to!(fes[m as int] => fes[m as int].1));
            lemma_no_fault(fes[m as int].1, dv, st);
        }
    }
}

proof fn lemma_elems_no_fault(f: Val, dvs: Seq<Val>, n: nat, st: Map<Seq<char>, Val>)
    requires
        f is Vector,
        valid_frame(f),
        all_no_refs(dvs),
        n <= dvs.len(),
    ensures
        embed_elems(f, dvs, n, st) is Ok,
    decreases f, 0nat, n,
{
    if n > 0 {
        let m = (n - 1) as nat;
        lemma_elems_no_fault(f, dvs, m, st);
        lemma_all_no_refs(dvs, m as int);
        assert(decreases_to!(f => f->Vector_0));
        assert(decreases_to!(f->Vector_0 => f->Vector_0[0]));
        lemma_no_fault(f->Vector_0[0], dvs[m as int], st);
    }
}

/// Over a document without references nothing is requested from the store.
proof fn lemma_no_loads(f: Val, d: Val, st: Map<Seq<char>, Val>)
    requires
        no_refs(d),
    ensures
        embed_loads(f, d, st) == Seq::<Seq<char>>::empty(),
    decreases f, 1nat, 0nat,
{
    match f {
        Val::Dict(fes) => {
            if let Val::Dict(des) = d {
                lemma_entries_no_loads(f, des, fes.len(), st);
            }
        },
        Val::Vector(fvs) => {
            if let Val::Vector(dvs) = d {
                if fvs.len() > 0 {
                    lemma_elems_no_loads(f, dvs, dvs.len(), st);
                }
            }
        },
        _ => {},
    }
}

proof fn lemma_entries_no_loads(f: Val, des: Seq<(Seq<char>, Val)>, n: nat, st: Map<Seq<char>, Val>)
    requires
        entries_no_refs(des),
    ensures
        entries_loads(f, des, n, st) == Seq::<Seq<char>>::empty(),
    decreases f, 0nat, n,
{
    if n > 0 && f is Dict && n <= f->Dict_0.len() {
        let m = (n - 1) as nat;
        lemma_entries_no_loads(f, des, m, st);
        let fes = f->Dict_0;
        lemma_lookup_no_refs(des, fes[m as int].0);
        if let Some(dv) = lookup(des, fes[m as int].0) {
            assert(decreases_to!(f => f->Dict_0));
            assert(decreases_to!(f->Dict_0 => fes[m as int]));
            assert(decreases_to!(fes[m as int] => fes[m as int].1));
            lemma_no_loads(fes[m as int].1, dv, st);
            assert(Seq::<Seq<char>>::empty() + Seq::<Seq<char>>::empty() =~= Seq::<Seq<char>>::empty());
        }
    }
}

proof fn lemma_elems_no_loads(f: Val, dvs: Seq<Val>, n: nat, st: Map<Seq<char>, Val>)
    requires
        all_no_refs(dvs),
    ensures
        elems_loads(f, dvs, n, st) == Seq::<Seq<char>>::empty(),
    decreases f, 0nat, n,
{
    if n > 0 && f is Vector && f->Vector_0.len() > 0 && n <= dvs.len() {
        let m = (n - 1) as nat;
        lemma_elems_no_loads(f, dvs, m, st);
        lemma_all_no_refs(dvs, m as int);
        assert(decreases_to!(f => f->Vector_0));
        assert(decreases_to!(f->Vector_0 => f->Vector_0[0]));
        lemma_no_loads(f->Vector_0[0], dvs[m as int], st);
        assert(Seq::<Seq<char>>::empty() + Seq::<Seq<char>>::empty() =~= Seq::<Seq<char>>::empty());
    }
}

/// Over a document without references the result does not depend on the
/// store: two stores give the same result.
proof fn lemma_store_free(f: Val, d: Val, st1: Map<Seq<char>, Val>, st2: Map<Seq<char>, Val>)
    requires
        no_refs(d),
    ensures
        embed_spec(f, d, st1) == embed_spec(f, d, st2),
    decreases f, 1nat, 0nat,
{
    match f {
        Val::Dict(fes) => {
            if let Val::Dict(des) = d {
                lemma_entries_store_free(f, des, fes.len(), st1, st2);
            }
        },
        Val::Vector(fvs) => {
            if let Val::Vector(dvs) = d {
                if fvs.len() > 0 {
                    lemma_elems_store_free(f, dvs, dvs.len(), st1, st2);
                }
            }
        },
        _ => {},
    }
}

proof fn lemma_entries_store_free(
    f: Val,
    des: Seq<(Seq<char>, Val)>,
    n: nat,
    st1: Map<Seq<char>, Val>,
    st2: Map<Seq<char>, Val>,
)
    requires
        entries_no_refs(des),
    ensures
        embed_entries(f, des, n, st1) == embed_entries(f, des, n, st2),
    decreases f, 0nat, n,
{
    if n > 0 && f is Dict && n <= f->Dict_0.len() {
        let m = (n - 1) as nat;
        lemma_entries_store_free(f, des, m, st1, st2);
        let fes = f->Dict_0;
        lemma_lookup_no_refs(des, fes[m as int].0);
        if let Some(dv) = lookup(des, fes[m as int].0) {
            assert(decreases_to!(f => f->Dict_0));
            assert(decreases_to!(f->Dict_0 => fes[m as int]));
            assert(decreases_to!(fes[m as int] => fes[m as int].1));
            lemma_store_free(fes[m as int].1, dv, st1, st2);
        }
    }
}

proof fn lemma_elems_store_free(
    f: Val,
    dvs: Seq<Val>,
    n: nat,
    st1: Map<Seq<char>, Val>,
    st2: Map<Seq<char>, Val>,
)
    requires
        all_no_refs(dvs),
    ensures
        embed_elems(f, dvs, n, st1) == embed_elems(f, dvs, n, st2),
    decreases f, 0nat, n,
{
    if n > 0 && f is Vector && f->Vector_0.len() > 0 && n <= dvs.len() {
        let m = (n - 1) as nat;
        lemma_elems_store_free(f, dvs, m, st1, st2);
        lemma_all_no_refs(dvs, m as int);
        assert(decreases_to!(f => f->Vector_0));
        assert(decreases_to!(f->Vector_0 => f->Vector_0[0]));
        lemma_store_free(f->Vector_0[0], dvs[m as int], st1, st2);
    }
}

proof fn lemma_entries_lookup(f: Val, des: Seq<(Seq<char>, Val)>, n: nat, st: Map<Seq<char>, Val>)
    requires
        f is Dict,
        n <= f->Dict_0.len(),
        keys_distinct(f->Dict_0),
        embed_entries(f, des, n, st) is Ok,
    ensures
        forall|k: Seq<char>|
            #![trigger lookup(embed_entries(f, des, n, st)->Ok_0, k)]
            lookup(embed_entries(f, des, n, st)->Ok_0, k) == projected_at(
                f->Dict_0.take(n as int),
                des,
                k,
                st,
            ),
    decreases n,
{
    let fes = f->Dict_0;
    if n == 0 {
        assert forall|k: Seq<char>|
            #![trigger lookup(embed_entries(f, des, n, st)->Ok_0, k)]
            lookup(embed_entries(f, des, n, st)->Ok_0, k) == projected_at(
                fes.take(n as int),
                des,
                k,
                st,
            ) by {
            assert(fes.take(0).len() == 0);
        }
    } else {
        let m = (n - 1) as nat;
        lemma_entries_lookup(f, des, m, st);
        let prev = embed_entries(f, des, m, st)->Ok_0;
        let out = embed_entries(f, des, n, st)->Ok_0;
        let kn = fes[m as int].0;
        assert(fes.take(n as int).drop_last() =~= fes.take(m as int));
        assert(fes.take(n as int).last() == fes[m as int]);
        lemma_lookup_none(fes.take(m as int), kn);
        assert(lookup(fes.take(m as int), kn) is None);
        assert forall|k: Seq<char>|
            #![trigger lookup(embed_entries(f, des, n, st)->Ok_0, k)]
            lookup(embed_entries(f, des, n, st)->Ok_0, k) == projected_at(
                fes.take(n as int),
                des,
                k,
                st,
            ) by {
            assert(lookup(prev, k) == projected_at(fes.take(m as int), des, k, st));
            if out != prev {
                assert(out.drop_last() =~= prev);
            }
        }
    }
}

/// Projecting a map document without references through a valid map frame
/// whose keys are distinct gives a map whose value under each key is the
/// projection of the document's value through the frame's value; a key is
/// there exactly when both maps hold it and that projection is present.
/// Nothing is requested from the store, and any other store gives the same
/// result.
pub proof fn law_map_projection(
    fes: Seq<(Seq<char>, Val)>,
    des: Seq<(Seq<char>, Val)>,
    st: Map<Seq<char>, Val>,
    other: Map<Seq<char>, Val>,
)
    requires
        keys_distinct(fes),
        valid_frame(Val::Dict(fes)),
        no_refs(Val::Dict(des)),
    ensures
        embed_spec(Val::Dict(fes), Val::Dict(des), st) matches Ok(Some(Val::Dict(out)))
            && forall|k: Seq<char>| #[trigger] lookup(out, k) == projected_at(fes, des, k, st),
        embed_spec(Val::Dict(fes), Val::Dict(des), st) == embed_spec(
            Val::Dict(fes),
            Val::Dict(des),
            other,
        ),
        embed_loads(Val::Dict(fes), Val::Dict(des), st) == Seq::<Seq<char>>::empty(),
{
    lemma_no_loads(Val::Dict(fes), Val::Dict(des), st);
    lemma_store_free(Val::Dict(fes), Val::Dict(des), st, other);
    let f = Val::Dict(fes);
    lemma_no_fault(f, Val::Dict(des), st);
    lemma_entries_lookup(f, des, fes.len(), st);
    assert(fes.take(fes.len() as int) =~= fes);
}

/// How many of the first `n` elements of `dvs` project to the absent result
/// through template `t`.
pub open spec fn absent_count(t: Val, dvs: Seq<Val>, n: nat, st: Map<Seq<char>, Val>) -> nat
    decreases n,
{
    if n == 0 || n > dvs.len() {
        0
    } else {
        absent_count(t, dvs, (n - 1) as nat, st) + if embed_spec(t, dvs[n - 1], st) == Ok::<
            Option<Val>,
            Fault,
        >(None) {
            1nat
        } else {
            0nat
        }
    }
}

/// `idx` picks, in increasing order, the elements of `dvs` whose projections
/// through `t` make up `out`.
pub open spec fn kept_in_order(
    t: Val,
    dvs: Seq<Val>,
    out: Seq<Val>,
    idx: Seq<int>,
    st: Map<Seq<char>, Val>,
) -> bool {
    &&& idx.len() == out.len()
    &&& forall|j: int| 0 <= j < idx.len() ==> 0 <= #[trigger] idx[j] < dvs.len()
    &&& forall|i: int, j: int| 0 <= i < j < idx.len() ==> idx[i] < idx[j]
    &&& forall|j: int|
        0 <= j < idx.len() ==> embed_spec(t, dvs[#[trigger] idx[j]], st) == Ok::<Option<Val>, Fault>(
            Some(out[j]),
        )
}

proof fn lemma_elems_kept(f: Val, dvs: Seq<Val>, n: nat, st: Map<Seq<char>, Val>) -> (idx: Seq<int>)
    requires
        f is Vector,
        f->Vector_0.len() > 0,
        n <= dvs.len(),
        embed_elems(f, dvs, n, st) is Ok,
    ensures
        embed_elems(f, dvs, n, st)->Ok_0.len() + absent_count(f->Vector_0[0], dvs, n, st) == n,
        kept_in_order(f->Vector_0[0], dvs, embed_elems(f, dvs, n, st)->Ok_0, idx, st),
        forall|j: int| 0 <= j < idx.len() ==> #[trigger] idx[j] < n,
    decreases n,
{
    if n == 0 {
        Seq::empty()
    } else {
        let m = (n - 1) as nat;
        let t = f->Vector_0[0];
        let prev_idx = lemma_elems_kept(f, dvs, m, st);
        let prev = embed_elems(f, dvs, m, st)->Ok_0;
        let out = embed_elems(f, dvs, n, st)->Ok_0;
        if embed_spec(t, dvs[m as int], st) == Ok::<Option<Val>, Fault>(None) {
            prev_idx
        } else {
            let idx = prev_idx.push(m as int);
            assert(out == prev.push(out.last()));
            assert forall|j: int|
                0 <= j < idx.len() implies embed_spec(t, dvs[#[trigger] idx[j]], st) == Ok::<
                Option<Val>,
                Fault,
            >(Some(out[j])) by {
                if j < prev_idx.len() {
                    assert(idx[j] == prev_idx[j]);
                }
            }
            idx
        }
    }
}

proof fn lemma_elems_each_ok(f: Val, dvs: Seq<Val>, n: nat, st: Map<Seq<char>, Val>)
    requires
        f is Vector,
        f->Vector_0.len() > 0,
        n <= dvs.len(),
        forall|i: int| 0 <= i < dvs.len() ==> (#[trigger] embed_spec(f->Vector_0[0], dvs[i], st)) is Ok,
    ensures
        embed_elems(f, dvs, n, st) is Ok,
    decreases n,
{
    if n > 0 {
        lemma_elems_each_ok(f, dvs, (n - 1) as nat, st);
        assert(embed_spec(f->Vector_0[0], dvs[n - 1], st) is Ok);
    }
}

/// Projecting a vector through a vector frame, where projecting each element
/// through the template succeeds (every reference resolves), drops exactly
/// the elements whose projection is absent: the output is shorter than the
/// source by their number, and the kept results stand in the source's order.
pub proof fn law_vector_shrinkage(fvs: Seq<Val>, dvs: Seq<Val>, st: Map<Seq<char>, Val>)
    requires
        fvs.len() > 0,
        forall|i: int| 0 <= i < dvs.len() ==> (#[trigger] embed_spec(fvs[0], dvs[i], st)) is Ok,
    ensures
        embed_spec(Val::Vector(fvs), Val::Vector(dvs), st) matches Ok(Some(Val::Vector(out)))
            && out.len() + absent_count(fvs[0], dvs, dvs.len(), st) == dvs.len()
            && exists|idx: Seq<int>| kept_in_order(fvs[0], dvs, out, idx, st),
{
    lemma_elems_each_ok(Val::Vector(fvs), dvs, dvs.len(), st);
    let idx = lemma_elems_kept(Val::Vector(fvs), dvs, dvs.len(), st);
    let out = embed_elems(Val::Vector(fvs), dvs, dvs.len(), st)->Ok_0;
    assert(kept_in_order(fvs[0], dvs, out, idx, st));
}

/// The documents held after storing `records[i]` under `keys[i]`, in order.
pub open spec fn stored(keys: Seq<Seq<char>>, records: Seq<Val>) -> Map<Seq<char>, Val>
    decreases keys.len(),
{
    if keys.len() == 0 || records.len() == 0 {
        Map::empty()
    } else {
        stored(keys.drop_last(), records.drop_last()).insert(keys.last(), records.last())
    }
}

proof fn lemma_stored(keys: Seq<Seq<char>>, records: Seq<Val>, i: int)
    requires
        keys.len() == records.len(),
        forall|a: int, b: int| 0 <= a < b < keys.len() ==> keys[a] != keys[b],
        0 <= i < keys.len(),
    ensures
        stored(keys, records).contains_key(keys[i]),
        stored(keys, records)[keys[i]] == records[i],
    decreases keys.len(),
{
    if i < keys.len() - 1 {
        lemma_stored(keys.drop_last(), records.drop_last(), i);
    }
}

/// Storing records under distinct keys and then projecting each key through a
/// null frame gives each record back unchanged.
pub proof fn law_load_then_project(keys: Seq<Seq<char>>, records: Seq<Val>, i: int)
    requires
        keys.len() == records.len(),
        forall|a: int, b: int| 0 <= a < b < keys.len() ==> keys[a] != keys[b],
        0 <= i < keys.len(),
    ensures
        embed_root_spec(Val::Null, keys[i], stored(keys, records)) == Ok::<Option<Val>, Fault>(
            Some(records[i]),
        ),
{
    lemma_stored(keys, records, i);
}

} // verus!
