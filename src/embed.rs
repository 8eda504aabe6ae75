use vstd::prelude::*;
use crate::deepcopy::deepcopy;
use crate::store::{LoadError, Store};
use crate::value::{Entry, Val, Value, find_key, lookup, view_entries, view_values,
    lemma_view_entries, lemma_view_values};

verus! {

broadcast use vstd::std_specs::vec::group_vec_axioms;

/// Why a projection failed, in the model.
pub enum Fault {
    /// No document is stored under this identifier.
    Load(Seq<char>),
    /// The frame asks for something that no frame may ask for.
    Malformed,
}

/// Why a projection failed.
#[derive(Debug, PartialEq)]
pub enum EmbedError {
    /// Dereferencing an identifier failed; the store's error, unchanged.
    Load(LoadError),
    /// The frame holds a node other than null, map or vector, or a vector
    /// frame has no template element.
    Malformed,
}

impl View for EmbedError {
    type V = Fault;

    open spec fn view(&self) -> Fault {
        match self {
            EmbedError::Load(e) => Fault::Load(e.key@),
            EmbedError::Malformed => Fault::Malformed,
        }
    }
}

/// The model of a projection's outcome: a fault, an absent result, or a value.
pub open spec fn outcome(r: Result<Option<Value>, EmbedError>) -> Result<Option<Val>, Fault> {
    match r {
        Ok(Some(v)) => Ok(Some(v@)),
        Ok(None) => Ok(None),
        Err(e) => Err(e@),
    }
}

/// What projecting document `d` through frame `f` yields, where `st` holds
/// the documents that string leaves may refer to. `Ok(None)` is the absent
/// result: no entry is written for this position.
pub open spec fn embed_spec(f: Val, d: Val, st: Map<Seq<char>, Val>) -> Result<Option<Val>, Fault>
    decreases f, 1nat, 0nat,
{
    match f {
        Val::Null => Ok(Some(d)),
        Val::Dict(fes) => {
            let target = match d {
                Val::Str(key) => if st.contains_key(key) {
                    Ok(st[key])
                } else {
                    Err(Fault::Load(key))
                },
                _ => Ok(d),
            };
            match target {
                Err(e) => Err(e),
                Ok(Val::Dict(des)) => match embed_entries(f, des, fes.len(), st) {
                    Ok(out) => Ok(Some(Val::Dict(out))),
                    Err(e) => Err(e),
                },
                Ok(_) => Ok(None),
            }
        },
        Val::Vector(fvs) => match d {
            Val::Vector(dvs) => if fvs.len() == 0 {
                Err(Fault::Malformed)
            } else {
                match embed_elems(f, dvs, dvs.len(), st) {
                    Ok(out) => Ok(Some(Val::Vector(out))),
                    Err(e) => Err(e),
                }
            },
            _ => Ok(None),
        },
        _ => Err(Fault::Malformed),
    }
}

/// The projection of map `des` through the first `n` keys of the map frame
/// `f`, in the frame's order: a key that `des` lacks, or whose projection is
/// absent, is left out.
pub open spec fn embed_entries(
    f: Val,
    des: Seq<(Seq<char>, Val)>,
    n: nat,
    st: Map<Seq<char>, Val>,
) -> Result<Seq<(Seq<char>, Val)>, Fault>
    decreases f, 0nat, n,
{
    if n == 0 || !(f is Dict) || n > f->Dict_0.len() {
        Ok(Seq::empty())
    } else {
        match embed_entries(f, des, (n - 1) as nat, st) {
            Err(e) => Err(e),
            Ok(prev) => {
                let k = f->Dict_0[n - 1].0;
                match lookup(des, k) {
                    None => Ok(prev),
                    Some(dv) => match embed_spec(f->Dict_0[n - 1].1, dv, st) {
                        Err(e) => Err(e),
                        Ok(None) => Ok(prev),
                        Ok(Some(o)) => Ok(prev.push((k, o))),
                    },
                }
            },
        }
    }
}

/// The projection of the first `n` elements of `dvs` through the template of
/// the vector frame `f`, in order: absent results are left out.
pub open spec fn embed_elems(f: Val, dvs: Seq<Val>, n: nat, st: Map<Seq<char>, Val>) -> Result<
    Seq<Val>,
    Fault,
>
    decreases f, 0nat, n,
{
    if n == 0 || !(f is Vector) || f->Vector_0.len() == 0 || n > dvs.len() {
        Ok(Seq::empty())
    } else {
        match embed_elems(f, dvs, (n - 1) as nat, st) {
            Err(e) => Err(e),
            Ok(prev) => match embed_spec(f->Vector_0[0], dvs[n - 1], st) {
                Err(e) => Err(e),
                Ok(None) => Ok(prev),
                Ok(Some(o)) => Ok(prev.push(o)),
            },
        }
    }
}

/// The keys that projecting `d` through `f` requests from the store, in the
/// order of the walk: depth first, frame keys in the frame's order, vector
/// elements in order. A string is requested only where a map frame meets it,
/// once, and nothing is requested after the first failure.
pub open spec fn embed_loads(f: Val, d: Val, st: Map<Seq<char>, Val>) -> Seq<Seq<char>>
    decreases f, 1nat, 0nat,
{
    match f {
        Val::Dict(fes) => match d {
            Val::Str(key) => if st.contains_key(key) {
                match st[key] {
                    Val::Dict(des) => seq![key] + entries_loads(f, des, fes.len(), st),
                    _ => seq![key],
                }
            } else {
                seq![key]
            },
            Val::Dict(des) => entries_loads(f, des, fes.len(), st),
            _ => Seq::empty(),
        },
        Val::Vector(fvs) => match d {
            Val::Vector(dvs) => if fvs.len() == 0 {
                Seq::empty()
            } else {
                elems_loads(f, dvs, dvs.len(), st)
            },
            _ => Seq::empty(),
        },
        _ => Seq::empty(),
    }
}

/// The keys requested while projecting map `des` through the first `n` keys
/// of the map frame `f`.
pub open spec fn entries_loads(
    f: Val,
    des: Seq<(Seq<char>, Val)>,
    n: nat,
    st: Map<Seq<char>, Val>,
) -> Seq<Seq<char>>
    decreases f, 0nat, n,
{
    if n == 0 || !(f is Dict) || n > f->Dict_0.len() {
        Seq::empty()
    } else {
        let prev = entries_loads(f, des, (n - 1) as nat, st);
        if embed_entries(f, des, (n - 1) as nat, st) is Err {
            prev
        } else {
            match lookup(des, f->Dict_0[n - 1].0) {
                None => prev,
                Some(dv) => prev + embed_loads(f->Dict_0[n - 1].1, dv, st),
            }
        }
    }
}

/// The keys requested while projecting the first `n` elements of `dvs`
/// through the template of the vector frame `f`.
pub open spec fn elems_loads(f: Val, dvs: Seq<Val>, n: nat, st: Map<Seq<char>, Val>) -> Seq<
    Seq<char>,
>
    decreases f, 0nat, n,
{
    if n == 0 || !(f is Vector) || f->Vector_0.len() == 0 || n > dvs.len() {
        Seq::empty()
    } else {
        let prev = elems_loads(f, dvs, (n - 1) as nat, st);
        if embed_elems(f, dvs, (n - 1) as nat, st) is Err {
            prev
        } else {
            prev + embed_loads(f->Vector_0[0], dvs[n - 1], st)
        }
    }
}

/// The keys requested while projecting the document stored under `root`:
/// the root first.
pub open spec fn embed_root_loads(f: Val, root: Seq<char>, st: Map<Seq<char>, Val>) -> Seq<
    Seq<char>,
> {
    if st.contains_key(root) {
        seq![root] + embed_loads(f, st[root], st)
    } else {
        seq![root]
    }
}

/// What projecting the document stored under `root` through `f` yields.
pub open spec fn embed_root_spec(f: Val, root: Seq<char>, st: Map<Seq<char>, Val>) -> Result<
    Option<Val>,
    Fault,
> {
    if st.contains_key(root) {
        embed_spec(f, st[root], st)
    } else {
        Err(Fault::Load(root))
    }
}

/// Once a prefix of a map projection has failed, every longer prefix fails
/// with the same fault.
proof fn lemma_entries_fault_persists(
    f: Val,
    des: Seq<(Seq<char>, Val)>,
    i: nat,
    n: nat,
    st: Map<Seq<char>, Val>,
)
    requires
        f is Dict,
        i <= n <= f->Dict_0.len(),
        embed_entries(f, des, i, st) is Err,
    ensures
        embed_entries(f, des, n, st) == embed_entries(f, des, i, st),
    decreases n - i,
{
    if i < n {
        lemma_entries_fault_persists(f, des, i, (n - 1) as nat, st);
    }
}

/// Once a prefix of a vector projection has failed, every longer prefix
/// fails with the same fault.
proof fn lemma_elems_fault_persists(f: Val, dvs: Seq<Val>, i: nat, n: nat, st: Map<Seq<char>, Val>)
    requires
        f is Vector,
        i <= n <= dvs.len(),
        embed_elems(f, dvs, i, st) is Err,
    ensures
        embed_elems(f, dvs, n, st) == embed_elems(f, dvs, i, st),
    decreases n - i,
{
    if i < n {
        lemma_elems_fault_persists(f, dvs, i, (n - 1) as nat, st);
    }
}

proof fn lemma_entries_loads_persist(
    f: Val,
    des: Seq<(Seq<char>, Val)>,
    i: nat,
    n: nat,
    st: Map<Seq<char>, Val>,
)
    requires
        f is Dict,
        i <= n <= f->Dict_0.len(),
        embed_entries(f, des, i, st) is Err,
    ensures
        entries_loads(f, des, n, st) == entries_loads(f, des, i, st),
    decreases n - i,
{
    if i < n {
        lemma_entries_loads_persist(f, des, i, (n - 1) as nat, st);
        lemma_entries_fault_persists(f, des, i, (n - 1) as nat, st);
    }
}

proof fn lemma_elems_loads_persist(f: Val, dvs: Seq<Val>, i: nat, n: nat, st: Map<Seq<char>, Val>)
    requires
        f is Vector,
        f->Vector_0.len() > 0,
        i <= n <= dvs.len(),
        embed_elems(f, dvs, i, st) is Err,
    ensures
        elems_loads(f, dvs, n, st) == elems_loads(f, dvs, i, st),
    decreases n - i,
{
    if i < n {
        lemma_elems_loads_persist(f, dvs, i, (n - 1) as nat, st);
        lemma_elems_fault_persists(f, dvs, i, (n - 1) as nat, st);
    }
}

/// Projects `doc` through `frame`, dereferencing string leaves through
/// `store` wherever the frame asks for a map. `Ok(None)` is the absent result.
/// A string under a null frame node is copied as it is, not dereferenced: a
/// null frame asks for the document verbatim. A frame node other than null,
/// a map or a non-empty vector is fatal to the call: it ends with
/// `Err(EmbedError::Malformed)`, never with a value. A failed load ends the
/// call at once with the store's error, unchanged, and nothing is loaded
/// after it.
pub fn embed_value<S: Store>(frame: &Value, doc: &Value, store: &mut S) -> (r: Result<
    Option<Value>,
    EmbedError,
>)
    ensures
        outcome(r) == embed_spec(frame@, doc@, old(store).documents()),
        final(store).documents() == old(store).documents(),
        final(store).loads() == old(store).loads() + embed_loads(frame@, doc@, old(store).documents()),
    decreases frame, 1nat, 0nat,
{
    let ghost l0 = store.loads();
    match frame {
        Value::Null => {
            assert(l0 + Seq::<Seq<char>>::empty() =~= l0);
            Ok(Some(deepcopy(doc)))
        },
        Value::Dict(_) => match doc {
            Value::Str(key) => match store.load(key.as_str()) {
                Ok(target) => {
                    let ghost l1 = store.loads();
                    let r = project_dict(frame, &target, store);
                    assert(l1 == l0 + seq![key@]);
                    assert(store.loads() =~= l0 + embed_loads(frame@, doc@, old(store).documents()));
                    r
                },
                Err(e) => {
                    assert(store.loads() =~= l0 + embed_loads(frame@, doc@, old(store).documents()));
                    Err(EmbedError::Load(e))
                },
            },
            _ => project_dict(frame, doc, store),
        },
        Value::Vector(fvs) => match doc {
            Value::Vector(dvs) => {
                proof {
                    lemma_view_values(fvs@);
                }
                if fvs.len() == 0 {
                    assert(l0 + Seq::<Seq<char>>::empty() =~= l0);
                    return Err(EmbedError::Malformed);
                }
                let ghost st = store.documents();
                let ghost dv = view_values(dvs@);
                proof {
                    lemma_view_values(dvs@);
                    assert(decreases_to!(*frame => (*frame)->Vector_0));
                    assert(decreases_to!((*frame)->Vector_0 => fvs@));
                    assert(decreases_to!(fvs@ => fvs@[0]));
                }
                let mut out: Vec<Value> = Vec::new();
                let mut i: usize = 0;
                while i < dvs.len()
                    invariant
                        frame@ == Val::Vector(view_values(fvs@)),
                        *frame == Value::Vector(*fvs),
                        *doc == Value::Vector(*dvs),
                        fvs.len() > 0,
                        decreases_to!(*frame => fvs@[0]),
                        view_values(fvs@)[0] == fvs@[0]@,
                        view_values(fvs@).len() == fvs.len(),
                        dv == view_values(dvs@),
                        st == store.documents(),
                        st == old(store).documents(),
                        l0 == old(store).loads(),
                        store.loads() == l0 + elems_loads(frame@, dv, i as nat, st),
                        i <= dvs.len(),
                        dv.len() == dvs.len(),
                        forall|j: int| 0 <= j < dvs.len() ==> #[trigger] dv[j] == dvs@[j]@,
                        embed_elems(frame@, dv, i as nat, st) == Ok::<Seq<Val>, Fault>(view_values(out@)),
                    decreases dvs.len() - i,
                {
                    let ghost before = out@;
                    let ghost prev = view_values(out@);
                    let ghost lp = elems_loads(frame@, dv, i as nat, st);
                    let res = embed_value(&fvs[0], &dvs[i], store);
                    assert(elems_loads(frame@, dv, (i + 1) as nat, st) == lp + embed_loads(fvs@[0]@, dv[i as int], st));
                    assert(store.loads() =~= l0 + elems_loads(frame@, dv, (i + 1) as nat, st));
                    assert(frame@->Vector_0[0] == fvs@[0]@);
                    assert(dv[i as int] == dvs@[i as int]@);
                    match res {
                        Err(e) => {
                            assert(embed_spec(frame@->Vector_0[0], dv[i as int], st) == Err::<Option<Val>, Fault>(e@));
                            assert(embed_elems(frame@, dv, i as nat, st) == Ok::<Seq<Val>, Fault>(prev));
                            assert(embed_elems(frame@, dv, (i + 1) as nat, st) == Err::<Seq<Val>, Fault>(e@)) by {
                                reveal_with_fuel(embed_elems, 2);
                            }
                            proof {
                                lemma_elems_fault_persists(frame@, dv, (i + 1) as nat, dv.len(), st);
                                lemma_elems_loads_persist(frame@, dv, (i + 1) as nat, dv.len(), st);
                            }
                            return Err(e);
                        },
                        Ok(None) => {
                            assert(embed_elems(frame@, dv, (i + 1) as nat, st) == Ok::<Seq<Val>, Fault>(prev));
                        },
                        Ok(Some(o)) => {
                            let ghost ov = o@;
                            out.push(o);
                            assert(out@.drop_last() =~= before);
                            assert(view_values(out@) == prev.push(ov));
                            assert(embed_elems(frame@, dv, (i + 1) as nat, st) == Ok::<Seq<Val>, Fault>(prev.push(ov)));
                        },
                    }
                    i += 1;
                }
                assert(view_values(dvs@) =~= dv);
                Ok(Some(Value::Vector(out)))
            },
            _ => {
                assert(l0 + Seq::<Seq<char>>::empty() =~= l0);
                Ok(None)
            },
        },
        _ => {
            assert(l0 + Seq::<Seq<char>>::empty() =~= l0);
            Err(EmbedError::Malformed)
        },
    }
}

/// Loads the document stored under `root` and projects it through `frame`.
/// `Ok(None)` is the absent result: the root resolved to nothing that the
/// frame could project, and no output is owed. The keys requested from the
/// store are the root, then those of the walk (see `embed_value`).
pub fn embed<S: Store>(frame: &Value, root: &str, store: &mut S) -> (r: Result<
    Option<Value>,
    EmbedError,
>)
    ensures
        outcome(r) == embed_root_spec(frame@, root@, old(store).documents()),
        final(store).documents() == old(store).documents(),
        final(store).loads() == old(store).loads() + embed_root_loads(frame@, root@, old(store).documents()),
{
    let ghost l0 = store.loads();
    match store.load(root) {
        Ok(doc) => {
            let r = embed_value(frame, &doc, store);
            assert(store.loads() =~= l0 + embed_root_loads(frame@, root@, old(store).documents()));
            r
        },
        Err(e) => {
            assert(store.loads() =~= l0 + embed_root_loads(frame@, root@, old(store).documents()));
            Err(EmbedError::Load(e))
        },
    }
}

/// Projects `doc`, already dereferenced, through the map frame `frame`:
/// each key of the frame that `doc` holds is projected in turn.
fn project_dict<S: Store>(frame: &Value, doc: &Value, store: &mut S) -> (r: Result<
    Option<Value>,
    EmbedError,
>)
    requires
        frame is Dict,
    ensures
        outcome(r) == match doc@ {
            Val::Dict(des) => match embed_entries(
                frame@,
                des,
                frame@->Dict_0.len(),
                old(store).documents(),
            ) {
                Ok(out) => Ok(Some(Val::Dict(out))),
                Err(e) => Err(e),
            },
            _ => Ok(None),
        },
        final(store).documents() == old(store).documents(),
        final(store).loads() == old(store).loads() + match doc@ {
            Val::Dict(des) => entries_loads(frame@, des, frame@->Dict_0.len(), old(store).documents()),
            _ => Seq::empty(),
        },
    decreases frame, 0nat, 0nat,
{
    let ghost l0 = store.loads();
    match frame {
        Value::Dict(fes) => match doc {
            Value::Dict(des) => {
                let ghost st = store.documents();
                assert(l0 + Seq::<Seq<char>>::empty() =~= l0);
                let ghost dv = view_entries(des@);
                proof {
                    lemma_view_entries(fes@);
                }
                let mut out: Vec<Entry> = Vec::new();
                let mut i: usize = 0;
                while i < fes.len()
                    invariant
                        *frame == Value::Dict(*fes),
                        frame@ == Val::Dict(view_entries(fes@)),
                        *doc == Value::Dict(*des),
                        view_entries(fes@).len() == fes.len(),
                        forall|j: int| 0 <= j < fes.len() ==> #[trigger] view_entries(fes@)[j] == (fes@[j].key@, fes@[j].value@),
                        dv == view_entries(des@),
                        st == store.documents(),
                        st == old(store).documents(),
                        l0 == old(store).loads(),
                        store.loads() == l0 + entries_loads(frame@, dv, i as nat, st),
                        i <= fes.len(),
                        embed_entries(frame@, dv, i as nat, st) == Ok::<Seq<(Seq<char>, Val)>, Fault>(view_entries(out@)),
                    decreases fes.len() - i,
                {
                    let ghost before = out@;
                    let ghost prev = view_entries(out@);
                    proof {
                        assert(decreases_to!(*frame => (*frame)->Dict_0));
                        assert(decreases_to!((*frame)->Dict_0 => fes@));
                        assert(decreases_to!(fes@ => fes@[i as int]));
                        assert(decreases_to!(fes@[i as int] => fes@[i as int].value));
                    }
                    let ghost lp = entries_loads(frame@, dv, i as nat, st);
                    match find_key(des, &fes[i].key) {
                        None => {
                            assert(entries_loads(frame@, dv, (i + 1) as nat, st) == lp);
                        },
                        Some(j) => match embed_value(&fes[i].value, &des[j].value, store) {
                            Err(e) => {
                                assert(entries_loads(frame@, dv, (i + 1) as nat, st) == lp + embed_loads(fes@[i as int].value@, des@[j as int].value@, st));
                                assert(store.loads() =~= l0 + entries_loads(frame@, dv, (i + 1) as nat, st));
                                assert(embed_entries(frame@, dv, (i + 1) as nat, st) == Err::<Seq<(Seq<char>, Val)>, Fault>(e@));
                                proof {
                                    lemma_entries_fault_persists(frame@, dv, (i + 1) as nat, fes@.len(), st);
                                    lemma_entries_loads_persist(frame@, dv, (i + 1) as nat, fes@.len(), st);
                                }
                                return Err(e);
                            },
                            Ok(None) => {
                                assert(entries_loads(frame@, dv, (i + 1) as nat, st) == lp + embed_loads(fes@[i as int].value@, des@[j as int].value@, st));
                                assert(store.loads() =~= l0 + entries_loads(frame@, dv, (i + 1) as nat, st));
                            },
                            Ok(Some(o)) => {
                                assert(entries_loads(frame@, dv, (i + 1) as nat, st) == lp + embed_loads(fes@[i as int].value@, des@[j as int].value@, st));
                                assert(store.loads() =~= l0 + entries_loads(frame@, dv, (i + 1) as nat, st));
                                out.push(Entry { key: fes[i].key.clone(), value: o });
                                assert(out@.drop_last() =~= before);
                            },
                        },
                    }
                    i += 1;
                }
                Ok(Some(Value::Dict(out)))
            },
            _ => {
                assert(l0 + Seq::<Seq<char>>::empty() =~= l0);
                Ok(None)
            },
        },
        _ => Err(EmbedError::Malformed),
    }
}

} // verus!
