use vstd::prelude::*;
use crate::deepcopy::deepcopy;
use crate::value::{Entry, Val, Value, find_key, lookup, view_entries, lemma_view_entries};

verus! {

/// Why a read from the store failed.
#[derive(Debug, PartialEq)]
pub enum LoadCause {
    /// No document is stored under the key.
    Absent,
    /// The backing store could not serve the read; its own description.
    Storage(String),
}

/// A dereference failed: no document could be read under `key`.
#[derive(Debug, PartialEq)]
pub struct LoadError {
    pub key: String,
    pub cause: LoadCause,
}

/// The read-only source of documents during a projection run.
pub trait Store {
    /// The documents that this store serves, by identifier: what `load`
    /// returns is read from this map, and a key whose read fails (absent, or
    /// a storage fault) is not in it. Each store of this library defines it;
    /// the default only lets a store written outside verified code compile,
    /// and nothing holds such a store's `load` to it.
    open spec fn documents(&self) -> Map<Seq<char>, Val> {
        Map::empty()
    }

    /// The keys requested from this store so far, in order. As with
    /// `documents`, the default serves stores outside verified code only.
    open spec fn loads(&self) -> Seq<Seq<char>> {
        Seq::empty()
    }

    /// Fetches the document stored under `key`, and records the request.
    fn load(&mut self, key: &str) -> (r: Result<Value, LoadError>)
        ensures
            final(self).documents() == old(self).documents(),
            final(self).loads() == old(self).loads().push(key@),
            match r {
                Ok(v) => old(self).documents().contains_key(key@) && v@ == old(self).documents()[key@],
                Err(e) => !old(self).documents().contains_key(key@) && e.key@ == key@,
            },
    ;
}

/// A store held in memory, as a list of identifiers and documents; a later
/// entry replaces an earlier one with the same identifier.
pub struct MemStore {
    pub entries: Vec<Entry>,
    requested: Ghost<Seq<Seq<char>>>,
}

impl MemStore {
    pub closed spec fn spec_documents(&self) -> Map<Seq<char>, Val> {
        Map::new(
            |k: Seq<char>| lookup(view_entries(self.entries@), k) is Some,
            |k: Seq<char>| lookup(view_entries(self.entries@), k)->0,
        )
    }

    /// An empty store.
    pub fn new() -> (r: MemStore)
        ensures
            r.spec_documents() == Map::<Seq<char>, Val>::empty(),
            r.loads() == Seq::<Seq<char>>::empty(),
    {
        let r = MemStore { entries: Vec::new(), requested: Ghost(Seq::empty()) };
        assert(r.spec_documents() =~= Map::<Seq<char>, Val>::empty());
        r
    }

    /// Stores `doc` under `key`, replacing what was there.
    pub fn insert(&mut self, key: String, doc: Value)
        ensures
            final(self).spec_documents() == old(self).spec_documents().insert(key@, doc@),
            final(self).loads() == old(self).loads(),
    {
        let ghost k = key@;
        let ghost d = doc@;
        let ghost before = view_entries(self.entries@);
        self.entries.push(Entry { key, value: doc });
        proof {
            lemma_view_entries(old(self).entries@);
            lemma_view_entries(self.entries@);
            let after = view_entries(self.entries@);
            assert(after.drop_last() =~= before);
            assert(after.last() == (k, d));
            assert(self.spec_documents() =~= old(self).spec_documents().insert(k, d));
        }
    }
}

/// The identifier that a record is stored under when records are keyed by
/// attribute `attr`: the record must be a map whose value under `attr` is a
/// string.
pub fn record_key(record: &Value, attr: &String) -> (r: Option<String>)
    ensures
        match record@ {
            Val::Dict(es) => match lookup(es, attr@) {
                Some(Val::Str(s)) => r matches Some(k) && k@ == s,
                _ => r is None,
            },
            _ => r is None,
        },
{
    match record {
        Value::Dict(es) => match find_key(es, attr) {
            Some(i) => match &es[i].value {
                Value::Str(s) => Some(s.clone()),
                _ => None,
            },
            None => None,
        },
        _ => None,
    }
}

impl Store for MemStore {
    closed spec fn documents(&self) -> Map<Seq<char>, Val> {
        self.spec_documents()
    }

    closed spec fn loads(&self) -> Seq<Seq<char>> {
        self.requested@
    }

    fn load(&mut self, key: &str) -> (r: Result<Value, LoadError>) {
        self.requested = Ghost(self.requested@.push(key@));
        let k = key.to_owned();
        match find_key(&self.entries, &k) {
            Some(i) => Ok(deepcopy(&self.entries[i].value)),
            None => Err(LoadError { key: k, cause: LoadCause::Absent }),
        }
    }
}

} // verus!
