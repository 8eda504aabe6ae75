use embed::codec::{decode, encode, is_encodable, reencode, DecodeError};
use embed::deepcopy::{deepcopy, deepcopy_map, deepcopy_vec};
use embed::embed::{embed, embed_value, EmbedError};
use embed::store::{record_key, LoadCause, LoadError, MemStore, Store};
use embed::value::{Entry, Value};

fn st(s: &str) -> Value {
    Value::Str(s.to_string())
}

fn dict(entries: Vec<(&str, Value)>) -> Value {
    Value::Dict(
        entries
            .into_iter()
            .map(|(k, v)| Entry { key: k.to_string(), value: v })
            .collect(),
    )
}

fn store_of(entries: Vec<(&str, Value)>) -> MemStore {
    let mut s = MemStore::new();
    for (k, v) in entries {
        s.insert(k.to_string(), v);
    }
    s
}

fn sample_tree() -> Value {
    dict(vec![
        ("blob", Value::Blob(vec![0, 1, 255])),
        ("flag", Value::Bool(true)),
        ("half", Value::Float(0.5f64.to_bits())),
        ("n", Value::Int(-7)),
        ("name", st("x")),
        ("nothing", Value::Null),
        ("u", Value::UInt(u64::MAX)),
        ("xs", Value::Vector(vec![Value::Int(1), dict(vec![("k", st("v"))]), Value::Vector(vec![])])),
    ])
}

#[test]
fn dereference_example() {
    let mut store = store_of(vec![
        ("ref1", dict(vec![("x", Value::Int(1)), ("y", Value::Int(2))])),
        ("doc", dict(vec![("a", st("ref1"))])),
    ]);
    let frame = dict(vec![("a", Value::Null)]);
    let out = embed(&frame, "doc", &mut store).unwrap();
    // A null frame under "a" copies the string itself: no dereference there.
    assert_eq!(out, Some(dict(vec![("a", st("ref1"))])));

    let frame = dict(vec![("a", dict(vec![("x", Value::Null), ("y", Value::Null)]))]);
    let out = embed(&frame, "doc", &mut store).unwrap();
    assert_eq!(
        out,
        Some(dict(vec![("a", dict(vec![("x", Value::Int(1)), ("y", Value::Int(2))]))]))
    );
}

#[test]
fn dereference_at_the_root_of_a_map_frame() {
    let mut store = store_of(vec![("ref1", dict(vec![("x", Value::Int(1)), ("y", Value::Int(2))]))]);
    let frame = dict(vec![("x", Value::Null), ("y", Value::Null)]);
    let out = embed_value(&frame, &st("ref1"), &mut store).unwrap();
    assert_eq!(out, Some(dict(vec![("x", Value::Int(1)), ("y", Value::Int(2))])));
}

#[test]
fn non_map_dereference_omission() {
    let mut store = store_of(vec![("ref2", Value::Int(5))]);
    let frame = dict(vec![("a", dict(vec![("x", Value::Null)]))]);
    let doc = dict(vec![("a", st("ref2"))]);
    let out = embed_value(&frame, &doc, &mut store).unwrap();
    assert_eq!(out, Some(dict(vec![])));
}

#[test]
fn vector_templating() {
    let mut store = MemStore::new();
    let frame = Value::Vector(vec![dict(vec![("x", Value::Null)])]);
    let doc = Value::Vector(vec![
        dict(vec![("x", Value::Int(1)), ("y", Value::Int(9))]),
        dict(vec![("x", Value::Int(2)), ("y", Value::Int(8))]),
    ]);
    let out = embed_value(&frame, &doc, &mut store).unwrap();
    assert_eq!(
        out,
        Some(Value::Vector(vec![dict(vec![("x", Value::Int(1))]), dict(vec![("x", Value::Int(2))])]))
    );
}

#[test]
fn vector_shrinkage() {
    let mut store = store_of(vec![("r", dict(vec![("x", Value::Int(3))])), ("s", Value::Bool(false))]);
    let frame = Value::Vector(vec![dict(vec![("x", Value::Null)])]);
    let doc = Value::Vector(vec![
        dict(vec![("x", Value::Int(1))]),
        Value::Int(4),
        st("s"),
        st("r"),
        Value::Vector(vec![]),
    ]);
    let out = embed_value(&frame, &doc, &mut store).unwrap();
    assert_eq!(
        out,
        Some(Value::Vector(vec![dict(vec![("x", Value::Int(1))]), dict(vec![("x", Value::Int(3))])]))
    );
}

#[test]
fn pass_through_copies_the_document() {
    // The document holds a string that names a stored document; a null frame
    // copies it as it is and consults no store.
    let mut empty = MemStore::new();
    let doc = dict(vec![("a", st("ref1")), ("t", sample_tree())]);
    let out = embed_value(&Value::Null, &doc, &mut empty).unwrap();
    assert_eq!(out, Some(deepcopy(&doc)));
    assert_eq!(out, Some(doc));
}

#[test]
fn map_projection_keeps_the_common_keys() {
    let mut store = MemStore::new();
    let frame = dict(vec![("a", Value::Null), ("b", Value::Null), ("c", dict(vec![]))]);
    let doc = dict(vec![("b", Value::Int(2)), ("c", dict(vec![("z", Value::Int(0))])), ("d", Value::Int(4))]);
    let out = embed_value(&frame, &doc, &mut store).unwrap();
    assert_eq!(out, Some(dict(vec![("b", Value::Int(2)), ("c", dict(vec![]))])));
}

#[test]
fn absent_child_leaves_its_key_out() {
    let mut store = MemStore::new();
    let frame = dict(vec![("a", Value::Vector(vec![Value::Null])), ("b", Value::Null)]);
    let doc = dict(vec![("a", Value::Int(1)), ("b", Value::Int(2))]);
    let out = embed_value(&frame, &doc, &mut store).unwrap();
    assert_eq!(out, Some(dict(vec![("b", Value::Int(2))])));
}

#[test]
fn load_then_project_identity() {
    let records = vec![
        dict(vec![("id", st("one")), ("v", Value::Int(1))]),
        dict(vec![("id", st("two")), ("v", Value::Float(2.25f64.to_bits()))]),
        dict(vec![("id", st("three")), ("v", Value::Vector(vec![st("one")]))]),
    ];
    let attr = "id".to_string();
    let mut store = MemStore::new();
    for r in &records {
        let key = record_key(r, &attr).unwrap();
        store.insert(key, deepcopy(r));
    }
    for r in &records {
        let key = record_key(r, &attr).unwrap();
        let out = embed(&Value::Null, &key, &mut store).unwrap();
        assert_eq!(out.as_ref(), Some(r));
    }
}

#[test]
fn record_key_needs_a_string_attribute() {
    let attr = "id".to_string();
    assert_eq!(record_key(&dict(vec![("id", st("k"))]), &attr), Some("k".to_string()));
    assert_eq!(record_key(&dict(vec![("id", Value::Int(1))]), &attr), None);
    assert_eq!(record_key(&dict(vec![("other", st("k"))]), &attr), None);
    assert_eq!(record_key(&st("id"), &attr), None);
}

#[test]
fn missing_reference_fails() {
    let mut store = store_of(vec![("doc", dict(vec![("a", st("nowhere"))]))]);
    let frame = dict(vec![("a", dict(vec![("x", Value::Null)]))]);
    assert_eq!(embed(&frame, "doc", &mut store), Err(EmbedError::Load(LoadError { key: "nowhere".to_string(), cause: LoadCause::Absent })));
}

#[test]
fn missing_root_fails() {
    let mut store = MemStore::new();
    assert_eq!(embed(&Value::Null, "root", &mut store), Err(EmbedError::Load(LoadError { key: "root".to_string(), cause: LoadCause::Absent })));
}

#[test]
fn empty_vector_frame_is_malformed() {
    let mut store = MemStore::new();
    let frame = Value::Vector(vec![]);
    let doc = Value::Vector(vec![Value::Int(1)]);
    assert_eq!(embed_value(&frame, &doc, &mut store), Err(EmbedError::Malformed));
    // A document that is not a vector is absent before the template is needed.
    assert_eq!(embed_value(&frame, &Value::Int(1), &mut store), Ok(None));
}

#[test]
fn scalar_frame_is_malformed() {
    let mut store = MemStore::new();
    assert_eq!(embed_value(&Value::Int(0), &Value::Int(1), &mut store), Err(EmbedError::Malformed));
}

#[test]
fn top_level_absent_is_explicit() {
    let mut store = store_of(vec![("root", Value::Int(5))]);
    let frame = dict(vec![("a", Value::Null)]);
    assert_eq!(embed(&frame, "root", &mut store), Ok(None));
    let frame = Value::Vector(vec![Value::Null]);
    assert_eq!(embed(&frame, "root", &mut store), Ok(None));
}

#[test]
fn references_chain_through_documents() {
    let mut store = store_of(vec![
        ("root", dict(vec![("friend", st("p1"))])),
        ("p1", dict(vec![("name", st("Ann")), ("pet", st("p2"))])),
        ("p2", dict(vec![("name", st("Rex")), ("age", Value::UInt(3))])),
    ]);
    let frame = dict(vec![(
        "friend",
        dict(vec![("name", Value::Null), ("pet", dict(vec![("name", Value::Null)]))]),
    )]);
    let out = embed(&frame, "root", &mut store).unwrap();
    assert_eq!(
        out,
        Some(dict(vec![(
            "friend",
            dict(vec![("name", st("Ann")), ("pet", dict(vec![("name", st("Rex"))]))])
        )]))
    );
}

/// A store that records, at run time, every key requested from it.
struct Recording {
    inner: MemStore,
    requested: Vec<String>,
}

impl Store for Recording {
    fn load(&mut self, key: &str) -> Result<Value, LoadError> {
        self.requested.push(key.to_string());
        self.inner.load(key)
    }
}

#[test]
fn loads_follow_the_walk_and_stop_at_the_first_failure() {
    let inner = store_of(vec![
        ("root", dict(vec![("a", st("p1")), ("b", st("missing")), ("c", st("p2")), ("n", st("p3"))])),
        ("p1", dict(vec![("x", st("deep"))])),
        ("deep", dict(vec![])),
        ("p2", dict(vec![])),
    ]);
    let mut store = Recording { inner, requested: vec![] };
    let frame = dict(vec![
        ("a", dict(vec![("x", dict(vec![]))])),
        ("b", dict(vec![])),
        ("c", dict(vec![])),
        ("n", Value::Null),
    ]);
    let out = embed(&frame, "root", &mut store);
    assert_eq!(out, Err(EmbedError::Load(LoadError { key: "missing".to_string(), cause: LoadCause::Absent })));
    assert_eq!(store.requested, vec!["root", "p1", "deep", "missing"]);
}

#[test]
fn null_frame_loads_only_the_root() {
    let inner = store_of(vec![("root", dict(vec![("a", st("p1"))])), ("p1", Value::Int(1))]);
    let mut store = Recording { inner, requested: vec![] };
    assert_eq!(embed(&Value::Null, "root", &mut store), Ok(Some(dict(vec![("a", st("p1"))]))));
    assert_eq!(store.requested, vec!["root"]);
}

#[test]
fn store_insert_replaces() {
    let mut store = MemStore::new();
    store.insert("k".to_string(), Value::Int(1));
    store.insert("k".to_string(), Value::Int(2));
    assert_eq!(store.load("k"), Ok(Value::Int(2)));
    assert!(store.load("j").is_err());
}

#[test]
fn deepcopy_keeps_every_variant() {
    let t = sample_tree();
    assert_eq!(deepcopy(&t), t);
    let mut v = vec![Value::Null];
    deepcopy_vec(&t, &mut v);
    assert_eq!(v, vec![Value::Null, sample_tree()]);
    let mut m = Vec::new();
    deepcopy_map(&"k".to_string(), &t, &mut m);
    assert_eq!(m, vec![Entry { key: "k".to_string(), value: sample_tree() }]);
}

#[test]
fn encode_then_decode_round_trips() {
    let t = sample_tree();
    let bytes = encode(&t);
    assert!(!bytes.is_empty());
    assert_eq!(decode(&bytes), Ok(t));
    for v in [Value::Null, Value::Int(i64::MIN), st(""), Value::Float((-0.0f64).to_bits()), Value::Vector(vec![])] {
        let bytes = encode(&v);
        assert_eq!(decode(&bytes), Ok(v));
    }
}

#[test]
fn encoded_maps_are_sorted_for_lookup() {
    let unsorted = Value::Dict(vec![
        Entry { key: "zeta".to_string(), value: Value::Int(1) },
        Entry { key: "alpha".to_string(), value: Value::Int(2) },
        Entry { key: "mid".to_string(), value: Value::Int(3) },
    ]);
    let bytes = encode(&unsorted);
    let reader = flexbuffers::Reader::get_root(bytes.as_slice()).unwrap();
    let map = reader.as_map();
    let keys: Vec<&str> = map.iter_keys().collect();
    assert_eq!(keys, vec!["alpha", "mid", "zeta"]);
    assert_eq!(map.index_key("zeta").map(|i| map.idx(i).as_i64()), Some(1));
    assert_eq!(map.index_key("alpha").map(|i| map.idx(i).as_i64()), Some(2));
}

#[test]
fn decode_reads_indirect_numbers_directly() {
    let mut b = flexbuffers::Builder::default();
    let mut v = b.start_vector();
    v.push(flexbuffers::IndirectInt(-5));
    v.push(flexbuffers::IndirectUInt(6));
    v.push(flexbuffers::IndirectFloat(1.5));
    v.end_vector();
    let out = decode(b.view()).unwrap();
    assert_eq!(
        out,
        Value::Vector(vec![Value::Int(-5), Value::UInt(6), Value::Float(1.5f64.to_bits())])
    );
}

#[test]
fn decode_rejects_an_empty_buffer() {
    assert_eq!(decode(&[]), Err(DecodeError::Unreadable));
}

#[test]
fn encodable_needs_distinct_keys_without_nul() {
    assert!(is_encodable(&sample_tree()));
    let repeated = Value::Dict(vec![
        Entry { key: "a".to_string(), value: Value::Int(1) },
        Entry { key: "a".to_string(), value: Value::Int(2) },
    ]);
    assert!(!is_encodable(&repeated));
    assert!(!is_encodable(&Value::Vector(vec![dict(vec![("a\0b", Value::Null)])])));
    assert!(is_encodable(&st("a\0b")));
}

#[test]
fn reencode_sorts_map_keys() {
    let unsorted = Value::Dict(vec![
        Entry { key: "b".to_string(), value: Value::Int(1) },
        Entry { key: "a".to_string(), value: Value::Vector(vec![Value::Null]) },
    ]);
    assert_eq!(
        reencode(&unsorted),
        Ok(dict(vec![("a", Value::Vector(vec![Value::Null])), ("b", Value::Int(1))]))
    );
}

#[test]
fn json_round_trip_keeps_numbers_exact() {
    let text = r#"{"big":18446744073709551615,"neg":-9007199254740993,"pi":3.141592653589793,"tiny":5e-324}"#;
    let json: serde_json::Value = serde_json::from_str(text).unwrap();
    let bin = flexbuffers::to_vec(&json).unwrap();
    let v = decode(&bin).unwrap();
    assert_eq!(
        v,
        dict(vec![
            ("big", Value::UInt(u64::MAX)),
            ("neg", Value::Int(-9007199254740993)),
            ("pi", Value::Float(3.141592653589793f64.to_bits())),
            ("tiny", Value::Float(5e-324f64.to_bits())),
        ])
    );
    let again = encode(&v);
    let back: serde_json::Value = flexbuffers::from_slice(&again).unwrap();
    assert_eq!(back, json);
    assert_eq!(serde_json::to_string(&back).unwrap(), text);
}
