use vstd::prelude::*;
use vstd::string::StrSliceExecFns;
use byteorder::{ByteOrder, LittleEndian};
use flexbuffers::{Blob, Builder, FlexBufferType, MapBuilder, Reader, VectorBuilder};
use crate::value::{Entry, Val, Value, find_key, keys_distinct, lemma_lookup_none, lemma_view_entries,
    lemma_view_values, lookup, view_entries, view_values};

verus! {

broadcast use vstd::std_specs::vec::group_vec_axioms;

#[verifier::external_type_specification]
#[verifier::external_body]
#[verifier::reject_recursive_types(B)]
pub struct ExReader<B>(Reader<B>);

/// Why a buffer could not be read as a value.
#[derive(Debug, PartialEq)]
pub enum DecodeError {
    /// The buffer holds no readable root, or nests deeper than its length
    /// allows.
    Unreadable,
    /// A node has a type that values cannot take.
    Unsupported,
    /// A map holds the same key twice.
    DuplicateKey,
}

/// Every map in the tree has distinct keys.
pub open spec fn well_formed(v: Val) -> bool
    decreases v,
{
    match v {
        Val::Dict(es) => keys_distinct(es) && forall|i: int|
            0 <= i < es.len() ==> well_formed(#[trigger] es[i].1),
        Val::Vector(vs) => forall|i: int| 0 <= i < vs.len() ==> well_formed(#[trigger] vs[i]),
        _ => true,
    }
}

/// Bytes that flexbuffers' builder wrote: every node reachable from the root
/// of such a buffer reads without fault.
pub uninterp spec fn from_builder(b: Seq<u8>) -> bool;

/// Whether flexbuffers::Reader::get_root finds a root in buffer `b`.
pub uninterp spec fn has_root(b: Seq<u8>) -> bool;

/// The code of flexbuffers::Reader::flexbuffer_type for the node at `path`.
pub uninterp spec fn kind_at(b: Seq<u8>, path: Seq<int>) -> u8;

/// What flexbuffers::Reader::as_bool returns for the node at `path`.
pub uninterp spec fn bool_at(b: Seq<u8>, path: Seq<int>) -> bool;

/// What flexbuffers::Reader::as_i64 returns for the node at `path`.
pub uninterp spec fn int_at(b: Seq<u8>, path: Seq<int>) -> i64;

/// What flexbuffers::Reader::as_u64 returns for the node at `path`.
pub uninterp spec fn uint_at(b: Seq<u8>, path: Seq<int>) -> u64;

/// The bit pattern of what flexbuffers::Reader::as_f64 returns for the node
/// at `path`.
pub uninterp spec fn float_bits_at(b: Seq<u8>, path: Seq<int>) -> u64;

/// What flexbuffers::Reader::as_str returns for the node at `path`.
pub uninterp spec fn str_at(b: Seq<u8>, path: Seq<int>) -> Seq<char>;

/// What flexbuffers::Reader::as_blob returns for the node at `path`.
pub uninterp spec fn blob_at(b: Seq<u8>, path: Seq<int>) -> Seq<u8>;

/// The `i`-th key that flexbuffers::MapReader::keys_vector holds for the map
/// at `path`.
pub uninterp spec fn map_key_at(b: Seq<u8>, path: Seq<int>, i: int) -> Seq<char>;

/// What flexbuffers::MapReader::len returns for the node at `path` (a list of
/// child indices from the root) of buffer `b`.
pub uninterp spec fn map_len_at(b: Seq<u8>, path: Seq<int>) -> nat;

/// What flexbuffers::VectorReader::len returns for the node at `path` of
/// buffer `b`.
pub uninterp spec fn vector_len_at(b: Seq<u8>, path: Seq<int>) -> nat;

/// A reader positioned on one node of a buffer, with the buffer it reads
/// and the path of child indices that leads to the node from the root.
struct Node<'a> {
    reader: Reader<&'a [u8]>,
    buf: Ghost<Seq<u8>>,
    path: Ghost<Seq<int>>,
}

/// The value that the node at `path` of buffer `b` reads as, nesting at most
/// `depth` deep; none where the node has a type that values cannot take, or a
/// map repeats a key. Indirect numbers read as their value, keys as strings.
pub open spec fn tree_at(b: Seq<u8>, path: Seq<int>, depth: nat) -> Option<Val>
    decreases depth, 1nat, 0nat,
{
    let c = kind_at(b, path);
    if c == 0 {
        Some(Val::Null)
    } else if c == 26 {
        Some(Val::Bool(bool_at(b, path)))
    } else if c == 1 || c == 6 {
        Some(Val::Int(int_at(b, path)))
    } else if c == 2 || c == 7 {
        Some(Val::UInt(uint_at(b, path)))
    } else if c == 3 || c == 8 {
        Some(Val::Float(float_bits_at(b, path)))
    } else if c == 4 || c == 5 {
        Some(Val::Str(str_at(b, path)))
    } else if c == 25 {
        Some(Val::Blob(blob_at(b, path)))
    } else if c == 9 {
        if depth == 0 {
            None
        } else {
            match entries_at(b, path, (depth - 1) as nat, map_len_at(b, path)) {
                Some(es) => Some(Val::Dict(es)),
                None => None,
            }
        }
    } else if (9 <= c < 25) || c == 36 {
        if depth == 0 {
            None
        } else {
            match elems_at(b, path, (depth - 1) as nat, vector_len_at(b, path)) {
                Some(vs) => Some(Val::Vector(vs)),
                None => None,
            }
        }
    } else {
        None
    }
}

/// The first `n` entries of the map at `path`, each child read at most
/// `depth` deep; none where a child reads as none or a key repeats.
pub open spec fn entries_at(b: Seq<u8>, path: Seq<int>, depth: nat, n: nat) -> Option<
    Seq<(Seq<char>, Val)>,
>
    decreases depth, 2nat, n,
{
    if n == 0 {
        Some(Seq::empty())
    } else {
        match entries_at(b, path, depth, (n - 1) as nat) {
            None => None,
            Some(prev) => match tree_at(b, path.push(n - 1), depth) {
                None => None,
                Some(v) => {
                    let k = map_key_at(b, path, n - 1);
                    if lookup(prev, k) is Some {
                        None
                    } else {
                        Some(prev.push((k, v)))
                    }
                },
            },
        }
    }
}

/// The first `n` elements of the vector at `path`, each read at most `depth`
/// deep; none where an element reads as none.
pub open spec fn elems_at(b: Seq<u8>, path: Seq<int>, depth: nat, n: nat) -> Option<Seq<Val>>
    decreases depth, 2nat, n,
{
    if n == 0 {
        Some(Seq::empty())
    } else {
        match elems_at(b, path, depth, (n - 1) as nat) {
            None => None,
            Some(prev) => match tree_at(b, path.push(n - 1), depth) {
                None => None,
                Some(v) => Some(prev.push(v)),
            },
        }
    }
}

/// The value that buffer `b` reads as: its root, nesting no deeper than the
/// buffer is long.
pub open spec fn flex_tree(b: Seq<u8>) -> Option<Val> {
    if has_root(b) {
        tree_at(b, Seq::empty(), b.len())
    } else {
        None
    }
}

proof fn lemma_entries_none_persists(b: Seq<u8>, path: Seq<int>, depth: nat, i: nat, n: nat)
    requires
        i <= n,
        entries_at(b, path, depth, i) is None,
    ensures
        entries_at(b, path, depth, n) is None,
    decreases n - i,
{
    if i < n {
        lemma_entries_none_persists(b, path, depth, i, (n - 1) as nat);
    }
}

proof fn lemma_elems_none_persists(b: Seq<u8>, path: Seq<int>, depth: nat, i: nat, n: nat)
    requires
        i <= n,
        elems_at(b, path, depth, i) is None,
    ensures
        elems_at(b, path, depth, n) is None,
    decreases n - i,
{
    if i < n {
        lemma_elems_none_persists(b, path, depth, i, (n - 1) as nat);
    }
}

/// Relies on flexbuffers::Reader::get_root: a reader of the buffer's root
/// node, or none where the buffer holds no readable root.
#[verifier::external_body]
fn root_of<'a>(buf: &'a [u8]) -> (r: Option<Node<'a>>)
    ensures
        r is Some == has_root(buf@),
        r matches Some(n) ==> n.buf@ == buf@ && n.path@ == Seq::<int>::empty(),
{
    match Reader::get_root(buf) {
        Ok(reader) => Some(Node { reader, buf: Ghost(buf@), path: Ghost(Seq::empty()) }),
        Err(_) => None,
    }
}

/// Relies on flexbuffers::Reader::flexbuffer_type: the code of the node's
/// type tag.
#[verifier::external_body]
fn kind_of(n: &Node) -> (r: u8)
    ensures
        r == kind_at(n.buf@, n.path@),
{
    n.reader.flexbuffer_type() as u8
}

/// Relies on flexbuffers::FlexBufferType::is_vector: whether the node is a
/// vector of any layout (maps included), that is whether its code lies in
/// 9..25 or is 36.
#[verifier::external_body]
fn is_vector_node(n: &Node) -> (r: bool)
    ensures
        r == ((9 <= kind_at(n.buf@, n.path@) < 25) || kind_at(n.buf@, n.path@) == 36),
{
    n.reader.flexbuffer_type().is_vector()
}

/// Relies on flexbuffers::Reader::as_bool.
#[verifier::external_body]
fn read_bool(n: &Node) -> (r: bool)
    requires
        from_builder(n.buf@),
    ensures
        r == bool_at(n.buf@, n.path@),
{
    n.reader.as_bool()
}

/// Relies on flexbuffers::Reader::as_i64, which reads an indirect integer
/// through to its value.
#[verifier::external_body]
fn read_int(n: &Node) -> (r: i64)
    requires
        from_builder(n.buf@),
    ensures
        r == int_at(n.buf@, n.path@),
{
    n.reader.as_i64()
}

/// Relies on flexbuffers::Reader::as_u64, which reads an indirect integer
/// through to its value.
#[verifier::external_body]
fn read_uint(n: &Node) -> (r: u64)
    requires
        from_builder(n.buf@),
    ensures
        r == uint_at(n.buf@, n.path@),
{
    n.reader.as_u64()
}

/// Relies on flexbuffers::Reader::as_f64, which reads an indirect float
/// through to its value; the result is its IEEE-754 bit pattern.
#[verifier::external_body]
fn read_float_bits(n: &Node) -> (r: u64)
    requires
        from_builder(n.buf@),
    ensures
        r == float_bits_at(n.buf@, n.path@),
{
    n.reader.as_f64().to_bits()
}

/// Relies on flexbuffers::Reader::as_str, for strings and keys.
#[verifier::external_body]
fn read_str(n: &Node) -> (r: String)
    requires
        from_builder(n.buf@),
    ensures
        r@ == str_at(n.buf@, n.path@),
{
    n.reader.as_str().to_string()
}

/// Relies on flexbuffers::Reader::as_blob.
#[verifier::external_body]
fn read_blob(n: &Node) -> (r: Vec<u8>)
    requires
        from_builder(n.buf@),
    ensures
        r@ == blob_at(n.buf@, n.path@),
{
    n.reader.as_blob().0.to_vec()
}

/// Relies on flexbuffers::MapReader::len: the number of entries.
#[verifier::external_body]
fn map_len(n: &Node) -> (r: usize)
    requires
        from_builder(n.buf@),
    ensures
        r == map_len_at(n.buf@, n.path@),
{
    n.reader.as_map().len()
}

/// Relies on flexbuffers::MapReader::keys_vector: the `i`-th key.
#[verifier::external_body]
fn map_key(n: &Node, i: usize) -> (r: String)
    requires
        from_builder(n.buf@),
        i < map_len_at(n.buf@, n.path@),
    ensures
        r@ == map_key_at(n.buf@, n.path@, i as int),
{
    n.reader.as_map().keys_vector().idx(i).as_str().to_string()
}

/// Relies on flexbuffers::MapReader::idx: the `i`-th value.
#[verifier::external_body]
fn map_value<'a>(n: &Node<'a>, i: usize) -> (r: Node<'a>)
    requires
        from_builder(n.buf@),
        i < map_len_at(n.buf@, n.path@),
    ensures
        r.buf@ == n.buf@,
        r.path@ == n.path@.push(i as int),
{
    Node { reader: n.reader.as_map().idx(i), buf: Ghost(n.buf@), path: Ghost(n.path@.push(i as int)) }
}

/// Relies on flexbuffers::VectorReader::len: the number of elements.
#[verifier::external_body]
fn vector_len(n: &Node) -> (r: usize)
    requires
        from_builder(n.buf@),
    ensures
        r == vector_len_at(n.buf@, n.path@),
{
    n.reader.as_vector().len()
}

/// Relies on flexbuffers::VectorReader::idx: the `i`-th element.
#[verifier::external_body]
fn vector_elem<'a>(n: &Node<'a>, i: usize) -> (r: Node<'a>)
    requires
        from_builder(n.buf@),
        i < vector_len_at(n.buf@, n.path@),
    ensures
        r.buf@ == n.buf@,
        r.path@ == n.path@.push(i as int),
{
    Node { reader: n.reader.as_vector().idx(i), buf: Ghost(n.buf@), path: Ghost(n.path@.push(i as int)) }
}

/// Reads the node `r` and everything under it, nesting at most `depth` deep.
/// Indirect numbers are read through to their value and keys read as
/// strings.
fn decode_node(r: &Node, depth: usize) -> (res: Result<Value, DecodeError>)
    requires
        from_builder(r.buf@),
    ensures
        match tree_at(r.buf@, r.path@, depth as nat) {
            Some(t) => res matches Ok(v) && v@ == t,
            None => res is Err,
        },
        res matches Ok(v) ==> well_formed(v@),
    decreases depth,
{
    let c = kind_of(r);
    if c == 0 {
        Ok(Value::Null)
    } else if c == 26 {
        Ok(Value::Bool(read_bool(r)))
    } else if c == 1 || c == 6 {
        Ok(Value::Int(read_int(r)))
    } else if c == 2 || c == 7 {
        Ok(Value::UInt(read_uint(r)))
    } else if c == 3 || c == 8 {
        Ok(Value::Float(read_float_bits(r)))
    } else if c == 4 || c == 5 {
        Ok(Value::Str(read_str(r)))
    } else if c == 25 {
        Ok(Value::Blob(read_blob(r)))
    } else if c == 9 {
        if depth == 0 {
            return Err(DecodeError::Unreadable);
        }
        let ghost b = r.buf@;
        let ghost p = r.path@;
        let ghost d = (depth - 1) as nat;
        let n = map_len(r);
        let ghost whole = tree_at(b, p, depth as nat);
        assert(whole == match entries_at(b, p, d, n as nat) {
            Some(es) => Some(Val::Dict(es)),
            None => None::<Val>,
        });
        let mut out: Vec<Entry> = Vec::new();
        let mut i: usize = 0;
        while i < n
            invariant
                whole == tree_at(b, p, depth as nat),
                whole == match entries_at(b, p, d, n as nat) {
                    Some(es) => Some(Val::Dict(es)),
                    None => None::<Val>,
                },
                depth > 0,
                b == r.buf@,
                p == r.path@,
                d == depth - 1,
                from_builder(r.buf@),
                n == map_len_at(r.buf@, r.path@),
                i <= n,
                entries_at(b, p, d, i as nat) == Some(view_entries(out@)),
                keys_distinct(view_entries(out@)),
                forall|j: int| 0 <= j < out.len() ==> well_formed(#[trigger] out@[j].value@),
            decreases n - i,
        {
            let key = map_key(r, i);
            let child = map_value(r, i);
            let v = match decode_node(&child, depth - 1) {
                Ok(v) => v,
                Err(e) => {
                    proof {
                        assert(entries_at(b, p, d, (i + 1) as nat) is None);
                        lemma_entries_none_persists(b, p, d, (i + 1) as nat, n as nat);
                    }
                    return Err(e);
                },
            };
            proof {
                lemma_view_entries(out@);
            }
            if find_key(&out, &key).is_some() {
                proof {
                    assert(entries_at(b, p, d, (i + 1) as nat) is None);
                    lemma_entries_none_persists(b, p, d, (i + 1) as nat, n as nat);
                }
                return Err(DecodeError::DuplicateKey);
            }
            let ghost before = out@;
            let ghost kv = (key@, v@);
            proof {
                lemma_lookup_none(view_entries(before), key@);
            }
            out.push(Entry { key, value: v });
            proof {
                lemma_view_entries(out@);
                assert(out@.drop_last() =~= before);
                assert(view_entries(out@) == view_entries(before).push(kv));
            }
            i += 1;
        }
        let res = Value::Dict(out);
        proof {
            lemma_view_entries(out@);
        }
        Ok(res)
    } else if is_vector_node(r) {
        if depth == 0 {
            return Err(DecodeError::Unreadable);
        }
        let ghost b = r.buf@;
        let ghost p = r.path@;
        let ghost d = (depth - 1) as nat;
        let n = vector_len(r);
        let ghost whole = tree_at(b, p, depth as nat);
        assert(whole == match elems_at(b, p, d, n as nat) {
            Some(vs) => Some(Val::Vector(vs)),
            None => None::<Val>,
        });
        let mut out: Vec<Value> = Vec::new();
        let mut i: usize = 0;
        while i < n
            invariant
                whole == tree_at(b, p, depth as nat),
                whole == match elems_at(b, p, d, n as nat) {
                    Some(vs) => Some(Val::Vector(vs)),
                    None => None::<Val>,
                },
                depth > 0,
                b == r.buf@,
                p == r.path@,
                d == depth - 1,
                from_builder(r.buf@),
                n == vector_len_at(r.buf@, r.path@),
                i <= n,
                elems_at(b, p, d, i as nat) == Some(view_values(out@)),
                forall|j: int| 0 <= j < out.len() ==> well_formed(#[trigger] out@[j]@),
            decreases n - i,
        {
            let child = vector_elem(r, i);
            let v = match decode_node(&child, depth - 1) {
                Ok(v) => v,
                Err(e) => {
                    proof {
                        assert(elems_at(b, p, d, (i + 1) as nat) is None);
                        lemma_elems_none_persists(b, p, d, (i + 1) as nat, n as nat);
                    }
                    return Err(e);
                },
            };
            let ghost before = out@;
            let ghost vv = v@;
            out.push(v);
            proof {
                assert(out@.drop_last() =~= before);
                assert(view_values(out@) == view_values(before).push(vv));
            }
            i += 1;
        }
        let res = Value::Vector(out);
        proof {
            lemma_view_values(out@);
        }
        Ok(res)
    } else {
        Err(DecodeError::Unsupported)
    }
}

/// Reads a whole buffer that flexbuffers' builder wrote as a value: the
/// tree that the buffer holds, or an error exactly where it holds none.
/// Every map of the result has distinct keys.
pub fn decode(buf: &[u8]) -> (r: Result<Value, DecodeError>)
    requires
        from_builder(buf@),
    ensures
        match flex_tree(buf@) {
            Some(t) => r matches Ok(v) && v@ == t,
            None => r is Err,
        },
        r matches Ok(v) ==> well_formed(v@),
{
    match root_of(buf) {
        Some(root) => decode_node(&root, buf.len()),
        None => Err(DecodeError::Unreadable),
    }
}

} // verus!
verus! {

#[verifier::external_type_specification]
#[verifier::external_body]
pub struct ExBuilder(Builder);

#[verifier::external_type_specification]
#[verifier::external_body]
pub struct ExMapBuilder<'a>(MapBuilder<'a>);

#[verifier::external_type_specification]
#[verifier::external_body]
pub struct ExVectorBuilder<'a>(VectorBuilder<'a>);

/// A map under construction, with the keys pushed into it so far.
struct OpenMap<'a> {
    inner: MapBuilder<'a>,
    keys: Ghost<Seq<Seq<char>>>,
}

/// No character of `s` is NUL: the format ends keys with one.
pub open spec fn no_nul(s: Seq<char>) -> bool {
    forall|i: int| 0 <= i < s.len() ==> s[i] != '\0'
}

/// The binary format can hold `v`: every map has distinct keys, none of
/// which holds a NUL character.
pub open spec fn encodable(v: Val) -> bool
    decreases v,
{
    match v {
        Val::Dict(es) => keys_distinct(es) && entries_encodable(es),
        Val::Vector(vs) => all_encodable(vs),
        _ => true,
    }
}

/// Every key of `es` is free of NUL and every value can be encoded.
pub open spec fn entries_encodable(es: Seq<(Seq<char>, Val)>) -> bool
    decreases es,
{
    if es.len() == 0 {
        true
    } else {
        entries_encodable(es.drop_last()) && no_nul(es.last().0) && encodable(es.last().1)
    }
}

/// Every element of `vs` can be encoded.
pub open spec fn all_encodable(vs: Seq<Val>) -> bool
    decreases vs,
{
    if vs.len() == 0 {
        true
    } else {
        all_encodable(vs.drop_last()) && encodable(vs.last())
    }
}

proof fn lemma_entries_encodable(es: Seq<(Seq<char>, Val)>)
    ensures
        entries_encodable(es) <==> forall|i: int|
            #![trigger es[i]]
            0 <= i < es.len() ==> no_nul(es[i].0) && encodable(es[i].1),
    decreases es.len(),
{
    if es.len() > 0 {
        let p = es.drop_last();
        lemma_entries_encodable(p);
        assert(forall|i: int| 0 <= i < p.len() ==> p[i] == es[i]);
    }
}

proof fn lemma_all_encodable(vs: Seq<Val>)
    ensures
        all_encodable(vs) <==> forall|i: int| 0 <= i < vs.len() ==> encodable(#[trigger] vs[i]),
    decreases vs.len(),
{
    if vs.len() > 0 {
        let p = vs.drop_last();
        lemma_all_encodable(p);
        assert(forall|i: int| 0 <= i < p.len() ==> p[i] == vs[i]);
    }
}

/// Relies on flexbuffers::Builder::default: an empty builder.
#[verifier::external_body]
fn new_builder() -> Builder {
    Builder::default()
}

/// Relies on flexbuffers::Builder::take_buffer: the bytes of the value just
/// built, which the builder wrote (or none, before anything was built).
#[verifier::external_body]
fn finish(b: &mut Builder) -> (r: Vec<u8>)
    ensures
        from_builder(r@),
{
    b.take_buffer()
}

/// Relies on flexbuffers::Builder::build_singleton: the root is one null.
#[verifier::external_body]
fn root_null(b: &mut Builder) {
    b.build_singleton(())
}

/// Relies on flexbuffers::VectorBuilder::push: appends one null.
#[verifier::external_body]
fn vector_null(v: &mut VectorBuilder<'_>) {
    v.push(())
}

/// Relies on flexbuffers::MapBuilder::push: adds one null under `key`.
#[verifier::external_body]
fn map_null(m: &mut OpenMap<'_>, key: &str)
    requires
        no_nul(key@),
    ensures
        final(m).keys@ == old(m).keys@.push(key@),
{
    m.inner.push(key, ());
    m.keys = Ghost(m.keys@.push(key@));
}

/// Relies on flexbuffers::Builder::build_singleton: the root is one bool.
#[verifier::external_body]
fn root_bool(b: &mut Builder, x: bool) {
    b.build_singleton(x)
}

/// Relies on flexbuffers::VectorBuilder::push: appends one bool.
#[verifier::external_body]
fn vector_bool(v: &mut VectorBuilder<'_>, b: bool) {
    v.push(b)
}

/// Relies on flexbuffers::MapBuilder::push: adds one bool under `key`.
#[verifier::external_body]
fn map_bool(m: &mut OpenMap<'_>, key: &str, b: bool)
    requires
        no_nul(key@),
    ensures
        final(m).keys@ == old(m).keys@.push(key@),
{
    m.inner.push(key, b);
    m.keys = Ghost(m.keys@.push(key@));
}

/// Relies on flexbuffers::Builder::build_singleton: the root is one int.
#[verifier::external_body]
fn root_int(b: &mut Builder, i: i64) {
    b.build_singleton(i)
}

/// Relies on flexbuffers::VectorBuilder::push: appends one int.
#[verifier::external_body]
fn vector_int(v: &mut VectorBuilder<'_>, i: i64) {
    v.push(i)
}

/// Relies on flexbuffers::MapBuilder::push: adds one int under `key`.
#[verifier::external_body]
fn map_int(m: &mut OpenMap<'_>, key: &str, i: i64)
    requires
        no_nul(key@),
    ensures
        final(m).keys@ == old(m).keys@.push(key@),
{
    m.inner.push(key, i);
    m.keys = Ghost(m.keys@.push(key@));
}

/// Relies on flexbuffers::Builder::build_singleton: the root is one uint.
#[verifier::external_body]
fn root_uint(b: &mut Builder, u: u64) {
    b.build_singleton(u)
}

/// Relies on flexbuffers::VectorBuilder::push: appends one uint.
#[verifier::external_body]
fn vector_uint(v: &mut VectorBuilder<'_>, u: u64) {
    v.push(u)
}

/// Relies on flexbuffers::MapBuilder::push: adds one uint under `key`.
#[verifier::external_body]
fn map_uint(m: &mut OpenMap<'_>, key: &str, u: u64)
    requires
        no_nul(key@),
    ensures
        final(m).keys@ == old(m).keys@.push(key@),
{
    m.inner.push(key, u);
    m.keys = Ghost(m.keys@.push(key@));
}

/// Relies on flexbuffers::Builder::build_singleton: the root is a float,
/// rebuilt from its IEEE-754 bit pattern by byteorder::ByteOrder::read_f64.
#[verifier::external_body]
fn root_float_bits(b: &mut Builder, bits: u64) {
    b.build_singleton(LittleEndian::read_f64(&bits.to_le_bytes()))
}

/// Relies on flexbuffers::VectorBuilder::push: appends a float, rebuilt from
/// its IEEE-754 bit pattern by byteorder::ByteOrder::read_f64.
#[verifier::external_body]
fn vector_float_bits(v: &mut VectorBuilder<'_>, bits: u64) {
    v.push(LittleEndian::read_f64(&bits.to_le_bytes()))
}

/// Relies on flexbuffers::MapBuilder::push: adds a float under `key`,
/// rebuilt from its IEEE-754 bit pattern by byteorder::ByteOrder::read_f64.
#[verifier::external_body]
fn map_float_bits(m: &mut OpenMap<'_>, key: &str, bits: u64)
    requires
        no_nul(key@),
    ensures
        final(m).keys@ == old(m).keys@.push(key@),
{
    m.inner.push(key, LittleEndian::read_f64(&bits.to_le_bytes()));
    m.keys = Ghost(m.keys@.push(key@));
}

/// Relies on flexbuffers::Builder::build_singleton: the root is one str.
#[verifier::external_body]
fn root_str(b: &mut Builder, s: &str) {
    b.build_singleton(s)
}

/// Relies on flexbuffers::VectorBuilder::push: appends one str.
#[verifier::external_body]
fn vector_str(v: &mut VectorBuilder<'_>, s: &str) {
    v.push(s)
}

/// Relies on flexbuffers::MapBuilder::push: adds one str under `key`.
#[verifier::external_body]
fn map_str(m: &mut OpenMap<'_>, key: &str, s: &str)
    requires
        no_nul(key@),
    ensures
        final(m).keys@ == old(m).keys@.push(key@),
{
    m.inner.push(key, s);
    m.keys = Ghost(m.keys@.push(key@));
}

/// Relies on flexbuffers::Builder::build_singleton: the root is a blob.
#[verifier::external_body]
fn root_blob(b: &mut Builder, x: &[u8]) {
    b.build_singleton(Blob(x))
}

/// Relies on flexbuffers::VectorBuilder::push: appends a blob.
#[verifier::external_body]
fn vector_blob(v: &mut VectorBuilder<'_>, b: &[u8]) {
    v.push(Blob(b))
}

/// Relies on flexbuffers::MapBuilder::push: adds a blob under `key`.
#[verifier::external_body]
fn map_blob(m: &mut OpenMap<'_>, key: &str, b: &[u8])
    requires
        no_nul(key@),
    ensures
        final(m).keys@ == old(m).keys@.push(key@),
{
    m.inner.push(key, Blob(b));
    m.keys = Ghost(m.keys@.push(key@));
}

/// Relies on flexbuffers::Builder::start_map: the root is a map, with no
/// key pushed yet.
#[verifier::external_body]
fn root_start_map(b: &mut Builder) -> (r: OpenMap<'_>)
    ensures
        r.keys@ == Seq::<Seq<char>>::empty(),
{
    OpenMap { inner: b.start_map(), keys: Ghost(Seq::empty()) }
}

/// Relies on flexbuffers::Builder::start_vector: the root is a vector.
#[verifier::external_body]
fn root_start_vector(b: &mut Builder) -> VectorBuilder<'_> {
    b.start_vector()
}

/// Relies on flexbuffers::VectorBuilder::start_map: appends a map, with no
/// key pushed yet.
#[verifier::external_body]
fn vector_start_map<'b>(v: &'b mut VectorBuilder<'_>) -> (r: OpenMap<'b>)
    ensures
        r.keys@ == Seq::<Seq<char>>::empty(),
{
    OpenMap { inner: v.start_map(), keys: Ghost(Seq::empty()) }
}

/// Relies on flexbuffers::VectorBuilder::start_vector: appends a vector.
#[verifier::external_body]
fn vector_start_vector<'b>(v: &'b mut VectorBuilder<'_>) -> VectorBuilder<'b> {
    v.start_vector()
}

/// Relies on flexbuffers::MapBuilder::start_map: adds a map under `key`,
/// with no key pushed into it yet.
#[verifier::external_body]
fn map_start_map<'b>(m: &'b mut OpenMap<'_>, key: &str) -> (r: OpenMap<'b>)
    requires
        no_nul(key@),
    ensures
        final(m).keys@ == old(m).keys@.push(key@),
        r.keys@ == Seq::<Seq<char>>::empty(),
{
    m.keys = Ghost(m.keys@.push(key@));
    OpenMap { inner: m.inner.start_map(key), keys: Ghost(Seq::empty()) }
}

/// Relies on flexbuffers::MapBuilder::start_vector: adds a vector under `key`.
#[verifier::external_body]
fn map_start_vector<'b>(m: &'b mut OpenMap<'_>, key: &str) -> (r: VectorBuilder<'b>)
    requires
        no_nul(key@),
    ensures
        final(m).keys@ == old(m).keys@.push(key@),
{
    m.keys = Ghost(m.keys@.push(key@));
    m.inner.start_vector(key)
}

/// Relies on flexbuffers::MapBuilder::end_map: closes the map, which the
/// builder writes sorted by key; its keys must be distinct.
#[verifier::external_body]
fn end_map(m: OpenMap<'_>)
    requires
        m.keys@.no_duplicates(),
{
    m.inner.end_map()
}

/// Relies on flexbuffers::VectorBuilder::end_vector: closes the vector.
#[verifier::external_body]
fn end_vector(v: VectorBuilder<'_>) {
    v.end_vector()
}

/// Writes the entries of a map into the open map `m`, each under its key.
fn encode_entries(es: &Vec<Entry>, m: &mut OpenMap<'_>)
    requires
        encodable(Val::Dict(view_entries(es@))),
        old(m).keys@ == Seq::<Seq<char>>::empty(),
    ensures
        final(m).keys@.no_duplicates(),
    decreases es, 0nat,
{
    proof {
        lemma_view_entries(es@);
    }
    let mut i: usize = 0;
    while i < es.len()
        invariant
            i <= es.len(),
            encodable(Val::Dict(view_entries(es@))),
            view_entries(es@).len() == es.len(),
            forall|j: int| 0 <= j < es.len() ==> #[trigger] view_entries(es@)[j] == (es@[j].key@, es@[j].value@),
            m.keys@.len() == i,
            forall|j: int| 0 <= j < i ==> #[trigger] m.keys@[j] == es@[j].key@,
        decreases es.len() - i,
    {
        proof {
            assert(decreases_to!(es@ => es@[i as int]));
            assert(decreases_to!(es@[i as int] => es@[i as int].value));
            assert(view_entries(es@)[i as int] == (es@[i as int].key@, es@[i as int].value@));
            lemma_entries_encodable(view_entries(es@));
            assert(no_nul(view_entries(es@)[i as int].0) && encodable(view_entries(es@)[i as int].1));
        }
        encode_in_map(m, es[i].key.as_str(), &es[i].value);
        i += 1;
    }
    proof {
        assert forall|a: int, b: int| 0 <= a < m.keys@.len() && 0 <= b < m.keys@.len() && a != b
            implies m.keys@[a] != m.keys@[b] by {
            assert(view_entries(es@)[a] == (es@[a].key@, es@[a].value@));
            assert(view_entries(es@)[b] == (es@[b].key@, es@[b].value@));
        }
    }
}

/// Writes the elements of a vector into the open vector `vb`, in order.
fn encode_elems(vs: &Vec<Value>, vb: &mut VectorBuilder<'_>)
    requires
        encodable(Val::Vector(view_values(vs@))),
    decreases vs, 0nat,
{
    proof {
        lemma_view_values(vs@);
    }
    let mut i: usize = 0;
    while i < vs.len()
        invariant
            i <= vs.len(),
            encodable(Val::Vector(view_values(vs@))),
            view_values(vs@).len() == vs.len(),
            forall|j: int| 0 <= j < vs.len() ==> #[trigger] view_values(vs@)[j] == vs@[j]@,
        decreases vs.len() - i,
    {
        proof {
            assert(decreases_to!(vs@ => vs@[i as int]));
            assert(view_values(vs@)[i as int] == vs@[i as int]@);
            lemma_all_encodable(view_values(vs@));
            assert(encodable(view_values(vs@)[i as int]));
        }
        encode_in_vector(vb, &vs[i]);
        i += 1;
    }
}

/// Writes `v` as the root of the buffer that `b` builds.
fn encode_root(b: &mut Builder, v: &Value)
    requires
        encodable(v@),
{
    match v {
        Value::Null => root_null(b),
        Value::Bool(x) => root_bool(b, *x),
        Value::Int(x) => root_int(b, *x),
        Value::UInt(x) => root_uint(b, *x),
        Value::Float(x) => root_float_bits(b, *x),
        Value::Str(s) => root_str(b, s.as_str()),
        Value::Blob(x) => root_blob(b, x.as_slice()),
        Value::Dict(es) => {
            let mut m = root_start_map(b);
            encode_entries(es, &mut m);
            end_map(m);
        },
        Value::Vector(vs) => {
            let mut vb = root_start_vector(b);
            encode_elems(vs, &mut vb);
            end_vector(vb);
        },
    }
}

/// Appends `v` to the open vector `vb`.
fn encode_in_vector(vb: &mut VectorBuilder<'_>, v: &Value)
    requires
        encodable(v@),
    decreases v, 1nat,
{
    match v {
        Value::Null => vector_null(vb),
        Value::Bool(x) => vector_bool(vb, *x),
        Value::Int(x) => vector_int(vb, *x),
        Value::UInt(x) => vector_uint(vb, *x),
        Value::Float(x) => vector_float_bits(vb, *x),
        Value::Str(s) => vector_str(vb, s.as_str()),
        Value::Blob(x) => vector_blob(vb, x.as_slice()),
        Value::Dict(es) => {
            proof {
                assert(decreases_to!(*v => (*v)->Dict_0));
            }
            let mut m = vector_start_map(vb);
            encode_entries(es, &mut m);
            end_map(m);
        },
        Value::Vector(vs) => {
            proof {
                assert(decreases_to!(*v => (*v)->Vector_0));
            }
            let mut inner = vector_start_vector(vb);
            encode_elems(vs, &mut inner);
            end_vector(inner);
        },
    }
}

/// Adds `v` under `key` to the open map `m`.
fn encode_in_map(m: &mut OpenMap<'_>, key: &str, v: &Value)
    requires
        no_nul(key@),
        encodable(v@),
    ensures
        final(m).keys@ == old(m).keys@.push(key@),
    decreases v, 1nat,
{
    match v {
        Value::Null => map_null(m, key),
        Value::Bool(x) => map_bool(m, key, *x),
        Value::Int(x) => map_int(m, key, *x),
        Value::UInt(x) => map_uint(m, key, *x),
        Value::Float(x) => map_float_bits(m, key, *x),
        Value::Str(s) => map_str(m, key, s.as_str()),
        Value::Blob(x) => map_blob(m, key, x.as_slice()),
        Value::Dict(es) => {
            proof {
                assert(decreases_to!(*v => (*v)->Dict_0));
            }
            let mut inner = map_start_map(m, key);
            encode_entries(es, &mut inner);
            end_map(inner);
        },
        Value::Vector(vs) => {
            proof {
                assert(decreases_to!(*v => (*v)->Vector_0));
            }
            let mut vb = map_start_vector(m, key);
            encode_elems(vs, &mut vb);
            end_vector(vb);
        },
    }
}

/// Whether `s` holds no NUL character.
fn free_of_nul(s: &String) -> (r: bool)
    ensures
        r == no_nul(s@),
{
    let t = s.as_str();
    let n = t.unicode_len();
    let mut i: usize = 0;
    while i < n
        invariant
            t@ == s@,
            n == s@.len(),
            i <= n,
            forall|j: int| 0 <= j < i ==> s@[j] != '\0',
        decreases n - i,
    {
        if t.get_char(i) == '\0' {
            return false;
        }
        i += 1;
    }
    true
}

/// Whether the binary format can hold `v` (see `encodable`).
pub fn is_encodable(v: &Value) -> (r: bool)
    ensures
        r == encodable(v@),
    decreases v,
{
    match v {
        Value::Dict(es) => {
            proof {
                lemma_view_entries(es@);
                lemma_entries_encodable(view_entries(es@));
            }
            let ghost ve = view_entries(es@);
            let mut i: usize = 0;
            while i < es.len()
                invariant
                    *v == Value::Dict(*es),
                    ve == view_entries(es@),
                    ve.len() == es.len(),
                    forall|j: int| 0 <= j < es.len() ==> #[trigger] ve[j] == (es@[j].key@, es@[j].value@),
                    entries_encodable(ve) <==> forall|j: int|
                        #![trigger ve[j]]
                        0 <= j < ve.len() ==> no_nul(ve[j].0) && encodable(ve[j].1),
                    i <= es.len(),
                    forall|j: int| 0 <= j < i ==> no_nul(#[trigger] es@[j].key@) && encodable(es@[j].value@),
                    forall|a: int, b: int| 0 <= a < b < i ==> es@[a].key@ != es@[b].key@,
                decreases es.len() - i,
            {
                proof {
                    assert(decreases_to!(*v => (*v)->Dict_0));
                    assert(decreases_to!((*v)->Dict_0 => es@));
                    assert(decreases_to!(es@ => es@[i as int]));
                    assert(decreases_to!(es@[i as int] => es@[i as int].value));
                    assert(ve[i as int] == (es@[i as int].key@, es@[i as int].value@));
                }
                if !free_of_nul(&es[i].key) || !is_encodable(&es[i].value) {
                    return false;
                }
                let mut j: usize = 0;
                while j < i
                    invariant
                        *v == Value::Dict(*es),
                        i < es.len(),
                        j <= i,
                        ve == view_entries(es@),
                        ve.len() == es.len(),
                        forall|k: int| 0 <= k < es.len() ==> #[trigger] ve[k] == (es@[k].key@, es@[k].value@),
                        forall|b: int| 0 <= b < j ==> es@[b].key@ != es@[i as int].key@,
                    decreases i - j,
                {
                    if es[j].key == es[i].key {
                        proof {
                            assert(ve[j as int].0 == ve[i as int].0);
                            assert(!keys_distinct(ve));
                        }
                        return false;
                    }
                    j += 1;
                }
                i += 1;
            }
            proof {
                assert(keys_distinct(ve));
            }
            true
        },
        Value::Vector(vs) => {
            proof {
                lemma_view_values(vs@);
                lemma_all_encodable(view_values(vs@));
            }
            let ghost vv = view_values(vs@);
            let mut i: usize = 0;
            while i < vs.len()
                invariant
                    *v == Value::Vector(*vs),
                    vv == view_values(vs@),
                    vv.len() == vs.len(),
                    forall|j: int| 0 <= j < vs.len() ==> #[trigger] vv[j] == vs@[j]@,
                    all_encodable(vv) <==> forall|j: int| 0 <= j < vv.len() ==> encodable(#[trigger] vv[j]),
                    i <= vs.len(),
                    forall|j: int| 0 <= j < i ==> encodable(#[trigger] vs@[j]@),
                decreases vs.len() - i,
            {
                proof {
                    assert(decreases_to!(*v => (*v)->Vector_0));
                    assert(decreases_to!((*v)->Vector_0 => vs@));
                    assert(decreases_to!(vs@ => vs@[i as int]));
                    assert(vv[i as int] == vs@[i as int]@);
                }
                if !is_encodable(&vs[i]) {
                    return false;
                }
                i += 1;
            }
            proof {
                assert(forall|j: int| 0 <= j < vv.len() ==> encodable(#[trigger] vv[j]));
            }
            true
        },
        _ => true,
    }
}

/// Writes `v` as a binary buffer: scalars in their direct encoding, maps
/// sorted by key. The bytes are the builder's own.
pub fn encode(v: &Value) -> (r: Vec<u8>)
    requires
        encodable(v@),
    ensures
        from_builder(r@),
{
    let mut b = new_builder();
    encode_root(&mut b, v);
    finish(&mut b)
}

/// Writes `v` as a binary buffer and reads it back: the value as the store
/// keeps it, with every map's keys distinct.
pub fn reencode(v: &Value) -> (r: Result<Value, DecodeError>)
    requires
        encodable(v@),
    ensures
        r matches Ok(w) ==> well_formed(w@),
{
    let bytes = encode(v);
    decode(bytes.as_slice())
}

} // verus!
