//! The document engine as the store sees it: map nodes holding values under
//! string keys, and text objects holding bytes. Each call into the engine
//! stands in one small wrapper whose contract says what the engine does.
use automerge::transaction::Transactable;
use automerge::{AutoCommit, AutomergeError, ObjId, ObjType, ReadDoc, ScalarValue, Value};
use vstd::prelude::*;
use vstd::string::StringSliceAdditionalSpecFns;
use vstd::utf8::*;
use crate::diff::spliced;

verus! {

/// The document of automerge, with its pending changes.
#[verifier::external_type_specification]
#[verifier::external_body]
pub struct ExAutoCommit(AutoCommit);

/// The id of an object of an automerge document.
#[verifier::external_type_specification]
#[verifier::external_body]
pub struct ExObjId(ObjId);

/// A failure reported by automerge.
#[verifier::external_type_specification]
#[verifier::external_body]
pub struct ExAutomergeError(AutomergeError);

/// Relies on the derived `Clone` of automerge's object ids: a copy of the id.
pub assume_specification[ <ObjId as Clone>::clone ](o: &ObjId) -> (r: ObjId)
    ensures
        r == *o,
;

/// A map node of the document: the root, or an object under its id.
pub enum Node {
    Root,
    Obj(ObjId),
}

/// A value read from a map node, as plain values.
pub enum Entry {
    Str(Seq<char>),
    Int(i64),
    Timestamp(i64),
    Bytes(Seq<u8>),
    Boolean(bool),
    /// A nested map object.
    MapObj(ObjId),
    /// A text object.
    TextObj(ObjId),
    /// Any other kind of value.
    Other,
}

/// A value read from a map node.
pub enum DocValue {
    Str(String),
    Int(i64),
    Timestamp(i64),
    Bytes(Vec<u8>),
    Boolean(bool),
    MapObj(ObjId),
    TextObj(ObjId),
    Other,
}

impl View for DocValue {
    type V = Entry;

    open spec fn view(&self) -> Entry {
        match self {
            DocValue::Str(s) => Entry::Str(s@),
            DocValue::Int(i) => Entry::Int(*i),
            DocValue::Timestamp(t) => Entry::Timestamp(*t),
            DocValue::Bytes(b) => Entry::Bytes(b@),
            DocValue::Boolean(b) => Entry::Boolean(*b),
            DocValue::MapObj(o) => Entry::MapObj(*o),
            DocValue::TextObj(o) => Entry::TextObj(*o),
            DocValue::Other => Entry::Other,
        }
    }
}

/// A scalar to be written into a map node.
pub enum Scalar {
    Str(String),
    Int(i64),
    Timestamp(i64),
    Bytes(Vec<u8>),
}

impl View for Scalar {
    type V = Entry;

    open spec fn view(&self) -> Entry {
        match self {
            Scalar::Str(s) => Entry::Str(s@),
            Scalar::Int(i) => Entry::Int(*i),
            Scalar::Timestamp(t) => Entry::Timestamp(*t),
            Scalar::Bytes(b) => Entry::Bytes(b@),
        }
    }
}

/// What the document holds: for each map node and key, the value that a read
/// there returns.
pub uninterp spec fn doc_entries(d: AutoCommit) -> Map<(Node, Seq<char>), Entry>;

/// What each text object of the document holds, as UTF-8 bytes; positions in
/// a text count bytes.
pub uninterp spec fn doc_texts(d: AutoCommit) -> Map<ObjId, Seq<u8>>;

/// `n` is the root or a map object that the document holds somewhere.
pub open spec fn is_live_map(d: AutoCommit, n: Node) -> bool {
    match n {
        Node::Root => true,
        Node::Obj(o) => exists|p: Node, k: Seq<char>|
            doc_entries(d).contains_key((p, k)) && #[trigger] doc_entries(d)[(p, k)] == Entry::MapObj(o),
    }
}

/// `o` appears nowhere in the document, neither as a node nor as a value.
pub open spec fn is_fresh(d: AutoCommit, o: ObjId) -> bool {
    &&& forall|k: Seq<char>| !#[trigger] doc_entries(d).contains_key((Node::Obj(o), k))
    &&& forall|p: Node, k: Seq<char>|
        doc_entries(d).contains_key((p, k)) ==> #[trigger] doc_entries(d)[(p, k)] != Entry::MapObj(o)
            && doc_entries(d)[(p, k)] != Entry::TextObj(o)
    &&& !doc_texts(d).contains_key(o)
}

/// Relies on `AutoCommit::new` of automerge: a document that holds nothing.
#[verifier::external_body]
pub fn new_document() -> (r: AutoCommit)
    ensures
        doc_entries(r) =~= Map::empty(),
        doc_texts(r) =~= Map::empty(),
{
    AutoCommit::new()
}

/// Relies on `ReadDoc::get` of automerge: the value under key `k` of the map
/// node `n`, or `None` where there is none; a read from a map that the
/// document holds succeeds. A map never holds itself: each object is made
/// inside the one that holds it.
#[verifier::external_body]
pub fn doc_get(d: &AutoCommit, n: &Node, k: &str) -> (r: Result<Option<DocValue>, AutomergeError>)
    requires
        is_live_map(*d, *n),
    ensures
        r is Ok,
        r matches Ok(v) ==> (v is None <==> !doc_entries(*d).contains_key((*n, k@))),
        r matches Ok(Some(v)) ==> doc_entries(*d)[(*n, k@)] == v@,
        r matches Ok(Some(DocValue::TextObj(o))) ==> doc_texts(*d).contains_key(o),
        r matches Ok(Some(DocValue::MapObj(o))) ==> *n != Node::Obj(o),
{
    let obj = match n { Node::Root => &automerge::ROOT, Node::Obj(o) => o };
    Ok(d.get(obj, k)?.map(|(v, id)| match v {
        Value::Object(ObjType::Map) => DocValue::MapObj(id),
        Value::Object(ObjType::Text) => DocValue::TextObj(id),
        Value::Object(_) => DocValue::Other,
        Value::Scalar(s) => match s.as_ref() {
            ScalarValue::Str(x) => DocValue::Str(x.to_string()),
            ScalarValue::Int(i) => DocValue::Int(*i),
            ScalarValue::Timestamp(t) => DocValue::Timestamp(*t),
            ScalarValue::Bytes(b) => DocValue::Bytes(b.clone()),
            ScalarValue::Boolean(b) => DocValue::Boolean(*b),
            _ => DocValue::Other,
        },
    }))
}

/// Relies on `ReadDoc::keys` of automerge: each key of the map object `o`,
/// once.
#[verifier::external_body]
pub fn doc_keys(d: &AutoCommit, o: &ObjId) -> (r: Vec<String>)
    requires
        is_live_map(*d, Node::Obj(*o)),
    ensures
        forall|i: int, j: int| 0 <= i < j < r@.len() ==> r@[i]@ != r@[j]@,
        forall|k: Seq<char>|
            doc_entries(*d).contains_key((Node::Obj(*o), k)) <==> exists|i: int|
                0 <= i < r@.len() && #[trigger] r@[i]@ == k,
{
    d.keys(o).collect()
}

/// Relies on `ReadDoc::text` of automerge: the characters of the text object
/// `o`, whose bytes are always whole characters.
#[verifier::external_body]
pub fn doc_text(d: &AutoCommit, o: &ObjId) -> (r: Result<String, AutomergeError>)
    requires
        doc_texts(*d).contains_key(*o),
    ensures
        r is Ok,
        encode_utf8(r->Ok_0@) == doc_texts(*d)[*o],
{
    d.text(o)
}

/// Relies on `Transactable::put` of automerge: writes the scalar `v` under
/// key `k` of the map node `n`, and nothing else.
#[verifier::external_body]
pub fn doc_put(d: &mut AutoCommit, n: &Node, k: &str, v: Scalar) -> (r: Result<(), AutomergeError>)
    requires
        is_live_map(*old(d), *n),
    ensures
        r is Ok,
        r is Ok ==> doc_entries(*final(d)) == doc_entries(*old(d)).insert((*n, k@), v@),
        r is Ok ==> doc_texts(*final(d)) == doc_texts(*old(d)),
{
    let obj = match n { Node::Root => &automerge::ROOT, Node::Obj(o) => o };
    let v = match v {
        Scalar::Str(s) => ScalarValue::Str(s.into()),
        Scalar::Int(i) => ScalarValue::Int(i),
        Scalar::Timestamp(t) => ScalarValue::Timestamp(t),
        Scalar::Bytes(b) => ScalarValue::Bytes(b),
    };
    d.put(obj, k, v)
}

/// Relies on `Transactable::put_object` of automerge: creates a new, empty
/// text object (`text`) or map object under key `k` of the map node `n`.
#[verifier::external_body]
pub fn doc_put_object(d: &mut AutoCommit, n: &Node, k: &str, text: bool) -> (r: Result<ObjId, AutomergeError>)
    requires
        is_live_map(*old(d), *n),
    ensures
        r is Ok,
        r matches Ok(o) ==> is_fresh(*old(d), o),
        r matches Ok(o) ==> doc_entries(*final(d)) == doc_entries(*old(d)).insert(
            (*n, k@),
            if text { Entry::TextObj(o) } else { Entry::MapObj(o) },
        ),
        r matches Ok(o) ==> doc_texts(*final(d)) == if text {
            doc_texts(*old(d)).insert(o, Seq::empty())
        } else {
            doc_texts(*old(d))
        },
{
    let obj = match n { Node::Root => &automerge::ROOT, Node::Obj(o) => o };
    d.put_object(obj, k, if text { ObjType::Text } else { ObjType::Map })
}

/// Relies on `Transactable::delete` of automerge: removes key `k` of the map
/// node `n`; removing a key that the map holds succeeds.
#[verifier::external_body]
pub fn doc_delete(d: &mut AutoCommit, n: &Node, k: &str) -> (r: Result<(), AutomergeError>)
    requires
        is_live_map(*old(d), *n),
    ensures
        doc_entries(*old(d)).contains_key((*n, k@)) ==> r is Ok,
        r is Ok ==> doc_entries(*final(d)) == doc_entries(*old(d)).remove((*n, k@)),
        r is Ok ==> doc_texts(*final(d)) == doc_texts(*old(d)),
{
    let obj = match n { Node::Root => &automerge::ROOT, Node::Obj(o) => o };
    d.delete(obj, k)
}

/// Relies on `Transactable::update_text` of automerge: the text object `o`
/// then holds `s`.
#[verifier::external_body]
pub fn doc_update_text(d: &mut AutoCommit, o: &ObjId, s: &str) -> (r: Result<(), AutomergeError>)
    requires
        doc_texts(*old(d)).contains_key(*o),
    ensures
        r is Ok,
        r is Ok ==> doc_texts(*final(d)) == doc_texts(*old(d)).insert(*o, s.spec_bytes()),
        r is Ok ==> doc_entries(*final(d)) == doc_entries(*old(d)),
{
    d.update_text(o, s)
}

/// Relies on `Transactable::splice_text` of automerge: deletes `del` bytes of
/// the text object `o` at `pos` and inserts `s` there; both ends of the
/// deleted run lie within the text and between characters.
#[verifier::external_body]
pub fn doc_splice_text(d: &mut AutoCommit, o: &ObjId, pos: usize, del: usize, s: &str) -> (r: Result<(), AutomergeError>)
    requires
        del <= isize::MAX,
        doc_texts(*old(d)).contains_key(*o),
        pos + del <= doc_texts(*old(d))[*o].len(),
        is_char_boundary(doc_texts(*old(d))[*o], pos as int),
        is_char_boundary(doc_texts(*old(d))[*o], pos + del),
    ensures
        r is Ok,
        doc_texts(*final(d)) == doc_texts(*old(d)).insert(
            *o,
            spliced(doc_texts(*old(d))[*o], pos as int, del as int, s.spec_bytes()),
        ),
        doc_entries(*final(d)) == doc_entries(*old(d)),
{
    d.splice_text(o, pos, del as isize, s)
}

/// Relies on the `Display` of automerge's errors: their message.
#[verifier::external_body]
pub fn error_text(e: &AutomergeError) -> String {
    e.to_string()
}

/// Relies on `std::str::from_utf8`: `b` as a string where it is valid UTF-8.
#[verifier::external_body]
pub fn utf8_str(b: &[u8]) -> (r: Option<&str>)
    ensures
        r is Some <==> valid_utf8(b@),
        r matches Some(s) ==> s.spec_bytes() == b@,
{
    std::str::from_utf8(b).ok()
}

/// Earliest time, in milliseconds since the Unix epoch, that a date can hold:
/// the start of the year -9999.
pub const MIN_TIMESTAMP_MS: i64 = -377_705_116_800_000;

/// Latest time, in milliseconds since the Unix epoch, that a date can hold:
/// the last millisecond of the year 9999.
pub const MAX_TIMESTAMP_MS: i64 = 253_402_300_799_999;

/// Relies on `time::OffsetDateTime::from_unix_timestamp_nanos`: a time in
/// milliseconds is a date exactly within the years -9999 to 9999.
#[verifier::external_body]
pub fn timestamp_in_range(ms: i64) -> (r: bool)
    ensures
        r == (MIN_TIMESTAMP_MS <= ms <= MAX_TIMESTAMP_MS),
{
    time::OffsetDateTime::from_unix_timestamp_nanos(ms as i128 * 1_000_000).is_ok()
}

} // verus!
