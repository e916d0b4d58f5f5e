//! Typed reads of document values, and the rebuilding of a project index from
//! a document.
use automerge::AutoCommit;
use vstd::prelude::*;
use vstd::utf8::*;
use crate::doc::{
    doc_entries, doc_get, doc_keys, doc_text, doc_texts, error_text, is_live_map, timestamp_in_range,
    DocValue, Entry, Node, MAX_TIMESTAMP_MS, MIN_TIMESTAMP_MS,
};
use crate::engine::{agrees, lemma_round_trip};
use crate::error::{fault_of, AuError, Fault};
use crate::item::{copy_bytes, Item, ItemView, Project};

verus! {

/// What a typed read of one key finds.
pub enum Read<T> {
    /// The key is not there.
    Absent,
    /// The key holds a value of the expected type.
    Present(T),
    /// The key holds a value of another type.
    WrongType,
}

/// The value under key `k` of node `n`, if any.
pub open spec fn entry_at(d: AutoCommit, n: Node, k: Seq<char>) -> Option<Entry> {
    if doc_entries(d).contains_key((n, k)) {
        Some(doc_entries(d)[(n, k)])
    } else {
        None
    }
}

/// Every text object of the document holds valid UTF-8.
pub open spec fn texts_valid(d: AutoCommit) -> bool {
    forall|o: automerge::ObjId| #[trigger] doc_texts(d).contains_key(o) ==> valid_utf8(doc_texts(d)[o])
}

pub open spec fn read_string(d: AutoCommit, n: Node, k: Seq<char>) -> Read<Seq<char>> {
    match entry_at(d, n, k) {
        None => Read::Absent,
        Some(Entry::Str(s)) => Read::Present(s),
        Some(_) => Read::WrongType,
    }
}

pub open spec fn read_bool(d: AutoCommit, n: Node, k: Seq<char>) -> Read<bool> {
    match entry_at(d, n, k) {
        None => Read::Absent,
        Some(Entry::Boolean(b)) => Read::Present(b),
        Some(_) => Read::WrongType,
    }
}

pub open spec fn read_i64(d: AutoCommit, n: Node, k: Seq<char>) -> Read<i64> {
    match entry_at(d, n, k) {
        None => Read::Absent,
        Some(Entry::Int(i)) => Read::Present(i),
        Some(_) => Read::WrongType,
    }
}

/// A timestamp must also be a date that can be represented.
pub open spec fn read_timestamp(d: AutoCommit, n: Node, k: Seq<char>) -> Read<i64> {
    match entry_at(d, n, k) {
        None => Read::Absent,
        Some(Entry::Timestamp(t)) => if MIN_TIMESTAMP_MS <= t <= MAX_TIMESTAMP_MS {
            Read::Present(t)
        } else {
            Read::WrongType
        },
        Some(_) => Read::WrongType,
    }
}

/// Content is a text object, read as its bytes, or a byte blob.
pub open spec fn read_content(d: AutoCommit, n: Node, k: Seq<char>) -> Read<Seq<u8>> {
    match entry_at(d, n, k) {
        None => Read::Absent,
        Some(Entry::TextObj(o)) => Read::Present(doc_texts(d)[o]),
        Some(Entry::Bytes(b)) => Read::Present(b),
        Some(_) => Read::WrongType,
    }
}

/// A read of `k` that ended as `expected` describes for `r`.
pub open spec fn read_result<T, U>(
    r: Result<Option<T>, AuError>,
    expected: Read<U>,
    k: Seq<char>,
    expected_type: Seq<char>,
    view: spec_fn(T) -> U,
) -> bool {
    match expected {
        Read::Absent => r matches Ok(None),
        Read::Present(v) => r matches Ok(Some(x)) && view(x) == v,
        Read::WrongType => r matches Err(AuError::IncorrectType(a, b)) && a@ == k && b@ == expected_type,
    }
}

/// A failure that the document engine reported.
pub open spec fn is_engine_error<T>(r: Result<T, AuError>) -> bool {
    r matches Err(AuError::Document(_))
}

pub(crate) fn engine_error(e: automerge::AutomergeError) -> (r: AuError)
    ensures
        r is Document,
{
    AuError::Document(error_text(&e))
}

fn type_error(k: &str, expected_type: &str) -> (r: AuError)
    ensures
        r matches AuError::IncorrectType(a, b) && a@ == k@ && b@ == expected_type@,
{
    AuError::IncorrectType(k.to_owned(), expected_type.to_owned())
}

/// The string under key `k` of node `n`: `None` where the key is absent, an
/// incorrect-type error where it holds something else.
pub fn decode_string(source: &AutoCommit, node: &Node, k: &str) -> (r: Result<Option<String>, AuError>)
    requires
        is_live_map(*source, *node),
    ensures
        read_result(r, read_string(*source, *node, k@), k@, "string"@, |s: String| s@),
{
    match doc_get(source, node, k) {
        Err(e) => Err(engine_error(e)),
        Ok(None) => Ok(None),
        Ok(Some(DocValue::Str(s))) => Ok(Some(s)),
        Ok(Some(_)) => Err(type_error(k, "string")),
    }
}

/// The boolean under key `k` of node `n`.
pub fn decode_bool(source: &AutoCommit, node: &Node, k: &str) -> (r: Result<Option<bool>, AuError>)
    requires
        is_live_map(*source, *node),
    ensures
        read_result(r, read_bool(*source, *node, k@), k@, "bool"@, |b: bool| b),
{
    match doc_get(source, node, k) {
        Err(e) => Err(engine_error(e)),
        Ok(None) => Ok(None),
        Ok(Some(DocValue::Boolean(b))) => Ok(Some(b)),
        Ok(Some(_)) => Err(type_error(k, "bool")),
    }
}

/// The signed integer under key `k` of node `n`.
pub fn decode_i64(source: &AutoCommit, node: &Node, k: &str) -> (r: Result<Option<i64>, AuError>)
    requires
        is_live_map(*source, *node),
    ensures
        read_result(r, read_i64(*source, *node, k@), k@, "i64"@, |i: i64| i),
{
    match doc_get(source, node, k) {
        Err(e) => Err(engine_error(e)),
        Ok(None) => Ok(None),
        Ok(Some(DocValue::Int(i))) => Ok(Some(i)),
        Ok(Some(_)) => Err(type_error(k, "i64")),
    }
}

/// The timestamp under key `k` of node `n`, in milliseconds since the Unix
/// epoch; one outside the range of dates is an incorrect-type error.
pub fn decode_timestamp(source: &AutoCommit, node: &Node, k: &str) -> (r: Result<Option<i64>, AuError>)
    requires
        is_live_map(*source, *node),
    ensures
        read_result(r, read_timestamp(*source, *node, k@), k@, "timestamp"@, |t: i64| t),
{
    match doc_get(source, node, k) {
        Err(e) => Err(engine_error(e)),
        Ok(None) => Ok(None),
        Ok(Some(DocValue::Timestamp(t))) => {
            if timestamp_in_range(t) {
                Ok(Some(t))
            } else {
                Err(type_error(k, "timestamp"))
            }
        },
        Ok(Some(_)) => Err(type_error(k, "timestamp")),
    }
}

/// The content under key `k` of node `n`: the bytes of a text object, or a
/// byte blob; anything else is an incorrect-type error.
pub fn decode_content(source: &AutoCommit, node: &Node, k: &str) -> (r: Result<Option<Vec<u8>>, AuError>)
    requires
        is_live_map(*source, *node),
    ensures
        read_result(r, read_content(*source, *node, k@), k@, "text"@, |b: Vec<u8>| b@),
{
    match doc_get(source, node, k) {
        Err(e) => Err(engine_error(e)),
        Ok(None) => Ok(None),
        Ok(Some(DocValue::TextObj(o))) => {
            match doc_text(source, &o) {
                Ok(s) => Ok(Some(copy_bytes(s.as_str().as_bytes()))),
                Err(_) => Err(type_error(k, "text")),
            }
        },
        Ok(Some(DocValue::Bytes(b))) => Ok(Some(b)),
        Ok(Some(_)) => Err(type_error(k, "text")),
    }
}

/// A missing key.
pub open spec fn no_key(k: Seq<char>) -> Fault {
    Fault::NoSuchKey(k)
}

/// A value of the wrong type.
pub open spec fn wrong_type(k: Seq<char>, t: Seq<char>) -> Fault {
    Fault::IncorrectType(k, t)
}

/// An error raised inside `k`.
pub open spec fn nested(k: Seq<char>, inner: Fault) -> Fault {
    Fault::Nested(k, Box::new(inner))
}

/// An optional field: present or not.
pub open spec fn optional<T>(r: Read<T>) -> Option<T> {
    match r {
        Read::Present(v) => Some(v),
        _ => None,
    }
}

/// The item that node `n` describes under the id `id`, or the error of the
/// error of the first field that fails, the fields taken in the order `at`, `content`,
/// `content_type`, `parent`, `class`, `rank`. The first three are required;
/// an absent rank is 0.
pub open spec fn item_fields(d: AutoCommit, n: Node, id: Seq<char>) -> Result<ItemView, Fault> {
    match read_timestamp(d, n, "at"@) {
        Read::Absent => Err(no_key("at"@)),
        Read::WrongType => Err(wrong_type("at"@, "timestamp"@)),
        Read::Present(at) => match read_content(d, n, "content"@) {
            Read::Absent => Err(no_key("content"@)),
            Read::WrongType => Err(wrong_type("content"@, "text"@)),
            Read::Present(content) => match read_string(d, n, "content_type"@) {
                Read::Absent => Err(no_key("content_type"@)),
                Read::WrongType => Err(wrong_type("content_type"@, "string"@)),
                Read::Present(content_type) => {
                    let parent = read_string(d, n, "parent"@);
                    let class = read_string(d, n, "class"@);
                    let rank = read_i64(d, n, "rank"@);
                    if parent is WrongType {
                        Err(wrong_type("parent"@, "string"@))
                    } else if class is WrongType {
                        Err(wrong_type("class"@, "string"@))
                    } else if rank is WrongType {
                        Err(wrong_type("rank"@, "i64"@))
                    } else {
                        Ok(
                            ItemView {
                                id,
                                at,
                                class: optional(class),
                                content_type,
                                content,
                                rank: match rank {
                                    Read::Present(r) => r,
                                    _ => 0,
                                },
                                parent: optional(parent),
                            },
                        )
                    }
                },
            },
        },
    }
}

/// What decoding the key `k` of node `n` as an item gives: nothing where the
/// key is absent, the item where it holds a map whose fields decode, and
/// otherwise the error.
pub open spec fn decoded_item(d: AutoCommit, n: Node, k: Seq<char>) -> Result<Option<ItemView>, Fault> {
    match entry_at(d, n, k) {
        None => Ok(None),
        Some(Entry::MapObj(o)) => match item_fields(d, Node::Obj(o), k) {
            Ok(v) => Ok(Some(v)),
            Err(m) => Err(nested(k, m)),
        },
        Some(_) => Err(wrong_type(k, "map"@)),
    }
}

proof fn lemma_live_map_of_entry(d: AutoCommit, n: Node, k: Seq<char>, o: automerge::ObjId)
    requires
        doc_entries(d).contains_key((n, k)),
        doc_entries(d)[(n, k)] == Entry::MapObj(o),
    ensures
        is_live_map(d, Node::Obj(o)),
{
    assert(doc_entries(d).contains_key((n, k)) && doc_entries(d)[(n, k)] == Entry::MapObj(o));
}

fn decode_item_inner(source: &AutoCommit, node: &Node, k: &str) -> (r: Result<Item, AuError>)
    requires
        is_live_map(*source, *node),
    ensures
        r matches Ok(it) ==> it.id@ == k@,
        match item_fields(
            *source,
            *node,
            k@,
        ) {
            Ok(v) => r matches Ok(it) && it@ == v,
            Err(m) => r matches Err(e) && fault_of(e) == m,
        },
{
    proof {
        reveal_strlit("at");
        reveal_strlit("content");
        reveal_strlit("content_type");
    }
    let at = match decode_timestamp(source, node, "at") {
        Err(e) => return Err(e),
        Ok(None) => return Err(AuError::NoSuchKey("at".to_owned())),
        Ok(Some(t)) => t,
    };
    let content = match decode_content(source, node, "content") {
        Err(e) => return Err(e),
        Ok(None) => return Err(AuError::NoSuchKey("content".to_owned())),
        Ok(Some(c)) => c,
    };
    let content_type = match decode_string(source, node, "content_type") {
        Err(e) => return Err(e),
        Ok(None) => return Err(AuError::NoSuchKey("content_type".to_owned())),
        Ok(Some(c)) => c,
    };
    let parent = match decode_string(source, node, "parent") {
        Err(e) => return Err(e),
        Ok(p) => p,
    };
    let class = match decode_string(source, node, "class") {
        Err(e) => return Err(e),
        Ok(c) => c,
    };
    let rank = match decode_i64(source, node, "rank") {
        Err(e) => return Err(e),
        Ok(Some(r)) => r,
        Ok(None) => 0,
    };
    Ok(Item { id: k.to_owned(), at, class, content_type, content, rank, parent })
}

/// Decodes the key `k` of node `items_node` as an item: `None` where the key
/// is absent, an incorrect-type error where it holds no map, and an error
/// nested under `k` where a field of the item fails.
pub fn decode_item(source: &AutoCommit, items_node: &Node, k: &str) -> (r: Result<Option<Item>, AuError>)
    requires
        is_live_map(*source, *items_node),
    ensures
        r matches Ok(Some(it)) ==> it.id@ == k@,
        match decoded_item(
            *source,
            *items_node,
            k@,
        ) {
            Ok(None) => r matches Ok(None),
            Ok(Some(v)) => r matches Ok(Some(it)) && it@ == v,
            Err(m) => r matches Err(e) && fault_of(e) == m,
        },
{
    match doc_get(source, items_node, k) {
        Err(e) => Err(engine_error(e)),
        Ok(None) => Ok(None),
        Ok(Some(DocValue::MapObj(o))) => {
            let n = Node::Obj(o);
            proof {
                lemma_live_map_of_entry(*source, *items_node, k@, o);
            }
            match decode_item_inner(source, &n, k) {
                Ok(it) => Ok(Some(it)),
                Err(e) => Err(AuError::nested(k, e)),
            }
        },
        Ok(Some(_)) => Err(type_error(k, "map")),
    }
}

/// Rebuilds a project index from a document: every key of the `items` map
/// becomes an item, or the whole rebuild fails with the error of a key, nested
/// under `items`.
pub fn decode_project(source: &AutoCommit) -> (r: Result<Project, AuError>)
    ensures
        r matches Ok(p) ==> p.wf(),
        forall|m: Map<Seq<char>, ItemView>| #[trigger] agrees(*source, m) ==> (r matches Ok(p) && p@ == m),
        match entry_at(*source, Node::Root, "items"@) {
            None => r matches Err(e) && fault_of(e) == no_key("items"@),
            Some(Entry::MapObj(o)) => {
                &&& r is Ok <==> forall|k: Seq<char>|
                    #[trigger] doc_entries(*source).contains_key((Node::Obj(o), k)) ==> decoded_item(
                        *source,
                        Node::Obj(o),
                        k,
                    ) is Ok
                &&& r matches Ok(p) ==> forall|k: Seq<char>|
                    (#[trigger] p@.contains_key(k) <==> doc_entries(*source).contains_key(
                        (Node::Obj(o), k),
                    )) && (p@.contains_key(k) ==> decoded_item(*source, Node::Obj(o), k) == Ok::<
                        Option<ItemView>,
                        Fault,
                    >(Some(p@[k])))
                &&& r matches Err(e) ==> exists|k: Seq<char>|
                    #[trigger] doc_entries(*source).contains_key((Node::Obj(o), k)) && (decoded_item(
                        *source,
                        Node::Obj(o),
                        k,
                    ) matches Err(m) && fault_of(e) == nested("items"@, m))
            },
            Some(_) => r matches Err(e) && fault_of(e) == wrong_type("items"@, "map"@),
        },
{
    proof {
        reveal_strlit("items");
    }
    let o = match doc_get(source, &Node::Root, "items") {
        Ok(Some(DocValue::MapObj(o))) => o,
        Ok(Some(_)) => return Err(type_error("items", "map")),
        Ok(None) => return Err(AuError::NoSuchKey("items".to_owned())),
        Err(e) => return Err(engine_error(e)),
    };
    let keys = doc_keys(source, &o);
    let n = Node::Obj(o);
    proof {
        lemma_live_map_of_entry(*source, Node::Root, "items"@, o);
    }
    let mut p = Project::new();
    let mut i: usize = 0;
    while i < keys.len()
        invariant
            n == Node::Obj(o),
            entry_at(*source, Node::Root, "items"@) == Some(Entry::MapObj(o)),
            is_live_map(*source, n),
            i <= keys@.len(),
            forall|a: int, b: int| 0 <= a < b < keys@.len() ==> keys@[a]@ != keys@[b]@,
            forall|k: Seq<char>|
                doc_entries(*source).contains_key((Node::Obj(o), k)) <==> exists|j: int|
                    0 <= j < keys@.len() && #[trigger] keys@[j]@ == k,
            p.wf(),
            forall|k: Seq<char>|
                #[trigger] p@.contains_key(k) <==> exists|j: int| 0 <= j < i && keys@[j]@ == k,
            forall|k: Seq<char>|
                #[trigger] p@.contains_key(k) ==> decoded_item(*source, n, k) == Ok::<
                    Option<ItemView>,
                    Fault,
                >(Some(p@[k])),
        decreases keys@.len() - i,
    {
        let k = &keys[i];
        proof {
            assert(doc_entries(*source).contains_key((Node::Obj(o), keys@[i as int]@)));
        }
        match decode_item(source, &n, k.as_str()) {
            Err(e) => {
                let r = AuError::nested("items", e);
                proof {
                    {
                        let kk = keys@[i as int]@;
                        assert(doc_entries(*source).contains_key((Node::Obj(o), kk)));
                        assert(decoded_item(*source, Node::Obj(o), kk) is Err);
                        assert(fault_of(r) == nested("items"@, fault_of(e)));
                    }
                }
                return Err(r);
            },
            Ok(None) => {
                proof {
                    {
                        assert(doc_entries(*source).contains_key((Node::Obj(o), keys@[i as int]@)));
                    }
                }
                return Err(AuError::NoSuchKey(k.clone()));
            },
            Ok(Some(it)) => {
                proof {
                    if p@.contains_key(it.id@) {
                        let j = choose|j: int| 0 <= j < i && keys@[j]@ == it.id@;
                        assert(keys@[j]@ != keys@[i as int]@);
                    }
                }
                let ghost before = p@;
                let ghost v = it@;
                p.insert_item(it);
                proof {
                    assert forall|k2: Seq<char>| #[trigger] p@.contains_key(k2) <==> exists|j: int|
                        0 <= j < i + 1 && keys@[j]@ == k2 by {
                        if k2 == keys@[i as int]@ {
                        } else if before.contains_key(k2) {
                            let j = choose|j: int| 0 <= j < i && keys@[j]@ == k2;
                        } else if exists|j: int| 0 <= j < i + 1 && keys@[j]@ == k2 {
                            let j = choose|j: int| 0 <= j < i + 1 && keys@[j]@ == k2;
                            assert(j < i);
                        }
                    }
                }
            },
        }
        i += 1;
    }
    proof {
        assert forall|k: Seq<char>|
            (#[trigger] p@.contains_key(k) <==> doc_entries(*source).contains_key((Node::Obj(o), k))) by {
            if doc_entries(*source).contains_key((Node::Obj(o), k)) {
                let j = choose|j: int| 0 <= j < keys@.len() && #[trigger] keys@[j]@ == k;
            }
        }
        {
            assert forall|k: Seq<char>|
                #[trigger] doc_entries(*source).contains_key((Node::Obj(o), k)) implies decoded_item(
                *source,
                Node::Obj(o),
                k,
            ) is Ok by {
                assert(p@.contains_key(k));
            }
        }
        assert forall|m: Map<Seq<char>, ItemView>| #[trigger] agrees(*source, m) implies p@ == m by {
            lemma_round_trip(*source, m);
            assert forall|k: Seq<char>| p@.contains_key(k) implies m.contains_key(k) && p@[k] == m[k] by {
                assert(doc_entries(*source).contains_key((Node::Obj(o), k)));
            }
            assert(p@ =~= m);
        }
    }
    Ok(p)
}

} // verus!
