//! The operations that change the tree: insert, delete and update of an item,
//! each written to the document and to the index. Where the document agrees
//! with the index before a successful operation, it agrees after it.
use automerge::{AutoCommit, ObjId};
use vstd::prelude::*;
use vstd::string::StringSliceAdditionalSpecFns;
use vstd::utf8::*;
use crate::decode::{
    decoded_item, engine_error, entry_at, is_engine_error, item_fields, optional, read_content,
    read_i64, read_string, read_timestamp, texts_valid, Read,
};
use crate::doc::{
    doc_delete, doc_entries, doc_get, new_document, doc_put, doc_put_object, doc_texts, doc_update_text,
    is_fresh, is_live_map, timestamp_in_range, utf8_str, DocValue, Entry, Node, Scalar, MAX_TIMESTAMP_MS,
    MIN_TIMESTAMP_MS,
};
use crate::error::{fault_of, AuError, Fault};
use crate::diff::plan_text_splice;
use crate::doc::{doc_splice_text, doc_text};
use crate::item::{
    copy_bytes, is_text_content_type, is_text_type, same_bytes, same_text, walk, Item, ItemUpdate, ItemView,
    Project, UpdateView, WalkEnd,
};

verus! {

/// The optional string field `o` as a document value.
pub open spec fn opt_entry(o: Option<Seq<char>>) -> Option<Entry> {
    match o {
        Some(s) => Some(Entry::Str(s)),
        None => None,
    }
}

/// Node `n` holds the content `c`: as a text object or as a byte blob.
pub open spec fn holds_content(d: AutoCommit, n: ObjId, c: Seq<u8>) -> bool {
    match entry_at(d, Node::Obj(n), "content"@) {
        Some(Entry::TextObj(t)) => doc_texts(d).contains_key(t) && doc_texts(d)[t] == c,
        Some(Entry::Bytes(b)) => b == c,
        _ => false,
    }
}

/// The text object that holds the content of node `n`, if it is one.
pub open spec fn content_text(d: AutoCommit, n: ObjId) -> Option<ObjId> {
    match entry_at(d, Node::Obj(n), "content"@) {
        Some(Entry::TextObj(t)) => Some(t),
        _ => None,
    }
}

/// Node `n` of the document holds the fields of the item `it`.
pub open spec fn holds_item(d: AutoCommit, n: ObjId, it: ItemView) -> bool {
    &&& entry_at(d, Node::Obj(n), "at"@) == Some(Entry::Timestamp(it.at))
    &&& entry_at(d, Node::Obj(n), "content_type"@) == Some(Entry::Str(it.content_type))
    &&& entry_at(d, Node::Obj(n), "rank"@) == Some(Entry::Int(it.rank))
    &&& entry_at(d, Node::Obj(n), "parent"@) == opt_entry(it.parent)
    &&& entry_at(d, Node::Obj(n), "class"@) == opt_entry(it.class)
    &&& holds_content(d, n, it.content)
}

/// Node `n` holds the content `c` in the storage that the content type `ct`
/// selects: a text object for `text/...`, a byte blob otherwise.
pub open spec fn holds_typed_content(d: AutoCommit, n: ObjId, ct: Seq<char>, c: Seq<u8>) -> bool {
    if is_text_type(ct) {
        entry_at(d, Node::Obj(n), "content"@) matches Some(Entry::TextObj(t)) && doc_texts(d).contains_key(t)
            && doc_texts(d)[t] == c
    } else {
        entry_at(d, Node::Obj(n), "content"@) == Some(Entry::Bytes(c))
    }
}

/// The node of the item `id` in the `items` map of the document, if any.
pub open spec fn node_of(d: AutoCommit, id: Seq<char>) -> Option<ObjId> {
    match entry_at(d, Node::Root, "items"@) {
        Some(Entry::MapObj(o)) => item_node(d, o, id),
        _ => None,
    }
}

/// What the content edit `(ct, c)` of the item `it` does to its node `n`:
/// the content type is written only where it changes; content equal to the
/// old is left alone, and new content is stored as `ct` selects, a text
/// object keeping its identity.
pub open spec fn content_effect(
    d0: AutoCommit,
    d1: AutoCommit,
    n: ObjId,
    it: ItemView,
    ct: Seq<char>,
    c: Seq<u8>,
) -> bool {
    &&& entry_at(d1, Node::Obj(n), "content_type"@) == if ct == it.content_type {
        entry_at(d0, Node::Obj(n), "content_type"@)
    } else {
        Some(Entry::Str(ct))
    }
    &&& c == it.content ==> entry_at(d1, Node::Obj(n), "content"@) == entry_at(
        d0,
        Node::Obj(n),
        "content"@,
    ) && doc_texts(d1) == doc_texts(d0)
    &&& c != it.content ==> holds_typed_content(d1, n, ct, c)
    &&& c != it.content && is_text_type(ct) && content_text(d0, n) is Some ==> content_text(d1, n)
        == content_text(d0, n)
}

/// The node under key `k` of the map `o`, if it is a map.
pub open spec fn item_node(d: AutoCommit, o: ObjId, k: Seq<char>) -> Option<ObjId> {
    match entry_at(d, Node::Obj(o), k) {
        Some(Entry::MapObj(n)) => Some(n),
        _ => None,
    }
}

/// The map `o` of the document holds exactly the items of `m`, each in a
/// node of its own.
pub open spec fn agrees_at(d: AutoCommit, o: ObjId, m: Map<Seq<char>, ItemView>) -> bool {
    &&& texts_valid(d)
    &&& forall|k: Seq<char>| #[trigger] doc_entries(d).contains_key((Node::Obj(o), k)) <==> m.contains_key(k)
    &&& forall|k: Seq<char>| #[trigger] m.contains_key(k) ==> {
        &&& item_node(d, o, k) matches Some(n) && n != o && holds_item(d, n, m[k])
        &&& m[k].id == k
        &&& MIN_TIMESTAMP_MS <= m[k].at <= MAX_TIMESTAMP_MS
    }
    &&& forall|k1: Seq<char>, k2: Seq<char>|
        #[trigger] m.contains_key(k1) && #[trigger] m.contains_key(k2) && k1 != k2 ==> {
            &&& item_node(d, o, k1) != item_node(d, o, k2)
            &&& content_text(d, item_node(d, o, k1)->Some_0) is Some ==> content_text(
                d,
                item_node(d, o, k1)->Some_0,
            ) != content_text(d, item_node(d, o, k2)->Some_0)
        }
}

/// The document holds, under `items`, exactly the items of the index `m`.
pub open spec fn agrees(d: AutoCommit, m: Map<Seq<char>, ItemView>) -> bool {
    entry_at(d, Node::Root, "items"@) matches Some(Entry::MapObj(o)) && agrees_at(d, o, m)
}

proof fn lemma_holds_item_decodes(d: AutoCommit, n: ObjId, it: ItemView)
    requires
        holds_item(d, n, it),
        MIN_TIMESTAMP_MS <= it.at <= MAX_TIMESTAMP_MS,
    ensures
        item_fields(d, Node::Obj(n), it.id) == Ok::<ItemView, Fault>(it),
{
    let node = Node::Obj(n);
    assert(read_timestamp(d, node, "at"@) == Read::Present(it.at));
    assert(read_content(d, node, "content"@) == Read::Present(it.content));
    assert(read_string(d, node, "content_type"@) == Read::Present(it.content_type));
    assert(optional(read_string(d, node, "parent"@)) == it.parent);
    assert(optional(read_string(d, node, "class"@)) == it.class);
    assert(read_i64(d, node, "rank"@) == Read::Present(it.rank));
}

/// Where the document agrees with the index `m`, every key of its `items`
/// map decodes to the item that `m` holds under it, and no other key is
/// there.
pub proof fn lemma_round_trip(d: AutoCommit, m: Map<Seq<char>, ItemView>)
    requires
        agrees(d, m),
    ensures
        entry_at(d, Node::Root, "items"@) matches Some(Entry::MapObj(o)) && {
            &&& texts_valid(d)
            &&& forall|k: Seq<char>|
                #[trigger] doc_entries(d).contains_key((Node::Obj(o), k)) <==> m.contains_key(k)
            &&& forall|k: Seq<char>|
                #[trigger] m.contains_key(k) ==> decoded_item(d, Node::Obj(o), k) == Ok::<
                    Option<ItemView>,
                    Fault,
                >(Some(m[k]))
        },
{
    let o = entry_at(d, Node::Root, "items"@)->Some_0->MapObj_0;
    assert forall|k: Seq<char>| #[trigger] m.contains_key(k) implies decoded_item(
        d,
        Node::Obj(o),
        k,
    ) == Ok::<Option<ItemView>, Fault>(Some(m[k])) by {
        let n = item_node(d, o, k)->Some_0;
        lemma_holds_item_decodes(d, n, m[k]);
    }
}

/// `d2` holds what `d1` holds, but under the keys of node `n`, under key
/// `k` of the map `o`, and in the text object `t`.
pub open spec fn same_elsewhere(
    d1: AutoCommit,
    d2: AutoCommit,
    n: ObjId,
    o: ObjId,
    k: Seq<char>,
    t: Option<ObjId>,
) -> bool {
    &&& forall|p: Node, f: Seq<char>|
        p != Node::Obj(n) && (p, f) != (Node::Obj(o), k) ==> #[trigger] entry_at(d2, p, f) == entry_at(
            d1,
            p,
            f,
        )
    &&& forall|x: ObjId|
        Some(x) != t ==> (#[trigger] doc_texts(d2).contains_key(x) == doc_texts(d1).contains_key(x))
            && (doc_texts(d1).contains_key(x) ==> doc_texts(d2)[x] == doc_texts(d1)[x])
}

proof fn lemma_other_item_kept(
    d1: AutoCommit,
    d2: AutoCommit,
    n: ObjId,
    o: ObjId,
    k: Seq<char>,
    t: Option<ObjId>,
    nk: ObjId,
    it: ItemView,
)
    requires
        same_elsewhere(d1, d2, n, o, k, t),
        holds_item(d1, nk, it),
        nk != n,
        nk != o,
        t matches Some(tt) ==> content_text(d1, nk) != Some(tt),
    ensures
        holds_item(d2, nk, it),
        content_text(d2, nk) == content_text(d1, nk),
{
    let node = Node::Obj(nk);
    assert(entry_at(d2, node, "at"@) == entry_at(d1, node, "at"@));
    assert(entry_at(d2, node, "content_type"@) == entry_at(d1, node, "content_type"@));
    assert(entry_at(d2, node, "rank"@) == entry_at(d1, node, "rank"@));
    assert(entry_at(d2, node, "parent"@) == entry_at(d1, node, "parent"@));
    assert(entry_at(d2, node, "class"@) == entry_at(d1, node, "class"@));
    assert(entry_at(d2, node, "content"@) == entry_at(d1, node, "content"@));
    if let Some(Entry::TextObj(tk)) = entry_at(d1, node, "content"@) {
        assert(doc_texts(d2).contains_key(tk) == doc_texts(d1).contains_key(tk));
    }
}

/// A new item written to a fresh node `n` under key `it.id` of the map `o`,
/// its content in the fresh text object `t` if any, keeps the document in
/// agreement with the index that gained the item.
proof fn lemma_insert_agrees(
    d1: AutoCommit,
    d2: AutoCommit,
    o: ObjId,
    n: ObjId,
    t: Option<ObjId>,
    m: Map<Seq<char>, ItemView>,
    it: ItemView,
)
    requires
        agrees_at(d1, o, m),
        !m.contains_key(it.id),
        MIN_TIMESTAMP_MS <= it.at <= MAX_TIMESTAMP_MS,
        is_fresh(d1, n),
        n != o,
        same_elsewhere(d1, d2, n, o, it.id, t),
        entry_at(d2, Node::Obj(o), it.id) == Some(Entry::MapObj(n)),
        holds_item(d2, n, it),
        content_text(d2, n) == t,
        t matches Some(tt) ==> !doc_texts(d1).contains_key(tt),
        texts_valid(d2),
    ensures
        agrees_at(d2, o, m.insert(it.id, it)),
{
    let m2 = m.insert(it.id, it);
    assert forall|k: Seq<char>| #[trigger] doc_entries(d2).contains_key((Node::Obj(o), k)) <==> m2.contains_key(k) by {
        if k != it.id {
            assert(entry_at(d2, Node::Obj(o), k) == entry_at(d1, Node::Obj(o), k));
        }
    }
    assert forall|k: Seq<char>| #[trigger] m.contains_key(k) implies item_node(d2, o, k) == item_node(d1, o, k) && content_text(d2, item_node(d1, o, k)->Some_0) == content_text(d1, item_node(d1, o, k)->Some_0) && holds_item(d2, item_node(d1, o, k)->Some_0, m[k]) by {
        assert(k != it.id);
        assert(entry_at(d2, Node::Obj(o), k) == entry_at(d1, Node::Obj(o), k));
        let nk = item_node(d1, o, k)->Some_0;
        assert(doc_entries(d1).contains_key((Node::Obj(o), k)));
        assert(doc_entries(d1)[(Node::Obj(o), k)] == Entry::MapObj(nk));
        if let Some(tt) = t {
            if content_text(d1, nk) == Some(tt) {
                assert(doc_texts(d1).contains_key(tt));
            }
        }
        lemma_other_item_kept(d1, d2, n, o, it.id, t, nk, m[k]);
    }
    assert forall|k: Seq<char>| #[trigger] m2.contains_key(k) implies {
        &&& item_node(d2, o, k) matches Some(nn) && nn != o && holds_item(d2, nn, m2[k])
        &&& m2[k].id == k
        &&& MIN_TIMESTAMP_MS <= m2[k].at <= MAX_TIMESTAMP_MS
    } by {
        if k != it.id {
            assert(m.contains_key(k));
        }
    }
    assert forall|k1: Seq<char>, k2: Seq<char>|
        #[trigger] m2.contains_key(k1) && #[trigger] m2.contains_key(k2) && k1 != k2 implies {
            &&& item_node(d2, o, k1) != item_node(d2, o, k2)
            &&& content_text(d2, item_node(d2, o, k1)->Some_0) is Some ==> content_text(
                d2,
                item_node(d2, o, k1)->Some_0,
            ) != content_text(d2, item_node(d2, o, k2)->Some_0)
        } by {
        if k1 != it.id && k2 != it.id {
            assert(m.contains_key(k1) && m.contains_key(k2));
        } else {
            let k = if k1 == it.id { k2 } else { k1 };
            assert(m.contains_key(k));
            let nk = item_node(d1, o, k)->Some_0;
            assert(doc_entries(d1).contains_key((Node::Obj(o), k)));
            assert(doc_entries(d1)[(Node::Obj(o), k)] == Entry::MapObj(nk));
            assert(nk != n);
            if let Some(tt) = t {
                if content_text(d1, nk) == Some(tt) {
                    assert(doc_texts(d1).contains_key(tt));
                }
            }
        }
    }
}

/// The keys of an item node are distinct.
proof fn lemma_field_names()
    ensures
        "at"@ != "content_type"@,
        "at"@ != "rank"@,
        "at"@ != "content"@,
        "at"@ != "parent"@,
        "at"@ != "class"@,
        "content_type"@ != "rank"@,
        "content_type"@ != "content"@,
        "content_type"@ != "parent"@,
        "content_type"@ != "class"@,
        "rank"@ != "content"@,
        "rank"@ != "parent"@,
        "rank"@ != "class"@,
        "content"@ != "parent"@,
        "content"@ != "class"@,
        "parent"@ != "class"@,
{
    reveal_strlit("at");
    reveal_strlit("content");
    reveal_strlit("content_type");
    reveal_strlit("rank");
    reveal_strlit("parent");
    reveal_strlit("class");
    assert("content"@[0] != "rank"@[0]);
    assert("content"@[0] != "parent"@[0]);
    assert("content_type"@[0] != "rank"@[0]);
    assert("content_type"@[0] != "parent"@[0]);
    assert("content"@[1] != "class"@[1]);
    assert("rank"@[0] != "class"@[0]);
    assert("content_type"@.len() != "content"@.len());
}

proof fn lemma_live(d: AutoCommit, p: Node, k: Seq<char>, n: ObjId)
    requires
        entry_at(d, p, k) == Some(Entry::MapObj(n)),
    ensures
        is_live_map(d, Node::Obj(n)),
{
    assert(doc_entries(d).contains_key((p, k)) && doc_entries(d)[(p, k)] == Entry::MapObj(n));
}

/// Why the edit `e` of the item `it` (with id `id`, in the index `m`) is
/// refused, if it is: a new parent must lead to a root without meeting the
/// item, and new text content must be UTF-8.
pub open spec fn edit_error(m: Map<Seq<char>, ItemView>, id: Seq<char>, it: ItemView, e: UpdateView) -> Option<Fault> {
    match e {
        UpdateView::Parent(Some(p)) => match walk(m, p, id, m.dom().len()) {
            WalkEnd::Root => None,
            WalkEnd::Missing(k) => Some(Fault::NoSuchKey(k)),
            WalkEnd::Cycle => Some(Fault::InvalidOperation(p, "has a cycle"@)),
        },
        UpdateView::Content(ct, c) => if c != it.content && is_text_type(ct) && !valid_utf8(c) {
            Some(Fault::InvalidField("content"@, "not valid UTF-8"@))
        } else {
            None
        },
        _ => None,
    }
}

/// The item `it` after the edit `e`.
pub open spec fn apply_edit(it: ItemView, e: UpdateView) -> ItemView {
    match e {
        UpdateView::Parent(p) => ItemView { parent: p, ..it },
        UpdateView::Rank(r) => ItemView { rank: r, ..it },
        UpdateView::Class(c) => ItemView { class: c, ..it },
        UpdateView::Content(ct, c) => ItemView { content_type: ct, content: c, ..it },
    }
}

/// The item `it` after the edits `es` in order, or the error of the first
/// edit refused.
pub open spec fn edits_outcome(
    m: Map<Seq<char>, ItemView>,
    id: Seq<char>,
    it: ItemView,
    es: Seq<UpdateView>,
) -> Result<ItemView, Fault>
    decreases es.len(),
{
    if es.len() == 0 {
        Ok(it)
    } else {
        match edit_error(m, id, it, es[0]) {
            Some(f) => Err(f),
            None => edits_outcome(m, id, apply_edit(it, es[0]), es.drop_first()),
        }
    }
}

/// The item `it` after the edits of `es` that come before the first one
/// refused: what the document holds once an update stops at that edit.
pub open spec fn applied_before_failure(
    m: Map<Seq<char>, ItemView>,
    id: Seq<char>,
    it: ItemView,
    es: Seq<UpdateView>,
) -> ItemView
    decreases es.len(),
{
    if es.len() == 0 {
        it
    } else {
        match edit_error(m, id, it, es[0]) {
            Some(_) => it,
            None => applied_before_failure(m, id, apply_edit(it, es[0]), es.drop_first()),
        }
    }
}

/// The plain values of a run of edits.
pub open spec fn edit_views(us: Seq<ItemUpdate>) -> Seq<UpdateView> {
    us.map_values(|u: ItemUpdate| u@)
}

fn delete_field(doc: &mut AutoCommit, n: &Node, k: &str) -> (r: Result<(), AuError>)
    requires
        is_live_map(*old(doc), *n),
    ensures
        doc_entries(*old(doc)).contains_key((*n, k@)) ==> r is Ok,
        r is Ok ==> doc_entries(*final(doc)) == doc_entries(*old(doc)).remove((*n, k@)),
        r is Ok ==> doc_texts(*final(doc)) == doc_texts(*old(doc)),
        r is Err ==> is_engine_error(r),
{
    match doc_delete(doc, n, k) {
        Ok(()) => Ok(()),
        Err(e) => Err(engine_error(e)),
    }
}

/// `d2` holds what `d1` holds outside node `n` and outside the content text
/// of `n`; texts are only added to, and the content text of `n` in `d2` is the
/// one of `d1` or a new one.
pub open spec fn node_edit_frame(d1: AutoCommit, d2: AutoCommit, n: ObjId) -> bool {
    &&& forall|p: Node, f: Seq<char>| p != Node::Obj(n) ==> #[trigger] entry_at(d2, p, f) == entry_at(d1, p, f)
    &&& forall|x: ObjId| #[trigger] doc_texts(d1).contains_key(x) ==> doc_texts(d2).contains_key(x)
    &&& forall|x: ObjId|
        #[trigger] doc_texts(d1).contains_key(x) && Some(x) != content_text(d1, n) ==> doc_texts(d2)[x]
            == doc_texts(d1)[x]
    &&& content_text(d2, n) matches Some(t) ==> (Some(t) == content_text(d1, n) || !doc_texts(
        d1,
    ).contains_key(t))
}

proof fn lemma_frame_trans(d1: AutoCommit, d2: AutoCommit, d3: AutoCommit, n: ObjId)
    requires
        node_edit_frame(d1, d2, n),
        node_edit_frame(d2, d3, n),
    ensures
        node_edit_frame(d1, d3, n),
{
    assert forall|x: ObjId|
        #[trigger] doc_texts(d1).contains_key(x) && Some(x) != content_text(d1, n) implies doc_texts(d3)[x]
        == doc_texts(d1)[x] by {
        assert(doc_texts(d2).contains_key(x));
        assert(Some(x) != content_text(d2, n));
    }
    if let Some(t) = content_text(d3, n) {
        if Some(t) != content_text(d2, n) {
            assert(!doc_texts(d2).contains_key(t));
            assert(!doc_texts(d1).contains_key(t));
        }
    }
}

proof fn lemma_update_agrees(
    d1: AutoCommit,
    d2: AutoCommit,
    o: ObjId,
    n: ObjId,
    m: Map<Seq<char>, ItemView>,
    id: Seq<char>,
    cur: ItemView,
)
    requires
        agrees_at(d1, o, m),
        m.contains_key(id),
        item_node(d1, o, id) == Some(n),
        node_edit_frame(d1, d2, n),
        texts_valid(d2),
        holds_item(d2, n, cur),
        cur.id == id,
        cur.at == m[id].at,
    ensures
        agrees_at(d2, o, m.insert(id, cur)),
{
    let m2 = m.insert(id, cur);
    assert(n != o);
    assert forall|k: Seq<char>| #[trigger] doc_entries(d2).contains_key((Node::Obj(o), k)) <==> m2.contains_key(k) by {
        assert(entry_at(d2, Node::Obj(o), k) == entry_at(d1, Node::Obj(o), k));
    }
    assert forall|k: Seq<char>| #[trigger] m.contains_key(k) && k != id implies item_node(d2, o, k) == item_node(d1, o, k) && holds_item(d2, item_node(d1, o, k)->Some_0, m[k]) && content_text(d2, item_node(d1, o, k)->Some_0) == content_text(d1, item_node(d1, o, k)->Some_0) by {
        assert(entry_at(d2, Node::Obj(o), k) == entry_at(d1, Node::Obj(o), k));
        let nk = item_node(d1, o, k)->Some_0;
        assert(nk != n);
        let node = Node::Obj(nk);
        assert(entry_at(d2, node, "at"@) == entry_at(d1, node, "at"@));
        assert(entry_at(d2, node, "content_type"@) == entry_at(d1, node, "content_type"@));
        assert(entry_at(d2, node, "rank"@) == entry_at(d1, node, "rank"@));
        assert(entry_at(d2, node, "parent"@) == entry_at(d1, node, "parent"@));
        assert(entry_at(d2, node, "class"@) == entry_at(d1, node, "class"@));
        assert(entry_at(d2, node, "content"@) == entry_at(d1, node, "content"@));
        if let Some(tk) = content_text(d1, nk) {
            assert(doc_texts(d1).contains_key(tk));
            assert(Some(tk) != content_text(d1, n));
            assert(doc_texts(d2).contains_key(tk));
        }
    }
    assert forall|k: Seq<char>| #[trigger] m2.contains_key(k) implies {
        &&& item_node(d2, o, k) matches Some(nn) && nn != o && holds_item(d2, nn, m2[k])
        &&& m2[k].id == k
        &&& MIN_TIMESTAMP_MS <= m2[k].at <= MAX_TIMESTAMP_MS
    } by {
        if k != id {
            assert(m.contains_key(k));
        } else {
            assert(entry_at(d2, Node::Obj(o), k) == entry_at(d1, Node::Obj(o), k));
        }
    }
    assert forall|k1: Seq<char>, k2: Seq<char>|
        #[trigger] m2.contains_key(k1) && #[trigger] m2.contains_key(k2) && k1 != k2 implies {
            &&& item_node(d2, o, k1) != item_node(d2, o, k2)
            &&& content_text(d2, item_node(d2, o, k1)->Some_0) is Some ==> content_text(
                d2,
                item_node(d2, o, k1)->Some_0,
            ) != content_text(d2, item_node(d2, o, k2)->Some_0)
        } by {
        assert(entry_at(d2, Node::Obj(o), id) == entry_at(d1, Node::Obj(o), id));
        if k1 != id && k2 != id {
            assert(m.contains_key(k1) && m.contains_key(k2));
        } else {
            let k = if k1 == id { k2 } else { k1 };
            assert(m.contains_key(k) && k != id);
            let nk = item_node(d1, o, k)->Some_0;
            assert(nk != n);
            if let Some(tk) = content_text(d1, nk) {
                assert(doc_texts(d1).contains_key(tk));
                assert(Some(tk) != content_text(d1, n));
            }
        }
    }
}

/// The map `n` is held under a key of some other node.
pub open spec fn held_elsewhere(d: AutoCommit, n: ObjId) -> bool {
    exists|p: Node, k: Seq<char>| p != Node::Obj(n) && #[trigger] entry_at(d, p, k) == Some(Entry::MapObj(n))
}

proof fn lemma_held_live(d: AutoCommit, n: ObjId)
    requires
        held_elsewhere(d, n),
    ensures
        is_live_map(d, Node::Obj(n)),
{
    let (p, k) = choose|p: Node, k: Seq<char>| p != Node::Obj(n) && #[trigger] entry_at(d, p, k) == Some(Entry::MapObj(n));
    lemma_live(d, p, k, n);
}

proof fn lemma_held_frame(d1: AutoCommit, d2: AutoCommit, n: ObjId)
    requires
        held_elsewhere(d1, n),
        forall|p: Node, f: Seq<char>| p != Node::Obj(n) ==> #[trigger] entry_at(d2, p, f) == entry_at(d1, p, f),
    ensures
        held_elsewhere(d2, n),
        is_live_map(d2, Node::Obj(n)),
{
    let (p, k) = choose|p: Node, k: Seq<char>| p != Node::Obj(n) && #[trigger] entry_at(d1, p, k) == Some(Entry::MapObj(n));
    assert(entry_at(d2, p, k) == entry_at(d1, p, k));
    lemma_held_live(d2, n);
}

proof fn lemma_held_after_write(d1: AutoCommit, d2: AutoCommit, n: ObjId, f: Seq<char>, v: Entry)
    requires
        held_elsewhere(d1, n),
        doc_entries(d2) == doc_entries(d1).insert((Node::Obj(n), f), v),
    ensures
        held_elsewhere(d2, n),
        is_live_map(d2, Node::Obj(n)),
{
    lemma_held_frame(d1, d2, n);
}

/// Some item of `m` has `id` as parent.
pub open spec fn has_child(m: Map<Seq<char>, ItemView>, id: Seq<char>) -> bool {
    exists|k: Seq<char>| m.contains_key(k) && #[trigger] m[k].parent == Some(id)
}

proof fn lemma_remove_agrees(d1: AutoCommit, d2: AutoCommit, o: ObjId, m: Map<Seq<char>, ItemView>, id: Seq<char>)
    requires
        agrees_at(d1, o, m),
        m.contains_key(id),
        doc_entries(d2) == doc_entries(d1).remove((Node::Obj(o), id)),
        doc_texts(d2) == doc_texts(d1),
    ensures
        agrees_at(d2, o, m.remove(id)),
{
    let m2 = m.remove(id);
    assert forall|k: Seq<char>| #[trigger] m.contains_key(k) && k != id implies item_node(d2, o, k) == item_node(d1, o, k) && holds_item(d2, item_node(d1, o, k)->Some_0, m[k]) && content_text(d2, item_node(d1, o, k)->Some_0) == content_text(d1, item_node(d1, o, k)->Some_0) by {
        let nk = item_node(d1, o, k)->Some_0;
        assert(same_elsewhere(d1, d2, o, o, id, None));
        assert(nk != o);
        let node = Node::Obj(nk);
        assert(entry_at(d2, node, "at"@) == entry_at(d1, node, "at"@));
        assert(entry_at(d2, node, "content_type"@) == entry_at(d1, node, "content_type"@));
        assert(entry_at(d2, node, "rank"@) == entry_at(d1, node, "rank"@));
        assert(entry_at(d2, node, "parent"@) == entry_at(d1, node, "parent"@));
        assert(entry_at(d2, node, "class"@) == entry_at(d1, node, "class"@));
        assert(entry_at(d2, node, "content"@) == entry_at(d1, node, "content"@));
    }
    assert forall|k: Seq<char>| #[trigger] doc_entries(d2).contains_key((Node::Obj(o), k)) <==> m2.contains_key(k) by {
        assert(doc_entries(d1).contains_key((Node::Obj(o), k)) <==> m.contains_key(k));
    }
    assert forall|k: Seq<char>| #[trigger] m2.contains_key(k) implies {
        &&& item_node(d2, o, k) matches Some(n) && n != o && holds_item(d2, n, m2[k])
        &&& m2[k].id == k
        &&& MIN_TIMESTAMP_MS <= m2[k].at <= MAX_TIMESTAMP_MS
    } by {
        assert(m.contains_key(k) && k != id);
    }
    assert forall|k1: Seq<char>, k2: Seq<char>|
        #[trigger] m2.contains_key(k1) && #[trigger] m2.contains_key(k2) && k1 != k2 implies {
            &&& item_node(d2, o, k1) != item_node(d2, o, k2)
            &&& content_text(d2, item_node(d2, o, k1)->Some_0) is Some ==> content_text(
                d2,
                item_node(d2, o, k1)->Some_0,
            ) != content_text(d2, item_node(d2, o, k2)->Some_0)
        } by {
        assert(m.contains_key(k1) && k1 != id);
        assert(m.contains_key(k2) && k2 != id);
    }
}

/// The first check that inserting `it` into the index `m` fails, as the field
/// and the reason, or `None` where the insert may go ahead: the id must be
/// non-empty and new, the parent must exist, the time must be a date, and text
/// content must be UTF-8.
pub open spec fn insert_check(m: Map<Seq<char>, ItemView>, it: ItemView) -> Option<(Seq<char>, Seq<char>)> {
    if it.id.len() == 0 {
        Some(("id"@, "empty"@))
    } else if m.contains_key(it.id) {
        Some(("id"@, "duplicate key"@))
    } else if it.parent matches Some(p) && !m.contains_key(p) {
        Some(("parent"@, "does not exist"@))
    } else if !(MIN_TIMESTAMP_MS <= it.at <= MAX_TIMESTAMP_MS) {
        Some(("at"@, "out of range"@))
    } else if is_text_type(it.content_type) && !valid_utf8(it.content) {
        Some(("content"@, "not valid UTF-8"@))
    } else {
        None
    }
}

/// A document with no `items` map, beside an empty index.
pub open spec fn fresh_start(d: AutoCommit, m: Map<Seq<char>, ItemView>) -> bool {
    &&& m == Map::<Seq<char>, ItemView>::empty()
    &&& !(entry_at(d, Node::Root, "items"@) matches Some(Entry::MapObj(_)))
    &&& texts_valid(d)
}

fn invalid(field: &str, why: &str) -> (r: AuError)
    ensures
        r matches AuError::InvalidField(a, b) && a@ == field@ && b@ == why@,
{
    AuError::InvalidField(field.to_owned(), why.to_owned())
}

fn put_field(doc: &mut AutoCommit, n: &Node, k: &str, v: Scalar) -> (r: Result<(), AuError>)
    requires
        is_live_map(*old(doc), *n),
    ensures
        r is Ok,
        r is Ok ==> doc_entries(*final(doc)) == doc_entries(*old(doc)).insert((*n, k@), v@),
        r is Ok ==> doc_texts(*final(doc)) == doc_texts(*old(doc)),
        r is Err ==> is_engine_error(r),
{
    match doc_put(doc, n, k, v) {
        Ok(()) => Ok(()),
        Err(e) => Err(engine_error(e)),
    }
}

fn put_object(doc: &mut AutoCommit, n: &Node, k: &str, text: bool) -> (r: Result<ObjId, AuError>)
    requires
        is_live_map(*old(doc), *n),
    ensures
        r is Ok,
        r matches Ok(o) ==> is_fresh(*old(doc), o),
        r matches Ok(o) ==> doc_entries(*final(doc)) == doc_entries(*old(doc)).insert(
            (*n, k@),
            if text { Entry::TextObj(o) } else { Entry::MapObj(o) },
        ),
        r matches Ok(o) ==> doc_texts(*final(doc)) == if text {
            doc_texts(*old(doc)).insert(o, Seq::empty())
        } else {
            doc_texts(*old(doc))
        },
        r is Err ==> is_engine_error(r),
{
    match doc_put_object(doc, n, k, text) {
        Ok(o) => Ok(o),
        Err(e) => Err(engine_error(e)),
    }
}

fn update_text(doc: &mut AutoCommit, o: &ObjId, s: &str) -> (r: Result<(), AuError>)
    requires
        doc_texts(*old(doc)).contains_key(*o),
    ensures
        r is Ok,
        r is Ok ==> doc_texts(*final(doc)) == doc_texts(*old(doc)).insert(*o, s.spec_bytes()),
        r is Ok ==> doc_entries(*final(doc)) == doc_entries(*old(doc)),
        r is Err ==> is_engine_error(r),
{
    match doc_update_text(doc, o, s) {
        Ok(()) => Ok(()),
        Err(e) => Err(engine_error(e)),
    }
}

/// The `items` map of the document, made where there is none (or where the
/// key holds something else).
fn items_node(doc: &mut AutoCommit) -> (r: Result<ObjId, AuError>)
    ensures
        r is Ok,
        entry_at(*old(doc), Node::Root, "items"@) matches Some(Entry::MapObj(o)) ==> r == Ok::<
            ObjId,
            AuError,
        >(o) && *final(doc) == *old(doc),
        !(entry_at(*old(doc), Node::Root, "items"@) matches Some(Entry::MapObj(_))) ==> (r matches Ok(
            o,
        ) && is_fresh(*old(doc), o) && doc_entries(*final(doc)) == doc_entries(*old(doc)).insert(
            (Node::Root, "items"@),
            Entry::MapObj(o),
        ) && doc_texts(*final(doc)) == doc_texts(*old(doc))),
        r matches Ok(o) ==> entry_at(*final(doc), Node::Root, "items"@) == Some(Entry::MapObj(o)),
{
    proof {
        lemma_root_live(*doc);
    }
    match doc_get(doc, &Node::Root, "items") {
        Ok(Some(DocValue::MapObj(o))) => Ok(o),
        _ => put_object(doc, &Node::Root, "items", false),
    }
}

proof fn lemma_root_live(d: AutoCommit)
    ensures
        is_live_map(d, Node::Root),
{
}

impl Project {
    /// Inserts `item` into the document and the index. Every check is made
    /// before anything is written: the id must be non-empty and new, the
    /// parent must exist, the time must be a date, and text content must be
    /// UTF-8.
    pub fn with_item(&mut self, item: &Item, doc: &mut AutoCommit) -> (r: Result<(), AuError>)
        requires
            old(self).wf(),
        ensures
            final(self).wf(),
            match insert_check(old(self)@, item@) {
                Some((f, why)) => r matches Err(AuError::InvalidField(a, b)) && a@ == f && b@ == why
                    && final(self)@ == old(self)@ && *final(doc) == *old(doc),
                None => r is Ok,
            },
            r is Ok ==> final(self)@ == old(self)@.insert(item.id@, item@),
            r is Ok ==> node_of(*final(doc), item.id@) is Some && holds_item(
                *final(doc),
                node_of(*final(doc), item.id@)->Some_0,
                item@,
            ) && holds_typed_content(
                *final(doc),
                node_of(*final(doc), item.id@)->Some_0,
                item.content_type@,
                item.content@,
            ),
            r is Err ==> final(self)@ == old(self)@,
            r is Ok && (agrees(*old(doc), old(self)@) || fresh_start(*old(doc), old(self)@)) ==> agrees(
                *final(doc),
                final(self)@,
            ),
    {
        proof {
            reveal_strlit("at");
            reveal_strlit("content");
            reveal_strlit("content_type");
            reveal_strlit("rank");
            reveal_strlit("parent");
            reveal_strlit("class");
        }
        if item.id.as_str().is_empty() {
            return Err(invalid("id", "empty"));
        }
        if self.contains(item.id.as_str()) {
            return Err(invalid("id", "duplicate key"));
        }
        if let Some(p) = &item.parent {
            if !self.contains(p.as_str()) {
                return Err(invalid("parent", "does not exist"));
            }
        }
        if !timestamp_in_range(item.at) {
            return Err(invalid("at", "out of range"));
        }
        let text = is_text_content_type(item.content_type.as_str());
        let text_content: Option<&str> = if text {
            match utf8_str(item.content.as_slice()) {
                None => {
                    return Err(invalid("content", "not valid UTF-8"));
                },
                Some(s) => Some(s),
            }
        } else {
            None
        };
        let ghost d0 = *doc;
        let ghost m0 = self@;
        let items = match items_node(doc) {
            Ok(o) => o,
            Err(e) => {
                return Err(e);
            },
        };
        let ghost d1 = *doc;
        let ghost o = items;
        proof {
            assert(doc_entries(d1).contains_key((Node::Root, "items"@)));
            assert(is_live_map(d1, Node::Obj(o)));
            if agrees(d0, m0) || fresh_start(d0, m0) {
                if !agrees(d0, m0) {
                    assert forall|k: Seq<char>| #[trigger] doc_entries(d1).contains_key((Node::Obj(o), k)) <==> m0.contains_key(k) by {
                        assert(!doc_entries(d0).contains_key((Node::Obj(o), k)));
                    }
                }
                assert(agrees_at(d1, o, m0));
            }
        }
        let node = match put_object(doc, &Node::Obj(items), item.id.as_str(), false) {
            Ok(n) => n,
            Err(e) => {
                return Err(e);
            },
        };
        let ghost nid = node;
        let ghost d2 = *doc;
        let n = Node::Obj(node);
        proof {
            assert(doc_entries(d1).contains_key((Node::Root, "items"@)));
            assert(nid != o);
            assert(is_live_map(*doc, n)) by {
                assert(doc_entries(*doc).contains_key((Node::Obj(o), item.id@)));
                assert(doc_entries(*doc)[(Node::Obj(o), item.id@)] == Entry::MapObj(nid));
            }
        }
        proof {
            lemma_live(*doc, Node::Obj(o), item.id@, nid);
        }
        if let Err(e) = put_field(doc, &n, "at", Scalar::Timestamp(item.at)) {
            return Err(e);
        }
        let ghost d3 = *doc;
        proof {
            lemma_live(*doc, Node::Obj(o), item.id@, nid);
        }
        if let Err(e) = put_field(doc, &n, "content_type", Scalar::Str(item.content_type.clone())) {
            return Err(e);
        }
        let ghost d4 = *doc;
        proof {
            lemma_live(*doc, Node::Obj(o), item.id@, nid);
        }
        if let Err(e) = put_field(doc, &n, "rank", Scalar::Int(item.rank)) {
            return Err(e);
        }
        let ghost d5 = *doc;
        let ghost mut t: Option<ObjId> = None;
        match text_content {
            Some(s) => {
                proof {
                    lemma_live(*doc, Node::Obj(o), item.id@, nid);
                }
                let tobj = match put_object(doc, &n, "content", true) {
                    Ok(x) => x,
                    Err(e) => {
                        return Err(e);
                    },
                };
                proof {
                    t = Some(tobj);
                }
                if let Err(e) = update_text(doc, &tobj, s) {
                    return Err(e);
                }
                proof {
                    assert(valid_utf8(s.spec_bytes()));
                }
            },
            None => {
                proof {
                    lemma_live(*doc, Node::Obj(o), item.id@, nid);
                }
                if let Err(e) = put_field(
                    doc,
                    &n,
                    "content",
                    Scalar::Bytes(copy_bytes(item.content.as_slice())),
                ) {
                    return Err(e);
                }
            },
        }
        let ghost d6 = *doc;
        proof {
            lemma_field_names();
            assert(entry_at(d3, Node::Obj(nid), "at"@) == Some(Entry::Timestamp(item.at)));
            assert(entry_at(d4, Node::Obj(nid), "at"@) == Some(Entry::Timestamp(item.at)));
            assert(entry_at(d5, Node::Obj(nid), "at"@) == Some(Entry::Timestamp(item.at)));
            assert(entry_at(d6, Node::Obj(nid), "at"@) == Some(Entry::Timestamp(item.at)));
            assert(entry_at(d4, Node::Obj(nid), "content_type"@) == Some(Entry::Str(item.content_type@)));
            assert(entry_at(d5, Node::Obj(nid), "content_type"@) == Some(Entry::Str(item.content_type@)));
            assert(entry_at(d6, Node::Obj(nid), "content_type"@) == Some(Entry::Str(item.content_type@)));
            assert(entry_at(d6, Node::Obj(nid), "rank"@) == Some(Entry::Int(item.rank)));
            assert(!doc_entries(d6).contains_key((Node::Obj(nid), "parent"@)));
            assert(!doc_entries(d6).contains_key((Node::Obj(nid), "class"@)));
            assert(doc_texts(d5) == doc_texts(d1));
            assert(holds_content(d6, nid, item.content@));
            assert(content_text(d6, nid) == t);
        }
        if let Some(p) = &item.parent {
            proof {
                lemma_live(*doc, Node::Obj(o), item.id@, nid);
            }
            if let Err(e) = put_field(doc, &n, "parent", Scalar::Str(p.clone())) {
                return Err(e);
            }
        }
        let ghost d7 = *doc;
        proof {
            assert(entry_at(d7, Node::Obj(nid), "at"@) == Some(Entry::Timestamp(item.at)));
            assert(entry_at(d7, Node::Obj(nid), "content_type"@) == Some(Entry::Str(item.content_type@)));
            assert(entry_at(d7, Node::Obj(nid), "rank"@) == Some(Entry::Int(item.rank)));
            assert(entry_at(d7, Node::Obj(nid), "parent"@) == opt_entry(item@.parent));
            assert(entry_at(d7, Node::Obj(nid), "content"@) == entry_at(d6, Node::Obj(nid), "content"@));
            assert(!doc_entries(d7).contains_key((Node::Obj(nid), "class"@)));
        }
        if let Some(c) = &item.class {
            proof {
                lemma_live(*doc, Node::Obj(o), item.id@, nid);
            }
            if let Err(e) = put_field(doc, &n, "class", Scalar::Str(c.clone())) {
                return Err(e);
            }
        }
        proof {
            if agrees(d0, m0) || fresh_start(d0, m0) {
                let df = *doc;
                assert(doc_texts(df) == doc_texts(d6));
                assert(same_elsewhere(d1, df, nid, o, item.id@, t));
                assert(entry_at(df, Node::Obj(o), item.id@) == Some(Entry::MapObj(nid)));
                assert(!doc_entries(d1).contains_key((Node::Obj(nid), "parent"@)));
                assert(!doc_entries(d1).contains_key((Node::Obj(nid), "class"@)));
                assert(entry_at(df, Node::Obj(nid), "at"@) == Some(Entry::Timestamp(item.at)));
                assert(entry_at(df, Node::Obj(nid), "content_type"@) == Some(Entry::Str(item.content_type@)));
                assert(entry_at(df, Node::Obj(nid), "rank"@) == Some(Entry::Int(item.rank)));
                assert(entry_at(df, Node::Obj(nid), "parent"@) == opt_entry(item@.parent));
                assert(entry_at(df, Node::Obj(nid), "class"@) == opt_entry(item@.class));
                assert(entry_at(df, Node::Obj(nid), "content"@) == entry_at(d6, Node::Obj(nid), "content"@));
                assert(holds_content(df, nid, item@.content));
                assert(holds_item(df, nid, item@));
                assert(content_text(df, nid) == t);
                assert(texts_valid(df)) by {
                    assert forall|x: ObjId| #[trigger] doc_texts(df).contains_key(x) implies valid_utf8(doc_texts(df)[x]) by {
                        if Some(x) != t {
                            assert(doc_texts(d1).contains_key(x));
                        }
                    }
                }
                lemma_insert_agrees(d1, df, o, nid, t, m0, item@);
                assert(entry_at(df, Node::Root, "items"@) == Some(Entry::MapObj(o)));
            }
        }
        self.insert_item(item.copy());
        Ok(())
    }

    /// Removes the item `id` from the document and the index. It must exist,
    /// and no item may have it as parent: deletion never cascades.
    pub fn without_item(&mut self, id: &str, doc: &mut AutoCommit) -> (r: Result<(), AuError>)
        requires
            old(self).wf(),
        ensures
            final(self).wf(),
            !old(self)@.contains_key(id@) ==> (r matches Err(AuError::NoSuchKey(k)) && k@ == id@
                && final(self)@ == old(self)@ && *final(doc) == *old(doc)),
            old(self)@.contains_key(id@) && has_child(old(self)@, id@) ==> (r matches Err(
                AuError::InvalidOperation(k, why),
            ) && k@ == id@ && why@ == "has children"@ && final(self)@ == old(self)@ && *final(doc)
                == *old(doc)),
            old(self)@.contains_key(id@) && !has_child(old(self)@, id@) ==> (r is Ok
                || is_engine_error(r)) && (agrees(*old(doc), old(self)@) ==> r is Ok),
            r is Ok ==> final(self)@ == old(self)@.remove(id@),
            r is Err ==> final(self)@ == old(self)@,
            r is Ok && agrees(*old(doc), old(self)@) ==> agrees(*final(doc), final(self)@),
    {
        if !self.contains(id) {
            return Err(AuError::NoSuchKey(id.to_owned()));
        }
        if self.has_children(Some(id)) {
            return Err(AuError::InvalidOperation(id.to_owned(), "has children".to_owned()));
        }
        let ghost d0 = *doc;
        let items = match items_node(doc) {
            Ok(o) => o,
            Err(e) => {
                return Err(e);
            },
        };
        proof {
            lemma_live(*doc, Node::Root, "items"@, items);
        }
        match doc_delete(doc, &Node::Obj(items), id) {
            Ok(()) => {},
            Err(e) => {
                return Err(engine_error(e));
            },
        }
        proof {
            if agrees(d0, self@) {
                lemma_remove_agrees(d0, *doc, items, self@, id@);
            }
        }
        self.remove_item(id);
        Ok(())
    }

    /// Applies one edit to `cur`, the item `id` held in the node `n`, and to
    /// the document.
    fn apply_update(&self, id: &str, n: &ObjId, cur: &mut Item, u: &ItemUpdate, doc: &mut AutoCommit) -> (r: Result<(), AuError>)
        requires
            self.wf(),
            held_elsewhere(*old(doc), *n),
        ensures
            edit_error(self@, id@, old(cur)@, u@) is Some ==> (r matches Err(e) && fault_of(e)
                == edit_error(self@, id@, old(cur)@, u@)->Some_0 && *final(doc) == *old(doc)),
            edit_error(self@, id@, old(cur)@, u@) is None && holds_item(*old(doc), *n, old(cur)@)
                ==> r is Ok,
            r is Ok && u@ is Content ==> content_effect(
                *old(doc),
                *final(doc),
                *n,
                old(cur)@,
                u@->Content_0,
                u@->Content_1,
            ),
            r is Ok ==> final(cur)@ == apply_edit(old(cur)@, u@),
            r is Ok ==> node_edit_frame(*old(doc), *final(doc), *n),
            r is Ok && texts_valid(*old(doc)) ==> texts_valid(*final(doc)),
            r is Ok && holds_item(*old(doc), *n, old(cur)@) ==> holds_item(
                *final(doc),
                *n,
                final(cur)@,
            ),
    {
        proof {
            lemma_field_names();
            reveal_strlit("content");
            lemma_held_live(*doc, *n);
        }
        let node = Node::Obj(n.clone());
        match u {
            ItemUpdate::Parent(None) => {
                if cur.parent.is_some() {
                    match delete_field(doc, &node, "parent") {
                        Ok(()) => {},
                        Err(e) => {
                            return Err(e);
                        },
                    }
                    cur.parent = None;
                }
                Ok(())
            },
            ItemUpdate::Parent(Some(p)) => {
                match self.check_new_parent(id, p.as_str()) {
                    Ok(()) => {},
                    Err(e) => {
                        return Err(e);
                    },
                }
                match put_field(doc, &node, "parent", Scalar::Str(p.clone())) {
                    Ok(()) => {},
                    Err(e) => {
                        return Err(e);
                    },
                }
                cur.parent = Some(p.clone());
                Ok(())
            },
            ItemUpdate::Rank(rank) => {
                match put_field(doc, &node, "rank", Scalar::Int(*rank)) {
                    Ok(()) => {},
                    Err(e) => {
                        return Err(e);
                    },
                }
                cur.rank = *rank;
                Ok(())
            },
            ItemUpdate::Class(None) => {
                if cur.class.is_some() {
                    match delete_field(doc, &node, "class") {
                        Ok(()) => {},
                        Err(e) => {
                            return Err(e);
                        },
                    }
                    cur.class = None;
                }
                Ok(())
            },
            ItemUpdate::Class(Some(c)) => {
                match put_field(doc, &node, "class", Scalar::Str(c.clone())) {
                    Ok(()) => {},
                    Err(e) => {
                        return Err(e);
                    },
                }
                cur.class = Some(c.clone());
                Ok(())
            },
            ItemUpdate::Content(ct, c) => self.update_content(&node, n, cur, ct, c, doc),
        }
    }

    /// The content edit: sets the content type, then, where the bytes differ,
    /// the content, splicing only the changed middle of a text.
    fn update_content(
        &self,
        node: &Node,
        n: &ObjId,
        cur: &mut Item,
        ct: &String,
        c: &Vec<u8>,
        doc: &mut AutoCommit,
    ) -> (r: Result<(), AuError>)
        requires
            *node == Node::Obj(*n),
            held_elsewhere(*old(doc), *n),
        ensures
            edit_error(self@, old(cur)@.id, old(cur)@, UpdateView::Content(ct@, c@)) is Some ==> (
            r matches Err(e) && fault_of(e) == edit_error(
                self@,
                old(cur)@.id,
                old(cur)@,
                UpdateView::Content(ct@, c@),
            )->Some_0 && *final(doc) == *old(doc)),
            edit_error(self@, old(cur)@.id, old(cur)@, UpdateView::Content(ct@, c@)) is None ==> r is Ok,
            r is Ok ==> content_effect(*old(doc), *final(doc), *n, old(cur)@, ct@, c@),
            r is Ok ==> final(cur)@ == apply_edit(old(cur)@, UpdateView::Content(ct@, c@)),
            r is Ok ==> node_edit_frame(*old(doc), *final(doc), *n),
            r is Ok && texts_valid(*old(doc)) ==> texts_valid(*final(doc)),
            r is Ok && holds_item(*old(doc), *n, old(cur)@) ==> holds_item(
                *final(doc),
                *n,
                final(cur)@,
            ),
    {
        proof {
            lemma_field_names();
        }
        let changed = !same_bytes(cur.content.as_slice(), c.as_slice());
        let text = is_text_content_type(ct.as_str());
        let mut new_text: Option<&str> = None;
        if changed && text {
            match utf8_str(c.as_slice()) {
                None => {
                    return Err(invalid("content", "not valid UTF-8"));
                },
                Some(s) => {
                    new_text = Some(s);
                },
            }
        }
        let ghost d0 = *doc;
        proof {
            lemma_held_live(d0, *n);
        }
        if !same_text(cur.content_type.as_str(), ct.as_str()) {
            match put_field(doc, node, "content_type", Scalar::Str(ct.clone())) {
                Ok(()) => {},
                Err(e) => {
                    return Err(e);
                },
            }
            proof {
                lemma_held_after_write(d0, *doc, *n, "content_type"@, Entry::Str(ct@));
            }
            cur.content_type = ct.clone();
        }
        let ghost d1 = *doc;
        proof {
            lemma_held_live(d1, *n);
        }
        if !changed {
            return Ok(());
        }
        cur.content = copy_bytes(c.as_slice());
        match new_text {
            None => {
                match put_field(doc, node, "content", Scalar::Bytes(copy_bytes(c.as_slice()))) {
                    Ok(()) => {},
                    Err(e) => {
                        return Err(e);
                    },
                }
                Ok(())
            },
            Some(s) => {
                let existing = match doc_get(doc, node, "content") {
                    Ok(v) => v,
                    Err(e) => {
                        return Err(engine_error(e));
                    },
                };
                match existing {
                    Some(DocValue::TextObj(t)) => {
                        let old_text = match doc_text(doc, &t) {
                            Ok(x) => x,
                            Err(_) => {
                                return Err(AuError::IncorrectType("content".to_owned(), "text".to_owned()));
                            },
                        };
                        let old_len = old_text.as_str().len();
                        match plan_text_splice(old_text.as_str(), s) {
                            Some((pos, del, ins)) => {
                                if del <= isize::MAX as usize && pos <= old_len && del <= old_len - pos
                                    && old_text.as_str().is_char_boundary(pos)
                                    && old_text.as_str().is_char_boundary(pos + del) {
                                    let ghost dpre = *doc;
                                    match doc_splice_text(doc, &t, pos, del, ins) {
                                        Ok(()) => {},
                                        Err(e) => {
                                            return Err(engine_error(e));
                                        },
                                    }
                                    proof {
                                        assert(content_text(dpre, *n) == Some(t));
                                        assert forall|x: ObjId| #[trigger] doc_texts(dpre).contains_key(x) && x != t implies doc_texts(*doc).contains_key(x) && doc_texts(*doc)[x] == doc_texts(dpre)[x] by {
                                        }
                                    }
                                } else {
                                    match update_text(doc, &t, s) {
                                        Ok(()) => {},
                                        Err(e) => {
                                            return Err(e);
                                        },
                                    }
                                }
                            },
                            None => {
                                match update_text(doc, &t, s) {
                                    Ok(()) => {},
                                    Err(e) => {
                                        return Err(e);
                                    },
                                }
                            },
                        }
                        Ok(())
                    },
                    _ => {
                        let t = match put_object(doc, node, "content", true) {
                            Ok(t) => t,
                            Err(e) => {
                                return Err(e);
                            },
                        };
                        match update_text(doc, &t, s) {
                            Ok(()) => {},
                            Err(e) => {
                                return Err(e);
                            },
                        }
                        Ok(())
                    },
                }
            },
        }
    }

    /// Applies `updates` to the item `id` in order, each checked and written
    /// on its own, then puts the edited item into the index at once. A refused
    /// edit ends the call: the index keeps the old item, and the document
    /// keeps the edits written before it.
    pub fn with_updated_item(&mut self, id: &str, updates: &[ItemUpdate], doc: &mut AutoCommit) -> (r: Result<(), AuError>)
        requires
            old(self).wf(),
        ensures
            final(self).wf(),
            !old(self)@.contains_key(id@) ==> (r matches Err(AuError::NoSuchKey(k)) && k@ == id@
                && final(self)@ == old(self)@ && *final(doc) == *old(doc)),
            r is Ok ==> old(self)@.contains_key(id@) && (edits_outcome(
                old(self)@,
                id@,
                old(self)@[id@],
                edit_views(updates@),
            ) matches Ok(v) && final(self)@ == old(self)@.insert(id@, v)),
            r is Err ==> final(self)@ == old(self)@,
            old(self)@.contains_key(id@) && agrees(*old(doc), old(self)@) ==> (r is Ok <==> edits_outcome(
                old(self)@,
                id@,
                old(self)@[id@],
                edit_views(updates@),
            ) is Ok),
            old(self)@.contains_key(id@) && agrees(*old(doc), old(self)@) && edits_outcome(
                old(self)@,
                id@,
                old(self)@[id@],
                edit_views(updates@),
            ) is Err ==> (r matches Err(e) && fault_of(e) == edits_outcome(
                old(self)@,
                id@,
                old(self)@[id@],
                edit_views(updates@),
            )->Err_0 && agrees(
                *final(doc),
                old(self)@.insert(
                    id@,
                    applied_before_failure(old(self)@, id@, old(self)@[id@], edit_views(updates@)),
                ),
            )),
            old(self)@.contains_key(id@) && agrees(*old(doc), old(self)@) && updates@.len() > 0
                && edit_error(old(self)@, id@, old(self)@[id@], updates@[0]@) is Some ==> *final(doc)
                == *old(doc),
            old(self)@.contains_key(id@) && agrees(*old(doc), old(self)@) && updates@.len() == 1
                && updates@[0]@ is Content && r is Ok ==> content_effect(
                *old(doc),
                *final(doc),
                node_of(*old(doc), id@)->Some_0,
                old(self)@[id@],
                updates@[0]@->Content_0,
                updates@[0]@->Content_1,
            ),
            r is Ok && agrees(*old(doc), old(self)@) ==> agrees(*final(doc), final(self)@),
    {
        let target = match self.get_item(id) {
            Some(t) => t,
            None => {
                return Err(AuError::NoSuchKey(id.to_owned()));
            },
        };
        let ghost m = self@;
        let ghost d0 = *doc;
        let ghost es = edit_views(updates@);
        let ghost agreeing = agrees(d0, m);
        proof {
            self.lemma_keys_are_ids();
        }
        let items = match items_node(doc) {
            Ok(o) => o,
            Err(e) => {
                return Err(e);
            },
        };
        let ghost o = items;
        let ghost d1 = *doc;
        proof {
            lemma_live(d1, Node::Root, "items"@, o);
        }
        let n = match doc_get(doc, &Node::Obj(items), id) {
            Ok(Some(DocValue::MapObj(n))) => n,
            Ok(Some(_)) => {
                return Err(AuError::IncorrectType(id.to_owned(), "map".to_owned()));
            },
            Ok(None) => {
                return Err(AuError::NoSuchKey(id.to_owned()));
            },
            Err(e) => {
                return Err(engine_error(e));
            },
        };
        let mut cur = target;
        let mut i: usize = 0;
        proof {
            assert(entry_at(d1, Node::Obj(o), id@) == Some(Entry::MapObj(n)));
            assert(held_elsewhere(d1, n));
            assert(es.subrange(0, es.len() as int) =~= es);
            if agreeing {
                assert(d1 == d0);
                assert(m.contains_key(id@));
                assert(item_node(d1, o, id@) == Some(n));
                lemma_live(d1, Node::Obj(o), id@, n);
            }
            assert(es.subrange(0, es.len() as int) =~= es);
        }
        while i < updates.len()
            invariant
                self.wf(),
                self@ == m,
                m == old(self)@,
                d0 == *old(doc),
                m.contains_key(id@),
                m[id@].id == id@,
                es == edit_views(updates@),
                i <= updates@.len(),
                cur@.id == id@,
                cur@.at == m[id@].at,
                i == 0 ==> cur@ == m[id@],
                i > 0 ==> edit_error(m, id@, m[id@], es[0]) is None,
                edits_outcome(m, id@, m[id@], es) == edits_outcome(m, id@, cur@, es.subrange(i as int, es.len() as int)),
                applied_before_failure(m, id@, m[id@], es) == applied_before_failure(
                    m,
                    id@,
                    cur@,
                    es.subrange(i as int, es.len() as int),
                ),
                held_elsewhere(*doc, n),
                agreeing == agrees(d0, m),
                agreeing && i == 1 && updates@.len() == 1 && es[0] is Content ==> content_effect(
                    d0,
                    *doc,
                    n,
                    m[id@],
                    es[0]->Content_0,
                    es[0]->Content_1,
                ),
                agreeing ==> {
                    &&& d1 == d0
                    &&& agrees_at(d1, o, m)
                    &&& entry_at(d1, Node::Root, "items"@) == Some(Entry::MapObj(o))
                    &&& item_node(d1, o, id@) == Some(n)
                    &&& node_edit_frame(d1, *doc, n)
                    &&& holds_item(*doc, n, cur@)
                    &&& texts_valid(*doc)
                    &&& i == 0 ==> *doc == d0
                },
            decreases updates@.len() - i,
        {
            let ghost dprev = *doc;
            let ghost cprev = cur@;
            proof {
                assert(es[i as int] == updates@[i as int]@);
                assert(es.subrange(i as int, es.len() as int)[0] == es[i as int]);
                assert(es.subrange(i as int, es.len() as int).drop_first() =~= es.subrange(i + 1, es.len() as int));
            }
            match self.apply_update(id, &n, &mut cur, &updates[i], doc) {
                Ok(()) => {},
                Err(e) => {
                    proof {
                        let rest = es.subrange(i as int, es.len() as int);
                        assert(edits_outcome(m, id@, cprev, rest) == match edit_error(m, id@, cprev, rest[0]) {
                            Some(f) => Err(f),
                            None => edits_outcome(m, id@, apply_edit(cprev, rest[0]), rest.drop_first()),
                        });
                        assert(applied_before_failure(m, id@, cprev, rest) == match edit_error(m, id@, cprev, rest[0]) {
                            Some(_) => cprev,
                            None => applied_before_failure(m, id@, apply_edit(cprev, rest[0]), rest.drop_first()),
                        });
                        assert(rest[0] == updates@[i as int]@);
                        if agreeing {
                            lemma_update_agrees(d1, dprev, o, n, m, id@, cprev);
                            assert(entry_at(dprev, Node::Root, "items"@) == Some(Entry::MapObj(o)));
                        }
                    }
                    return Err(e);
                },
            }
            proof {
                if i == 0 {
                    assert(updates@[0]@ == es[0]);
                }
                lemma_held_frame(dprev, *doc, n);
                if agreeing {
                    lemma_frame_trans(d1, dprev, *doc, n);
                }
            }
            i += 1;
        }
        proof {
            assert(es.subrange(i as int, es.len() as int) =~= Seq::<UpdateView>::empty());
            if agreeing {
                lemma_update_agrees(d1, *doc, o, n, m, id@, cur@);
                assert(entry_at(*doc, Node::Root, "items"@) == Some(Entry::MapObj(o)));
            }
        }
        self.replace_item(cur);
        Ok(())
    }
}

/// An empty index beside a new, empty document: the start from which every
/// successful insert, update and delete keeps the two in agreement.
pub fn new_store() -> (r: (Project, AutoCommit))
    ensures
        r.0.wf(),
        fresh_start(r.1, r.0@),
{
    let doc = new_document();
    proof {
        assert(entry_at(doc, Node::Root, "items"@) is None);
    }
    (Project::new(), doc)
}

} // verus!
