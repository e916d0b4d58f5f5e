use au::decode::decode_project;
use au::engine::new_store;
use au::error::AuError;
use au::item::{Item, ItemUpdate, Project};
use automerge::transaction::Transactable;
use automerge::{AutoCommit, ObjType, ReadDoc};

fn item(id: &str, parent: Option<&str>) -> Item {
    let mut it = Item::default();
    it.id = id.to_string();
    it.parent = parent.map(|p| p.to_string());
    it
}

fn same_item(a: &Item, b: &Item) -> bool {
    a.id == b.id
        && a.at == b.at
        && a.class == b.class
        && a.content_type == b.content_type
        && a.content == b.content
        && a.rank == b.rank
        && a.parent == b.parent
}

fn same_index(a: &Project, b: &Project, ids: &[&str]) -> bool {
    a.len() == b.len()
        && ids.iter().all(|id| match (a.get_item(id), b.get_item(id)) {
            (Some(x), Some(y)) => same_item(&x, &y),
            (None, None) => true,
            _ => false,
        })
}

#[test]
fn round_trip_after_inserts_updates_and_deletes() {
    let mut doc = AutoCommit::new();
    let mut project = Project::default();
    let mut a = item("a", None);
    a.at = 1_711_959_236_123;
    a.rank = -4;
    a.class = Some("todo".to_string());
    a.content = "first line\nsecond".as_bytes().to_vec();
    let mut b = item("b", Some("a"));
    b.content_type = "application/octet-stream".to_string();
    b.content = vec![0, 255, 7];
    let c = item("c", Some("b"));
    project.with_item(&a, &mut doc).ok().unwrap();
    project.with_item(&b, &mut doc).ok().unwrap();
    project.with_item(&c, &mut doc).ok().unwrap();
    project
        .with_updated_item(
            "a",
            &[
                ItemUpdate::Rank(9),
                ItemUpdate::Class(None),
                ItemUpdate::Content("text/plain".to_string(), "first line\nchanged".as_bytes().to_vec()),
            ],
            &mut doc,
        )
        .ok()
        .unwrap();
    project
        .with_updated_item(
            "b",
            &[
                ItemUpdate::Class(Some("note".to_string())),
                ItemUpdate::Content("text/markdown".to_string(), "now text".as_bytes().to_vec()),
            ],
            &mut doc,
        )
        .ok()
        .unwrap();
    project.without_item("c", &mut doc).ok().unwrap();
    let decoded = decode_project(&doc).ok().unwrap();
    assert!(same_index(&project, &decoded, &["a", "b", "c"]));
    assert_eq!(decoded.get_item("a").unwrap().rank, 9);
    assert!(decoded.get_item("a").unwrap().class.is_none());
    assert_eq!(decoded.get_item("b").unwrap().content, "now text".as_bytes().to_vec());
    assert!(decoded.get_item("c").is_none());
}

#[test]
fn insert_with_duplicate_id_fails_and_changes_nothing() {
    let mut doc = AutoCommit::new();
    let mut project = Project::default();
    project.with_item(&item("a", None), &mut doc).ok().unwrap();
    let heads = doc.get_heads();
    let mut again = item("a", None);
    again.rank = 5;
    let err = project.with_item(&again, &mut doc).err().unwrap();
    assert!(matches!(err, AuError::InvalidField(_, _)));
    assert_eq!(err.to_string(), "'id': invalid: duplicate key");
    assert_eq!(doc.get_heads(), heads);
    assert_eq!(project.len(), 1);
    assert_eq!(project.get_item("a").unwrap().rank, 0);
}

#[test]
fn insert_with_empty_id_fails() {
    let mut doc = AutoCommit::new();
    let mut project = Project::default();
    let err = project.with_item(&item("", None), &mut doc).err().unwrap();
    assert_eq!(err.to_string(), "'id': invalid: empty");
    assert_eq!(project.len(), 0);
    assert!(doc.get(automerge::ROOT, "items").unwrap().is_none());
}

#[test]
fn insert_with_dangling_parent_fails_and_changes_nothing() {
    let mut doc = AutoCommit::new();
    let mut project = Project::default();
    project.with_item(&item("a", None), &mut doc).ok().unwrap();
    let heads = doc.get_heads();
    let err = project.with_item(&item("b", Some("nope")), &mut doc).err().unwrap();
    assert_eq!(err.to_string(), "'parent': invalid: does not exist");
    assert_eq!(doc.get_heads(), heads);
    assert_eq!(project.len(), 1);
    assert!(project.get_item("b").is_none());
}

#[test]
fn insert_rejects_bad_time_and_bad_text() {
    let mut doc = AutoCommit::new();
    let mut project = Project::default();
    let mut late = item("late", None);
    late.at = i64::MAX;
    assert_eq!(
        project.with_item(&late, &mut doc).err().unwrap().to_string(),
        "'at': invalid: out of range"
    );
    let mut bad = item("bad", None);
    bad.content = vec![0xff, 0xfe];
    assert_eq!(
        project.with_item(&bad, &mut doc).err().unwrap().to_string(),
        "'content': invalid: not valid UTF-8"
    );
    bad.content_type = "application/octet-stream".to_string();
    project.with_item(&bad, &mut doc).ok().unwrap();
    assert_eq!(project.get_item("bad").unwrap().content, vec![0xff, 0xfe]);
}

#[test]
fn reparent_to_descendant_is_a_cycle_and_changes_nothing() {
    let mut doc = AutoCommit::new();
    let mut project = Project::default();
    project.with_item(&item("a", None), &mut doc).ok().unwrap();
    project.with_item(&item("b", Some("a")), &mut doc).ok().unwrap();
    project.with_item(&item("c", Some("b")), &mut doc).ok().unwrap();
    let heads = doc.get_heads();
    let err = project
        .with_updated_item("a", &[ItemUpdate::Parent(Some("c".to_string()))], &mut doc)
        .err()
        .unwrap();
    assert!(matches!(err, AuError::InvalidOperation(_, _)));
    assert_eq!(err.to_string(), "'c': has a cycle");
    assert_eq!(doc.get_heads(), heads);
    assert!(project.get_item("a").unwrap().parent.is_none());
    let err = project
        .with_updated_item("a", &[ItemUpdate::Parent(Some("a".to_string()))], &mut doc)
        .err()
        .unwrap();
    assert_eq!(err.to_string(), "'a': has a cycle");
    let err = project
        .with_updated_item("a", &[ItemUpdate::Parent(Some("zz".to_string()))], &mut doc)
        .err()
        .unwrap();
    assert_eq!(err.to_string(), "'zz': no such key");
    let err = project
        .with_updated_item("zz", &[ItemUpdate::Rank(1)], &mut doc)
        .err()
        .unwrap();
    assert_eq!(err.to_string(), "'zz': no such key");
}

#[test]
fn failed_edit_keeps_the_index_but_not_earlier_writes() {
    let mut doc = AutoCommit::new();
    let mut project = Project::default();
    project.with_item(&item("a", None), &mut doc).ok().unwrap();
    project.with_item(&item("b", Some("a")), &mut doc).ok().unwrap();
    let err = project
        .with_updated_item(
            "a",
            &[ItemUpdate::Rank(3), ItemUpdate::Parent(Some("b".to_string()))],
            &mut doc,
        )
        .err()
        .unwrap();
    assert_eq!(err.to_string(), "'b': has a cycle");
    assert_eq!(project.get_item("a").unwrap().rank, 0);
    let decoded = decode_project(&doc).ok().unwrap();
    assert_eq!(decoded.get_item("a").unwrap().rank, 3);
}

#[test]
fn delete_blocked_by_children_and_leaf_delete_succeeds() {
    let mut doc = AutoCommit::new();
    let mut project = Project::default();
    project.with_item(&item("a", None), &mut doc).ok().unwrap();
    project.with_item(&item("b", Some("a")), &mut doc).ok().unwrap();
    let heads = doc.get_heads();
    let err = project.without_item("a", &mut doc).err().unwrap();
    assert!(matches!(err, AuError::InvalidOperation(_, _)));
    assert_eq!(err.to_string(), "'a': has children");
    assert_eq!(doc.get_heads(), heads);
    assert_eq!(project.len(), 2);
    project.without_item("b", &mut doc).ok().unwrap();
    assert!(project.get_item("b").is_none());
    let decoded = decode_project(&doc).ok().unwrap();
    assert_eq!(decoded.len(), 1);
    assert!(decoded.get_item("b").is_none());
    project.without_item("a", &mut doc).ok().unwrap();
    assert_eq!(project.len(), 0);
}

#[test]
fn tree_scenario_with_cycle() {
    let mut doc = AutoCommit::new();
    let mut project = Project::default();
    project.with_item(&item("A", None), &mut doc).ok().unwrap();
    project.with_item(&item("B", Some("A")), &mut doc).ok().unwrap();
    project.with_item(&item("C", Some("B")), &mut doc).ok().unwrap();
    assert_eq!(project.list_children(None).len(), 1);
    assert_eq!(project.list_children(Some("A")).len(), 1);
    project.without_item("C", &mut doc).ok().unwrap();
    project.with_updated_item("B", &[ItemUpdate::Parent(None)], &mut doc).ok().unwrap();
    assert_eq!(project.list_children(None).len(), 2);
    project.with_updated_item("B", &[ItemUpdate::Parent(Some("A".to_string()))], &mut doc).ok().unwrap();
    let err = project
        .with_updated_item("A", &[ItemUpdate::Parent(Some("B".to_string()))], &mut doc)
        .err()
        .unwrap();
    assert!(matches!(err, AuError::InvalidOperation(_, _)));
}

#[test]
fn children_listed_by_rank_then_time() {
    let mut doc = AutoCommit::new();
    let mut project = Project::default();
    project.with_item(&item("p", None), &mut doc).ok().unwrap();
    for (id, rank, at) in [("x", 1, 50), ("y", 5, 10), ("z", 1, 20), ("w", -2, 0)] {
        let mut it = item(id, Some("p"));
        it.rank = rank;
        it.at = at;
        project.with_item(&it, &mut doc).ok().unwrap();
    }
    let ids: Vec<String> = project.list_children(Some("p")).into_iter().map(|i| i.id).collect();
    assert_eq!(ids, vec!["y", "z", "x", "w"]);
    assert!(project.has_children(Some("p")));
    assert!(!project.has_children(Some("x")));
}

#[test]
fn content_type_change_switches_storage() {
    let mut doc = AutoCommit::new();
    let mut project = Project::default();
    let mut a = item("a", None);
    a.content = "text here".as_bytes().to_vec();
    project.with_item(&a, &mut doc).ok().unwrap();
    project
        .with_updated_item(
            "a",
            &[ItemUpdate::Content("image/png".to_string(), vec![1, 2, 3])],
            &mut doc,
        )
        .ok()
        .unwrap();
    let items = doc.get(automerge::ROOT, "items").unwrap().unwrap().1;
    let node = doc.get(&items, "a").unwrap().unwrap().1;
    let (value, _) = doc.get(&node, "content").unwrap().unwrap();
    assert!(value.is_bytes());
    project
        .with_updated_item(
            "a",
            &[ItemUpdate::Content("text/plain".to_string(), "caf\u{e9}".as_bytes().to_vec())],
            &mut doc,
        )
        .ok()
        .unwrap();
    let (value, text) = doc.get(&node, "content").unwrap().unwrap();
    assert!(matches!(value, automerge::Value::Object(ObjType::Text)));
    assert_eq!(doc.text(&text).unwrap(), "caf\u{e9}");
    let err = project
        .with_updated_item(
            "a",
            &[ItemUpdate::Content("text/plain".to_string(), vec![0xc3])],
            &mut doc,
        )
        .err()
        .unwrap();
    assert_eq!(err.to_string(), "'content': invalid: not valid UTF-8");
    let decoded = decode_project(&doc).ok().unwrap();
    assert_eq!(decoded.get_item("a").unwrap().content, "caf\u{e9}".as_bytes().to_vec());
}

#[test]
fn splice_keeps_text_object_and_unicode() {
    let mut doc = AutoCommit::new();
    let mut project = Project::default();
    let mut a = item("a", None);
    a.content = "caf\u{e9} cr\u{e8}me".as_bytes().to_vec();
    project.with_item(&a, &mut doc).ok().unwrap();
    let items = doc.get(automerge::ROOT, "items").unwrap().unwrap().1;
    let node = doc.get(&items, "a").unwrap().unwrap().1;
    let before = doc.get(&node, "content").unwrap().unwrap().1;
    project
        .with_updated_item(
            "a",
            &[ItemUpdate::Content("text/plain".to_string(), "caf\u{e8} cr\u{e8}me br\u{fb}l\u{e9}e".as_bytes().to_vec())],
            &mut doc,
        )
        .ok()
        .unwrap();
    let after = doc.get(&node, "content").unwrap().unwrap().1;
    assert_eq!(before, after);
    assert_eq!(doc.text(&after).unwrap(), "caf\u{e8} cr\u{e8}me br\u{fb}l\u{e9}e");
}

#[test]
fn decode_project_errors_nest_under_items() {
    let mut doc = AutoCommit::new();
    doc.put(automerge::ROOT, "items", 3).unwrap();
    assert_eq!(
        decode_project(&doc).err().unwrap().to_string(),
        "'items': incorrect type, expected map"
    );
    let items = doc.put_object(automerge::ROOT, "items", ObjType::Map).unwrap();
    let node = doc.put_object(&items, "x", ObjType::Map).unwrap();
    assert_eq!(
        decode_project(&doc).err().unwrap().to_string(),
        "'items': 'x': 'at': no such key"
    );
    doc.put(&node, "at", automerge::ScalarValue::Timestamp(5)).unwrap();
    doc.put(&node, "content", automerge::ScalarValue::Bytes(vec![])).unwrap();
    doc.put(&node, "content_type", "text/plain").unwrap();
    doc.put(&node, "rank", "high").unwrap();
    assert_eq!(
        decode_project(&doc).err().unwrap().to_string(),
        "'items': 'x': 'rank': incorrect type, expected i64"
    );
    doc.put(&node, "rank", 2).unwrap();
    let p = decode_project(&doc).ok().unwrap();
    assert_eq!(p.get_item("x").unwrap().rank, 2);
}

#[test]
fn new_store_starts_empty_and_round_trips() {
    let (mut project, mut doc) = new_store();
    assert_eq!(project.len(), 0);
    assert_eq!(decode_project(&doc).err().unwrap().to_string(), "'items': no such key");
    let mut a = item("a", None);
    a.content = "x".as_bytes().to_vec();
    project.with_item(&a, &mut doc).ok().unwrap();
    project.with_item(&item("b", Some("a")), &mut doc).ok().unwrap();
    let decoded = decode_project(&doc).ok().unwrap();
    assert!(same_index(&project, &decoded, &["a", "b"]));
}

#[test]
fn insert_stores_content_by_type() {
    let mut doc = AutoCommit::new();
    let mut project = Project::default();
    let mut t = item("t", None);
    t.content = "words".as_bytes().to_vec();
    let mut b = item("b", None);
    b.content_type = "image/png".to_string();
    b.content = vec![9, 8];
    project.with_item(&t, &mut doc).ok().unwrap();
    project.with_item(&b, &mut doc).ok().unwrap();
    let items = doc.get(automerge::ROOT, "items").unwrap().unwrap().1;
    let tn = doc.get(&items, "t").unwrap().unwrap().1;
    let (tv, tobj) = doc.get(&tn, "content").unwrap().unwrap();
    assert!(matches!(tv, automerge::Value::Object(ObjType::Text)));
    assert_eq!(doc.text(&tobj).unwrap(), "words");
    let bn = doc.get(&items, "b").unwrap().unwrap().1;
    let (bv, _) = doc.get(&bn, "content").unwrap().unwrap();
    assert!(bv.is_bytes());
}

#[test]
fn unchanged_content_is_left_alone() {
    let mut doc = AutoCommit::new();
    let mut project = Project::default();
    let mut a = item("a", None);
    a.content = "same".as_bytes().to_vec();
    project.with_item(&a, &mut doc).ok().unwrap();
    let items = doc.get(automerge::ROOT, "items").unwrap().unwrap().1;
    let node = doc.get(&items, "a").unwrap().unwrap().1;
    let before = doc.get(&node, "content").unwrap().unwrap().1;
    project
        .with_updated_item(
            "a",
            &[ItemUpdate::Content("application/x-note".to_string(), "same".as_bytes().to_vec())],
            &mut doc,
        )
        .ok()
        .unwrap();
    let (value, after) = doc.get(&node, "content").unwrap().unwrap();
    assert_eq!(before, after);
    assert!(matches!(value, automerge::Value::Object(ObjType::Text)));
    assert_eq!(project.get_item("a").unwrap().content_type, "application/x-note");
}

#[test]
fn later_failed_edit_keeps_its_kind_and_earlier_writes() {
    let mut doc = AutoCommit::new();
    let mut project = Project::default();
    project.with_item(&item("a", None), &mut doc).ok().unwrap();
    project.with_item(&item("b", Some("a")), &mut doc).ok().unwrap();
    let err = project
        .with_updated_item(
            "a",
            &[
                ItemUpdate::Class(Some("k".to_string())),
                ItemUpdate::Parent(Some("nope".to_string())),
                ItemUpdate::Rank(8),
            ],
            &mut doc,
        )
        .err()
        .unwrap();
    assert!(matches!(&err, AuError::NoSuchKey(k) if k == "nope"));
    let decoded = decode_project(&doc).ok().unwrap();
    assert_eq!(decoded.get_item("a").unwrap().class, Some("k".to_string()));
    assert_eq!(decoded.get_item("a").unwrap().rank, 0);
    assert!(project.get_item("a").unwrap().class.is_none());
}

#[test]
fn decode_errors_have_their_kinds() {
    let doc = AutoCommit::new();
    assert!(matches!(decode_project(&doc).err().unwrap(), AuError::NoSuchKey(k) if k == "items"));
    let mut doc = AutoCommit::new();
    let items = doc.put_object(automerge::ROOT, "items", ObjType::Map).unwrap();
    doc.put_object(&items, "x", ObjType::Map).unwrap();
    match decode_project(&doc).err().unwrap() {
        AuError::NestedError(outer, inner) => {
            assert_eq!(outer, "items");
            match *inner {
                AuError::NestedError(id, innermost) => {
                    assert_eq!(id, "x");
                    assert!(matches!(*innermost, AuError::NoSuchKey(k) if k == "at"));
                }
                other => panic!("unexpected {:?}", other),
            }
        }
        other => panic!("unexpected {:?}", other),
    }
}
