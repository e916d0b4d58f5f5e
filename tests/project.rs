use au::decode::{decode_item, decode_project};
use au::doc::Node;
use au::item::{Item, ItemUpdate, Project, CONTENT_TYPE_DEFAULT};
use automerge::transaction::Transactable;
use automerge::{AutoCommit, ObjType, ScalarValue};

fn year_of(ms: i64) -> i32 {
    time::OffsetDateTime::from_unix_timestamp_nanos(ms as i128 * 1_000_000)
        .unwrap()
        .year()
}

fn item(id: &str, parent: Option<&str>) -> Item {
    let mut it = Item::default();
    it.id = id.to_string();
    it.parent = parent.map(|p| p.to_string());
    it
}

#[test]
fn item_test_decode_empty() {
    let mut doc = AutoCommit::new();
    doc.put_object(automerge::ROOT, "items", ObjType::Map).unwrap();
    let res = decode_project(&doc).ok().expect("failed to decode");
    assert_eq!(res.len(), 0);
}

#[test]
fn item_test_decode_item_missing() {
    let doc = AutoCommit::new();
    let res = decode_item(&doc, &Node::Root, "thing");
    assert!(res.is_ok());
    assert!(res.ok().unwrap().is_none());
}

#[test]
fn item_test_decode_item_bad_type() {
    let mut doc = AutoCommit::new();
    doc.put_object(automerge::ROOT, "some-id", ObjType::List).unwrap();
    let res = decode_item(&doc, &Node::Root, "some-id");
    assert!(res.is_err());
    assert_eq!(res.err().unwrap().to_string(), "'some-id': incorrect type, expected map");
}

#[test]
fn item_test_decode_item_missing_at() {
    let mut doc = AutoCommit::new();
    doc.put_object(automerge::ROOT, "some-id", ObjType::Map).unwrap();
    let res = decode_item(&doc, &Node::Root, "some-id");
    assert!(res.is_err());
    assert_eq!(res.err().unwrap().to_string(), "'some-id': 'at': no such key");
}

#[test]
fn item_test_decode_item_minimal() {
    let mut doc = AutoCommit::new();
    let ex_id = doc.put_object(automerge::ROOT, "some-id", ObjType::Map).unwrap();
    doc.put(&ex_id, "at", ScalarValue::Timestamp(1_711_959_236_000)).unwrap();
    doc.put(&ex_id, "content_type", ScalarValue::Str("text/markdown".into())).unwrap();
    let content_ex_id = doc.put_object(&ex_id, "content", ObjType::Text).unwrap();
    doc.update_text(&content_ex_id, "blah blah").unwrap();

    let res = decode_item(&doc, &Node::Root, "some-id");
    assert!(res.is_ok());
    let item = res.ok().unwrap().unwrap();
    assert_eq!(item.id.as_str(), "some-id");
    assert_eq!(year_of(item.at), 2024);
    assert_eq!(item.content_type.as_str(), "text/markdown");
    assert_eq!(item.content.len(), 9);
    assert_eq!(item.rank, 0);
    assert!(item.class.is_none());
    assert!(item.parent.is_none());
}

#[test]
fn item_test_decode_item_full() {
    let mut doc = AutoCommit::new();
    let ex_id = doc.put_object(automerge::ROOT, "some-id", ObjType::Map).unwrap();
    doc.put(&ex_id, "at", ScalarValue::Timestamp(1_711_959_236_000)).unwrap();
    doc.put(&ex_id, "content_type", ScalarValue::Str("text/markdown".into())).unwrap();
    doc.put(&ex_id, "parent", ScalarValue::Str("other-id".into())).unwrap();
    doc.put(&ex_id, "class", ScalarValue::Str("todo".into())).unwrap();
    doc.put(&ex_id, "rank", ScalarValue::Int(42)).unwrap();
    doc.put(&ex_id, "deleted", ScalarValue::Boolean(true)).unwrap();
    doc.put(&ex_id, "content", ScalarValue::Bytes(vec![])).unwrap();

    let res = decode_item(&doc, &Node::Root, "some-id");
    assert!(res.is_ok());
    let item = res.ok().unwrap().unwrap();
    assert_eq!(item.id.as_str(), "some-id");
    assert_eq!(year_of(item.at), 2024);
    assert_eq!(item.content_type.as_str(), "text/markdown");
    assert_eq!(item.content.len(), 0);
    assert_eq!(item.rank, 42);
    assert!(item.class.is_some());
    assert_eq!(item.class.unwrap().as_str(), "todo");
    assert_eq!(item.parent.unwrap().as_str(), "other-id");
}

#[test]
fn item_test_decode_project_empty() {
    let mut doc = AutoCommit::new();
    doc.put_object(automerge::ROOT, "items", ObjType::Map).unwrap();
    let mut project = decode_project(&doc).ok().unwrap();
    assert_eq!(project.len(), 0);
    assert!(!project.has_children(None));
    assert_eq!(
        project.without_item("thing", &mut doc).err().expect("").to_string(),
        "'thing': no such key"
    );
    assert_eq!(project.len(), 0);
    assert!(!project.has_children(None));
}

#[test]
fn item_test_decode_project_missing_items() {
    let doc = AutoCommit::new();
    let res = decode_project(&doc);
    assert!(res.is_err());
    assert_eq!(res.err().unwrap().to_string(), "'items': no such key");
}

#[test]
fn item_test_decode_project_some() {
    let mut doc = AutoCommit::new();
    let mut project = Project::default();
    let mut item = Item::default();
    item.id = "some-id".to_string();
    item.content_type = "text/markdown".to_string();
    item.content = "blah blah".as_bytes().to_vec();
    project.with_item(&item, &mut doc).ok().unwrap();
    let project = decode_project(&doc).ok().unwrap();
    assert_eq!(project.len(), 1);
    assert!(project.get_item("some-id").is_some());
    assert_eq!(project.list_children(None).len(), 1);
    assert!(project.has_children(None));
    assert_eq!(project.list_children(Some("foo")).len(), 0);
    assert!(!project.has_children(Some("foo")));
}

#[test]
fn item_test_project_with_item_tree() {
    let mut doc = AutoCommit::new();
    let mut project = Project::default();
    let item_a = item("item-a", None);
    let item_b = item("item-b", Some("item-a"));
    let item_c = item("item-c", Some("item-b"));
    project.with_item(&item_a, &mut doc).ok().unwrap();
    project.with_item(&item_b, &mut doc).ok().unwrap();
    project.with_item(&item_c, &mut doc).ok().unwrap();

    assert_eq!(project.len(), 3);
    assert_eq!(project.list_children(None).len(), 1);
    assert_eq!(project.list_children(Some("item-a")).len(), 1);
    assert_eq!(project.list_children(Some("item-b")).len(), 1);
    assert_eq!(project.list_children(Some("item-c")).len(), 0);

    project.without_item("item-c", &mut doc).ok().unwrap();

    assert_eq!(project.len(), 2);
    assert_eq!(project.list_children(None).len(), 1);
    assert_eq!(project.list_children(Some("item-a")).len(), 1);
    assert_eq!(project.list_children(Some("item-b")).len(), 0);

    project
        .with_updated_item("item-b", &[ItemUpdate::Parent(None)], &mut doc)
        .ok()
        .unwrap();

    assert_eq!(project.len(), 2);
    assert_eq!(project.list_children(None).len(), 2);
    assert_eq!(project.list_children(Some("item-a")).len(), 0);
    assert_eq!(project.list_children(Some("item-b")).len(), 0);

    project
        .with_updated_item("item-a", &[ItemUpdate::Parent(Some("item-b".to_string()))], &mut doc)
        .ok()
        .unwrap();

    assert_eq!(project.len(), 2);
    assert_eq!(project.list_children(None).len(), 1);
    assert_eq!(project.list_children(Some("item-a")).len(), 0);
    assert_eq!(project.list_children(Some("item-b")).len(), 1);

    // make sure a new document agrees

    project = decode_project(&doc).ok().unwrap();

    assert_eq!(project.len(), 2);
    assert_eq!(project.list_children(None).len(), 1);
    assert_eq!(project.list_children(Some("item-a")).len(), 0);
    assert_eq!(project.list_children(Some("item-b")).len(), 1);
}

fn set_content(project: &mut Project, doc: &mut AutoCommit, text: &str) {
    project
        .with_updated_item(
            "item-a",
            &[ItemUpdate::Content(CONTENT_TYPE_DEFAULT.to_string(), text.as_bytes().to_vec())],
            doc,
        )
        .ok()
        .unwrap();
}

#[test]
fn test_content_updates() {
    let mut doc = AutoCommit::new();
    let mut project = Project::default();

    // seed with an initial item
    let item_a = item("item-a", None);
    project.with_item(&item_a, &mut doc).ok().unwrap();
    doc.commit().unwrap();

    set_content(&mut project, &mut doc, "hello world");
    assert_eq!(project.get_item("item-a").unwrap().content.as_slice(), "hello world".as_bytes());
    doc.commit().unwrap();

    set_content(&mut project, &mut doc, "hello another world");
    assert_eq!(
        project.get_item("item-a").unwrap().content.as_slice(),
        "hello another world".as_bytes()
    );
    doc.commit().unwrap();

    set_content(&mut project, &mut doc, "hello another planet");
    assert_eq!(
        project.get_item("item-a").unwrap().content.as_slice(),
        "hello another planet".as_bytes()
    );
    doc.commit().unwrap();

    set_content(&mut project, &mut doc, "goodbye another planet");
    assert_eq!(
        project.get_item("item-a").unwrap().content.as_slice(),
        "goodbye another planet".as_bytes()
    );
    doc.commit().unwrap();

    let changes = doc.get_changes(&[]);
    assert_eq!(changes.len(), 5);
}
