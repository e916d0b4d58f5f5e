use au::decode::{decode_bool, decode_content, decode_i64, decode_string, decode_timestamp};
use au::doc::Node;
use automerge::transaction::Transactable;
use automerge::{AutoCommit, ObjType, ReadDoc, ScalarValue};

fn year_of(ms: i64) -> i32 {
    time::OffsetDateTime::from_unix_timestamp_nanos(ms as i128 * 1_000_000)
        .unwrap()
        .year()
}

#[test]
fn test_decode_string_missing() {
    let doc = AutoCommit::new();
    let res = decode_string(&doc, &Node::Root, "thing");
    assert!(res.is_ok());
    assert!(res.unwrap().is_none());
}

#[test]
fn test_decode_string_bad_type() {
    let mut doc = AutoCommit::new();
    doc.put(automerge::ROOT, "thing", 42).unwrap();
    let res = decode_string(&doc, &Node::Root, "thing");
    assert!(res.is_err());
    assert_eq!(res.err().unwrap().to_string(), "'thing': incorrect type, expected string");
}

#[test]
fn test_decode_string_some() {
    let mut doc = AutoCommit::new();
    doc.put(automerge::ROOT, "thing", "foo").unwrap();
    let res = decode_string(&doc, &Node::Root, "thing");
    assert!(res.is_ok());
    assert_eq!(res.ok().unwrap().unwrap(), "foo");
}

#[test]
fn test_decode_i64_missing() {
    let doc = AutoCommit::new();
    let res = decode_i64(&doc, &Node::Root, "thing");
    assert!(res.is_ok());
    assert!(res.unwrap().is_none());
}

#[test]
fn test_decode_i64_bad_type() {
    let mut doc = AutoCommit::new();
    doc.put(automerge::ROOT, "thing", "foo").unwrap();
    let res = decode_i64(&doc, &Node::Root, "thing");
    assert!(res.is_err());
    assert_eq!(res.err().unwrap().to_string(), "'thing': incorrect type, expected i64");
}

#[test]
fn test_decode_i64_some() {
    let mut doc = AutoCommit::new();
    doc.put(automerge::ROOT, "thing", 42).unwrap();
    let res = decode_i64(&doc, &Node::Root, "thing");
    assert!(res.is_ok());
    assert_eq!(res.ok().unwrap().unwrap(), 42);
}

#[test]
fn test_decode_bool_missing() {
    let doc = AutoCommit::new();
    let res = decode_bool(&doc, &Node::Root, "thing");
    assert!(res.is_ok());
    assert!(res.unwrap().is_none());
}

#[test]
fn test_decode_bool_bad_type() {
    let mut doc = AutoCommit::new();
    doc.put(automerge::ROOT, "thing", "foo").unwrap();
    let res = decode_bool(&doc, &Node::Root, "thing");
    assert!(res.is_err());
    assert_eq!(res.err().unwrap().to_string(), "'thing': incorrect type, expected bool");
}

#[test]
fn test_decode_bool_some() {
    let mut doc = AutoCommit::new();
    doc.put(automerge::ROOT, "thing", true).unwrap();
    let res = decode_bool(&doc, &Node::Root, "thing");
    assert!(res.is_ok());
    assert_eq!(res.ok().unwrap().unwrap(), true);
}

#[test]
fn test_decode_timestamp_missing() {
    let doc = AutoCommit::new();
    let res = decode_timestamp(&doc, &Node::Root, "thing");
    assert!(res.is_ok());
    assert!(res.unwrap().is_none());
}

#[test]
fn test_decode_timestamp_bad_type() {
    let mut doc = AutoCommit::new();
    doc.put(automerge::ROOT, "thing", "foo").unwrap();
    let res = decode_timestamp(&doc, &Node::Root, "thing");
    assert!(res.is_err());
    assert_eq!(res.err().unwrap().to_string(), "'thing': incorrect type, expected timestamp");
}

#[test]
fn test_decode_timestamp_some() {
    let mut doc = AutoCommit::new();
    doc.put(automerge::ROOT, "thing", ScalarValue::Timestamp(1_711_959_236_000)).unwrap();
    let res = decode_timestamp(&doc, &Node::Root, "thing");
    assert!(res.is_ok());
    assert_eq!(year_of(res.as_ref().unwrap().unwrap()), 2024);
}

#[test]
fn test_decode_content_missing() {
    let doc = AutoCommit::new();
    let res = decode_content(&doc, &Node::Root, "thing");
    assert!(res.is_ok());
    assert!(res.unwrap().is_none());
}

#[test]
fn test_decode_content_bad_type() {
    let mut doc = AutoCommit::new();
    doc.put(automerge::ROOT, "thing", 42).unwrap();
    let res = decode_content(&doc, &Node::Root, "thing");
    assert!(res.is_err());
    assert_eq!(res.err().unwrap().to_string(), "'thing': incorrect type, expected text");
}

#[test]
fn test_decode_content_some_bytes() {
    let mut doc = AutoCommit::new();
    doc.put(automerge::ROOT, "thing", ScalarValue::Bytes(vec![0, 1, 2])).unwrap();
    let res = decode_content(&doc, &Node::Root, "thing");
    assert!(res.is_ok());
    assert_eq!(res.unwrap().unwrap().len(), 3);
}

#[test]
fn test_decode_content_some_text() {
    let mut doc = AutoCommit::new();
    doc.put_object(automerge::ROOT, "thing", ObjType::Text).unwrap();
    let text = doc.get(automerge::ROOT, "thing").unwrap().unwrap().1;
    doc.update_text(&text, "hello world").unwrap();
    doc.splice_text(&text, 5, 0, ",").unwrap();
    let res = decode_content(&doc, &Node::Root, "thing");
    assert!(res.is_ok());
    assert_eq!(res.unwrap().unwrap().len(), 12);
}

#[test]
fn decode_timestamp_out_of_range_is_a_type_error() {
    let mut doc = AutoCommit::new();
    doc.put(automerge::ROOT, "late", ScalarValue::Timestamp(253_402_300_800_000)).unwrap();
    doc.put(automerge::ROOT, "last", ScalarValue::Timestamp(253_402_300_799_999)).unwrap();
    doc.put(automerge::ROOT, "early", ScalarValue::Timestamp(-377_705_116_800_001)).unwrap();
    doc.put(automerge::ROOT, "first", ScalarValue::Timestamp(-377_705_116_800_000)).unwrap();
    assert_eq!(
        decode_timestamp(&doc, &Node::Root, "late").err().unwrap().to_string(),
        "'late': incorrect type, expected timestamp"
    );
    assert!(decode_timestamp(&doc, &Node::Root, "early").is_err());
    assert_eq!(year_of(decode_timestamp(&doc, &Node::Root, "last").unwrap().unwrap()), 9999);
    assert_eq!(year_of(decode_timestamp(&doc, &Node::Root, "first").unwrap().unwrap()), -9999);
}

#[test]
fn decode_content_of_text_gives_its_bytes() {
    let mut doc = AutoCommit::new();
    let text = doc.put_object(automerge::ROOT, "thing", ObjType::Text).unwrap();
    doc.update_text(&text, "héllo").unwrap();
    let res = decode_content(&doc, &Node::Root, "thing").unwrap().unwrap();
    assert_eq!(res, "héllo".as_bytes().to_vec());
}

#[test]
fn decode_of_an_object_where_a_scalar_is_expected_fails() {
    let mut doc = AutoCommit::new();
    doc.put_object(automerge::ROOT, "thing", ObjType::Map).unwrap();
    assert_eq!(
        decode_string(&doc, &Node::Root, "thing").err().unwrap().to_string(),
        "'thing': incorrect type, expected string"
    );
    assert_eq!(
        decode_content(&doc, &Node::Root, "thing").err().unwrap().to_string(),
        "'thing': incorrect type, expected text"
    );
}
