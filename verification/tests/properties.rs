use json_tree::{JsonValue, UpdateError, JSON};

fn uint(n: u64) -> JsonValue {
    JsonValue::UInt(n)
}

fn text(s: &str) -> JsonValue {
    JsonValue::Text(String::from(s))
}

#[test]
fn round_trip_text() {
    let doc = JSON::from_text(r#"{"a":[1,-2,null,true,"x"],"b":{"c":"d"}}"#).unwrap();
    let emitted = doc.to_text().unwrap();
    let again = JSON::from_text(&emitted).unwrap();
    assert_eq!(doc.root(), again.root());
}

#[test]
fn canonical_text_is_compact() {
    let doc = JSON::from_text("{\n  \"data\": [10, 20, 30]\n}").unwrap();
    assert_eq!(doc.to_text().unwrap(), "{\"data\":[10,20,30]}");
}

#[test]
fn typed_round_trip() {
    let mut typed = std::collections::BTreeMap::new();
    typed.insert(String::from("k1"), 7u64);
    typed.insert(String::from("k2"), 8u64);
    let as_text = serde_json_wasm::to_string(&typed).unwrap();
    let doc = JSON::from_text(&as_text).unwrap();
    let back: std::collections::BTreeMap<String, u64> =
        serde_json_wasm::from_str(&doc.to_text().unwrap()).unwrap();
    assert_eq!(typed, back);
}

#[test]
fn update_then_get_returns_value() {
    let mut doc = JSON::from_text(r#"{"data":[10,20,30]}"#).unwrap();
    doc.update("data.1", uint(99)).unwrap();
    assert_eq!(doc.get("data.1").unwrap(), &uint(99));
}

#[test]
fn map_upsert_creates_intermediates() {
    let mut doc = JSON::from_text("{}").unwrap();
    doc.update("a.b.c", uint(1)).unwrap();
    assert_eq!(doc.get("a.b.c").unwrap(), &uint(1));
    assert_eq!(
        doc.get("a.b").unwrap(),
        &JsonValue::Object(vec![(text("c"), uint(1))])
    );
}

#[test]
fn sequence_bounds() {
    let mut doc = JSON::from_text(r#"{"data":[10,20,30]}"#).unwrap();
    let err = doc.update("data.3", uint(99)).unwrap_err();
    assert_eq!(err, UpdateError::IndexOutOfBounds(String::from("3")));
    doc.update("data.1", uint(99)).unwrap();
    assert_eq!(
        doc.get("data").unwrap(),
        &JsonValue::List(vec![uint(10), uint(99), uint(30)])
    );
}

#[test]
fn absence_is_not_error() {
    let mut doc = JSON::from_text(r#"{"a":1}"#).unwrap();
    assert!(doc.get("b").is_none());
    assert!(doc.get("a.b").is_none());
    let err = doc.update("a.b", uint(2)).unwrap_err();
    assert_eq!(err, UpdateError::StructureMismatch(String::from("b")));
}

#[test]
fn non_index_key_on_sequence() {
    let mut doc = JSON::from_text(r#"{"data":[10,20,30]}"#).unwrap();
    let err = doc.update("data.x", uint(1)).unwrap_err();
    assert_eq!(err, UpdateError::InvalidIndex(String::from("x")));
}

#[test]
fn parse_error_on_malformed_text() {
    assert!(JSON::from_text("{").is_err());
    assert!(JSON::from_text("").is_err());
    assert!(JSON::from_binary(b"[1,").is_err());
}

#[test]
fn empty_path_reads_root_and_rejects_update() {
    let mut doc = JSON::from_text(r#"{"a":1}"#).unwrap();
    assert_eq!(
        doc.get("").unwrap(),
        &JsonValue::Object(vec![(text("a"), uint(1))])
    );
    let err = doc.update("", uint(2)).unwrap_err();
    assert_eq!(err, UpdateError::InvalidIndex(String::new()));
}

#[test]
fn empty_segment_is_a_key() {
    let doc = JSON::from_text(r#"{"a":{"":1}}"#).unwrap();
    assert_eq!(doc.get("a.").unwrap(), &uint(1));
}

#[test]
fn numeric_segment_on_object_is_a_key() {
    let mut doc = JSON::from_text(r#"{"0":5}"#).unwrap();
    assert_eq!(doc.get("0").unwrap(), &uint(5));
    doc.update("0", uint(6)).unwrap();
    assert_eq!(doc.get("0").unwrap(), &uint(6));
}

#[test]
fn oversized_index_is_invalid() {
    let mut doc = JSON::from_text(r#"{"data":[1]}"#).unwrap();
    assert!(doc.get("data.99999999999999999999999999").is_none());
    let err = doc
        .update("data.99999999999999999999999999", uint(1))
        .unwrap_err();
    assert_eq!(
        err,
        UpdateError::InvalidIndex(String::from("99999999999999999999999999"))
    );
}

#[test]
fn numeric_segment_under_created_map_is_a_key() {
    let mut doc = JSON::from_text("{}").unwrap();
    doc.update("a.b.2", uint(1)).unwrap();
    assert_eq!(doc.get("a.b.2").unwrap(), &uint(1));
    assert_eq!(
        doc.get("a.b").unwrap(),
        &JsonValue::Object(vec![(text("2"), uint(1))])
    );
}

#[test]
fn negative_numbers_and_scalars_round_trip() {
    let doc = JSON::from_text(r#"{"n":-7,"t":true,"f":false,"z":null,"s":"hi"}"#).unwrap();
    assert_eq!(doc.get("n").unwrap(), &JsonValue::Int(-7));
    assert_eq!(doc.get("t").unwrap(), &JsonValue::Bool(true));
    assert_eq!(doc.get("f").unwrap(), &JsonValue::Bool(false));
    assert_eq!(doc.get("z").unwrap(), &JsonValue::Null);
    assert_eq!(doc.get("s").unwrap(), &text("hi"));
}

#[test]
fn non_string_key_refuses_text() {
    let doc = JSON::from_value(JsonValue::Object(vec![(
        JsonValue::Bool(true),
        JsonValue::Null,
    )]));
    assert!(doc.to_text().is_none());
}

#[test]
fn duplicate_is_structurally_equal_and_independent() {
    let doc = JSON::from_text(r#"{"a":[1,{"b":null}],"c":"x"}"#).unwrap();
    let mut copy = doc.duplicate();
    assert_eq!(doc.root(), copy.root());
    copy.update("c", uint(1)).unwrap();
    assert_eq!(doc.get("c").unwrap(), &text("x"));
    assert_eq!(copy.get("c").unwrap(), &uint(1));
}

#[test]
fn update_is_visible_in_emitted_text() {
    let mut doc = JSON::from_text(r#"{"data":[10,20,30]}"#).unwrap();
    doc.update("data.1", uint(99)).unwrap();
    assert_eq!(doc.to_text().unwrap(), "{\"data\":[10,99,30]}");
}

#[test]
fn update_replaces_existing_key_in_place() {
    let mut doc = JSON::from_text(r#"{"a":1,"b":2}"#).unwrap();
    doc.update("a", uint(9)).unwrap();
    assert_eq!(
        doc.root(),
        &JsonValue::Object(vec![(text("a"), uint(9)), (text("b"), uint(2))])
    );
}
