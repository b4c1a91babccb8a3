// The persisted format must match what the usual structured-text encoding of
// the same data produces, so logs written by earlier builds keep loading.

use clickpath::codec::serialize;
use clickpath::event::ClickEvent;
use clickpath::event::ClickPath;
use clickpath::parser::deserialize;
use serde_json::Value;

fn click_value(x: i32, y: i32) -> Value {
    let mut tagged = serde_json::Map::new();
    tagged.insert(
        "Click".to_string(),
        Value::Array(vec![Value::from(x), Value::from(y)]),
    );
    Value::Object(tagged)
}

fn wait_value(d: i32) -> Value {
    let mut tagged = serde_json::Map::new();
    tagged.insert("Wait".to_string(), Value::from(d));
    Value::Object(tagged)
}

fn document(events: Vec<Value>) -> Value {
    let mut root = serde_json::Map::new();
    root.insert("clicks".to_string(), Value::Array(events));
    Value::Object(root)
}

#[test]
fn serializer_matches_reference_encoding() {
    let mut path = ClickPath::new();
    path.add_click(10, 20);
    path.add_wait(50);
    path.add_click(-7, 2147483647);
    let ours = String::from_utf8(serialize(&path)).unwrap();
    let reference = serde_json::to_string(&document(vec![
        click_value(10, 20),
        wait_value(50),
        click_value(-7, 2147483647),
    ]))
    .unwrap();
    assert_eq!(ours, reference);
}

#[test]
fn empty_document_matches_reference_encoding() {
    let ours = String::from_utf8(serialize(&ClickPath::new())).unwrap();
    let reference = serde_json::to_string(&document(vec![])).unwrap();
    assert_eq!(ours, reference);
}

#[test]
fn reference_encoding_is_accepted_by_the_reader() {
    let reference = serde_json::to_string(&document(vec![
        wait_value(1),
        click_value(-2147483648, 0),
        wait_value(1000),
    ]))
    .unwrap();
    let back = deserialize(reference.as_bytes()).expect("reference encoding must decode");
    assert_eq!(
        back.clicks,
        vec![
            ClickEvent::Wait(1),
            ClickEvent::Click(i32::MIN, 0),
            ClickEvent::Wait(1000),
        ]
    );
}
