use raise_core::json::JsonValue;
use raise_core::json_text::to_json_text;
use raise_core::system_index::{add_item_to_index, remove_item_from_index};

fn obj(entries: Vec<(&str, JsonValue)>) -> JsonValue {
    JsonValue::Object(entries.into_iter().map(|(k, v)| (k.to_string(), v)).collect())
}

fn s(t: &str) -> JsonValue {
    JsonValue::String(t.to_string())
}

#[test]
fn adding_to_an_empty_index_creates_the_collection() {
    let mut idx = obj(vec![("name", s("db"))]);
    add_item_to_index(&mut idx, "users", "u1", "db://x/y/schemas/v1/user.json");
    assert_eq!(
        to_json_text(&idx),
        r#"{"name":"db","collections":{"users":{"schema":"db://x/y/schemas/v1/user.json","items":[{"file":"u1.json"}]}}}"#
    );
}

#[test]
fn adding_twice_lists_the_file_once() {
    let mut idx = obj(vec![]);
    add_item_to_index(&mut idx, "users", "u1", "");
    add_item_to_index(&mut idx, "users", "u1", "");
    add_item_to_index(&mut idx, "users", "u2", "ignored");
    assert_eq!(
        to_json_text(&idx),
        r#"{"collections":{"users":{"schema":"","items":[{"file":"u1.json"},{"file":"u2.json"}]}}}"#
    );
}

#[test]
fn an_entry_without_items_gets_a_list() {
    let mut idx = obj(vec![("collections", obj(vec![("logs", obj(vec![("schema", s("s"))]))]))]);
    add_item_to_index(&mut idx, "logs", "l1", "other");
    assert_eq!(
        to_json_text(&idx),
        r#"{"collections":{"logs":{"schema":"s","items":[{"file":"l1.json"}]}}}"#
    );
    let mut null_idx = JsonValue::Null;
    add_item_to_index(&mut null_idx, "c", "x", "");
    assert_eq!(to_json_text(&null_idx), r#"{"collections":{"c":{"schema":"","items":[{"file":"x.json"}]}}}"#);
}

#[test]
fn removing_unlists_every_copy_of_the_file() {
    let mut idx = obj(vec![(
        "collections",
        obj(vec![(
            "users",
            obj(vec![(
                "items",
                JsonValue::Array(vec![
                    obj(vec![("file", s("u1.json"))]),
                    obj(vec![("file", s("u2.json"))]),
                    obj(vec![("file", s("u1.json"))]),
                ]),
            )]),
        )]),
    )]);
    assert!(remove_item_from_index(&mut idx, "users", "u1"));
    assert_eq!(to_json_text(&idx), r#"{"collections":{"users":{"items":[{"file":"u2.json"}]}}}"#);
    assert!(!remove_item_from_index(&mut idx, "users", "u1"));
    assert!(!remove_item_from_index(&mut idx, "groups", "u2"));
    assert_eq!(to_json_text(&idx), r#"{"collections":{"users":{"items":[{"file":"u2.json"}]}}}"#);
}

#[test]
fn add_then_remove_leaves_no_listing() {
    let mut idx = obj(vec![]);
    add_item_to_index(&mut idx, "users", "u1", "");
    assert!(remove_item_from_index(&mut idx, "users", "u1"));
    assert_eq!(to_json_text(&idx), r#"{"collections":{"users":{"schema":"","items":[]}}}"#);
}
