use raise_core::collections::CollectionsManager;
use raise_core::json::JsonValue;
use raise_core::loading::{DdlError, DdlHandler};

fn obj(entries: Vec<(&str, JsonValue)>) -> JsonValue {
    JsonValue::Object(entries.into_iter().map(|(k, v)| (k.to_string(), v)).collect())
}

fn s(t: &str) -> JsonValue {
    JsonValue::String(t.to_string())
}

fn keys(v: &JsonValue) -> Vec<String> {
    match v {
        JsonValue::Object(es) => es.iter().map(|(k, _)| k.clone()).collect(),
        _ => panic!("expected an object"),
    }
}

fn ddl() -> DdlHandler {
    DdlHandler::new(CollectionsManager::new("space", "db"))
}

#[test]
fn schema_uris_of_a_database() {
    let d = ddl();
    assert_eq!(d.build_schema_uri("db://x/y/schemas/v1/a.json", "v7"), "db://x/y/schemas/v1/a.json");
    assert_eq!(d.build_schema_uri("https://example.org/s.json", "v7"), "https://example.org/s.json");
    assert_eq!(d.build_schema_uri("v1/users.schema.json", "v7"), "db://space/db/schemas/v1/users.schema.json");
    assert_eq!(d.build_schema_uri("//schemas/schemas/users.json", "v3"), "db://space/db/schemas/v3/users.json");
    assert_eq!(d.build_schema_uri("db/index.json", "v3"), "db://space/db/schemas/v3/db/index.json");
}

#[test]
fn domain_version_from_the_index() {
    let d = ddl();
    let idx = obj(vec![("$schema", s("db://space/db/schemas/v9/db/index.schema.json"))]);
    assert_eq!(d.get_domain_version(Some(&idx)), "v9");
    assert_eq!(d.get_domain_version(None), "v2");
    assert_eq!(d.get_domain_version(Some(&obj(vec![]))), "v2");
    assert_eq!(d.get_domain_version(Some(&obj(vec![("$schema", s("db://x/y/other.json"))]))), "v2");
}

#[test]
fn ordered_schema_puts_the_head_first() {
    let d = ddl();
    let schema = obj(vec![
        ("z", JsonValue::Number(1)),
        ("properties", obj(vec![("a", obj(vec![]))])),
        ("type", s("string")),
        ("title", s("T")),
        ("$id", s("old")),
        ("extra", JsonValue::Bool(true)),
    ]);
    let ordered = d.prepare_ordered_schema("db://space/db/schemas/v1/t.json", schema.duplicate(), false);
    assert_eq!(keys(&ordered), vec!["$schema", "$id", "title", "type", "unevaluatedProperties", "properties", "z", "extra"]);
    assert!(matches!(ordered.get("$id"), Some(JsonValue::String(u)) if u == "db://space/db/schemas/v1/t.json"));
    assert!(matches!(ordered.get("unevaluatedProperties"), Some(JsonValue::Bool(true))));
    assert!(matches!(ordered.get("type"), Some(JsonValue::String(t)) if t == "string"));
    let strict = d.prepare_ordered_schema("u", obj(vec![]), true);
    assert_eq!(keys(&strict), vec!["$schema", "$id", "type", "unevaluatedProperties"]);
    assert!(matches!(strict.get("unevaluatedProperties"), Some(JsonValue::Bool(false))));
    assert!(matches!(strict.get("type"), Some(JsonValue::String(t)) if t == "object"));
}

#[test]
fn property_definitions_are_changed_in_place() {
    let d = ddl();
    let mut schema = obj(vec![("type", s("object"))]);
    d.add_property(&mut schema, "name", obj(vec![("type", s("string"))]));
    let props = schema.get("properties").expect("properties");
    assert_eq!(keys(props), vec!["name"]);
    d.add_property(&mut schema, "age", obj(vec![("type", s("integer"))]));
    d.add_property(&mut schema, "email", obj(vec![]));
    assert_eq!(keys(schema.get("properties").unwrap()), vec!["name", "age", "email"]);
    assert!(d.alter_property(&mut schema, "age", obj(vec![("type", s("number"))])).is_ok());
    assert_eq!(keys(schema.get("properties").unwrap()), vec!["name", "age", "email"]);
    d.drop_property(&mut schema, "name");
    assert_eq!(keys(schema.get("properties").unwrap()), vec!["email", "age"]);
    d.drop_property(&mut schema, "missing");
    assert_eq!(keys(schema.get("properties").unwrap()), vec!["email", "age"]);

    let mut bare = obj(vec![]);
    assert!(matches!(d.alter_property(&mut bare, "x", obj(vec![])), Err(DdlError::PropertyNotFound(p)) if p == "x"));
    assert_eq!(keys(&bare).len(), 0);
    d.drop_property(&mut bare, "x");
    assert_eq!(keys(&bare).len(), 0);
    let mut null = JsonValue::Null;
    d.add_property(&mut null, "x", JsonValue::Bool(true));
    assert_eq!(keys(&null), vec!["properties"]);
}
