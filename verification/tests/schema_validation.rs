use raise_core::json::JsonValue;
use raise_core::schema::{
    due_compute_plan, due_default, is_member_missing,
    normalize_path, resolve_path_uri, split_uri_fragment, SchemaRegistry, SchemaValidator,
    ValidationError,
};

fn obj(entries: Vec<(&str, JsonValue)>) -> JsonValue {
    JsonValue::Object(entries.into_iter().map(|(k, v)| (k.to_string(), v)).collect())
}

fn s(t: &str) -> JsonValue {
    JsonValue::String(t.to_string())
}

fn n(v: i64) -> JsonValue {
    JsonValue::Number(v)
}

fn setup_validator(schema: JsonValue) -> SchemaValidator {
    let mut reg = SchemaRegistry::new();
    reg.register("db://test/schema".to_string(), schema);
    match SchemaValidator::compile_with_registry("db://test/schema", &reg) {
        Ok(v) => v,
        Err(_) => panic!("schema not compiled"),
    }
}

#[test]
fn test_string_constraints() {
    let v = setup_validator(obj(vec![
        ("type", s("string")),
        ("minLength", n(3)),
        ("maxLength", n(5)),
        ("pattern", s("^[A-Z]+$")),
    ]));

    assert!(v.validate(&s("TEST")).is_ok());
    assert!(v.validate(&s("TE")).is_err());
    assert!(v.validate(&s("TESTING")).is_err());
    assert!(v.validate(&s("test")).is_err());
}

#[test]
fn string_errors_name_the_rule() {
    let v = setup_validator(obj(vec![("type", s("string")), ("minLength", n(3)), ("maxLength", n(5))]));
    assert!(matches!(v.validate(&s("TE")), Err(ValidationError::StringTooShort(3))));
    assert!(matches!(v.validate(&s("TESTING")), Err(ValidationError::StringTooLong(5))));
    assert!(matches!(v.validate(&n(4)), Err(ValidationError::TypeMismatch(_))));
}

#[test]
fn object_rules_in_order() {
    let schema = obj(vec![
        ("type", s("object")),
        ("required", JsonValue::Array(vec![s("name")])),
        ("properties", obj(vec![("name", obj(vec![("type", s("string"))])), ("age", obj(vec![("type", s("integer")), ("minimum", n(0))]))])),
        ("additionalProperties", JsonValue::Bool(false)),
    ]);
    let v = setup_validator(schema);
    assert!(v.validate(&obj(vec![("name", s("Ada")), ("age", n(36))])).is_ok());
    assert!(matches!(v.validate(&obj(vec![("age", n(36))])), Err(ValidationError::RequiredFieldMissing(k)) if k == "name"));
    assert!(matches!(
        v.validate(&obj(vec![("name", s("Ada")), ("age", n(-1))])),
        Err(ValidationError::NestedPropertyFail(k, _)) if k == "age"
    ));
    assert!(matches!(
        v.validate(&obj(vec![("name", s("Ada")), ("extra", n(1))])),
        Err(ValidationError::AdditionalPropertyForbidden(k)) if k == "extra"
    ));
    assert!(v.validate(&obj(vec![("name", s("Ada")), ("_meta", n(1)), ("$schema", s("x"))])).is_ok());
}

#[test]
fn array_rules() {
    let v = setup_validator(obj(vec![
        ("type", s("array")),
        ("minItems", n(1)),
        ("maxItems", n(2)),
        ("items", obj(vec![("type", s("boolean"))])),
    ]));
    assert!(v.validate(&JsonValue::Array(vec![JsonValue::Bool(true)])).is_ok());
    assert!(matches!(v.validate(&JsonValue::Array(vec![])), Err(ValidationError::ArrayTooSmall(1))));
    assert!(matches!(
        v.validate(&JsonValue::Array(vec![JsonValue::Bool(true), JsonValue::Bool(false), JsonValue::Bool(true)])),
        Err(ValidationError::ArrayTooLarge(2))
    ));
    assert!(matches!(
        v.validate(&JsonValue::Array(vec![JsonValue::Bool(true), n(1)])),
        Err(ValidationError::ArrayItemFail(1, _))
    ));
}

#[test]
fn references_are_followed() {
    let mut reg = SchemaRegistry::new();
    reg.register(
        "db://s/d/schemas/v2/base.json".to_string(),
        obj(vec![("defs", obj(vec![("id", obj(vec![("type", s("string"))]))]))]),
    );
    reg.register(
        "db://s/d/schemas/v2/user.json".to_string(),
        obj(vec![("type", s("object")), ("properties", obj(vec![("id", obj(vec![("$ref", s("base.json#/defs/id"))]))]))]),
    );
    let v = match SchemaValidator::compile_with_registry("db://s/d/schemas/v2/user.json", &reg) {
        Ok(v) => v,
        Err(_) => panic!("not compiled"),
    };
    assert!(v.validate(&obj(vec![("id", s("u1"))])).is_ok());
    assert!(v.validate(&obj(vec![("id", n(1))])).is_err());
}

#[test]
fn missing_schema_is_refused() {
    let reg = SchemaRegistry::new();
    assert!(matches!(
        SchemaValidator::compile_with_registry("db://nope", &reg),
        Err(ValidationError::SchemaNotInRegistry(_))
    ));
}

#[test]
fn registry_fallback_to_system_tree() {
    let mut reg = SchemaRegistry::new();
    reg.register("db://_system/_system/schemas/v1/a/b.json".to_string(), obj(vec![("title", s("B"))]));
    let found = reg.get_by_uri("db://other/db/schemas/v1/a/b.json");
    assert!(found.is_some());
    assert_eq!(found.unwrap().get("title").and_then(|t| t.as_str()), Some("B"));
    assert!(reg.get_by_uri("db://other/db/nothing").is_none());
    assert_eq!(reg.uri("x.json"), "db://unknown/unknown/schemas/v2/x.json");
    assert_eq!(reg.list_uris(), vec!["db://_system/_system/schemas/v1/a/b.json".to_string()]);
}

#[test]
fn registering_again_lists_a_uri_once() {
    let mut reg = SchemaRegistry::new();
    reg.register("db://a/b/schemas/v1/x.json".to_string(), obj(vec![("title", s("1"))]));
    reg.register("db://a/b/schemas/v1/y.json".to_string(), obj(vec![]));
    reg.register("db://a/b/schemas/v1/x.json".to_string(), obj(vec![("title", s("2"))]));
    let uris = reg.list_uris();
    assert_eq!(uris.len(), 2);
    assert!(uris.contains(&"db://a/b/schemas/v1/x.json".to_string()));
    assert!(uris.contains(&"db://a/b/schemas/v1/y.json".to_string()));
    let x = reg.get_by_uri("db://a/b/schemas/v1/x.json").unwrap();
    assert_eq!(x.get("title").and_then(|t| t.as_str()), Some("2"));
}

#[test]
fn registry_mount_points_are_searched_in_order() {
    let mut reg = SchemaRegistry::new();
    reg.set_mount_points(vec![("m".to_string(), "mdb".to_string())]);
    reg.register("db://m/mdb/schemas/v2/x.json".to_string(), obj(vec![("title", s("M"))]));
    reg.register("db://_system/_system/schemas/v2/x.json".to_string(), obj(vec![("title", s("S"))]));
    let found = reg.get_by_uri("db://a/b/schemas/v2/x.json").unwrap();
    assert_eq!(found.get("title").and_then(|t| t.as_str()), Some("M"));
}

#[test]
fn uri_helpers() {
    assert_eq!(resolve_path_uri("db://s/d/schemas/v2/a/b.json", "../c.json"), "db://s/d/schemas/v2/c.json");
    assert_eq!(resolve_path_uri("db://s/d/x.json", "db://o/p/q"), "db://o/p/q");
    assert_eq!(resolve_path_uri("db://s/d/x.json", ""), "db://s/d/x.json");
    assert_eq!(resolve_path_uri("a/b/c.json", "./d/e.json"), "a/b/d/e.json");
    assert_eq!(normalize_path("a/./b/../c"), "a/c");
    assert_eq!(normalize_path("/x//y/"), "x/y");
    let (f, frag) = split_uri_fragment("doc.json#/defs/a");
    assert_eq!(f, "doc.json");
    assert_eq!(frag, Some("#/defs/a".to_string()));
    let (f2, frag2) = split_uri_fragment("doc.json");
    assert_eq!(f2, "doc.json");
    assert_eq!(frag2, None);
}

#[test]
fn json_pointer_lookup() {
    let doc = obj(vec![("a", JsonValue::Array(vec![n(10), obj(vec![("b/c", s("x"))])]))]);
    assert_eq!(doc.pointer("/a/0").and_then(|v| v.as_i64()), Some(10));
    assert_eq!(doc.pointer("/a/1/b~1c").and_then(|v| v.as_str()), Some("x"));
    assert!(doc.pointer("/a/01").is_none());
    assert!(doc.pointer("a").is_none());
    assert!(doc.pointer("").is_some());
}

#[test]
fn compute_plans_and_defaults_that_are_due() {
    let plan = obj(vec![("op", s("uuid_v4"))]);
    let sub = obj(vec![("type", s("string")), ("x_compute", obj(vec![("update", s("if_missing")), ("plan", plan)]))]);
    let none = obj(vec![]);
    let (op, p) = due_compute_plan(&sub, &none, true).expect("due");
    assert_eq!(op, "uuid_v4");
    assert_eq!(p.get("op").and_then(|v| v.as_str()), Some("uuid_v4"));
    assert!(due_compute_plan(&sub, &none, false).is_none());
    let always = obj(vec![("x_compute", obj(vec![("update", s("always")), ("plan", obj(vec![("op", s("now"))]))]))]);
    assert!(due_compute_plan(&none, &always, false).is_some());
    let other = obj(vec![("x_compute", obj(vec![("update", s("never")), ("plan", obj(vec![("op", s("now"))]))]))]);
    assert!(due_compute_plan(&other, &none, true).is_none());
    let with_default = obj(vec![("type", s("integer")), ("default", JsonValue::Number(1))]);
    assert!(matches!(due_default(&with_default, &none, true), Some(JsonValue::Number(1))));
    assert!(due_default(&with_default, &none, false).is_none());
    let doc = obj(vec![("a", JsonValue::Null), ("b", JsonValue::Bool(true))]);
    assert!(is_member_missing(&doc, "a"));
    assert!(is_member_missing(&doc, "c"));
    assert!(!is_member_missing(&doc, "b"));
}
