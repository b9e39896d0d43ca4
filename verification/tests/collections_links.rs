use raise_core::collections::{
    active_databases, check_system_index_schema, json_merge, parse_smart_link, reference_keys, semantic_prefix,
    should_resolve_key, require_document_schema, CollectionsManager, ManagerError, SmartLink,
};
use raise_core::json::JsonValue;
use raise_core::references::{referenced_links, resolve_document_references, resolve_refs_recursive};

fn obj(entries: Vec<(&str, JsonValue)>) -> JsonValue {
    JsonValue::Object(entries.into_iter().map(|(k, v)| (k.to_string(), v)).collect())
}

fn s(t: &str) -> JsonValue {
    JsonValue::String(t.to_string())
}

#[test]
fn test_parse_smart_link_local_valid() {
    let input = "ref:oa_actors:name:Sécurité";
    let res = parse_smart_link(input);
    assert!(res.is_some());
    if let SmartLink::Local { col, field, val } = res.unwrap() {
        assert_eq!(col, "oa_actors");
        assert_eq!(field, "name");
        assert_eq!(val, "Sécurité");
    } else {
        panic!("Aurait dû être un lien local");
    }
}

#[test]
fn test_parse_smart_link_absolute_valid() {
    let input = "db://_system/_system/prompts/handle/prompt_mission_initializer";
    let res = parse_smart_link(input);
    assert!(res.is_some());
    if let SmartLink::Absolute { space, db, col, field, val } = res.unwrap() {
        assert_eq!(space, "_system");
        assert_eq!(db, "_system");
        assert_eq!(col, "prompts");
        assert_eq!(field, "handle");
        assert_eq!(val, "prompt_mission_initializer");
    } else {
        panic!("Aurait dû être un lien absolu");
    }
}

#[test]
fn test_parse_smart_link_invalid_prefix() {
    assert!(parse_smart_link("uuid:1234-5678").is_none());
    assert!(parse_smart_link("http://google.com").is_none());
}

#[test]
fn test_parse_smart_link_missing_parts() {
    assert!(parse_smart_link("ref:oa_actors:name").is_none());
    assert!(parse_smart_link("db://_system/_system/prompts").is_none());
}

#[test]
fn smart_link_keeps_separators_in_last_part() {
    match parse_smart_link("ref:col:field:a:b") {
        Some(SmartLink::Local { val, .. }) => assert_eq!(val, "a:b"),
        _ => panic!("expected a local link"),
    }
    match parse_smart_link("db://s/d/c/f/v/w") {
        Some(SmartLink::Absolute { val, .. }) => assert_eq!(val, "v/w"),
        _ => panic!("expected an absolute link"),
    }
}

#[test]
fn smart_link_ignores_asset_uris() {
    assert!(parse_smart_link("db://_system/_system/schemas/v2/x.json").is_none());
    assert!(parse_smart_link("db://a/b/ontologies/c/d").is_none());
}

#[test]
fn merge_replaces_and_adds_members() {
    let mut a = obj(vec![("x", JsonValue::Number(1)), ("nested", obj(vec![("k", s("old"))]))]);
    let b = obj(vec![("nested", obj(vec![("k", s("new")), ("j", JsonValue::Bool(true))])), ("y", JsonValue::Null)]);
    json_merge(&mut a, b);
    assert_eq!(a.get("x").and_then(|v| v.as_i64()), Some(1));
    let nested = a.get("nested").unwrap();
    assert_eq!(nested.get("k").and_then(|v| v.as_str()), Some("new"));
    assert_eq!(nested.get("j").and_then(|v| v.as_bool()), Some(true));
    assert!(a.get("y").unwrap().is_null());
}

#[test]
fn merge_non_objects_replaces() {
    let mut a = JsonValue::Number(3);
    json_merge(&mut a, s("text"));
    assert_eq!(a.as_str(), Some("text"));
}

#[test]
fn system_index_schema_guard() {
    let ok = obj(vec![("$schema", s("db://_system/_system/schemas/v2/db/index.schema.json"))]);
    assert_eq!(check_system_index_schema(&ok).unwrap(), "db://_system/_system/schemas/v2/db/index.schema.json");
    let bad = obj(vec![("$schema", s("db://x/y/schemas/v2/other.json"))]);
    assert!(matches!(check_system_index_schema(&bad), Err(ManagerError::SecurityViolation(_))));
    let missing = obj(vec![]);
    assert!(matches!(check_system_index_schema(&missing), Err(ManagerError::MissingIndexSchema)));
}

#[test]
fn semantic_prefix_of_primary_type() {
    assert_eq!(semantic_prefix(&obj(vec![("@type", s("raise:User"))])), Some("raise".to_string()));
    assert_eq!(
        semantic_prefix(&obj(vec![("@type", JsonValue::Array(vec![s("oa:Actor"), s("sa:X")]))])),
        Some("oa".to_string())
    );
    assert_eq!(semantic_prefix(&obj(vec![("@type", s("http://x.org/T"))])), None);
    assert_eq!(semantic_prefix(&obj(vec![("@type", s("Plain"))])), None);
}

#[test]
fn reference_keys_and_resolution() {
    let schema = obj(vec![(
        "properties",
        obj(vec![
            ("owner", obj(vec![("$ref", s("#/defs/user_id"))])),
            ("tags", obj(vec![("items", obj(vec![("$ref", s("x_id"))]))])),
            ("label", obj(vec![("type", s("string"))])),
        ]),
    )]);
    let keys = reference_keys(&schema);
    assert_eq!(keys, vec!["owner".to_string(), "tags".to_string()]);
    assert!(should_resolve_key("owner", &keys));
    assert!(!should_resolve_key("label", &keys));
    let none: Vec<String> = Vec::new();
    assert!(should_resolve_key("label", &none));
    assert!(!should_resolve_key("_id", &none));
    assert!(!should_resolve_key("@type", &none));
}

#[test]
fn document_checksum_is_sha256_of_compact_json() {
    let mgr = raise_core::collections::CollectionsManager::new("space", "db");
    assert_eq!(
        mgr.compute_document_checksum(&obj(vec![])),
        "44136fa355b3678a1146ad16f7e8649e94fb4fc21fe77e8310c060f61caaff8a"
    );
    let doc = obj(vec![
        ("a", JsonValue::Number(1)),
        ("b", JsonValue::Array(vec![JsonValue::Bool(true), JsonValue::Null])),
    ]);
    assert_eq!(
        mgr.compute_document_checksum(&doc),
        "1cc69c7fa23616ca2ec3ee70d24390a6225c8832db8a4c814c7e0e7f942f8668"
    );
}

#[test]
fn reading_a_key_after_binding_it() {
    let mut doc = obj(vec![("a", s("1")), ("b", s("2"))]);
    doc.insert("a".to_string(), s("x"));
    doc.insert("c".to_string(), s("3"));
    assert!(matches!(doc.get("a"), Some(JsonValue::String(t)) if t == "x"));
    assert!(matches!(doc.get("b"), Some(JsonValue::String(t)) if t == "2"));
    assert!(matches!(doc.get("c"), Some(JsonValue::String(t)) if t == "3"));
    assert!(doc.get("d").is_none());
    let mut not_obj = s("plain");
    not_obj.insert("a".to_string(), s("x"));
    assert!(not_obj.get("a").is_none());
}

fn found(pairs: Vec<(&str, Option<&str>)>) -> Vec<(String, Option<String>)> {
    pairs.into_iter().map(|(k, v)| (k.to_string(), v.map(|t| t.to_string()))).collect()
}

fn text_at(doc: &JsonValue, key: &str) -> String {
    match doc.get(key) {
        Some(JsonValue::String(t)) => t.clone(),
        _ => panic!("expected a string member"),
    }
}

#[test]
fn links_of_a_document_in_order() {
    let doc = obj(vec![
        ("owner", s("ref:users:handle:alice")),
        ("tags", JsonValue::Array(vec![s("linux"), s("db://s/d/hosts/name/h1")])),
        ("schema", s("db://_system/master/schemas/v2/x.json")),
    ]);
    assert_eq!(
        referenced_links(&doc),
        vec!["ref:users:handle:alice".to_string(), "db://s/d/hosts/name/h1".to_string()]
    );
    assert!(referenced_links(&s("plain")).is_empty());
}

#[test]
fn references_are_replaced_by_identifiers() {
    let doc = obj(vec![
        ("owner", s("ref:users:handle:alice")),
        ("tags", JsonValue::Array(vec![s("linux"), s("db://s/d/hosts/name/h1")])),
    ]);
    let table = found(vec![("ref:users:handle:alice", Some("u-1")), ("db://s/d/hosts/name/h1", Some("h-9"))]);
    let out = resolve_refs_recursive(&doc, &table).ok().expect("all found");
    assert_eq!(text_at(&out, "owner"), "u-1");
    match out.get("tags") {
        Some(JsonValue::Array(items)) => {
            assert!(matches!(&items[0], JsonValue::String(t) if t == "linux"));
            assert!(matches!(&items[1], JsonValue::String(t) if t == "h-9"));
        }
        _ => panic!("tags stay an array"),
    }
}

#[test]
fn a_dangling_reference_is_refused() {
    let doc = JsonValue::Array(vec![s("ref:a:b:c"), s("ref:x:y:z")]);
    let table = found(vec![("ref:a:b:c", None), ("ref:x:y:z", Some("id"))]);
    assert!(matches!(resolve_refs_recursive(&doc, &table), Err(t) if t == "ref:a:b:c"));
    let missing = found(vec![]);
    assert!(matches!(resolve_refs_recursive(&s("ref:x:y:z"), &missing), Err(t) if t == "ref:x:y:z"));
}

#[test]
fn document_resolution_sets_metadata_aside() {
    let doc = obj(vec![
        ("$schema", s("db://_system/master/schemas/v2/u.json")),
        ("owner", s("ref:users:handle:alice")),
        ("_p2p", s("ref:keep:as:is")),
        ("@context", s("ctx")),
        ("note", s("ref:users:handle:bob")),
    ]);
    let table = found(vec![("ref:users:handle:alice", Some("u-1")), ("ref:users:handle:bob", Some("u-2"))]);
    let out = resolve_document_references(&doc, &vec![], &table).ok().expect("resolved");
    let keys: Vec<String> = match &out {
        JsonValue::Object(es) => es.iter().map(|(k, _)| k.clone()).collect(),
        _ => panic!("object"),
    };
    assert_eq!(keys, vec!["owner", "_p2p", "note", "$schema", "@context"]);
    assert_eq!(text_at(&out, "owner"), "u-1");
    assert_eq!(text_at(&out, "_p2p"), "ref:keep:as:is");
    assert_eq!(text_at(&out, "note"), "u-2");
    // with reference keys, only those are resolved
    let only_owner = resolve_document_references(&doc, &vec!["owner".to_string()], &table).ok().expect("resolved");
    assert_eq!(text_at(&only_owner, "owner"), "u-1");
    assert_eq!(text_at(&only_owner, "note"), "ref:users:handle:bob");
}

#[test]
fn catalog_lists_active_databases() {
    let dbs = vec![
        obj(vec![("handle", s("master")), ("domain_id", s("d1"))]),
        obj(vec![("handle", s("old")), ("domain_id", s("d1")), ("status", s("inactive"))]),
        obj(vec![("handle", s("lab")), ("domain_id", s("d2")), ("status", s("active"))]),
        obj(vec![("handle", s("orphan"))]),
        obj(vec![("handle", JsonValue::Number(3)), ("domain_id", s("d3"))]),
    ];
    assert_eq!(
        active_databases(&dbs),
        vec![("master".to_string(), "d1".to_string()), ("lab".to_string(), "d2".to_string())]
    );
}

#[test]
fn formatted_links_read_back() {
    let (col, field, val) = ("users", "email", "a:b:c");
    match parse_smart_link(&format!("ref:{}:{}:{}", col, field, val)) {
        Some(SmartLink::Local { col: c, field: f, val: v }) => {
            assert_eq!((c.as_str(), f.as_str(), v.as_str()), (col, field, val));
        }
        _ => panic!("local link expected"),
    }
    let (sp, db, c, f, v) = ("space", "main", "docs", "handle", "x/y/z");
    match parse_smart_link(&format!("db://{}/{}/{}/{}/{}", sp, db, c, f, v)) {
        Some(SmartLink::Absolute { space, db: d, col, field, val }) => {
            assert_eq!(
                (space.as_str(), d.as_str(), col.as_str(), field.as_str(), val.as_str()),
                (sp, db, c, f, v)
            );
        }
        _ => panic!("absolute link expected"),
    }
}

#[test]
fn documents_need_a_schema() {
    let mut doc = obj(vec![("name", s("x"))]);
    let uri = require_document_schema("users", None, Some("db://s/d/schemas/v1/u.json".to_string()), &mut doc).unwrap();
    assert_eq!(uri, "db://s/d/schemas/v1/u.json");
    assert_eq!(doc.get("$schema").and_then(|v| v.as_str()), Some("db://s/d/schemas/v1/u.json"));
    let mut bare = obj(vec![("name", s("x"))]);
    match require_document_schema("users", Some(String::new()), None, &mut bare) {
        Err(ManagerError::StrictSchemaRequired(c)) => assert_eq!(c, "users"),
        _ => panic!("refusal expected"),
    }
    assert!(bare.get("$schema").is_none());
}

#[test]
fn replication_stamp() {
    let mgr = CollectionsManager::new("space", "db");
    let mut doc = obj(vec![("a", JsonValue::Number(1)), ("_p2p", obj(vec![]))]);
    mgr.stamp_p2p(&mut doc, "ws-1");
    let p2p = doc.get("_p2p").expect("stamp");
    let expected = mgr.compute_document_checksum(&obj(vec![("a", JsonValue::Number(1))]));
    assert_eq!(p2p.get("checksum").and_then(|v| v.as_str()), Some(expected.as_str()));
    assert_eq!(p2p.get("origin_node").and_then(|v| v.as_str()), Some("ws-1"));
    assert!(p2p.get("last_sync_at").and_then(|v| v.as_str()).unwrap().ends_with("+00:00"));
    let mut plain = obj(vec![("a", JsonValue::Number(1))]);
    mgr.stamp_p2p(&mut plain, "ws-1");
    assert!(plain.get("_p2p").is_none());
}
