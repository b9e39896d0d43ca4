use raise_core::collections::CollectionsManager;
use raise_core::json::JsonValue;
use raise_core::json_text::to_json_text;
use raise_core::kernel::{join_path, AssetResolver, SystemBootstrapper};

fn obj(entries: Vec<(&str, JsonValue)>) -> JsonValue {
    JsonValue::Object(entries.into_iter().map(|(k, v)| (k.to_string(), v)).collect())
}

fn s(t: &str) -> JsonValue {
    JsonValue::String(t.to_string())
}

fn bootstrapper() -> SystemBootstrapper {
    SystemBootstrapper::new(CollectionsManager::new("dom", "mdb"), "dom".to_string(), "mdb".to_string())
}

#[test]
fn seed_files_of_upsert_operations_give_their_documents() {
    let ops = JsonValue::Array(vec![
        obj(vec![("type", s("upsert")), ("document", obj(vec![("_id", s("a"))]))]),
        obj(vec![("type", s("upsert")), ("document", obj(vec![("_id", s("b"))]))]),
    ]);
    let docs = SystemBootstrapper::extract_operation_documents(ops);
    let texts: Vec<String> = docs.iter().map(to_json_text).collect();
    assert_eq!(texts, vec![r#"{"_id":"a"}"#, r#"{"_id":"b"}"#]);

    let single = obj(vec![("type", s("upsert")), ("document", s("x"))]);
    let docs = SystemBootstrapper::extract_operation_documents(single);
    assert_eq!(docs.len(), 1);
    assert_eq!(to_json_text(&docs[0]), r#""x""#);
}

#[test]
fn other_seed_files_are_documents_themselves() {
    let mixed = JsonValue::Array(vec![
        obj(vec![("type", s("upsert")), ("document", s("x"))]),
        obj(vec![("type", s("delete"))]),
    ]);
    let docs = SystemBootstrapper::extract_operation_documents(mixed);
    assert_eq!(docs.len(), 1);
    assert!(matches!(&docs[0], JsonValue::Array(items) if items.len() == 2));

    let empty = JsonValue::Array(vec![]);
    let docs = SystemBootstrapper::extract_operation_documents(empty);
    assert_eq!(docs.len(), 1);
    assert_eq!(to_json_text(&docs[0]), "[]");

    let plain = obj(vec![("_id", s("p"))]);
    let docs = SystemBootstrapper::extract_operation_documents(plain);
    assert_eq!(to_json_text(&docs[0]), r#"{"_id":"p"}"#);
}

#[test]
fn factory_uris_are_moved_into_the_local_database() {
    let b = bootstrapper();
    let mut doc = obj(vec![
        ("onto", s("db://_system/ontology/core.jsonld")),
        ("schema", s("db://_system/master/schemas/v2/a.json")),
        ("asset", s("db://ai-assets/models/m.bin")),
        ("list", JsonValue::Array(vec![s("db://_system/raise/x"), s("plain"), JsonValue::Number(3)])),
    ]);
    b.reanchor_semantic_node(&mut doc);
    assert_eq!(
        to_json_text(&doc),
        r#"{"onto":"db://dom/mdb/ontologies/core.jsonld","schema":"db://dom/mdb/schemas/v2/a.json","asset":"db://dom/mdb/models/m.bin","list":["db://dom/mdb/x","plain",3]}"#
    );
}

#[test]
fn asset_locations() {
    assert_eq!(join_path("/a/b", "c.json"), "/a/b/c.json");
    assert_eq!(join_path("/a/b/", "c.json"), "/a/b/c.json");
    assert_eq!(join_path("", "c.json"), "c.json");
    assert_eq!(join_path("/a", "/abs"), "/abs");
    let (primary, shared) = AssetResolver::candidate_paths("/dom/db", "ai-assets/models", "m.gguf", "/root");
    assert_eq!(primary, "/dom/db/m.gguf");
    assert_eq!(shared, "/root/_system/ai-assets/models/m.gguf");
    let c = (primary.clone(), shared.clone());
    assert_eq!(AssetResolver::resolve_ai_file_sync(c.clone(), true, true), Some(primary));
    assert_eq!(AssetResolver::resolve_ai_file_sync(c.clone(), false, true), Some(shared));
    assert_eq!(AssetResolver::resolve_ai_file_sync(c, false, false), None);
    let ctx = AssetResolver::missing_file_context("/dom/db", "ai-assets/models", "m.gguf", "/root");
    assert_eq!(
        to_json_text(&ctx),
        r#"{"filename":"m.gguf","checked_primary":"/dom/db/m.gguf","checked_shared":"/root/_system/ai-assets/models/m.gguf"}"#
    );
}

#[test]
fn bootstrap_indexes() {
    let files = vec!["system/db/index.schema.json".to_string(), "users/user.schema.json".to_string()];
    let factory = SystemBootstrapper::factory_index_document("_system", "ai-assets", "v2", &files);
    assert_eq!(
        to_json_text(&factory),
        r#"{"$schema":"db://_system/ai-assets/schemas/v2/system/db/index_bootstrap.schema.json","handle":"_system_ai-assets","name":"Factory Assets","space":"_system","database":"ai-assets","collections":{},"schemas":{"v2":{"system/db/index.schema.json":{"file":"v2/system/db/index.schema.json"},"users/user.schema.json":{"file":"v2/users/user.schema.json"}}},"ontologies":{},"rules":{},"db_role":"factory"}"#
    );
    let master = bootstrapper().master_index_document("v2");
    assert_eq!(
        to_json_text(&master),
        r#"{"$schema":"db://dom/mdb/schemas/v2/system/db/index_bootstrap.schema.json","handle":"dom_mdb","name":"Master Database","space":"dom","database":"mdb","collections":{},"schemas":{},"ontologies":{},"rules":{},"db_role":"system"}"#
    );
    assert!(SystemBootstrapper::needs_factory_index(None));
    assert!(SystemBootstrapper::needs_factory_index(Some(&obj(vec![("name", s("old"))]))));
    assert!(!SystemBootstrapper::needs_factory_index(Some(&master)));
    assert_eq!(
        SystemBootstrapper::factory_schema_uri("_system", "ai-assets", "v2", "users/user.schema.json"),
        "db://_system/ai-assets/schemas/v2/users/user.schema.json"
    );
}

#[test]
fn factory_index_paths_use_forward_slashes() {
    let files = vec!["users\\user.schema.json".to_string()];
    let factory = SystemBootstrapper::factory_index_document("_system", "ai-assets", "v2", &files);
    let text = to_json_text(&factory);
    assert!(text.contains(r#""schemas":{"v2":{"users/user.schema.json":{"file":"v2/users/user.schema.json"}}}"#));
}

#[test]
fn bootstrap_ontologies_and_their_registration() {
    let rows = SystemBootstrapper::bootstrap_ontologies();
    assert_eq!(rows.len(), 9);
    assert_eq!(
        rows[0],
        (
            "raise".to_string(),
            "raise/@context/raise.jsonld".to_string(),
            "onto-raise-core".to_string(),
            "1.1.0".to_string()
        )
    );
    assert_eq!(rows[8].2, "onto-arcadia-epbs");
    assert!(rows[1..].iter().all(|r| r.0 == "arcadia" && r.3 == "1.1.0"));
    assert_eq!(
        bootstrapper().ontology_registration_uri("onto-raise-core"),
        "db://dom/mdb/collections/_ontologies/handle/onto-raise-core"
    );
    let docs = SystemBootstrapper::ontology_file_documents(JsonValue::Array(vec![s("a"), s("b")]));
    assert_eq!(docs.len(), 2);
    let docs = SystemBootstrapper::ontology_file_documents(obj(vec![("@id", s("x"))]));
    assert_eq!(docs.len(), 1);
    assert_eq!(to_json_text(&docs[0]), r#"{"@id":"x"}"#);
}
