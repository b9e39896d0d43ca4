use raise_core::json::JsonValue;
use raise_core::model::{ArcadiaElement, I18nString, ProjectModel, SlugString};
use raise_core::services::{analyze_impact, get_element_neighbors, get_model_docs};
use raise_core::traceability::ImpactError;
use raise_core::vocabulary::VocabularyRegistry;

fn s(t: &str) -> JsonValue {
    JsonValue::String(t.to_string())
}

fn element_of(id: &str, name: &str, props: Vec<(&str, JsonValue)>) -> ArcadiaElement {
    let mut el = ArcadiaElement::with(
        SlugString::from_text(id),
        I18nString::Single(name.to_string()),
        vec!["SystemFunction".to_string()],
    );
    for (k, v) in props {
        el.properties.push((k.to_string(), v));
    }
    el
}

fn chain_model() -> ProjectModel {
    let mut model = ProjectModel::new();
    model.add_element("sa", "functions", element_of("A", "Alpha", vec![("allocatedTo", s("B"))]));
    model.add_element("sa", "functions", element_of("B", "Beta", vec![("realizedBy", s("C"))]));
    model.add_element("sa", "functions", element_of("C", "Gamma", vec![]));
    model
}

fn member<'a>(doc: &'a JsonValue, key: &str) -> &'a JsonValue {
    match doc {
        JsonValue::Object(es) => &es.iter().find(|(k, _)| k == key).expect("member").1,
        _ => panic!("expected an object"),
    }
}

fn text(v: &JsonValue) -> String {
    match v {
        JsonValue::String(t) => t.clone(),
        _ => panic!("expected a string"),
    }
}

fn handles(v: &JsonValue) -> Vec<String> {
    match v {
        JsonValue::Array(items) => items
            .iter()
            .map(|d| match member(d, "handle") {
                JsonValue::String(t) => t.clone(),
                _ => panic!("handle is a string"),
            })
            .collect(),
        _ => panic!("expected an array"),
    }
}

#[test]
fn model_docs_are_keyed_by_handle() {
    let docs = get_model_docs(&chain_model());
    let keys: Vec<&str> = docs.iter().map(|(k, _)| k.as_str()).collect();
    assert_eq!(keys, vec!["A", "B", "C"]);
    assert_eq!(text(member(&docs[1].1, "name")), "Beta");
    assert_eq!(text(member(&docs[0].1, "allocatedTo")), "B");
}

#[test]
fn a_later_element_replaces_one_with_the_same_handle() {
    let mut model = chain_model();
    model.add_element("la", "functions", element_of("A", "Alpha bis", vec![]));
    let docs = get_model_docs(&model);
    assert_eq!(docs.len(), 3);
    assert_eq!(docs[0].0, "A");
    assert_eq!(text(member(&docs[0].1, "name")), "Alpha bis");
}

#[test]
fn impact_of_a_model_element() {
    let reg = VocabularyRegistry::new();
    let model = chain_model();
    let report = analyze_impact(&model, &reg, "A", 3).ok().expect("A is linked");
    assert_eq!(report.root_element_id, "A");
    let reached: Vec<(String, usize)> =
        report.impacted_elements.iter().map(|i| (i.element_id.clone(), i.distance)).collect();
    assert_eq!(reached, vec![("B".to_string(), 1), ("C".to_string(), 2)]);
    assert!(matches!(analyze_impact(&model, &reg, "Z", 3), Err(ImpactError::RootNotFound)));
}

#[test]
fn neighbours_of_an_element() {
    let reg = VocabularyRegistry::new();
    let model = chain_model();
    let n = get_element_neighbors(&model, &reg, "B");
    assert_eq!(text(member(&n, "center_id")), "B");
    assert_eq!(handles(member(&n, "upstream")), vec!["A".to_string()]);
    assert_eq!(handles(member(&n, "downstream")), vec!["C".to_string()]);
    let lone = get_element_neighbors(&model, &reg, "Z");
    assert!(handles(member(&lone, "upstream")).is_empty());
    assert!(handles(member(&lone, "downstream")).is_empty());
}
