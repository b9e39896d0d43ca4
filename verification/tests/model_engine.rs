use raise_core::arcadia::{
    ArcadiaOntology, ArcadiaSemantics, ElementCategory, Layer, PROP_ID, PROP_NAME,
};
use raise_core::capella::{
    parse_i32, AirdParser, CapellaReader, CapellaXmiParser, DiagramLayout, XmlEvent,
};
use raise_core::json::JsonValue;
use raise_core::model::{ArcadiaElement, I18nString, ProjectModel, SlugString};
use raise_core::transform::{
    DialogueToModelTransformer, parse_target_domain,
    get_transformer, EurlexParsedData, EurlexParser, EurlexToModelTransformer, ModelTransformer,
    TransformationDomain, TransformerConfig, UniversalTransformer,
};
use raise_core::vocabulary::VocabularyRegistry;
use raise_core::xml::read_capella_bytes;

fn obj(entries: Vec<(&str, JsonValue)>) -> JsonValue {
    JsonValue::Object(entries.into_iter().map(|(k, v)| (k.to_string(), v)).collect())
}

fn s(t: &str) -> JsonValue {
    JsonValue::String(t.to_string())
}

fn make_el(kind: &str) -> ArcadiaElement {
    ArcadiaElement::with(SlugString::from_text("test_id"), I18nString::empty(), vec![kind.to_string()])
}

fn make_test_element(id: &str, name: &str) -> ArcadiaElement {
    let mut el = ArcadiaElement::with(
        SlugString::new(id).ok().expect("valid slug"),
        I18nString::Single(name.to_string()),
        vec!["la:LogicalComponent".to_string()],
    );
    el.properties.push(("description".to_string(), s("Test content")));
    el
}

#[test]
fn test_layer_detection_agnostic() {
    assert_eq!(make_el("oa:OperationalActor").get_layer(), Layer::OperationalAnalysis);
    assert_eq!(make_el("sa:SystemFunction").get_layer(), Layer::SystemAnalysis);
    assert_eq!(make_el("data:Class").get_layer(), Layer::Data);
    assert_eq!(make_el("transverse:Requirement").get_layer(), Layer::Transverse);
}

#[test]
fn test_category_detection_agnostic() {
    let comp = make_el("pa:PhysicalComponent");
    assert_eq!(comp.get_category(), ElementCategory::Component);
    assert!(comp.is_structural());
    let func = make_el("sa:SystemFunction");
    assert_eq!(func.get_category(), ElementCategory::Function);
    assert!(func.is_behavioral());
    let data = make_el("data:DataType");
    assert_eq!(data.get_category(), ElementCategory::Data);
}

#[test]
fn test_unknown_type_handling() {
    let unknown = make_el("http://external.org/UnknownThing");
    assert_eq!(unknown.get_layer(), Layer::Unknown);
    assert_eq!(unknown.get_category(), ElementCategory::Other);
}

#[test]
fn layer_by_uri_segment_and_indexes() {
    assert_eq!(make_el("https://raise.io/la#LogicalFunction").get_layer(), Layer::LogicalArchitecture);
    assert_eq!(make_el("https://x/common/Thing").get_layer(), Layer::Transverse);
    assert_eq!(Layer::Unknown.index(), 7);
    assert_eq!(Layer::OperationalAnalysis.index(), 0);
    assert_eq!(ElementCategory::Capability.index(), 6);
    let both = make_el("oa:ScenarioLink");
    assert!(both.is_behavioral());
    assert!(!both.is_structural());
}

#[test]
fn test_property_keys_integrity() {
    assert_eq!(PROP_NAME, "name");
    assert_eq!(PROP_ID, "id");
}

#[test]
fn ontology_lookups_through_registry() {
    let mut reg = VocabularyRegistry::new();
    let doc = obj(vec![
        ("@context", obj(vec![("la", s("https://raise.io/la#"))])),
        ("@graph", JsonValue::Array(vec![obj(vec![("@id", s("la:LogicalComponent")), ("@type", s("owl:Class"))])])),
    ]);
    assert!(reg.load_layer_from_json("la", &doc).is_ok());
    assert_eq!(ArcadiaOntology::get_uri(&reg, "la", "LogicalComponent"), Some("https://raise.io/la#LogicalComponent".to_string()));
    assert_eq!(ArcadiaOntology::get_uri(&reg, "zz", "X"), None);
    assert!(ArcadiaOntology::is_known_type(&reg, "https://raise.io/la#LogicalComponent"));
    assert!(!ArcadiaOntology::is_known_type(&reg, "la:Other"));
}

#[test]
fn test_layout_struct() {
    let l = DiagramLayout { x: 10, y: 20, width: 50, height: 60 };
    assert_eq!(l.x, 10);
}

#[test]
fn layouts_from_aird_events() {
    let events = vec![
        XmlEvent::Start { name: "children".to_string(), attrs: vec![("element".to_string(), "model.capella#UUID-1".to_string())] },
        XmlEvent::Start {
            name: "layoutConstraint".to_string(),
            attrs: vec![("x".to_string(), "12".to_string()), ("y".to_string(), "-3".to_string()), ("width".to_string(), "oops".to_string())],
        },
        XmlEvent::End { name: "children".to_string() },
        XmlEvent::Start { name: "layoutConstraint".to_string(), attrs: vec![("x".to_string(), "99".to_string())] },
    ];
    let layouts = AirdParser::extract_layout(&events);
    assert_eq!(layouts.len(), 1);
    assert_eq!(layouts[0].0, "UUID-1");
    assert_eq!(layouts[0].1, DiagramLayout { x: 12, y: -3, width: 100, height: 100 });
}

#[test]
fn integers_are_read_like_str_parse() {
    assert_eq!(parse_i32("42"), Some(42));
    assert_eq!(parse_i32("+7"), Some(7));
    assert_eq!(parse_i32("-2147483648"), Some(-2147483648));
    assert_eq!(parse_i32("2147483648"), None);
    assert_eq!(parse_i32(""), None);
    assert_eq!(parse_i32("-"), None);
    assert_eq!(parse_i32("1a"), None);
}

fn create_dummy(id: &str, kind: &str) -> ArcadiaElement {
    ArcadiaElement::with(SlugString::from_text(id), I18nString::empty(), vec![kind.to_string()])
}

#[test]
fn test_element_counting_logic() {
    let mut model = ProjectModel::new();
    model.add_element("sa", "functions", create_dummy("F1", "SystemFunction"));
    model.add_element("la", "components", create_dummy("C1", "LogicalComponent"));
    model.add_element("transverse", "requirements", create_dummy("R1", "Requirement"));
    let count = CapellaReader::count_elements(&model);
    assert_eq!(count, 3, "Le compteur doit inclure toutes les couches dynamiques");
}

#[test]
fn test_empty_model_metadata() {
    let model = ProjectModel::new();
    assert_eq!(CapellaReader::count_elements(&model), 0);
}

#[test]
fn read_model_sets_metadata() {
    let mut model = ProjectModel::new();
    model.add_element("sa", "functions", create_dummy("F1", "SystemFunction"));
    let model = CapellaReader::read_model(model, "/data/projects/demo.capella");
    assert_eq!(model.meta.name, "demo.capella");
    assert_eq!(model.meta.element_count, 1);
    let empty = CapellaReader::read_model(ProjectModel::new(), "/");
    assert_eq!(empty.meta.name, "unknown.capella");
}

#[test]
fn test_parse_capella_fragment_pure_graph() {
    let mut reg = VocabularyRegistry::new();
    let onto = obj(vec![("@context", obj(vec![("la", s("https://raise.io/la#"))]))]);
    assert!(reg.load_layer_from_json("la", &onto).is_ok());
    let xml = r#"
            <root>
                <ownedArchitectures xsi:type="org.polarsys.capella.core.data.la:LogicalArchitecture">
                    <ownedLogicalComponents xsi:type="org.polarsys.capella.core.data.la:LogicalComponent" 
                                           id="LC_1" name="EngineController" description="Main controller" />
                </ownedArchitectures>
            </root>
        "#;
    let model = read_capella_bytes(xml.as_bytes(), "fragment.capella", &reg).expect("Le parsing a échoué");
    let components = model.get_collection("la", "components");
    assert_eq!(components.len(), 1, "Le composant doit être dans la collection dynamique");
    let comp = &components[0];
    assert_eq!(comp.name.as_str(), "EngineController");
    let desc = comp.property("description").expect("description");
    assert_eq!(desc.as_str().expect("La propriété description n'est pas une chaîne de caractères (String)"), "Main controller");
    assert_eq!(comp.kind[0].as_str(), "https://raise.io/la#LogicalComponent");
}

#[test]
fn capella_tag_attributes_give_element() {
    let mut reg = VocabularyRegistry::new();
    let onto = obj(vec![("@context", obj(vec![("la", s("https://raise.io/la#"))]))]);
    assert!(reg.load_layer_from_json("la", &onto).is_ok());
    let attrs = vec![
        ("xsi:type".to_string(), "org.polarsys.capella.core.data.la:LogicalComponent".to_string()),
        ("id".to_string(), "LC_1".to_string()),
        ("name".to_string(), "EngineController".to_string()),
        ("description".to_string(), "Main controller".to_string()),
    ];
    let mut model = ProjectModel::new();
    let (element, xsi_type) = CapellaXmiParser::element_from_attributes(&attrs).expect("Le parsing a échoué");
    CapellaXmiParser::dispatch(&mut model, element, &xsi_type, &reg);
    let components = model.get_collection("la", "components");
    assert_eq!(components.len(), 1, "Le composant doit être dans la collection dynamique");
    let comp = &components[0];
    assert_eq!(comp.name.as_str(), "EngineController");
    let desc = comp.property("description").expect("description");
    assert_eq!(desc.as_str().expect("La propriété description n'est pas une chaîne de caractères (String)"), "Main controller");
    assert_eq!(comp.kind[0].as_str(), "https://raise.io/la#LogicalComponent");
}

#[test]
fn xmi_element_needs_id_and_type() {
    let no_id = vec![("xsi:type".to_string(), "x:Y".to_string())];
    assert!(CapellaXmiParser::element_from_attributes(&no_id).is_none());
    let unnamed = vec![("xsi:type".to_string(), "x:Y".to_string()), ("id".to_string(), "I".to_string())];
    let (el, _) = CapellaXmiParser::element_from_attributes(&unnamed).unwrap();
    assert_eq!(el.name.as_str(), "Unnamed");
}

#[test]
fn test_dynamic_insertion_and_retrieval() {
    let mut model = ProjectModel::new();
    model.add_element("la", "components", make_test_element("comp_1", "Radar"));
    let collection = model.get_collection("la", "components");
    assert_eq!(collection.len(), 1);
    assert_eq!(collection[0].name.as_str(), "Radar");
    assert_eq!(collection[0].property("description").unwrap().as_str().unwrap(), "Test content");
}

#[test]
fn test_global_search_find_element() {
    let mut model = ProjectModel::new();
    model.add_element("sa", "functions", make_test_element("f_1", "Func1"));
    model.add_element("oa", "actors", make_test_element("a_1", "Actor1"));
    let found = model.find_element("a_1");
    assert!(found.is_some());
    assert_eq!(found.unwrap().name.as_str(), "Actor1");
    assert!(model.find_element("missing").is_none());
}

#[test]
fn test_all_elements_iterator() {
    let mut model = ProjectModel::new();
    model.add_element("layer1", "col1", make_test_element("1", "E1"));
    model.add_element("layer1", "col2", make_test_element("2", "E2"));
    model.add_element("layer2", "col1", make_test_element("3", "E3"));
    assert_eq!(model.all_elements().len(), 3);
}

#[test]
fn test_empty_collection_safety() {
    let model = ProjectModel::new();
    assert!(model.get_collection("non_existent", "layer").is_empty());
}

#[test]
fn slugs_are_checked() {
    assert!(SlugString::new("comp_1").is_ok());
    assert!(SlugString::new("Bad Slug").is_err());
    let missing = SlugString::from_json(None, "fallback");
    assert_eq!(missing.as_str(), "fallback");
    let bad = SlugString::from_json(Some(&s("NOT OK")), "fb");
    assert_eq!(bad.as_str(), "fb");
}

#[test]
fn test_integration_facade() {
    let mut model = ProjectModel::new();
    let req = ArcadiaElement::with(
        SlugString::from_text("REQ-1"),
        I18nString::Single("Test".to_string()),
        vec!["Requirement".to_string()],
    );
    model.add_element("transverse", "requirements", req);
    assert_eq!(model.get_collection("transverse", "requirements").len(), 1);
    let transformer = get_transformer(TransformationDomain::Software);
    let dummy = obj(vec![("_id", s("TEST")), ("name", s("TestElement"))]);
    assert!(transformer.transform(&dummy).is_ok());
    let layer = Layer::SystemAnalysis;
    assert_eq!(layer, Layer::SystemAnalysis);
}

#[test]
fn test_universal_transformer_logic() {
    let mut model = ProjectModel::new();
    let config = TransformerConfig {
        domain: "test".into(),
        relation_key: "links".into(),
        target_layer: "layer1".into(),
        target_col: "col1".into(),
    };
    let transformer = UniversalTransformer::new(config);
    let target = ArcadiaElement::with(SlugString::from_text("T1"), I18nString::Single("Target".into()), vec![]);
    model.add_element("layer1", "col1", target);
    let mut source = ArcadiaElement::with(SlugString::from_text("S1"), I18nString::empty(), vec![]);
    source.properties.push(("links".into(), JsonValue::Array(vec![obj(vec![("id", s("T1"))])])));
    let result = transformer.transform_with_context(&source, &model).ok().unwrap();
    assert_eq!(result.get("domain").and_then(|d| d.as_str()), Some("test"));
    let relations = result.get("entity").and_then(|e| e.get("relations")).and_then(|r| r.as_array()).unwrap();
    assert_eq!(relations[0].get("name").and_then(|n| n.as_str()), Some("Target"));
}

#[test]
fn transform_wraps_the_entity() {
    let t = get_transformer(TransformationDomain::Hardware);
    let out = t.transform(&s("x")).ok().unwrap();
    assert_eq!(out.get("domain").and_then(|d| d.as_str()), Some("hardware"));
    assert_eq!(out.get("entity").and_then(|e| e.as_str()), Some("x"));
}

#[test]
fn test_transform_eurlex_data_to_arcadia_model() {
    let parsed_data = EurlexParsedData {
        raw_text: "Les fertilisants RENURE sont autorisés jusqu'à 80kg supplémentaires.".to_string(),
        extra_n_limit: Some(80),
        max_cu: Some(300),
        max_zn: Some(800),
    };
    let model = EurlexToModelTransformer::transform_to_model(&parsed_data).ok().unwrap();
    let requirements = model.get_collection("transverse", "requirements");
    assert_eq!(requirements.len(), 1, "Une exigence doit être créée");
    let req = &requirements[0];
    assert_eq!(req.handle.as_str(), "REQ_DIR_2026_288_RENURE");
    assert!(req.property("description").unwrap().as_str().unwrap().contains("RENURE"));
    let constraints = model.get_collection("transverse", "constraints");
    assert_eq!(constraints.len(), 1, "Une contrainte doit être créée");
    let cstr = &constraints[0];
    assert_eq!(cstr.handle.as_str(), "CSTR_RENURE_LIMITS");
    assert_eq!(cstr.property("max_n_limit").unwrap().as_u64().unwrap(), 250);
    assert_eq!(cstr.property("max_cu_mg_kg").unwrap().as_u64().unwrap(), 300);
    assert_eq!(cstr.property("max_zn_mg_kg").unwrap().as_u64().unwrap(), 800);
}

#[test]
fn eurlex_texts_are_read_in_section() {
    let texts = vec![
        "Préambule 300 zinc (Zn): 800".to_string(),
        "Les matières fertilisantes RENURE".to_string(),
        "la limite est établie à 80 kg".to_string(),
        "cuivre (Cu): 300 mg".to_string(),
    ];
    let d = EurlexParser::parse_texts(&texts);
    assert_eq!(d.extra_n_limit, Some(80));
    assert_eq!(d.max_cu, Some(300));
    assert_eq!(d.max_zn, None);
    assert_eq!(d.raw_text, "Les matières fertilisantes RENURE ");
}

#[test]
fn create_logical_component_from_intent() {
    let reg = VocabularyRegistry::new();
    let intent = obj(vec![
        ("name", s("Navigation System")),
        ("type", s("LogicalComponent")),
        ("layer", s("LA")),
        ("description", s("Gère le calcul de trajectoire")),
        ("priority", s("Critical")),
    ]);
    let el = DialogueToModelTransformer::create_element_from_intent(&intent, &obj(vec![]), &reg);
    assert_eq!(el.name.as_str(), "Navigation System");
    assert_eq!(el.handle.as_str(), "navigation_system");
    assert_eq!(el.kind, vec!["https://raise.io/la#LogicalComponent".to_string()]);
    assert_eq!(el.properties.len(), 2);
    assert_eq!(el.property("description").and_then(|v| v.as_str()), Some("Gère le calcul de trajectoire"));
    assert_eq!(el.property("priority").and_then(|v| v.as_str()), Some("Critical"));
}

#[test]
fn create_with_automatic_layer_fallback() {
    let reg = VocabularyRegistry::new();
    let intent = obj(vec![("name", s("Sensor")), ("type", s("PhysicalActor"))]);
    let el = DialogueToModelTransformer::create_element_from_intent(&intent, &obj(vec![]), &reg);
    assert!(el.kind.iter().any(|k| k.contains("/sa#PhysicalActor")));
    assert_eq!(el.handle.as_str(), "sensor");
}

#[test]
fn intent_types_go_through_the_dialogue_mappings() {
    let mut reg = VocabularyRegistry::new();
    let layer = obj(vec![
        ("@context", obj(vec![("la", s("https://raise.io/ontology/la#"))])),
        ("@graph", JsonValue::Array(vec![])),
    ]);
    assert!(reg.load_layer_from_json("la", &layer).is_ok());
    let mapping = obj(vec![(
        "dialogue_mappings",
        obj(vec![("LA", obj(vec![("prefix", s("la")), ("Component", s("LogicalComponent"))]))]),
    )]);
    let intent = obj(vec![("type", s("Component")), ("layer", s("LA"))]);
    let el = DialogueToModelTransformer::create_element_from_intent(&intent, &mapping, &reg);
    assert_eq!(el.kind, vec!["https://raise.io/ontology/la#LogicalComponent".to_string()]);
    assert_eq!(el.name.as_str(), "Unnamed");
    assert_eq!(el.handle.as_str(), "unnamed");
    let fallback = obj(vec![("type", s("Function")), ("layer", s("la"))]);
    let el = DialogueToModelTransformer::create_element_from_intent(&fallback, &obj(vec![]), &reg);
    assert_eq!(el.kind, vec!["https://raise.io/ontology/la#Function".to_string()]);
}

#[test]
fn code_generation_targets_name_their_domain() {
    assert!(matches!(parse_target_domain("Rust"), Some(TransformationDomain::Software)));
    assert!(matches!(parse_target_domain("code"), Some(TransformationDomain::Software)));
    assert!(matches!(parse_target_domain("VHDL"), Some(TransformationDomain::Hardware)));
    assert!(matches!(parse_target_domain("fpga"), Some(TransformationDomain::Hardware)));
    assert!(matches!(parse_target_domain("Doc"), Some(TransformationDomain::System)));
    assert!(matches!(parse_target_domain("ARCHITECTURE"), Some(TransformationDomain::System)));
    assert!(parse_target_domain("python").is_none());
    assert!(parse_target_domain("").is_none());
}
