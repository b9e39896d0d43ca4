use raise_core::capella::DiagramLayout;
use raise_core::json::JsonValue;
use raise_core::transform::EurlexParser;
use raise_core::vocabulary::VocabularyRegistry;
use raise_core::xml::{parse_eurlex_bytes, read_aird_bytes, read_capella_bytes, read_xml_steps, XmlError, XmlStep};

fn la_registry() -> VocabularyRegistry {
    let mut reg = VocabularyRegistry::new();
    let ctx = JsonValue::Object(vec![("la".to_string(), JsonValue::String("https://raise.io/la#".to_string()))]);
    let onto = JsonValue::Object(vec![("@context".to_string(), ctx)]);
    assert!(reg.load_layer_from_json("la", &onto).is_ok());
    reg
}

#[test]
fn steps_of_a_small_document() {
    let steps = read_xml_steps(b"<a x=\"1\">hi</a><b/>", true).unwrap();
    assert_eq!(steps.len(), 4);
    match &steps[0] {
        XmlStep::Tag { name, attrs, empty } => {
            assert!(!empty);
            assert_eq!(name, "a");
            assert_eq!(attrs, &vec![("x".to_string(), "1".to_string())]);
        }
        _ => panic!("start tag expected"),
    }
    assert!(matches!(&steps[1], XmlStep::Text(t) if t == "hi"));
    assert!(matches!(&steps[2], XmlStep::End(name) if name == "a"));
    assert!(matches!(&steps[3], XmlStep::Tag { name, empty: true, .. } if name == "b"));
}

#[test]
fn malformed_capella_file_is_a_parse_error() {
    let reg = la_registry();
    let r = read_capella_bytes(b"<root><a></b></root>", "bad.capella", &reg);
    assert_eq!(r.err(), Some(XmlError::Parse));
}

#[test]
fn capella_bytes_give_model_and_metadata() {
    let reg = la_registry();
    let xml = r#"<root>
        <ownedLogicalComponents xsi:type="org.polarsys.capella.core.data.la:LogicalComponent" id="LC_1" name="A"/>
        <ownedLogicalComponents xsi:type="org.polarsys.capella.core.data.la:LogicalComponent" id="LC_2">
        </ownedLogicalComponents>
        <other name="no id"/>
    </root>"#;
    let model = read_capella_bytes(xml.as_bytes(), "/work/demo.capella", &reg).unwrap();
    let comps = model.get_collection("la", "components");
    assert_eq!(comps.len(), 2);
    assert_eq!(comps[0].handle.as_str(), "LC_1");
    assert_eq!(comps[1].name.as_str(), "Unnamed");
    assert_eq!(model.meta.name, "demo.capella");
    assert_eq!(model.meta.element_count, 2);
}

#[test]
fn aird_bytes_give_layouts() {
    let xml = r#"<diagram>
        <children element="model.capella#UUID-1">
            <layoutConstraint x="12" y="-3" width="oops"></layoutConstraint>
        </children>
        <layoutConstraint x="99"></layoutConstraint>
    </diagram>"#;
    let layouts = read_aird_bytes(xml.as_bytes()).unwrap();
    assert_eq!(layouts.len(), 1);
    assert_eq!(layouts[0].0, "UUID-1");
    assert_eq!(layouts[0].1, DiagramLayout { x: 12, y: -3, width: 100, height: 100 });
}

#[test]
fn aird_empty_tags_are_not_layouts() {
    let xml = r#"<children element="m#U"><layoutConstraint x="1"/></children>"#;
    let layouts = read_aird_bytes(xml.as_bytes()).unwrap();
    assert!(layouts.is_empty());
}

#[test]
fn eurlex_bytes_are_read_from_text_nodes() {
    let xml = "<doc><p>Préambule 300 zinc (Zn): 800</p><p>Les matières fertilisantes RENURE</p>\
        <p>la limite est établie à 80 kg</p><p>cuivre (Cu): 300 mg</p></doc>";
    let d = parse_eurlex_bytes(xml.as_bytes()).unwrap();
    let texts = vec![
        "Préambule 300 zinc (Zn): 800".to_string(),
        "Les matières fertilisantes RENURE".to_string(),
        "la limite est établie à 80 kg".to_string(),
        "cuivre (Cu): 300 mg".to_string(),
    ];
    let e = EurlexParser::parse_texts(&texts);
    assert_eq!(d.extra_n_limit, Some(80));
    assert_eq!(d.max_cu, Some(300));
    assert_eq!(d.max_zn, None);
    assert_eq!(d.raw_text, e.raw_text);
}

#[test]
fn malformed_eurlex_is_a_parse_error() {
    assert_eq!(parse_eurlex_bytes(b"<doc><p>x</q></doc>").err(), Some(XmlError::Parse));
}
