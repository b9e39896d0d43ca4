use raise_core::json::JsonValue;
use raise_core::kernel::{partition_error_is_benign, partition_schema_uri, IndustrialPhase};
use raise_core::model::{ArcadiaElement, I18nString, ProjectModel, SlugString};
use raise_core::traceability::{
    AiGovernanceChecker, AuditGenerator, ComplianceChecker, Do178cChecker, ImpactAnalyzer,
    ImpactError, StatsError, Tracer,
};
use raise_core::validators::{
    ComplianceValidator, ConsistencyChecker, ModelValidator, OntologicalValidator, Severity,
};
use raise_core::vocabulary::{Class, RegistryState, VocabularyError, VocabularyRegistry};

fn obj(entries: Vec<(&str, JsonValue)>) -> JsonValue {
    JsonValue::Object(entries.into_iter().map(|(k, v)| (k.to_string(), v)).collect())
}

fn s(t: &str) -> JsonValue {
    JsonValue::String(t.to_string())
}

fn mock_element(id: &str, name: &str, description: Option<&str>) -> ArcadiaElement {
    let mut el = ArcadiaElement::with(
        SlugString::from_text(id),
        I18nString::Single(name.to_string()),
        vec!["sa:SystemFunction".to_string()],
    );
    if let Some(desc) = description {
        el.properties.push(("description".to_string(), s(desc)));
    }
    el
}

fn element_of(id: &str, kind: &str, props: Vec<(&str, JsonValue)>) -> ArcadiaElement {
    let mut el = ArcadiaElement::with(
        SlugString::from_text(id),
        I18nString::empty(),
        vec![kind.to_string()],
    );
    for (k, v) in props {
        el.properties.push((k.to_string(), v));
    }
    el
}

// ---------------------------------------------------------------------------
// Compliance (data quality)
// ---------------------------------------------------------------------------

#[test]
fn test_quality_check_valid_element() {
    let validator = ComplianceValidator::new();
    let el = mock_element("1", "Vérifier Pression", Some("Analyse les capteurs"));
    let issues = validator.check_quality(&el);
    assert!(issues.is_empty(), "Un élément bien rempli ne doit produire aucune issue");
}

#[test]
fn test_quality_check_naming_warning() {
    let validator = ComplianceValidator::new();

    let el_unnamed = mock_element("2", "Unnamed", Some("Desc"));
    let issues = validator.check_quality(&el_unnamed);
    assert!(issues.iter().any(|i| i.rule_id == "RULE_NAMING"));

    let el_empty = mock_element("3", "", Some("Desc"));
    let issues_empty = validator.check_quality(&el_empty);
    assert!(issues_empty.iter().any(|i| i.rule_id == "RULE_NAMING"));
}

#[test]
fn test_quality_check_documentation_info() {
    let validator = ComplianceValidator::new();
    let el_no_doc = mock_element("4", "Action", None);
    let issues = validator.check_quality(&el_no_doc);
    assert!(issues.iter().any(|i| i.rule_id == "RULE_DOC"));
    assert_eq!(issues[0].severity, Severity::Info);
}

#[test]
fn test_all_elements_scan_integration() {
    let validator = ComplianceValidator::new();
    let mut model = ProjectModel::new();
    model.add_element("oa", "actors", mock_element("A1", "Unnamed", None));
    model.add_element("sa", "functions", mock_element("F1", "Valid", Some("Doc")));

    let mut total_issues = 0;
    for el in model.all_elements() {
        total_issues += validator.check_quality(el).len();
    }
    assert_eq!(total_issues, 2, "Seul l'acteur sans nom et sans doc doit être relevé");
}

#[test]
fn quality_messages_and_order() {
    let validator = ComplianceValidator::new();
    let el = mock_element("A1", "  Copy of Pump ", Some("   "));
    let issues = validator.check_quality(&el);
    assert_eq!(issues.len(), 2);
    assert_eq!(issues[0].rule_id, "RULE_NAMING");
    assert_eq!(issues[0].severity, Severity::Warning);
    assert_eq!(issues[0].element_id, "A1");
    assert_eq!(issues[0].message, "L'élément possède un nom générique ou vide : 'Copy of Pump'.");
    assert_eq!(issues[1].rule_id, "RULE_DOC");
    assert_eq!(issues[1].message, "Documentation manquante pour l'élément 'Copy of Pump'.");

    let named = mock_element("A2", "Sans nom", Some("ok"));
    let issues = validator.check_quality(&named);
    assert_eq!(issues.len(), 1);
    assert_eq!(issues[0].rule_id, "RULE_NAMING");
}

// ---------------------------------------------------------------------------
// Ontology
// ---------------------------------------------------------------------------

fn oa_layer() -> JsonValue {
    obj(vec![
        ("@context", obj(vec![("oa", s("https://raise.io/oa#"))])),
        (
            "@graph",
            JsonValue::Array(vec![
                obj(vec![
                    ("@id", s("oa:Actor")),
                    ("@type", s("owl:Class")),
                    ("rdfs:label", s("Acteur")),
                    ("rdfs:subClassOf", s("oa:Entity")),
                ]),
                obj(vec![("@id", s("oa:Entity")), ("@type", s("owl:Class"))]),
                obj(vec![
                    ("@id", s("oa:involves")),
                    ("@type", s("owl:ObjectProperty")),
                    ("rdfs:domain", s("oa:Actor")),
                ]),
            ]),
        ),
    ])
}

#[test]
fn test_ontological_validation() {
    let reg = VocabularyRegistry::new();
    let validator = OntologicalValidator::new();

    let valid_draft = ArcadiaElement::with(
        SlugString::new("draft-001").ok().expect("valid slug"),
        I18nString::Single("Brouillon".to_string()),
        vec!["Unknown".to_string()],
    );
    let issues = validator.check_semantics(&reg, &valid_draft);
    assert_eq!(issues.len(), 0, "Un brouillon ('Unknown') ne doit pas lever d'erreur ontologique");

    let invalid_element = ArcadiaElement::with(
        SlugString::new("err-001").ok().expect("valid slug"),
        I18nString::Single("Erreur Magique".to_string()),
        vec!["MagicalEntity".to_string()],
    );
    let issues_err = validator.check_semantics(&reg, &invalid_element);
    assert_eq!(issues_err.len(), 1, "Une erreur doit être levée pour un type inexistant");
    assert_eq!(issues_err[0].rule_id, "ONTO-001");
}

#[test]
fn known_types_pass_the_ontology() {
    let mut reg = VocabularyRegistry::new();
    assert!(reg.load_layer_from_json("oa", &oa_layer()).is_ok());
    let validator = OntologicalValidator::new();
    let el = element_of("a1", "https://raise.io/oa#Actor", vec![]);
    assert_eq!(validator.check_semantics(&reg, &el).len(), 0);
    // Types are looked up as written, without prefix expansion.
    let el2 = element_of("a2", "oa:Actor", vec![]);
    assert_eq!(validator.check_semantics(&reg, &el2).len(), 1);
    let el3 = element_of("a3", "https://raise.io/oa#Ghost", vec![]);
    assert_eq!(validator.check_semantics(&reg, &el3).len(), 1);
}

#[test]
fn test_ancestry_inference() {
    let mut s = RegistryState::new();
    s.classes.push((
        "Actor".to_string(),
        Class {
            iri: "Actor".to_string(),
            label: String::new(),
            comment: String::new(),
            sub_class_of: Some("CoreNode".to_string()),
        },
    ));
    VocabularyRegistry::rebuild_ancestry(&mut s);
    let ancestors = s
        .ancestry
        .iter()
        .find(|(k, _)| k == "Actor")
        .map(|(_, v)| v)
        .expect("L'entrée d'ancêtre devrait exister.");
    assert!(ancestors.contains(&"CoreNode".to_string()));
}

#[test]
fn refused_layer_leaves_the_vocabulary() {
    let mut reg = VocabularyRegistry::new();
    assert!(reg.load_layer_from_json("oa", &oa_layer()).is_ok());
    assert!(reg.has_class("https://raise.io/oa#Actor"));
    let classes_before = reg.get_state().classes.len();

    let corrupt = obj(vec![("invalid", JsonValue::Bool(true))]);
    let result = reg.load_layer_from_json("fail", &corrupt);
    assert!(matches!(result, Err(VocabularyError::ContextMissing)));
    assert_eq!(reg.get_state().classes.len(), classes_before);
    assert!(reg.get_context_for_layer("fail").is_none());
    assert!(reg.get_context_for_layer("oa").is_some());
}

#[test]
fn loaded_classes_and_subtypes() {
    let mut reg = VocabularyRegistry::new();
    reg.load_layer_from_json("oa", &oa_layer()).ok().expect("layer loads");
    let actor = reg.get_class("https://raise.io/oa#Actor").expect("class");
    assert_eq!(actor.label, "Acteur");
    assert_eq!(actor.sub_class_of, Some("https://raise.io/oa#Entity".to_string()));
    assert!(reg.get_property("https://raise.io/oa#involves").is_some());
    let kinds = vec!["https://raise.io/oa#Actor".to_string()];
    assert!(reg.is_subtype_of(&kinds, "https://raise.io/oa#Entity"));
    assert!(!reg.is_subtype_of(&kinds, "https://raise.io/oa#Other"));
}

#[test]
fn interning_gives_back_the_text() {
    let mut reg = VocabularyRegistry::new();
    let uri = "https://raise.io/oa#OperationalActivity";
    let p1 = reg.intern(uri);
    let p2 = reg.intern(uri);
    assert_eq!(p1, uri);
    assert_eq!(p1, p2);
    assert!(VocabularyRegistry::is_iri(uri));
    assert!(VocabularyRegistry::is_iri("urn:x"));
    assert!(!VocabularyRegistry::is_iri("oa:Actor"));
}

#[test]
fn consistency_checker_reports_naming_and_domain() {
    let mut reg = VocabularyRegistry::new();
    reg.load_layer_from_json("oa", &oa_layer()).ok().expect("layer loads");
    let checker = ConsistencyChecker::new();

    let el = element_of("ok-1", "https://raise.io/oa#Actor", vec![]);
    let issues = checker.check_local_logic(&reg, &el);
    assert_eq!(issues.len(), 1);
    assert_eq!(issues[0].rule_id, "SYS_002");
    assert_eq!(issues[0].severity, Severity::Warning);

    let mut wrong = element_of("ok-2", "https://raise.io/oa#Entity", vec![("https://raise.io/oa#involves", s("x"))]);
    wrong.name = I18nString::Single("Pilot".to_string());
    let issues = checker.check_local_logic(&reg, &wrong);
    assert_eq!(issues.len(), 1);
    assert_eq!(issues[0].rule_id, "SEM_001");
    assert_eq!(issues[0].severity, Severity::Error);

    let mut right = element_of("ok-3", "https://raise.io/oa#Actor", vec![("https://raise.io/oa#involves", s("x"))]);
    right.name = I18nString::Single("Pilot".to_string());
    assert!(checker.check_local_logic(&reg, &right).is_empty());
}

// ---------------------------------------------------------------------------
// Kernel taxonomy
// ---------------------------------------------------------------------------

#[test]
fn test_industrial_phase_taxonomy() {
    assert_eq!(IndustrialPhase::System.to_string(), "system");
    assert_eq!(IndustrialPhase::Raise.to_string(), "raise");
}

#[test]
fn every_phase_has_a_lower_case_name() {
    let names: Vec<String> = IndustrialPhase::all().iter().map(|p| p.to_string()).collect();
    assert_eq!(
        names,
        vec![
            "system", "raise", "exploration", "modeling", "simulation", "integration",
            "production", "operation"
        ]
    );
}

// ---------------------------------------------------------------------------
// Traceability
// ---------------------------------------------------------------------------

#[test]
fn reverse_indexing_of_model_links() {
    let reg = VocabularyRegistry::new();
    let mut model = ProjectModel::new();
    model.add_element("pa", "components", element_of("ai_1", "AIModel", vec![]));
    model.add_element("pa", "components", element_of("rep_1", "QualityReport", vec![("model_id", s("ai_1"))]));
    let tracer = Tracer::from_legacy_model(&model, &reg);
    let upstream = tracer.get_upstream_ids("ai_1");
    assert_eq!(upstream.len(), 1, "Le lien inverse (upstream) n'a pas été détecté.");
    assert_eq!(upstream[0], "rep_1");
    assert_eq!(tracer.get_downstream_ids("rep_1"), vec!["ai_1".to_string()]);
    assert!(tracer.get_downstream_ids("ai_1").is_empty());
}

#[test]
fn repeated_links_are_counted_from_both_ends() {
    let reg = VocabularyRegistry::new();
    let docs = vec![
        obj(vec![("handle", s("a")), ("allocatedTo", JsonValue::Array(vec![s("b"), s("b"), s("c")]))]),
        obj(vec![("handle", s("d")), ("realizedBy", s("b"))]),
    ];
    let tracer = Tracer::from_json_list(docs, &reg);
    assert_eq!(tracer.get_downstream_ids("a"), vec!["b".to_string(), "b".to_string(), "c".to_string()]);
    assert_eq!(tracer.get_upstream_ids("b"), vec!["a".to_string(), "a".to_string(), "d".to_string()]);
    assert_eq!(tracer.get_upstream_ids("c"), vec!["a".to_string()]);
}

#[test]
fn classes_are_found_under_their_iri() {
    let mut reg = VocabularyRegistry::new();
    reg.load_layer_from_json("oa", &oa_layer()).ok().expect("layer loads");
    let iri = "https://raise.io/oa#Actor";
    assert!(reg.has_class(iri));
    assert_eq!(reg.get_class(iri).expect("class").iri, iri);
    assert!(!reg.has_class("https://raise.io/oa#Nothing"));
    assert!(reg.get_class("https://raise.io/oa#Nothing").is_none());
}

#[test]
fn impact_propagation() {
    let reg = VocabularyRegistry::new();
    let mut model = ProjectModel::new();
    model.add_element("sa", "functions", element_of("A", "SystemFunction", vec![("allocatedTo", s("B"))]));
    model.add_element("sa", "functions", element_of("B", "SystemFunction", vec![("realizedBy", s("C"))]));
    model.add_element("sa", "functions", element_of("C", "SystemFunction", vec![]));
    let tracer = Tracer::from_legacy_model(&model, &reg);
    assert!(!tracer.get_downstream_ids("A").is_empty(), "A doit avoir des éléments en aval");

    let analyzer = ImpactAnalyzer::new(tracer);
    let report = analyzer.analyze("A", 1).ok().expect("A is linked");
    assert_eq!(report.root_element_id, "A");
    assert!(report.impacted_elements.iter().any(|e| e.element_id == "B" && e.distance == 1));
    assert!(!report.impacted_elements.iter().any(|e| e.element_id == "C"));

    let deeper = analyzer.analyze("A", 3).ok().expect("A is linked");
    assert!(deeper.impacted_elements.iter().any(|e| e.element_id == "C" && e.distance == 2));
    assert!(!deeper.impacted_elements.iter().any(|e| e.element_id == "A"));

    assert!(matches!(analyzer.analyze("Z", 3), Err(ImpactError::RootNotFound)));
}

fn function_doc(handle: &str, name: Option<&str>, props: Option<JsonValue>) -> JsonValue {
    let mut entries = vec![("handle", s(handle)), ("kind", s("Function"))];
    if let Some(n) = name {
        entries.push(("name", s(n)));
    }
    if let Some(p) = props {
        entries.push(("properties", p));
    }
    obj(entries)
}

fn do178_docs() -> Vec<(String, JsonValue)> {
    vec![
        (
            "F1".to_string(),
            function_doc("F1", Some("Engine Controller"), Some(obj(vec![("allocatedTo", s("C1"))]))),
        ),
        ("F2".to_string(), function_doc("F2", Some("Radio Controller"), None)),
        (
            "C1".to_string(),
            obj(vec![("handle", s("C1")), ("kind", s("Component")), ("name", s("ECU"))]),
        ),
    ]
}

#[test]
fn do178_traceability_logic() {
    let reg = VocabularyRegistry::new();
    let docs = do178_docs();
    let tracer = Tracer::from_json_list(do178_docs().into_iter().map(|(_, d)| d).collect(), &reg);
    let report = Do178cChecker.check(&tracer, &docs).ok().expect("complete data");
    assert_eq!(report.rules_checked, 2);
    assert_eq!(report.violations.len(), 1);
    assert_eq!(report.violations[0].element_id, Some("F2".to_string()));
    assert_eq!(report.violations[0].rule_id, "DO178-TRACE-01");
    assert!(!report.passed);
    assert_eq!(report.standard, "DO-178C (Software Traceability)");

    let empty = Tracer::from_json_list(vec![], &reg);
    let report = Do178cChecker.check(&empty, &vec![]).ok().expect("empty");
    assert!(report.passed);
    assert_eq!(report.rules_checked, 0);

    let unnamed = vec![("F9".to_string(), function_doc("F9", None, None))];
    assert!(Do178cChecker.check(&empty, &unnamed).is_err());
}

fn ai_docs(with_evidence: bool) -> Vec<(String, JsonValue)> {
    let mut docs = vec![(
        "AI_1".to_string(),
        obj(vec![("handle", s("AI_1")), ("nature", s("AI_Model")), ("name", s("Boreas"))]),
    )];
    if with_evidence {
        docs.push((
            "QR_1".to_string(),
            obj(vec![("handle", s("QR_1")), ("kind", s("QualityReport")), ("model_id", s("AI_1"))]),
        ));
        docs.push((
            "XAI_1".to_string(),
            obj(vec![("handle", s("XAI_1")), ("kind", s("XaiFrame")), ("model_id", s("AI_1"))]),
        ));
    }
    docs
}

#[test]
fn ai_governance_audit() {
    let reg = VocabularyRegistry::new();
    let docs = ai_docs(true);
    let tracer = Tracer::from_json_list(ai_docs(true).into_iter().map(|(_, d)| d).collect(), &reg);
    let report = AiGovernanceChecker.check(&tracer, &docs).ok().expect("report");
    assert!(report.passed);
    assert_eq!(report.rules_checked, 1);
    assert!(report.violations.is_empty());

    let bare = ai_docs(false);
    let tracer = Tracer::from_json_list(ai_docs(false).into_iter().map(|(_, d)| d).collect(), &reg);
    let report = AiGovernanceChecker.check(&tracer, &bare).ok().expect("report");
    assert!(!report.passed);
    assert_eq!(report.violations.len(), 2);
    assert!(report.violations.iter().any(|v| v.rule_id == "AI-GOV-QR"));
    assert!(report.violations.iter().any(|v| v.rule_id == "AI-GOV-XAI"));
}

#[test]
fn stats_semantic_mapping() {
    let docs = vec![
        ("1".to_string(), obj(vec![("kind", s("Function"))])),
        ("2".to_string(), obj(vec![("@type", s("raise:SystemComponent"))])),
        ("3".to_string(), obj(vec![("kind", s("Requirement"))])),
        ("4".to_string(), obj(vec![("kind", s("Scenario"))])),
        ("5".to_string(), obj(vec![("kind", s("FunctionalChain"))])),
        ("6".to_string(), obj(vec![("kind", s("Unknown"))])),
    ];
    let stats = AuditGenerator::calculate_stats(&docs).ok().expect("stats");
    assert_eq!(stats.total_elements, 6);
    assert_eq!(stats.total_functions, 1);
    assert_eq!(stats.total_components, 1);
    assert_eq!(stats.total_requirements, 1);
    assert_eq!(stats.total_scenarios, 1);
    assert_eq!(stats.total_functional_chains, 1);

    let empty_doc = vec![("empty".to_string(), obj(vec![]))];
    let stats = AuditGenerator::calculate_stats(&empty_doc).ok().expect("stats");
    assert_eq!(stats.total_elements, 1);
    assert_eq!(stats.total_functions, 0);

    let corrupt = vec![("null_kind".to_string(), obj(vec![("kind", JsonValue::Null)]))];
    assert!(matches!(AuditGenerator::calculate_stats(&corrupt), Err(StatsError::DataTypeMismatch(_, _))));
}

#[test]
fn full_scans_cover_every_element() {
    let reg = VocabularyRegistry::new();
    let mut model = ProjectModel::new();
    model.add_element("oa", "actors", mock_element("a1", "Unnamed", None));
    model.add_element("sa", "functions", mock_element("f1", "Valid", Some("Doc")));
    let issues = ComplianceValidator::new().validate_full(&model, &reg);
    assert_eq!(issues.len(), 2);
    assert!(issues.iter().all(|i| i.element_id == "a1"));
    assert!(OntologicalValidator::new().validate_full(&model, &reg).is_empty());
    let el = mock_element("x", "Good", Some("doc"));
    assert!(ComplianceValidator::new().validate_element(&el, &model, &reg).is_empty());
}

#[test]
fn relations_are_checked_against_the_range() {
    let mut reg = VocabularyRegistry::new();
    let layer = obj(vec![
        ("@context", obj(vec![("oa", s("https://raise.io/oa#"))])),
        (
            "@graph",
            JsonValue::Array(vec![
                obj(vec![("@id", s("oa:Actor")), ("@type", s("owl:Class")), ("rdfs:subClassOf", s("oa:Entity"))]),
                obj(vec![("@id", s("oa:Entity")), ("@type", s("owl:Class"))]),
                obj(vec![
                    ("@id", s("oa:involves")),
                    ("@type", s("owl:ObjectProperty")),
                    ("rdfs:label", s("involves")),
                    ("rdfs:range", s("oa:Actor")),
                ]),
            ]),
        ),
    ]);
    reg.load_layer_from_json("oa", &layer).ok().expect("layer loads");
    let involves = "https://raise.io/oa#involves";
    let mut model = ProjectModel::new();
    model.add_element("oa", "entities", element_of("https://x.io/t1", "https://raise.io/oa#Entity", vec![]));
    model.add_element("oa", "actors", element_of("https://x.io/t2", "https://raise.io/oa#Actor", vec![]));
    model.add_element("oa", "entities", element_of("t3", "https://raise.io/oa#Entity", vec![]));
    let mut source = element_of(
        "src",
        "https://raise.io/oa#Actor",
        vec![(involves, JsonValue::Array(vec![s("https://x.io/t1"), s("https://x.io/t2"), s("t3"), s("https://x.io/none")]))],
    );
    source.name = I18nString::Single("Pilot".to_string());
    let checker = ConsistencyChecker::new();
    let rel = checker.check_relationships(&reg, &source, &model);
    assert_eq!(rel.len(), 1);
    assert_eq!(rel[0].rule_id, "SEM_002");
    assert_eq!(rel[0].severity, Severity::Warning);
    assert_eq!(
        rel[0].message,
        "Relation invalide : La cible '' est de type 'https://raise.io/oa#Entity', attendu 'https://raise.io/oa#Actor' pour la propriété 'involves'."
    );
    let all = checker.validate_element(&source, &model, &reg);
    assert_eq!(all.len(), 1);
    let long_id = "abcdefghijklmnopqrstu";
    model.add_element("oa", "entities", element_of(long_id, "https://raise.io/oa#Entity", vec![]));
    let mut second = element_of("src2", "https://raise.io/oa#Actor", vec![(involves, s(long_id))]);
    second.name = I18nString::Single("Pilot".to_string());
    assert_eq!(checker.check_relationships(&reg, &second, &model).len(), 1);
    let scan = checker.validate_full(&model, &reg);
    assert_eq!(scan.len(), 4);
}

#[test]
fn partitions_are_created_with_their_index_schema() {
    assert_eq!(
        partition_schema_uri(IndustrialPhase::Modeling, "_system", "master", "v2"),
        "db://_system/master/schemas/v2/system/db/index_mbse.schema.json"
    );
    assert_eq!(
        partition_schema_uri(IndustrialPhase::System, "_system", "master", "v2"),
        "db://_system/master/schemas/v2/system/db/index_bootstrap.schema.json"
    );
    assert_eq!(
        partition_schema_uri(IndustrialPhase::Production, "d", "b", "v1"),
        "db://d/b/schemas/v1/system/db/index_raise.schema.json"
    );
    assert!(partition_error_is_benign("database already initialized"));
    assert!(partition_error_is_benign("ERR_SCHEMA_NOT_IN_REGISTRY: x"));
    assert!(!partition_error_is_benign("disk full"));
}
