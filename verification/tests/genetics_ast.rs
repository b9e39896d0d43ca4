use raise_core::genetics::{
    allocation_is_valid, AstGenome, AstNode, CodeGenEvaluator, DeploymentEvaluator, DeploymentGenome,
    generated_artifacts, genetics_params, model_component_ids, model_exchange_ends, model_function_ids,
    GeneticsAdapter, GeneticsError,
};
use raise_core::model::{ArcadiaElement, I18nString, ProjectModel, SlugString};
use raise_core::json::JsonValue;

fn create_mock_ast() -> AstNode {
    AstNode::Block {
        name: "mod_kernel".to_string(),
        children: vec![
            AstNode::Function {
                signature: "fn boot()".to_string(),
                body: "{ println!(\"boot\"); }".to_string(),
            },
            AstNode::Function {
                signature: "fn halt()".to_string(),
                body: "{ panic!(\"halt\"); }".to_string(),
            },
        ],
    }
}

fn injected() -> AstNode {
    AstNode::Block {
        name: "mod_injected".to_string(),
        children: vec![AstNode::Function {
            signature: "fn hack()".to_string(),
            body: "{}".to_string(),
        }],
    }
}

fn signature_of(n: &AstNode) -> String {
    match n {
        AstNode::Function { signature, .. } => signature.clone(),
        AstNode::Block { name, .. } => panic!("expected a function, found block {}", name),
    }
}

#[test]
fn test_ast_size_calculation() {
    let root = create_mock_ast();
    assert_eq!(root.size(), 3, "La taille de l'AST doit être de 3.");

    let empty_root = AstNode::Block {
        name: "empty".to_string(),
        children: vec![],
    };
    assert_eq!(empty_root.size(), 1, "Un bloc vide vaut 1 nœud.");
}

#[test]
fn test_ast_node_retrieval_by_index() {
    let root = create_mock_ast();

    let mut idx = 0;
    let node_0 = root.get_node(0, &mut idx).expect("Nœud 0 introuvable");
    match node_0 {
        AstNode::Block { name, .. } => assert_eq!(name, "mod_kernel"),
        _ => panic!("Le nœud 0 devrait être un Block"),
    }

    idx = 0;
    let node_1 = root.get_node(1, &mut idx).expect("Nœud 1 introuvable");
    match node_1 {
        AstNode::Function { signature, .. } => assert_eq!(signature, "fn boot()"),
        _ => panic!("Le nœud 1 devrait être une Function"),
    }

    idx = 0;
    let node_2 = root.get_node(2, &mut idx).expect("Nœud 2 introuvable");
    match node_2 {
        AstNode::Function { signature, .. } => assert_eq!(signature, "fn halt()"),
        _ => panic!("Le nœud 2 devrait être une Function"),
    }

    idx = 0;
    let node_3 = root.get_node(3, &mut idx);
    assert!(node_3.is_none(), "L'index hors limite doit retourner None");
}

#[test]
fn test_ast_node_mutation_by_index() {
    let mut root = create_mock_ast();
    let mut idx = 0;

    if let Some(AstNode::Function { signature, .. }) = root.get_node_mut(2, &mut idx) {
        *signature = "async fn halt()".to_string();
    } else {
        panic!("Échec de l'emprunt mutable du nœud 2");
    }

    idx = 0;
    if let Some(AstNode::Function { signature, .. }) = root.get_node(2, &mut idx) {
        assert_eq!(
            signature, "async fn halt()",
            "La mutation doit persister dans l'arbre principal"
        );
    }
}

#[test]
fn test_ast_genome_crossover_validity() {
    let p1 = AstGenome {
        root: create_mock_ast(),
    };
    let p2 = AstGenome { root: injected() };

    for _ in 0..10 {
        let child = p1.crossover(&p2);
        let child_size = child.root.size();
        assert!(
            child_size > 0,
            "L'enfant doit toujours avoir une taille > 0"
        );
        assert!(
            child_size <= 4,
            "L'enfant ne peut pas dépasser la taille mathématique maximale d'insertion"
        );
    }
}

#[test]
fn get_node_counts_past_the_tree_when_absent() {
    let root = create_mock_ast();
    let mut idx = 10;
    assert!(root.get_node(2, &mut idx).is_none());
    assert_eq!(idx, 13);
    let mut idx = 5;
    let n = root.get_node(6, &mut idx).expect("node 6 from 5");
    assert_eq!(signature_of(&n), "fn boot()");
    assert_eq!(idx, 6);
}

#[test]
fn get_node_mut_misses_leave_tree_unchanged() {
    let mut root = create_mock_ast();
    let mut idx = 0;
    assert!(root.get_node_mut(7, &mut idx).is_none());
    assert_eq!(idx, 3);
    assert_eq!(root.size(), 3);
}

#[test]
fn replace_node_at_swaps_a_subtree() {
    let mut root = create_mock_ast();
    root.replace_node_at(1, injected());
    assert_eq!(root.size(), 4);
    let mut idx = 0;
    let n = root.get_node(2, &mut idx).expect("node 2");
    assert_eq!(signature_of(&n), "fn hack()");
    let mut idx = 0;
    let n = root.get_node(3, &mut idx).expect("node 3");
    assert_eq!(signature_of(&n), "fn halt()");
}

#[test]
fn crossover_at_grafts_chosen_subtree() {
    let p1 = AstGenome {
        root: create_mock_ast(),
    };
    let p2 = AstGenome { root: injected() };
    // node 2 of p1 (fn halt) replaced by node 0 of p2 (the whole injected block)
    let child = p1.crossover_at(&p2, 2, 0);
    assert_eq!(child.root.size(), 4);
    let mut idx = 0;
    let n = child.root.get_node(3, &mut idx).expect("node 3");
    assert_eq!(signature_of(&n), "fn hack()");
    // node 0 of p1 replaced by node 1 of p2: a single function
    let child = p1.crossover_at(&p2, 0, 1);
    assert_eq!(child.root.size(), 1);
    assert_eq!(signature_of(&child.root), "fn hack()");
    // the parents are untouched
    assert_eq!(p1.root.size(), 3);
    assert_eq!(p2.root.size(), 2);
}

#[test]
fn crossover_size_stays_within_bounds_for_every_point() {
    let p1 = AstGenome {
        root: create_mock_ast(),
    };
    let p2 = AstGenome { root: injected() };
    for a in 0..3 {
        for b in 0..2 {
            let s = p1.crossover_at(&p2, a, b).root.size();
            assert!(s >= 1 && s <= 3 + 2 - 1);
        }
    }
}

#[test]
fn random_genome_is_an_empty_root_block() {
    let g = AstGenome::random();
    assert_eq!(g.root.size(), 1);
    match g.root {
        AstNode::Block { name, children } => {
            assert_eq!(name, "root");
            assert!(children.is_empty());
        }
        _ => panic!("expected a block"),
    }
}

#[test]
fn generate_source_of_root_block_joins_children() {
    let root = AstNode::Block {
        name: "root".to_string(),
        children: vec![
            AstNode::Function {
                signature: "pub fn hello()".to_string(),
                body: "{ let _x = 42; }".to_string(),
            },
            AstNode::Function {
                signature: "fn bye()".to_string(),
                body: "{}".to_string(),
            },
        ],
    };
    assert_eq!(
        CodeGenEvaluator::generate_source(&root),
        "pub fn hello() { let _x = 42; }\n\nfn bye() {}"
    );
}

#[test]
fn generate_source_wraps_named_blocks_in_modules() {
    let src = CodeGenEvaluator::generate_source(&create_mock_ast());
    assert_eq!(
        src,
        "pub mod mod_kernel {\nfn boot() { println!(\"boot\"); }\n\nfn halt() { panic!(\"halt\"); }\n}"
    );
    let empty = AstNode::Block {
        name: "empty".to_string(),
        children: vec![],
    };
    assert_eq!(CodeGenEvaluator::generate_source(&empty), "pub mod empty {\n\n}");
    let nested = AstNode::Block {
        name: "root".to_string(),
        children: vec![injected()],
    };
    assert_eq!(
        CodeGenEvaluator::generate_source(&nested),
        "pub mod mod_injected {\nfn hack() {}\n}"
    );
}

#[test]
fn codegen_evaluator_keeps_its_workspace() {
    let e = CodeGenEvaluator::new(std::path::PathBuf::from("/tmp/work"));
    assert_eq!(e.temp_workspace, std::path::PathBuf::from("/tmp/work"));
}

fn strings(v: &[&str]) -> Vec<String> {
    v.iter().map(|s| s.to_string()).collect()
}

#[test]
fn adapter_indexes_functions_by_last_position() {
    let a = GeneticsAdapter::new(strings(&["fn_nav", "fn_log", "fn_nav"]), strings(&["comp_cpu"]));
    assert_eq!(a.function_index("fn_nav"), Some(2));
    assert_eq!(a.function_index("fn_log"), Some(1));
    assert_eq!(a.function_index("fn_x"), None);
}

#[test]
fn adapter_keeps_exchanges_between_known_functions() {
    let a = GeneticsAdapter::new(strings(&["f1", "f2", "f3"]), strings(&["c1", "c2"]));
    let ex = vec![
        ("f1".to_string(), "f2".to_string()),
        ("f1".to_string(), "ghost".to_string()),
        ("f3".to_string(), "f1".to_string()),
    ];
    assert_eq!(a.flow_pairs(&ex), vec![(0, 1, 0), (2, 0, 2)]);
    assert!(a.flow_pairs(&vec![]).is_empty());
}

#[test]
fn adapter_converts_genes_back_to_ids() {
    let a = GeneticsAdapter::new(strings(&["fn_nav"]), strings(&["comp_cpu", "comp_gpu"]));
    let alloc = a.allocation(&[1, 0, 7]);
    assert_eq!(
        alloc,
        vec![
            ("fn_nav".to_string(), "comp_gpu".to_string()),
            (String::new(), "comp_cpu".to_string()),
            (String::new(), String::new()),
        ]
    );
}

#[test]
fn deployment_genome_crossover_copies_the_first_parent() {
    let g = DeploymentGenome::random();
    assert!(g.binary_path.is_empty() && g.arguments.is_empty() && g.env_vars.is_empty());
    let p1 = DeploymentGenome {
        binary_path: "/bin/svc".to_string(),
        arguments: strings(&["--port", "80"]),
        env_vars: vec![("MODE".to_string(), "edge".to_string())],
    };
    let child = p1.crossover(&g);
    assert_eq!(child.binary_path, "/bin/svc");
    assert_eq!(child.arguments, strings(&["--port", "80"]));
    assert_eq!(child.env_vars, vec![("MODE".to_string(), "edge".to_string())]);
    let e = DeploymentEvaluator::new(std::path::PathBuf::from("/tmp/logs"));
    assert_eq!(e.log_workspace, std::path::PathBuf::from("/tmp/logs"));
}

#[test]
fn what_is_written_at_a_node_is_read_back() {
    for k in 0..3 {
        let mut root = create_mock_ast();
        root.replace_node_at(k, injected());
        let mut idx = 0;
        let n = root.get_node(k, &mut idx).expect("written node");
        match n {
            AstNode::Block { name, children } => {
                assert_eq!(name, "mod_injected");
                assert_eq!(children.len(), 1);
            }
            _ => panic!("expected the injected block"),
        }
    }
}

#[test]
fn allocation_validity_checks_length_and_components() {
    assert!(allocation_is_valid(&[0, 1, 1], 3, 2));
    assert!(!allocation_is_valid(&[0, 1], 3, 2));
    assert!(!allocation_is_valid(&[0, 2, 1], 3, 2));
    assert!(allocation_is_valid(&[], 0, 0));
}

#[test]
fn genetics_node_parameters() {
    let strs = |v: &[&str]| JsonValue::Array(v.iter().map(|t| JsonValue::String(t.to_string())).collect());
    let params = JsonValue::Object(vec![
        ("functions".to_string(), JsonValue::Array(vec![JsonValue::String("f1".to_string()), JsonValue::Number(3), JsonValue::String("f2".to_string())])),
        ("components".to_string(), strs(&["c1"])),
    ]);
    let (f, c) = genetics_params(&params).unwrap();
    assert_eq!(f, vec!["f1".to_string(), "f2".to_string()]);
    assert_eq!(c, vec!["c1".to_string()]);
    let no_functions = JsonValue::Object(vec![("functions".to_string(), JsonValue::String("f".to_string()))]);
    assert_eq!(genetics_params(&no_functions).err(), Some(GeneticsError::MissingFunctions));
    let no_components = JsonValue::Object(vec![("functions".to_string(), strs(&[]))]);
    assert_eq!(genetics_params(&no_components).err(), Some(GeneticsError::MissingComponents));
}

fn element(id: &str, props: Vec<(&str, JsonValue)>) -> ArcadiaElement {
    let mut el = ArcadiaElement::with(SlugString::from_text(id), I18nString::empty(), vec![]);
    for (k, v) in props {
        el.properties.push((k.to_string(), v));
    }
    el
}

fn js(t: &str) -> JsonValue {
    JsonValue::String(t.to_string())
}

#[test]
fn model_ids_for_the_genetic_engine() {
    let mut model = ProjectModel::new();
    model.add_element("la", "functions", element("f1", vec![]));
    model.add_element("la", "functions", element("f2", vec![("handle", js("F-two"))]));
    model.add_element("pa", "components", element("c1", vec![("handle", JsonValue::Number(3))]));
    model.add_element("la", "exchanges", element("e1", vec![("source", js("f1")), ("target_handle", js("F-two"))]));
    model.add_element("la", "exchanges", element("e2", vec![("source_handle", JsonValue::Number(1)), ("source", js("f1"))]));
    assert_eq!(model_function_ids(&model), vec!["f1".to_string(), "F-two".to_string()]);
    assert_eq!(model_component_ids(&model), vec!["c1".to_string()]);
    assert_eq!(
        model_exchange_ends(&model),
        vec![("f1".to_string(), "F-two".to_string()), (String::new(), String::new())]
    );
    let adapter = GeneticsAdapter::from_model(&model);
    assert_eq!(adapter.function_index("F-two"), Some(1));
}

#[test]
fn realization_artifacts_are_appended() {
    let existing = JsonValue::Array(vec![js("old")]);
    let alloc = vec![("f1".to_string(), "c1".to_string())];
    let all = generated_artifacts(Some(&existing), &alloc);
    match all {
        JsonValue::Array(items) => {
            assert_eq!(items.len(), 2);
            assert_eq!(items[1].get("@type").and_then(|v| v.as_str()), Some("arcadia:realizes"));
            assert_eq!(items[1].get("source").and_then(|v| v.as_str()), Some("f1"));
            assert_eq!(items[1].get("target").and_then(|v| v.as_str()), Some("c1"));
            assert_eq!(items[1].get("generated_by").and_then(|v| v.as_str()), Some("RaiseGeneticsEngine"));
        }
        _ => panic!("array expected"),
    }
    match generated_artifacts(Some(&js("not a list")), &vec![]) {
        JsonValue::Array(items) => assert!(items.is_empty()),
        _ => panic!("array expected"),
    }
}
