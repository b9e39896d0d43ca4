use raise_core::evaluator::{DataProvider, Evaluator, NoOpDataProvider};
use raise_core::json::JsonValue;
use raise_core::json_text::to_json_text;
use raise_core::rules::{is_truthy, resolve_path, Expr, RuleError};

fn obj(entries: Vec<(&str, JsonValue)>) -> JsonValue {
    JsonValue::Object(entries.into_iter().map(|(k, v)| (k.to_string(), v)).collect())
}

fn s(t: &str) -> JsonValue {
    JsonValue::String(t.to_string())
}

fn n(v: i64) -> JsonValue {
    JsonValue::Number(v)
}

fn val(v: JsonValue) -> Expr {
    Expr::Val(v)
}

fn bx(e: Expr) -> Box<Expr> {
    Box::new(e)
}

fn run(e: &Expr, ctx: &JsonValue) -> Result<JsonValue, RuleError> {
    Evaluator::evaluate_sync(e, ctx)
}

fn num(r: Result<JsonValue, RuleError>) -> i64 {
    match r {
        Ok(JsonValue::Number(x)) => x,
        _ => panic!("expected a number"),
    }
}

fn boolean(r: Result<JsonValue, RuleError>) -> bool {
    match r {
        Ok(JsonValue::Bool(b)) => b,
        _ => panic!("expected a boolean"),
    }
}

fn text(r: Result<JsonValue, RuleError>) -> String {
    match r {
        Ok(JsonValue::String(t)) => t,
        _ => panic!("expected a string"),
    }
}

#[test]
fn eq_of_equal_numbers() {
    let provider = NoOpDataProvider;
    let ctx = obj(vec![]);
    let expr = Expr::Eq(vec![val(n(10)), val(n(10))]);
    let res = Evaluator::evaluate(&expr, &ctx, &provider);
    assert!(boolean(res));
    assert!(!boolean(run(&Expr::Eq(vec![val(n(10)), val(n(11))]), &ctx)));
    assert!(boolean(run(&Expr::Eq(vec![]), &ctx)));
    assert!(!boolean(run(&Expr::Neq(vec![val(n(1))]), &ctx)));
    assert!(boolean(run(&Expr::Neq(vec![val(s("a")), val(s("b"))]), &ctx)));
}

#[test]
fn objects_compare_whatever_the_member_order() {
    let ctx = obj(vec![]);
    let a = obj(vec![("x", n(1)), ("y", s("z"))]);
    let b = obj(vec![("y", s("z")), ("x", n(1))]);
    assert!(boolean(run(&Expr::Eq(vec![val(a), val(b)]), &ctx)));
}

struct MockProvider;

impl DataProvider for MockProvider {
    fn get_value(&self, _c: &str, _id: &str, _f: &str) -> Option<JsonValue> {
        Some(s("Alice"))
    }
}

#[test]
fn lookup_goes_through_the_provider() {
    let expr = Expr::Lookup { collection: "users".to_string(), id: bx(val(s("u1"))), field: "name".to_string() };
    let ctx = obj(vec![]);
    assert_eq!(text(Evaluator::evaluate(&expr, &ctx, &MockProvider)), "Alice");
    assert!(matches!(Evaluator::evaluate(&expr, &ctx, &NoOpDataProvider), Ok(JsonValue::Null)));
    assert!(matches!(run(&expr, &ctx), Err(RuleError::UnexpectedAsync)));
    assert!(Evaluator::requires_async(&expr));
    assert!(!Evaluator::requires_async(&Expr::Not(bx(val(n(1))))));
    assert!(Evaluator::requires_async(&Expr::And(vec![val(n(1)), expr])));
}

struct EchoProvider;

impl DataProvider for EchoProvider {
    fn get_value(&self, c: &str, id: &str, f: &str) -> Option<JsonValue> {
        if c == "none" {
            None
        } else {
            Some(s(&format!("{}|{}|{}", c, id, f)))
        }
    }
}

#[test]
fn lookup_hands_collection_id_and_field_in_order() {
    let ctx = obj(vec![("user", s("u7"))]);
    let by_var = Expr::Lookup { collection: "users".to_string(), id: bx(Expr::Var("user".to_string())), field: "name".to_string() };
    assert_eq!(text(Evaluator::evaluate(&by_var, &ctx, &EchoProvider)), "users|u7|name");
    let by_number = Expr::Lookup { collection: "users".to_string(), id: bx(val(n(5))), field: "name".to_string() };
    assert_eq!(text(Evaluator::evaluate(&by_number, &ctx, &EchoProvider)), "users||name");
    let missing = Expr::Lookup { collection: "none".to_string(), id: bx(val(s("x"))), field: "f".to_string() };
    assert!(matches!(Evaluator::evaluate(&missing, &ctx, &EchoProvider), Ok(JsonValue::Null)));
    let failing_id = Expr::Lookup { collection: "users".to_string(), id: bx(Expr::Var("absent".to_string())), field: "f".to_string() };
    assert!(Evaluator::evaluate(&failing_id, &ctx, &EchoProvider).is_err());
}

#[test]
fn now_is_one_instant_within_an_evaluation() {
    let ctx = obj(vec![]);
    assert!(boolean(run(&Expr::Eq(vec![Expr::Now, Expr::Now]), &ctx)));
    let later = Expr::DateAdd { date: bx(Expr::Now), days: bx(val(n(1))) };
    assert!(!text(run(&later, &ctx)).is_empty());
    let now = text(run(&Expr::Now, &ctx));
    assert!(now.ends_with("+00:00"));
    assert_eq!(now.chars().nth(10), Some('T'));
}

#[test]
fn date_add_on_timestamps_is_written_in_local_time() {
    let ctx = obj(vec![]);
    let shifted = || Expr::DateAdd { date: bx(val(s("2026-04-28T10:00:00+02:00"))), days: bx(val(n(3))) };
    let t = text(run(&shifted(), &ctx));
    assert!(t.starts_with("2026-0"));
    assert!(boolean(run(&Expr::Eq(vec![shifted(), shifted()]), &ctx)));
}

#[test]
fn datediff_evaluation() {
    let ctx = obj(vec![]);
    let expr = Expr::DateDiff { start: bx(val(s("2026-04-28"))), end: bx(val(s("2026-04-30"))) };
    assert_eq!(num(run(&expr, &ctx)), 2);
    let stamps = Expr::DateDiff {
        start: bx(val(s("2026-04-28T10:00:00+02:00"))),
        end: bx(val(s("2026-05-01T10:00:00+02:00"))),
    };
    assert_eq!(num(run(&stamps, &ctx)), 3);
    let bad = Expr::DateDiff { start: bx(val(s("yesterday"))), end: bx(val(s("2026-04-30"))) };
    assert!(matches!(run(&bad, &ctx), Err(RuleError::InvalidDate)));
}

#[test]
fn date_add_on_calendar_dates() {
    let ctx = obj(vec![]);
    let expr = Expr::DateAdd { date: bx(val(s("2026-02-27"))), days: bx(val(n(2))) };
    assert_eq!(text(run(&expr, &ctx)), "2026-03-01");
    let bad = Expr::DateAdd { date: bx(val(n(3))), days: bx(val(n(2))) };
    assert!(matches!(run(&bad, &ctx), Err(RuleError::TypeMismatch)));
    assert!(!text(run(&Expr::Now, &ctx)).is_empty());
}

#[test]
fn isa_ontological_evaluation() {
    let ctx = obj(vec![
        ("@context", s("db://_system/master/_ontologies/handle/onto-raise-core")),
        ("@type", JsonValue::Array(vec![s("raise:Database"), s("pa:PhysicalComponent")])),
        ("handle", s("master")),
    ]);
    assert!(boolean(run(&Expr::IsA("Database".to_string()), &ctx)));
    assert!(!boolean(run(&Expr::IsA("User".to_string()), &ctx)));
    let single = obj(vec![("@type", s("https://raise.io/oa#Actor"))]);
    assert!(boolean(run(&Expr::IsA("Actor".to_string()), &single)));
    assert!(!boolean(run(&Expr::IsA("Act".to_string()), &single)));
}

#[test]
fn variables_and_paths() {
    let ctx = obj(vec![("user", obj(vec![("age", n(42)), ("name", s("Ada"))]))]);
    assert_eq!(num(run(&Expr::Var("user.age".to_string()), &ctx)), 42);
    assert!(matches!(run(&Expr::Var("user.height".to_string()), &ctx), Err(RuleError::VarNotFound(p)) if p == "height"));
    assert!(matches!(
        run(&Expr::Var("user.name.first".to_string()), &ctx),
        Err(RuleError::PathResolutionFail(p)) if p == "first"
    ));
    assert!(resolve_path(&ctx, "").is_ok());
    assert!(is_truthy(&n(3)));
    assert!(!is_truthy(&s("")));
    assert!(is_truthy(&JsonValue::Array(vec![])));
    assert!(!is_truthy(&JsonValue::Null));
}

#[test]
fn boolean_operators_stop_early() {
    let ctx = obj(vec![]);
    let missing = Expr::Var("nope".to_string());
    assert!(!boolean(run(&Expr::And(vec![val(JsonValue::Bool(false)), Expr::Var("nope".to_string())]), &ctx)));
    assert!(boolean(run(&Expr::Or(vec![val(n(1)), Expr::Var("nope".to_string())]), &ctx)));
    assert!(matches!(run(&Expr::And(vec![val(n(1)), missing]), &ctx), Err(RuleError::VarNotFound(_))));
    assert!(boolean(run(&Expr::And(vec![]), &ctx)));
    assert!(!boolean(run(&Expr::Or(vec![]), &ctx)));
    assert!(boolean(run(&Expr::Not(bx(val(s("")))), &ctx)));
}

#[test]
fn arithmetic_on_integers() {
    let ctx = obj(vec![]);
    assert_eq!(num(run(&Expr::Add(vec![val(n(2)), val(n(3)), val(n(-10))]), &ctx)), -5);
    assert_eq!(num(run(&Expr::Add(vec![]), &ctx)), 0);
    assert_eq!(num(run(&Expr::Mul(vec![val(n(6)), val(n(7))]), &ctx)), 42);
    assert_eq!(num(run(&Expr::Mul(vec![]), &ctx)), 1);
    assert_eq!(num(run(&Expr::Sub(vec![val(n(10)), val(n(3)), val(n(2))]), &ctx)), 5);
    assert_eq!(num(run(&Expr::Sub(vec![]), &ctx)), 0);
    assert_eq!(num(run(&Expr::Div(vec![val(n(100)), val(n(5)), val(n(2))]), &ctx)), 10);
    assert_eq!(num(run(&Expr::Div(vec![val(n(-9)), val(n(3))]), &ctx)), -3);
    assert!(matches!(run(&Expr::Div(vec![val(n(1))]), &ctx), Err(RuleError::InvalidArgs)));
    assert!(matches!(run(&Expr::Div(vec![val(n(1)), val(n(0))]), &ctx), Err(RuleError::DivByZero)));
    assert!(matches!(run(&Expr::Div(vec![val(n(1)), val(n(2)), val(n(0))]), &ctx), Err(RuleError::DivByZero)));
    assert!(matches!(run(&Expr::Div(vec![val(n(7)), val(n(2))]), &ctx), Err(RuleError::NotRepresentable)));
    assert!(matches!(run(&Expr::Add(vec![val(n(1)), val(s("x"))]), &ctx), Err(RuleError::TypeMismatch)));
    assert!(matches!(run(&Expr::Add(vec![val(n(i64::MAX)), val(n(1))]), &ctx), Err(RuleError::NotRepresentable)));
    assert_eq!(num(run(&Expr::Abs(bx(val(n(-4)))), &ctx)), 4);
    assert!(matches!(run(&Expr::Abs(bx(val(n(i64::MIN)))), &ctx), Err(RuleError::NotRepresentable)));
}

#[test]
fn comparisons() {
    let ctx = obj(vec![]);
    assert!(boolean(run(&Expr::Gt(bx(val(n(3))), bx(val(n(2)))), &ctx)));
    assert!(!boolean(run(&Expr::Lt(bx(val(n(3))), bx(val(n(2)))), &ctx)));
    assert!(boolean(run(&Expr::Gte(bx(val(n(2))), bx(val(n(2)))), &ctx)));
    assert!(boolean(run(&Expr::Lte(bx(val(n(2))), bx(val(n(2)))), &ctx)));
    assert!(matches!(run(&Expr::Gt(bx(val(s("3"))), bx(val(n(2)))), &ctx), Err(RuleError::TypeMismatch)));
}

#[test]
fn rounding_and_extremes() {
    let ctx = obj(vec![]);
    let round = |v: i64, p: i64| num(run(&Expr::Round { value: bx(val(n(v))), precision: bx(val(n(p))) }, &ctx));
    assert_eq!(round(1234, 2), 1234);
    assert_eq!(round(1234, -2), 1200);
    assert_eq!(round(1250, -2), 1300);
    assert_eq!(round(-1250, -2), -1300);
    assert_eq!(round(-1249, -2), -1200);
    assert_eq!(round(7, -25), 0);
    let items = JsonValue::Array(vec![n(4), s("x"), n(-2), n(9)]);
    assert_eq!(num(run(&Expr::Min(bx(val(items.duplicate()))), &ctx)), -2);
    assert_eq!(num(run(&Expr::Max(bx(val(items))), &ctx)), 9);
    assert!(matches!(run(&Expr::Min(bx(val(JsonValue::Array(vec![s("a")])))), &ctx), Ok(JsonValue::Null)));
    assert!(matches!(run(&Expr::Max(bx(val(n(1)))), &ctx), Err(RuleError::TypeMismatch)));
}

#[test]
fn text_operators() {
    let ctx = obj(vec![]);
    assert_eq!(text(run(&Expr::Upper(bx(val(s("abc")))), &ctx)), "ABC");
    assert_eq!(text(run(&Expr::Lower(bx(val(s("ÀB")))), &ctx)), "àb");
    assert_eq!(text(run(&Expr::Trim(bx(val(s("  x y \n")))), &ctx)), "x y");
    assert_eq!(num(run(&Expr::Len(bx(val(s("héllo")))), &ctx)), 5);
    assert_eq!(num(run(&Expr::Len(bx(val(JsonValue::Array(vec![n(1), n(2)])))), &ctx)), 2);
    assert!(matches!(run(&Expr::Len(bx(val(n(1)))), &ctx), Err(RuleError::TypeMismatch)));
    let concat = Expr::Concat(vec![val(s("a")), val(n(-12)), val(JsonValue::Null), val(obj(vec![("k", s("q\"t"))]))]);
    assert_eq!(text(run(&concat, &ctx)), "a-12null{\"k\":\"q\\\"t\"}");
    let replace = |v: &str, p: &str, r: &str| {
        text(run(&Expr::Replace { value: bx(val(s(v))), pattern: bx(val(s(p))), replacement: bx(val(s(r))) }, &ctx))
    };
    assert_eq!(replace("a-b-c", "-", "+"), "a+b+c");
    assert_eq!(replace("abc", "", "x"), "xaxbxcx");
    assert!(boolean(run(&Expr::RegexMatch { value: bx(val(s("abc123"))), pattern: bx(val(s("^[a-z]+[0-9]+$"))) }, &ctx)));
    assert!(matches!(
        run(&Expr::RegexMatch { value: bx(val(s("a"))), pattern: bx(val(s("("))) }, &ctx),
        Err(RuleError::InvalidRegex)
    ));
    assert!(boolean(run(&Expr::Contains { list: bx(val(s("hello"))), value: bx(val(s("ell"))) }, &ctx)));
    assert!(boolean(run(
        &Expr::Contains { list: bx(val(JsonValue::Array(vec![n(1), s("x")]))), value: bx(val(s("x"))) },
        &ctx
    )));
    assert!(matches!(
        run(&Expr::Contains { list: bx(val(s("hello"))), value: bx(val(n(1))) }, &ctx),
        Err(RuleError::TypeMismatch)
    ));
}

#[test]
fn map_filter_and_if() {
    let ctx = obj(vec![("factor", n(10)), ("items", JsonValue::Array(vec![n(1), n(2), n(3)]))]);
    let mapped = Expr::MapItems {
        list: bx(Expr::Var("items".to_string())),
        alias: "it".to_string(),
        expr: bx(Expr::Mul(vec![Expr::Var("it".to_string()), Expr::Var("factor".to_string())])),
    };
    match run(&mapped, &ctx) {
        Ok(JsonValue::Array(xs)) => {
            let got: Vec<i64> = xs.into_iter().map(|x| num(Ok(x))).collect();
            assert_eq!(got, vec![10, 20, 30]);
        },
        _ => panic!("expected an array"),
    }
    let filtered = Expr::Filter {
        list: bx(Expr::Var("items".to_string())),
        alias: "it".to_string(),
        condition: bx(Expr::Gt(bx(Expr::Var("it".to_string())), bx(val(n(1))))),
    };
    match run(&filtered, &ctx) {
        Ok(JsonValue::Array(xs)) => assert_eq!(xs.len(), 2),
        _ => panic!("expected an array"),
    }
    let cond = Expr::If {
        condition: bx(Expr::Gt(bx(Expr::Var("factor".to_string())), bx(val(n(5))))),
        then_branch: bx(val(s("big"))),
        else_branch: bx(Expr::Var("missing".to_string())),
    };
    assert_eq!(text(run(&cond, &ctx)), "big");
}

#[test]
fn json_text_is_compact() {
    let v = obj(vec![("a", JsonValue::Array(vec![n(1), JsonValue::Bool(true), JsonValue::Null])), ("b", s("x\ny\u{1}"))]);
    assert_eq!(to_json_text(&v), "{\"a\":[1,true,null],\"b\":\"x\\ny\\u0001\"}");
}

#[test]
fn provider_does_not_change_rules_without_lookup() {
    let ctx = obj(vec![("qty", n(3)), ("tag", s("A-1"))]);
    let exprs = vec![
        Expr::Add(vec![Expr::Var("qty".to_string()), val(n(4))]),
        Expr::Concat(vec![Expr::Var("tag".to_string()), val(s("!"))]),
        Expr::Eq(vec![Expr::Var("missing".to_string()), val(n(1))]),
        Expr::Not(bx(val(n(0)))),
    ];
    for e in &exprs {
        assert!(!Evaluator::requires_async(e));
        let with_data = to_json_text(&Evaluator::evaluate(e, &ctx, &MockProvider).unwrap_or(s("error")));
        let without = to_json_text(&run(e, &ctx).unwrap_or(s("error")));
        assert_eq!(with_data, without);
    }
}
