//! Helpers of the business rules engine: truthiness of JSON values and the
//! resolution of dotted variable paths in a rule context.
use vstd::prelude::*;
use vstd::string::*;
use crate::json::{
    JsonValue, JsonView, entries_get, entries_set, find_key, jview_entries, lemma_jview_entries, vget,
};
use crate::json_eq::{has_equal_item, json_eq};
use crate::json_text::json_text;
use crate::pattern::{regex_compiles, regex_matches};
use crate::text::{
    has_infix, has_suffix, replace_spec, split_char, split_spec, texts_of, trim_spec,
};

verus! {

/// The truth of a JSON value in a rule: `false`, `null`, zero and the empty
/// string are false; every other value is true.
pub open spec fn truthy(v: JsonView) -> bool {
    match v {
        JsonView::Bool(b) => b,
        JsonView::Null => false,
        JsonView::Number(n) => n != 0,
        JsonView::Str(s) => s.len() > 0,
        _ => true,
    }
}

/// The truth of a JSON value (see `truthy`).
pub fn is_truthy(v: &JsonValue) -> (b: bool)
    ensures
        b == truthy(v@),
{
    match v {
        JsonValue::Bool(b) => *b,
        JsonValue::Null => false,
        JsonValue::Number(n) => *n != 0,
        JsonValue::String(s) => s.as_str().unicode_len() > 0,
        _ => true,
    }
}

/// Why a rule could not be evaluated.
#[derive(Clone, Debug)]
pub enum RuleError {
    /// An object on a variable path lacks the member `part`.
    VarNotFound(String),
    /// A variable path goes through a value that is not an object, at `part`.
    PathResolutionFail(String),
    /// An operand has the wrong kind of value.
    TypeMismatch,
    /// An operator got too few operands.
    InvalidArgs,
    /// A division by zero.
    DivByZero,
    /// A pattern that the regex crate refuses.
    InvalidRegex,
    /// A text that is neither an RFC 3339 timestamp nor a `%Y-%m-%d` date.
    InvalidDate,
    /// A lookup met where no data provider is available.
    UnexpectedAsync,
    /// A number that is not an integer within the `i64` range.
    NotRepresentable,
}

/// The content of a rule error.
pub enum Fault {
    VarNotFound(Seq<char>),
    PathResolutionFail(Seq<char>),
    TypeMismatch,
    InvalidArgs,
    DivByZero,
    InvalidRegex,
    InvalidDate,
    UnexpectedAsync,
    NotRepresentable,
}

impl View for RuleError {
    type V = Fault;

    open spec fn view(&self) -> Fault {
        match self {
            RuleError::VarNotFound(p) => Fault::VarNotFound(p@),
            RuleError::PathResolutionFail(p) => Fault::PathResolutionFail(p@),
            RuleError::TypeMismatch => Fault::TypeMismatch,
            RuleError::InvalidArgs => Fault::InvalidArgs,
            RuleError::DivByZero => Fault::DivByZero,
            RuleError::InvalidRegex => Fault::InvalidRegex,
            RuleError::InvalidDate => Fault::InvalidDate,
            RuleError::UnexpectedAsync => Fault::UnexpectedAsync,
            RuleError::NotRepresentable => Fault::NotRepresentable,
        }
    }
}

/// The content of a resolution failure: a missing member (`true`) or a
/// non-object (`false`), at a part.
pub open spec fn path_fault(e: (bool, Seq<char>)) -> Fault {
    if e.0 {
        Fault::VarNotFound(e.1)
    } else {
        Fault::PathResolutionFail(e.1)
    }
}

/// Walking the members `parts` down from `v`: `Ok` with the value reached, or
/// the first failure (`true` for a missing member, `false` for a non-object).
pub open spec fn walk(v: JsonView, parts: Seq<Seq<char>>) -> Result<JsonView, (bool, Seq<char>)>
    decreases parts.len(),
{
    if parts.len() == 0 {
        Ok(v)
    } else {
        match v {
            JsonView::Object(es) => match entries_get(es, parts[0]) {
                Some(next) => walk(next, parts.subrange(1, parts.len() as int)),
                None => Err((true, parts[0])),
            },
            _ => Err((false, parts[0])),
        }
    }
}

/// The value a dotted path designates in a context: the context itself for the
/// empty path, else the walk along its `.`-separated parts.
pub open spec fn resolve_path_spec(context: JsonView, path: Seq<char>) -> Result<JsonView, (bool, Seq<char>)> {
    if path.len() == 0 {
        Ok(context)
    } else {
        walk(context, split_spec(path, '.'))
    }
}

/// Resolves a dotted path in a context (see `resolve_path_spec`).
pub fn resolve_path<'a>(context: &'a JsonValue, path: &str) -> (r: Result<&'a JsonValue, RuleError>)
    ensures
        match r {
            Ok(v) => resolve_path_spec(context@, path@) == Ok::<JsonView, (bool, Seq<char>)>(v@),
            Err(e) => resolve_path_spec(context@, path@) matches Err(f) && path_fault(f) == e@,
        },
{
    if path.unicode_len() == 0 {
        return Ok(context);
    }
    let parts = split_char(path, '.');
    let ghost ps = texts_of(parts@);
    let mut current: &JsonValue = context;
    let mut i: usize = 0;
    assert(ps.subrange(0, ps.len() as int) =~= ps);
    while i < parts.len()
        invariant
            i <= parts@.len(),
            ps == texts_of(parts@),
            ps == split_spec(path@, '.'),
            path@.len() > 0,
            resolve_path_spec(context@, path@) == walk(current@, ps.subrange(i as int, ps.len() as int)),
        decreases parts@.len() - i,
    {
        let part = parts[i].as_str();
        let ghost rest = ps.subrange(i as int, ps.len() as int);
        assert(rest[0] == part@);
        assert(rest.subrange(1, rest.len() as int) =~= ps.subrange(i + 1, ps.len() as int));
        current = match current {
            JsonValue::Object(es) => {
                proof {
                    lemma_jview_entries(es@);
                }
                match find_key(es, part) {
                    Some(k) => &es[k].1,
                    None => {
                        return Err(RuleError::VarNotFound(parts[i].clone()));
                    },
                }
            },
            _ => {
                return Err(RuleError::PathResolutionFail(parts[i].clone()));
            },
        };
        i = i + 1;
    }
    Ok(current)
}


// ---------------------------------------------------------------------------
// Rule expressions
// ---------------------------------------------------------------------------

/// A rule expression.
pub enum Expr {
    /// A constant.
    Val(JsonValue),
    /// The value at a dotted path of the context.
    Var(String),
    And(Vec<Expr>),
    Or(Vec<Expr>),
    Not(Box<Expr>),
    Eq(Vec<Expr>),
    Neq(Vec<Expr>),
    Gt(Box<Expr>, Box<Expr>),
    Lt(Box<Expr>, Box<Expr>),
    Gte(Box<Expr>, Box<Expr>),
    Lte(Box<Expr>, Box<Expr>),
    Add(Vec<Expr>),
    Sub(Vec<Expr>),
    Mul(Vec<Expr>),
    Div(Vec<Expr>),
    Abs(Box<Expr>),
    Round { value: Box<Expr>, precision: Box<Expr> },
    Min(Box<Expr>),
    Max(Box<Expr>),
    Contains { list: Box<Expr>, value: Box<Expr> },
    /// Each item of a list through an expression (`Map` in rule documents).
    MapItems { list: Box<Expr>, alias: String, expr: Box<Expr> },
    Filter { list: Box<Expr>, alias: String, condition: Box<Expr> },
    RegexMatch { value: Box<Expr>, pattern: Box<Expr> },
    Concat(Vec<Expr>),
    Replace { value: Box<Expr>, pattern: Box<Expr>, replacement: Box<Expr> },
    Upper(Box<Expr>),
    Lower(Box<Expr>),
    Trim(Box<Expr>),
    Len(Box<Expr>),
    If { condition: Box<Expr>, then_branch: Box<Expr>, else_branch: Box<Expr> },
    /// The context's `@type` names the class (alone, or after `:` or `#`).
    IsA(String),
    /// The current time.
    Now,
    DateAdd { date: Box<Expr>, days: Box<Expr> },
    DateDiff { start: Box<Expr>, end: Box<Expr> },
    /// A field of a document read through the data provider.
    Lookup { collection: String, id: Box<Expr>, field: String },
}

/// Whether an expression reads what its environment gives: a `Lookup`, or
/// also `Now` when `clock`.
pub open spec fn reads_env(e: Expr, clock: bool) -> bool
    decreases e, 0int,
{
    match e {
        Expr::Lookup { .. } => true,
        Expr::Now => clock,
        Expr::Val(_) | Expr::Var(_) | Expr::IsA(_) => false,
        Expr::And(l) | Expr::Or(l) | Expr::Eq(l) | Expr::Neq(l) | Expr::Add(l) | Expr::Sub(l)
        | Expr::Mul(l) | Expr::Div(l) | Expr::Concat(l) => any_reads(l@, 0, clock),
        Expr::Not(a) | Expr::Abs(a) | Expr::Len(a) | Expr::Min(a) | Expr::Max(a) | Expr::Trim(a)
        | Expr::Lower(a) | Expr::Upper(a) => reads_env(*a, clock),
        Expr::Gt(a, b) | Expr::Lt(a, b) | Expr::Gte(a, b) | Expr::Lte(a, b) => reads_env(*a, clock)
            || reads_env(*b, clock),
        Expr::Contains { list: a, value: b } | Expr::RegexMatch { value: a, pattern: b }
        | Expr::DateDiff { start: a, end: b } | Expr::DateAdd { date: a, days: b }
        | Expr::Round { value: a, precision: b } => reads_env(*a, clock) || reads_env(*b, clock),
        Expr::If { condition, then_branch, else_branch } => reads_env(*condition, clock)
            || reads_env(*then_branch, clock) || reads_env(*else_branch, clock),
        Expr::Replace { value, pattern, replacement } => reads_env(*value, clock) || reads_env(*pattern, clock)
            || reads_env(*replacement, clock),
        Expr::MapItems { list, expr, .. } => reads_env(*list, clock) || reads_env(*expr, clock),
        Expr::Filter { list, condition, .. } => reads_env(*list, clock) || reads_env(*condition, clock),
    }
}

/// Whether one of the expressions from `i` on reads what its environment
/// gives (see `reads_env`).
pub open spec fn any_reads(l: Seq<Expr>, i: int, clock: bool) -> bool
    decreases l, l.len() - i,
{
    if i < 0 || i >= l.len() {
        false
    } else {
        reads_env(l[i], clock) || any_reads(l, i + 1, clock)
    }
}

/// Whether an expression reads data through a provider.
pub open spec fn has_lookup(e: Expr) -> bool {
    reads_env(e, false)
}

/// Whether one of the expressions from `i` on reads data through a provider.
pub open spec fn any_lookup(l: Seq<Expr>, i: int) -> bool {
    any_reads(l, i, false)
}

/// The text of a timestamp shifted by a number of days, as written in the
/// machine's local time zone.
pub type ShiftFn = spec_fn(Seq<char>, int) -> Seq<char>;

/// What an evaluation reads besides the context: whether a data provider is
/// given, what it answers for a collection, a document identifier and a field,
/// the time read from the clock for `Now`, and how a `DateAdd` on a timestamp
/// is written in local time.
pub type EvalEnv = (bool, spec_fn(Seq<char>, Seq<char>, Seq<char>) -> Option<JsonView>, Seq<char>, ShiftFn);

/// The environment of an evaluation without a data provider, at time `now`,
/// shifted timestamps written as `shift` gives them.
pub open spec fn sync_env(now: Seq<char>, shift: ShiftFn) -> EvalEnv {
    (false, |c: Seq<char>, i: Seq<char>, f: Seq<char>| None::<JsonView>, now, shift)
}

/// The identifier text handed to the provider: the text of a string, else empty.
pub open spec fn lookup_id(v: JsonView) -> Seq<char> {
    match v {
        JsonView::Str(t) => t,
        _ => Seq::empty(),
    }
}

/// The `i64` range.
pub open spec fn in_i64(n: int) -> bool {
    i64::MIN <= n <= i64::MAX
}

/// `10` to the power `n`.
pub open spec fn pow10(n: nat) -> nat
    decreases n,
{
    if n == 0 {
        1
    } else {
        10 * pow10((n - 1) as nat)
    }
}

/// An integer truncated to its low 32 bits, read as signed (`as i32`).
pub open spec fn wrap_i32(n: int) -> int {
    let m = n % 4294967296;
    if m >= 2147483648 {
        m - 4294967296
    } else {
        m
    }
}

/// `v` rounded to `p` decimal places, halves away from zero: an integer is
/// kept for `p >= 0`, and rounded to a multiple of `10^-p` otherwise.
pub open spec fn round_int(v: int, p: int) -> int {
    if p >= 0 {
        v
    } else {
        let k = pow10((-p) as nat) as int;
        let m = if v < 0 { -v } else { v };
        let q = if 2 * (m % k) >= k { m / k + 1 } else { m / k };
        if v < 0 { -(q * k) } else { q * k }
    }
}

/// `text` names `class` alone, or ends with `:class` or `#class`.
pub open spec fn type_matches(text: Seq<char>, class: Seq<char>) -> bool {
    text == class || has_suffix(text, seq![':'] + class) || has_suffix(text, seq!['#'] + class)
}

/// A string item that names `class`.
pub open spec fn names_class(v: JsonView, class: Seq<char>) -> bool {
    match v {
        JsonView::Str(t) => type_matches(t, class),
        _ => false,
    }
}

/// The context's `@type` (a string or an array of strings) names `class`.
pub open spec fn is_a(ctx: JsonView, class: Seq<char>) -> bool {
    match vget(ctx, "@type"@) {
        Some(JsonView::Str(t)) => type_matches(t, class),
        Some(JsonView::Array(items)) => exists|i: int|
            0 <= i < items.len() && #[trigger] names_class(items[i], class),
        _ => false,
    }
}

/// A string item of an `@type` array that names the class makes the context
/// an instance of it.
pub proof fn lemma_is_a_item(ctx: JsonView, class: Seq<char>, items: Seq<JsonView>, i: int)
    requires
        vget(ctx, "@type"@) == Some(JsonView::Array(items)),
        0 <= i < items.len(),
        names_class(items[i], class),
    ensures
        is_a(ctx, class),
{
    assert(exists|j: int| 0 <= j < items.len() && #[trigger] names_class(items[j], class));
    let v = vget(ctx, "@type"@);
    assert(v matches Some(JsonView::Array(xs)) && xs == items);
}

/// The context seen by the body of `Map` or `Filter`: the item bound to the
/// alias when the context is an object.
pub open spec fn with_alias(ctx: JsonView, alias: Seq<char>, item: JsonView) -> JsonView {
    match ctx {
        JsonView::Object(es) => JsonView::Object(entries_set(es, alias, item)),
        _ => ctx,
    }
}

/// `s` with `r` before, between and after each character (`str::replace`
/// with an empty pattern).
pub open spec fn interleave(s: Seq<char>, r: Seq<char>) -> Seq<char>
    decreases s.len(),
{
    if s.len() == 0 {
        r
    } else {
        interleave(s.drop_last(), r) + seq![s.last()] + r
    }
}

/// `str::replace`: every non-overlapping occurrence of `p`, left to right,
/// replaced by `r`.
pub open spec fn replace_text(s: Seq<char>, p: Seq<char>, r: Seq<char>) -> Seq<char> {
    if p.len() == 0 {
        interleave(s, r)
    } else {
        replace_spec(s, p, r)
    }
}

/// The length of a value for `Len`: items, characters or members.
pub open spec fn len_of(v: JsonView) -> Result<JsonView, Fault> {
    let n: int = match v {
        JsonView::Array(xs) => xs.len() as int,
        JsonView::Str(s) => s.len() as int,
        JsonView::Object(es) => es.len() as int,
        _ => -1,
    };
    if n < 0 {
        Err(Fault::TypeMismatch)
    } else if in_i64(n) {
        Ok(JsonView::Number(n))
    } else {
        Err(Fault::NotRepresentable)
    }
}

/// The smallest (`lowest`) or largest number among the items from `i` on,
/// starting from `best`.
pub open spec fn extreme_from(items: Seq<JsonView>, i: int, best: Option<int>, lowest: bool) -> Option<int>
    decreases items.len() - i,
{
    if i < 0 || i >= items.len() {
        best
    } else {
        let next = match items[i] {
            JsonView::Number(n) => match best {
                None => Some(n),
                Some(b) => if (lowest && n < b) || (!lowest && n > b) {
                    Some(n)
                } else {
                    Some(b)
                },
            },
            _ => best,
        };
        extreme_from(items, i + 1, next, lowest)
    }
}

/// The text a value contributes to `Concat`: a string itself, any other value
/// its JSON text.
pub open spec fn concat_piece(v: JsonView) -> Seq<char> {
    match v {
        JsonView::Str(s) => s,
        _ => json_text(v),
    }
}

/// A number operand, or a type mismatch.
pub open spec fn number_of(v: JsonView) -> Result<int, Fault> {
    match v {
        JsonView::Number(n) => Ok(n),
        _ => Err(Fault::TypeMismatch),
    }
}

/// A string operand, or a type mismatch.
pub open spec fn text_of(v: JsonView) -> Result<Seq<char>, Fault> {
    match v {
        JsonView::Str(s) => Ok(s),
        _ => Err(Fault::TypeMismatch),
    }
}

/// The comparison `op` (0 `>`, 1 `<`, 2 `>=`, 3 `<=`) of two numbers.
pub open spec fn compare_with(op: int, x: int, y: int) -> bool {
    if op == 0 {
        x > y
    } else if op == 1 {
        x < y
    } else if op == 2 {
        x >= y
    } else {
        x <= y
    }
}

/// The value of an expression in a context, in the environment `prov` (see
/// `EvalEnv`).
pub open spec fn eval(e: Expr, ctx: JsonView, prov: EvalEnv) -> Result<JsonView, Fault>
    decreases e, 0int, 0int,
{
    match e {
        Expr::Val(v) => Ok(v@),
        Expr::Var(path) => match resolve_path_spec(ctx, path@) {
            Ok(v) => Ok(v),
            Err(f) => Err(path_fault(f)),
        },
        Expr::And(l) => and_from(l@, ctx, prov, 0),
        Expr::Or(l) => or_from(l@, ctx, prov, 0),
        Expr::Not(a) => match eval(*a, ctx, prov) {
            Ok(v) => Ok(JsonView::Bool(!truthy(v))),
            Err(f) => Err(f),
        },
        Expr::Eq(l) => if l@.len() < 2 {
            Ok(JsonView::Bool(true))
        } else {
            match eval(l@[0], ctx, prov) {
                Ok(first) => eq_from(l@, ctx, prov, first, 1),
                Err(f) => Err(f),
            }
        },
        Expr::Neq(l) => if l@.len() < 2 {
            Ok(JsonView::Bool(false))
        } else {
            match eval(l@[0], ctx, prov) {
                Ok(a) => match eval(l@[1], ctx, prov) {
                    Ok(b) => Ok(JsonView::Bool(!json_eq(a, b))),
                    Err(f) => Err(f),
                },
                Err(f) => Err(f),
            }
        },
        Expr::Gt(a, b) => compare_eval(eval(*a, ctx, prov), *b, ctx, prov, 0),
        Expr::Lt(a, b) => compare_eval(eval(*a, ctx, prov), *b, ctx, prov, 1),
        Expr::Gte(a, b) => compare_eval(eval(*a, ctx, prov), *b, ctx, prov, 2),
        Expr::Lte(a, b) => compare_eval(eval(*a, ctx, prov), *b, ctx, prov, 3),
        Expr::Add(l) => sum_from(l@, ctx, prov, 0, 0),
        Expr::Mul(l) => product_from(l@, ctx, prov, 0, 1),
        Expr::Sub(l) => if l@.len() == 0 {
            Ok(JsonView::Number(0))
        } else {
            match eval(l@[0], ctx, prov) {
                Ok(v) => match number_of(v) {
                    Ok(n) => difference_from(l@, ctx, prov, 1, n),
                    Err(f) => Err(f),
                },
                Err(f) => Err(f),
            }
        },
        Expr::Div(l) => if l@.len() < 2 {
            Err(Fault::InvalidArgs)
        } else {
            match eval(l@[0], ctx, prov) {
                Ok(v) => match number_of(v) {
                    Ok(n) => quotient_from(l@, ctx, prov, 1, n, true),
                    Err(f) => Err(f),
                },
                Err(f) => Err(f),
            }
        },
        Expr::Abs(a) => match eval(*a, ctx, prov) {
            Ok(v) => match number_of(v) {
                Ok(n) => {
                    let m = if n < 0 { -n } else { n };
                    if in_i64(m) {
                        Ok(JsonView::Number(m))
                    } else {
                        Err(Fault::NotRepresentable)
                    }
                },
                Err(f) => Err(f),
            },
            Err(f) => Err(f),
        },
        Expr::Round { value, precision } => match eval(*value, ctx, prov) {
            Ok(v) => match number_of(v) {
                Ok(n) => match eval(*precision, ctx, prov) {
                    Ok(pv) => {
                        let p = match pv {
                            JsonView::Number(k) => wrap_i32(k),
                            _ => 0,
                        };
                        let r = round_int(n, p);
                        if in_i64(r) {
                            Ok(JsonView::Number(r))
                        } else {
                            Err(Fault::NotRepresentable)
                        }
                    },
                    Err(f) => Err(f),
                },
                Err(f) => Err(f),
            },
            Err(f) => Err(f),
        },
        Expr::Min(a) => extreme_eval(*a, ctx, prov, true),
        Expr::Max(a) => extreme_eval(*a, ctx, prov, false),
        Expr::Contains { list, value } => match eval(*list, ctx, prov) {
            Ok(lv) => match eval(*value, ctx, prov) {
                Ok(sv) => match lv {
                    JsonView::Array(items) => Ok(JsonView::Bool(has_equal_item(items, sv))),
                    JsonView::Str(s) => match sv {
                        JsonView::Str(t) => Ok(JsonView::Bool(has_infix(s, t))),
                        _ => Err(Fault::TypeMismatch),
                    },
                    _ => Err(Fault::TypeMismatch),
                },
                Err(f) => Err(f),
            },
            Err(f) => Err(f),
        },
        Expr::MapItems { list, alias, expr } => match eval(*list, ctx, prov) {
            Ok(JsonView::Array(items)) => map_from(*expr, items, ctx, alias@, prov, 0),
            Ok(_) => Err(Fault::TypeMismatch),
            Err(f) => Err(f),
        },
        Expr::Filter { list, alias, condition } => match eval(*list, ctx, prov) {
            Ok(JsonView::Array(items)) => filter_from(*condition, items, ctx, alias@, prov, 0),
            Ok(_) => Err(Fault::TypeMismatch),
            Err(f) => Err(f),
        },
        Expr::RegexMatch { value, pattern } => match eval(*value, ctx, prov) {
            Ok(v) => match eval(*pattern, ctx, prov) {
                Ok(pv) => match (text_of(v), text_of(pv)) {
                    (Ok(t), Ok(p)) => if regex_compiles(p) {
                        Ok(JsonView::Bool(regex_matches(p, t)))
                    } else {
                        Err(Fault::InvalidRegex)
                    },
                    (Err(f), _) => Err(f),
                    (_, Err(f)) => Err(f),
                },
                Err(f) => Err(f),
            },
            Err(f) => Err(f),
        },
        Expr::Concat(l) => concat_from(l@, ctx, prov, 0, Seq::empty()),
        Expr::Replace { value, pattern, replacement } => match eval(*value, ctx, prov) {
            Ok(v) => match eval(*pattern, ctx, prov) {
                Ok(pv) => match eval(*replacement, ctx, prov) {
                    Ok(rv) => match (text_of(v), text_of(pv), text_of(rv)) {
                        (Ok(t), Ok(p), Ok(r)) => Ok(JsonView::Str(replace_text(t, p, r))),
                        (Err(f), _, _) => Err(f),
                        (_, Err(f), _) => Err(f),
                        (_, _, Err(f)) => Err(f),
                    },
                    Err(f) => Err(f),
                },
                Err(f) => Err(f),
            },
            Err(f) => Err(f),
        },
        Expr::Upper(a) => match eval(*a, ctx, prov) {
            Ok(v) => match text_of(v) {
                Ok(t) => Ok(JsonView::Str(upper_text(t))),
                Err(f) => Err(f),
            },
            Err(f) => Err(f),
        },
        Expr::Lower(a) => match eval(*a, ctx, prov) {
            Ok(v) => match text_of(v) {
                Ok(t) => Ok(JsonView::Str(lower_text(t))),
                Err(f) => Err(f),
            },
            Err(f) => Err(f),
        },
        Expr::Trim(a) => match eval(*a, ctx, prov) {
            Ok(v) => match text_of(v) {
                Ok(t) => Ok(JsonView::Str(trim_spec(t))),
                Err(f) => Err(f),
            },
            Err(f) => Err(f),
        },
        Expr::Len(a) => match eval(*a, ctx, prov) {
            Ok(v) => len_of(v),
            Err(f) => Err(f),
        },
        Expr::If { condition, then_branch, else_branch } => match eval(*condition, ctx, prov) {
            Ok(c) => if truthy(c) {
                eval(*then_branch, ctx, prov)
            } else {
                eval(*else_branch, ctx, prov)
            },
            Err(f) => Err(f),
        },
        Expr::IsA(class) => Ok(JsonView::Bool(is_a(ctx, class@))),
        Expr::DateDiff { start, end } => match eval(*start, ctx, prov) {
            Ok(sv) => match eval(*end, ctx, prov) {
                Ok(ev) => match (text_of(sv), text_of(ev)) {
                    (Ok(s), Ok(t)) => match timestamp_day_span(s, t) {
                        Some(n) => Ok(JsonView::Number(n as int)),
                        None => match calendar_day_span(s, t) {
                            Some(n) => Ok(JsonView::Number(n as int)),
                            None => Err(Fault::InvalidDate),
                        },
                    },
                    (Err(f), _) => Err(f),
                    (_, Err(f)) => Err(f),
                },
                Err(f) => Err(f),
            },
            Err(f) => Err(f),
        },
        Expr::Lookup { collection, id, field } => if prov.0 {
            match eval(*id, ctx, prov) {
                Ok(v) => match (prov.1)(collection@, lookup_id(v), field@) {
                    Some(x) => Ok(x),
                    None => Ok(JsonView::Null),
                },
                Err(f) => Err(f),
            }
        } else {
            Err(Fault::UnexpectedAsync)
        },
        Expr::Now => Ok(JsonView::Str(prov.2)),
        Expr::DateAdd { date, days } => match eval(*date, ctx, prov) {
            Ok(dv) => match eval(*days, ctx, prov) {
                Ok(nv) => match number_of(nv) {
                    Ok(n) => match text_of(dv) {
                        Ok(d) => if timestamp_shift_defined(d, n) {
                            Ok(JsonView::Str((prov.3)(d, n)))
                        } else {
                            match calendar_shift(d, n) {
                                Some(t) => Ok(JsonView::Str(t)),
                                None => Err(Fault::InvalidDate),
                            }
                        },
                        Err(f) => Err(f),
                    },
                    Err(f) => Err(f),
                },
                Err(f) => Err(f),
            },
            Err(f) => Err(f),
        },
    }
}

/// A numeric comparison: the first operand's result, checked, then the second
/// operand evaluated and checked.
pub open spec fn compare_eval(first: Result<JsonView, Fault>, b: Expr, ctx: JsonView, prov: EvalEnv, op: int) -> Result<JsonView, Fault>
    decreases b, 1int, 0int,
{
    match first {
        Ok(va) => match number_of(va) {
            Ok(x) => match eval(b, ctx, prov) {
                Ok(vb) => match number_of(vb) {
                    Ok(y) => Ok(JsonView::Bool(compare_with(op, x, y))),
                    Err(f) => Err(f),
                },
                Err(f) => Err(f),
            },
            Err(f) => Err(f),
        },
        Err(f) => Err(f),
    }
}

/// The smallest or largest number of an array operand; `null` when it holds none.
pub open spec fn extreme_eval(a: Expr, ctx: JsonView, prov: EvalEnv, lowest: bool) -> Result<JsonView, Fault>
    decreases a, 1int, 0int,
{
    match eval(a, ctx, prov) {
        Ok(JsonView::Array(items)) => match extreme_from(items, 0, None, lowest) {
            Some(n) => Ok(JsonView::Number(n)),
            None => Ok(JsonView::Null),
        },
        Ok(_) => Err(Fault::TypeMismatch),
        Err(f) => Err(f),
    }
}

/// `And` over the operands from `i` on: `false` at the first falsy one.
pub open spec fn and_from(l: Seq<Expr>, ctx: JsonView, prov: EvalEnv, i: int) -> Result<JsonView, Fault>
    decreases l, 0int, l.len() - i,
{
    if i < 0 || i >= l.len() {
        Ok(JsonView::Bool(true))
    } else {
        match eval(l[i], ctx, prov) {
            Ok(v) => if !truthy(v) {
                Ok(JsonView::Bool(false))
            } else {
                and_from(l, ctx, prov, i + 1)
            },
            Err(f) => Err(f),
        }
    }
}

/// `Or` over the operands from `i` on: `true` at the first truthy one.
pub open spec fn or_from(l: Seq<Expr>, ctx: JsonView, prov: EvalEnv, i: int) -> Result<JsonView, Fault>
    decreases l, 0int, l.len() - i,
{
    if i < 0 || i >= l.len() {
        Ok(JsonView::Bool(false))
    } else {
        match eval(l[i], ctx, prov) {
            Ok(v) => if truthy(v) {
                Ok(JsonView::Bool(true))
            } else {
                or_from(l, ctx, prov, i + 1)
            },
            Err(f) => Err(f),
        }
    }
}

/// `Eq` over the operands from `i` on, against the first value: `false` at
/// the first different one.
pub open spec fn eq_from(l: Seq<Expr>, ctx: JsonView, prov: EvalEnv, first: JsonView, i: int) -> Result<JsonView, Fault>
    decreases l, 0int, l.len() - i,
{
    if i < 0 || i >= l.len() {
        Ok(JsonView::Bool(true))
    } else {
        match eval(l[i], ctx, prov) {
            Ok(v) => if !json_eq(first, v) {
                Ok(JsonView::Bool(false))
            } else {
                eq_from(l, ctx, prov, first, i + 1)
            },
            Err(f) => Err(f),
        }
    }
}

/// The sum of the operands from `i` on, added to `acc`; each partial sum must
/// stay within `i64`.
pub open spec fn sum_from(l: Seq<Expr>, ctx: JsonView, prov: EvalEnv, i: int, acc: int) -> Result<JsonView, Fault>
    decreases l, 0int, l.len() - i,
{
    if i < 0 || i >= l.len() {
        Ok(JsonView::Number(acc))
    } else {
        match eval(l[i], ctx, prov) {
            Ok(v) => match number_of(v) {
                Ok(n) => if in_i64(acc + n) {
                    sum_from(l, ctx, prov, i + 1, acc + n)
                } else {
                    Err(Fault::NotRepresentable)
                },
                Err(f) => Err(f),
            },
            Err(f) => Err(f),
        }
    }
}

/// The product of the operands from `i` on, times `acc`; each partial product
/// must stay within `i64`.
pub open spec fn product_from(l: Seq<Expr>, ctx: JsonView, prov: EvalEnv, i: int, acc: int) -> Result<JsonView, Fault>
    decreases l, 0int, l.len() - i,
{
    if i < 0 || i >= l.len() {
        Ok(JsonView::Number(acc))
    } else {
        match eval(l[i], ctx, prov) {
            Ok(v) => match number_of(v) {
                Ok(n) => if in_i64(acc * n) {
                    product_from(l, ctx, prov, i + 1, acc * n)
                } else {
                    Err(Fault::NotRepresentable)
                },
                Err(f) => Err(f),
            },
            Err(f) => Err(f),
        }
    }
}

/// `acc` minus the operands from `i` on; each partial difference must stay
/// within `i64`.
pub open spec fn difference_from(l: Seq<Expr>, ctx: JsonView, prov: EvalEnv, i: int, acc: int) -> Result<JsonView, Fault>
    decreases l, 0int, l.len() - i,
{
    if i < 0 || i >= l.len() {
        Ok(JsonView::Number(acc))
    } else {
        match eval(l[i], ctx, prov) {
            Ok(v) => match number_of(v) {
                Ok(n) => if in_i64(acc - n) {
                    difference_from(l, ctx, prov, i + 1, acc - n)
                } else {
                    Err(Fault::NotRepresentable)
                },
                Err(f) => Err(f),
            },
            Err(f) => Err(f),
        }
    }
}

/// `acc` divided by the operands from `i` on. `exact` stays true while every
/// division so far was exact and within `i64`; a zero divisor is refused, and
/// an inexact quotient is refused once all operands are checked.
pub open spec fn quotient_from(l: Seq<Expr>, ctx: JsonView, prov: EvalEnv, i: int, acc: int, exact: bool) -> Result<JsonView, Fault>
    decreases l, 0int, l.len() - i,
{
    if i < 0 || i >= l.len() {
        if exact {
            Ok(JsonView::Number(acc))
        } else {
            Err(Fault::NotRepresentable)
        }
    } else {
        match eval(l[i], ctx, prov) {
            Ok(v) => match number_of(v) {
                Ok(n) => if n == 0 {
                    Err(Fault::DivByZero)
                } else if exact && acc % n == 0 && in_i64(acc / n) {
                    quotient_from(l, ctx, prov, i + 1, acc / n, true)
                } else {
                    quotient_from(l, ctx, prov, i + 1, acc, false)
                },
                Err(f) => Err(f),
            },
            Err(f) => Err(f),
        }
    }
}

/// The texts of the operands from `i` on, appended to `acc`.
pub open spec fn concat_from(l: Seq<Expr>, ctx: JsonView, prov: EvalEnv, i: int, acc: Seq<char>) -> Result<JsonView, Fault>
    decreases l, 0int, l.len() - i,
{
    if i < 0 || i >= l.len() {
        Ok(JsonView::Str(acc))
    } else {
        match eval(l[i], ctx, prov) {
            Ok(v) => concat_from(l, ctx, prov, i + 1, acc + concat_piece(v)),
            Err(f) => Err(f),
        }
    }
}

/// The body evaluated for each item from `i` on, with the item bound to the alias.
pub open spec fn map_from(body: Expr, items: Seq<JsonView>, ctx: JsonView, alias: Seq<char>, prov: EvalEnv, i: int) -> Result<JsonView, Fault>
    decreases body, 1int, items.len() - i,
{
    if i < 0 || i >= items.len() {
        Ok(JsonView::Array(Seq::empty()))
    } else {
        match eval(body, with_alias(ctx, alias, items[i]), prov) {
            Ok(v) => match map_from(body, items, ctx, alias, prov, i + 1) {
                Ok(JsonView::Array(rest)) => Ok(JsonView::Array(seq![v] + rest)),
                Ok(other) => Ok(other),
                Err(f) => Err(f),
            },
            Err(f) => Err(f),
        }
    }
}

/// The items from `i` on for which the condition holds, with the item bound to
/// the alias.
pub open spec fn filter_from(cond: Expr, items: Seq<JsonView>, ctx: JsonView, alias: Seq<char>, prov: EvalEnv, i: int) -> Result<JsonView, Fault>
    decreases cond, 1int, items.len() - i,
{
    if i < 0 || i >= items.len() {
        Ok(JsonView::Array(Seq::empty()))
    } else {
        match eval(cond, with_alias(ctx, alias, items[i]), prov) {
            Ok(c) => match filter_from(cond, items, ctx, alias, prov, i + 1) {
                Ok(JsonView::Array(rest)) => Ok(JsonView::Array(
                    if truthy(c) {
                        seq![items[i]] + rest
                    } else {
                        rest
                    },
                )),
                Ok(other) => Ok(other),
                Err(f) => Err(f),
            },
            Err(f) => Err(f),
        }
    }
}

/// The content of an evaluation result.
pub open spec fn outcome(r: Result<JsonValue, RuleError>) -> Result<JsonView, Fault> {
    match r {
        Ok(v) => Ok(v@),
        Err(e) => Err(e@),
    }
}


// ---------------------------------------------------------------------------
// Evaluation with and without a data provider
// ---------------------------------------------------------------------------

/// Law: `If` evaluates its condition first; an error there is the result.
/// When the condition holds a truthy value the result is that of the `then`
/// branch, else that of the `else` branch, whatever the other branch is.
pub proof fn law_if_takes_one_branch(c: Expr, a: Expr, b: Expr, ctx: JsonView, env: EvalEnv)
    ensures
        ({
            let e = Expr::If { condition: Box::new(c), then_branch: Box::new(a), else_branch: Box::new(b) };
            &&& (eval(c, ctx, env) is Ok && truthy(eval(c, ctx, env)->Ok_0)) ==> eval(e, ctx, env) == eval(a, ctx, env)
            &&& (eval(c, ctx, env) is Ok && !truthy(eval(c, ctx, env)->Ok_0)) ==> eval(e, ctx, env) == eval(b, ctx, env)
            &&& eval(c, ctx, env) is Err ==> eval(e, ctx, env) == eval(c, ctx, env)
        }),
{
}

/// Law: an `If` whose condition is the literal `false`, `null`, `0` or the
/// empty string gives the value of its `else` branch; one whose condition is
/// `true` gives the value of its `then` branch.
pub proof fn law_if_on_literal_conditions(v: JsonValue, a: Expr, b: Expr, ctx: JsonView, env: EvalEnv)
    ensures
        ({
            let e = Expr::If {
                condition: Box::new(Expr::Val(v)),
                then_branch: Box::new(a),
                else_branch: Box::new(b),
            };
            &&& (v@ == JsonView::Bool(false) || v@ == JsonView::Null || v@ == JsonView::Number(0)
                || v@ == JsonView::Str(Seq::empty())) ==> eval(e, ctx, env) == eval(b, ctx, env)
            &&& v@ == JsonView::Bool(true) ==> eval(e, ctx, env) == eval(a, ctx, env)
        }),
{
    assert(eval(Expr::Val(v), ctx, env) == Ok::<JsonView, Fault>(v@));
    law_if_takes_one_branch(Expr::Val(v), a, b, ctx, env);
}

/// Law: the comparisons of two numbers are the comparisons of their values.
pub proof fn law_compare_numbers(a: JsonValue, b: JsonValue, x: int, y: int, ctx: JsonView, env: EvalEnv)
    requires
        a@ == JsonView::Number(x),
        b@ == JsonView::Number(y),
    ensures
        eval(Expr::Gt(Box::new(Expr::Val(a)), Box::new(Expr::Val(b))), ctx, env) == Ok::<JsonView, Fault>(JsonView::Bool(x > y)),
        eval(Expr::Lt(Box::new(Expr::Val(a)), Box::new(Expr::Val(b))), ctx, env) == Ok::<JsonView, Fault>(JsonView::Bool(x < y)),
        eval(Expr::Gte(Box::new(Expr::Val(a)), Box::new(Expr::Val(b))), ctx, env) == Ok::<JsonView, Fault>(JsonView::Bool(x >= y)),
        eval(Expr::Lte(Box::new(Expr::Val(a)), Box::new(Expr::Val(b))), ctx, env) == Ok::<JsonView, Fault>(JsonView::Bool(x <= y)),
{
    assert(eval(Expr::Val(a), ctx, env) == Ok::<JsonView, Fault>(a@));
    assert(eval(Expr::Val(b), ctx, env) == Ok::<JsonView, Fault>(b@));
    let vb = Expr::Val(b);
    assert(compare_eval(Ok(a@), vb, ctx, env, 0) == Ok::<JsonView, Fault>(JsonView::Bool(x > y)));
    assert(compare_eval(Ok(a@), vb, ctx, env, 1) == Ok::<JsonView, Fault>(JsonView::Bool(x < y)));
    assert(compare_eval(Ok(a@), vb, ctx, env, 2) == Ok::<JsonView, Fault>(JsonView::Bool(x >= y)));
    assert(compare_eval(Ok(a@), vb, ctx, env, 3) == Ok::<JsonView, Fault>(JsonView::Bool(x <= y)));
}

/// Law: the arithmetic of two numbers. `Add`, `Sub` and `Mul` give the sum,
/// difference and product when it fits in `i64`, else `NotRepresentable`;
/// `Div` refuses a zero divisor, gives the quotient of an exact division that
/// fits, and `NotRepresentable` otherwise.
pub proof fn law_arithmetic_of_two_numbers(l: Vec<Expr>, a: JsonValue, b: JsonValue, x: int, y: int, ctx: JsonView, env: EvalEnv)
    requires
        l@ == seq![Expr::Val(a), Expr::Val(b)],
        a@ == JsonView::Number(x),
        b@ == JsonView::Number(y),
        in_i64(x),
        in_i64(y),
    ensures
        eval(Expr::Add(l), ctx, env) == if in_i64(x + y) {
            Ok::<JsonView, Fault>(JsonView::Number(x + y))
        } else {
            Err(Fault::NotRepresentable)
        },
        eval(Expr::Sub(l), ctx, env) == if in_i64(x - y) {
            Ok::<JsonView, Fault>(JsonView::Number(x - y))
        } else {
            Err(Fault::NotRepresentable)
        },
        eval(Expr::Mul(l), ctx, env) == if in_i64(x * y) {
            Ok::<JsonView, Fault>(JsonView::Number(x * y))
        } else {
            Err(Fault::NotRepresentable)
        },
        eval(Expr::Div(l), ctx, env) == if y == 0 {
            Err::<JsonView, Fault>(Fault::DivByZero)
        } else if x % y == 0 && in_i64(x / y) {
            Ok(JsonView::Number(x / y))
        } else {
            Err(Fault::NotRepresentable)
        },
{
    let s = l@;
    assert(eval(s[0], ctx, env) == Ok::<JsonView, Fault>(a@));
    assert(eval(s[1], ctx, env) == Ok::<JsonView, Fault>(b@));
    assert(sum_from(s, ctx, env, 2, x + y) == Ok::<JsonView, Fault>(JsonView::Number(x + y)));
    assert(sum_from(s, ctx, env, 1, x) == if in_i64(x + y) {
        Ok::<JsonView, Fault>(JsonView::Number(x + y))
    } else {
        Err(Fault::NotRepresentable)
    });
    assert(sum_from(s, ctx, env, 0, 0) == sum_from(s, ctx, env, 1, x));
    assert(difference_from(s, ctx, env, 2, x - y) == Ok::<JsonView, Fault>(JsonView::Number(x - y)));
    assert(product_from(s, ctx, env, 2, x * y) == Ok::<JsonView, Fault>(JsonView::Number(x * y)));
    assert(1 * x == x);
    assert(product_from(s, ctx, env, 1, x) == if in_i64(x * y) {
        Ok::<JsonView, Fault>(JsonView::Number(x * y))
    } else {
        Err(Fault::NotRepresentable)
    });
    assert(product_from(s, ctx, env, 0, 1) == product_from(s, ctx, env, 1, x));
    assert(difference_from(s, ctx, env, 1, x) == if in_i64(x - y) {
        Ok::<JsonView, Fault>(JsonView::Number(x - y))
    } else {
        Err(Fault::NotRepresentable)
    });
    assert(eval(Expr::Sub(l), ctx, env) == difference_from(s, ctx, env, 1, x));
    assert(quotient_from(s, ctx, env, 2, x / y, true) == Ok::<JsonView, Fault>(JsonView::Number(x / y)));
    assert(quotient_from(s, ctx, env, 2, x, false) == Err::<JsonView, Fault>(Fault::NotRepresentable));
    assert(quotient_from(s, ctx, env, 1, x, true) == if y == 0 {
        Err::<JsonView, Fault>(Fault::DivByZero)
    } else if x % y == 0 && in_i64(x / y) {
        Ok(JsonView::Number(x / y))
    } else {
        Err(Fault::NotRepresentable)
    });
    assert(eval(Expr::Div(l), ctx, env) == quotient_from(s, ctx, env, 1, x, true));
}

/// Law: `Not`, `And` and `Or` on two values follow their truth: `And` holds
/// when both are truthy, `Or` when one is, `Not` when the value is falsy.
pub proof fn law_logic_of_two_values(l: Vec<Expr>, a: JsonValue, b: JsonValue, ctx: JsonView, env: EvalEnv)
    requires
        l@ == seq![Expr::Val(a), Expr::Val(b)],
    ensures
        eval(Expr::And(l), ctx, env) == Ok::<JsonView, Fault>(JsonView::Bool(truthy(a@) && truthy(b@))),
        eval(Expr::Or(l), ctx, env) == Ok::<JsonView, Fault>(JsonView::Bool(truthy(a@) || truthy(b@))),
        eval(Expr::Not(Box::new(Expr::Val(a))), ctx, env) == Ok::<JsonView, Fault>(JsonView::Bool(!truthy(a@))),
{
    let s = l@;
    assert(eval(s[0], ctx, env) == Ok::<JsonView, Fault>(a@));
    assert(eval(s[1], ctx, env) == Ok::<JsonView, Fault>(b@));
    assert(and_from(s, ctx, env, 2) == Ok::<JsonView, Fault>(JsonView::Bool(true)));
    assert(or_from(s, ctx, env, 2) == Ok::<JsonView, Fault>(JsonView::Bool(false)));
    assert(and_from(s, ctx, env, 1) == Ok::<JsonView, Fault>(JsonView::Bool(truthy(b@))));
    assert(or_from(s, ctx, env, 1) == Ok::<JsonView, Fault>(JsonView::Bool(truthy(b@))));
    assert(and_from(s, ctx, env, 0) == Ok::<JsonView, Fault>(JsonView::Bool(truthy(a@) && truthy(b@))));
    assert(or_from(s, ctx, env, 0) == Ok::<JsonView, Fault>(JsonView::Bool(truthy(a@) || truthy(b@))));
    assert(eval(Expr::Val(a), ctx, env) == Ok::<JsonView, Fault>(a@));
}

/// Law: `Concat` of two strings is the first followed by the second.
pub proof fn law_concat_of_two_strings(l: Vec<Expr>, a: JsonValue, b: JsonValue, x: Seq<char>, y: Seq<char>, ctx: JsonView, env: EvalEnv)
    requires
        l@ == seq![Expr::Val(a), Expr::Val(b)],
        a@ == JsonView::Str(x),
        b@ == JsonView::Str(y),
    ensures
        eval(Expr::Concat(l), ctx, env) == Ok::<JsonView, Fault>(JsonView::Str(x + y)),
{
    let s = l@;
    assert(eval(s[0], ctx, env) == Ok::<JsonView, Fault>(a@));
    assert(eval(s[1], ctx, env) == Ok::<JsonView, Fault>(b@));
    assert(Seq::<char>::empty() + x =~= x);
    assert(concat_from(s, ctx, env, 2, x + y) == Ok::<JsonView, Fault>(JsonView::Str(x + y)));
    assert(concat_from(s, ctx, env, 1, x) == Ok::<JsonView, Fault>(JsonView::Str(x + y)));
    assert(concat_from(s, ctx, env, 0, Seq::empty()) == concat_from(s, ctx, env, 1, Seq::<char>::empty() + x));
}

/// Law: `Abs` of a number is its absolute value when that fits in `i64`;
/// `Len` of a string or an array is its number of characters or items.
pub proof fn law_abs_and_len(a: JsonValue, ctx: JsonView, env: EvalEnv)
    ensures
        a@ matches JsonView::Number(x) ==> eval(Expr::Abs(Box::new(Expr::Val(a))), ctx, env) == if in_i64(
            if x < 0 { -x } else { x },
        ) {
            Ok::<JsonView, Fault>(JsonView::Number(if x < 0 { -x } else { x }))
        } else {
            Err(Fault::NotRepresentable)
        },
        a@ matches JsonView::Str(t) ==> (in_i64(t.len() as int) ==> eval(Expr::Len(Box::new(Expr::Val(a))), ctx, env)
            == Ok::<JsonView, Fault>(JsonView::Number(t.len() as int))),
        a@ matches JsonView::Array(xs) ==> (in_i64(xs.len() as int) ==> eval(Expr::Len(Box::new(Expr::Val(a))), ctx, env)
            == Ok::<JsonView, Fault>(JsonView::Number(xs.len() as int))),
        (a@ is Null || a@ is Bool || a@ is Number) ==> eval(Expr::Len(Box::new(Expr::Val(a))), ctx, env)
            == Err::<JsonView, Fault>(Fault::TypeMismatch),
{
    assert(eval(Expr::Val(a), ctx, env) == Ok::<JsonView, Fault>(a@));
}

/// Filtering with a condition that always holds keeps every item, in order.
proof fn lemma_filter_all(items: Seq<JsonView>, ctx: JsonView, alias: Seq<char>, env: EvalEnv, i: int, t: JsonValue)
    requires
        0 <= i <= items.len(),
        truthy(t@),
    ensures
        filter_from(Expr::Val(t), items, ctx, alias, env, i) == Ok::<JsonView, Fault>(
            JsonView::Array(items.subrange(i, items.len() as int)),
        ),
    decreases items.len() - i,
{
    if i < items.len() {
        lemma_filter_all(items, ctx, alias, env, i + 1, t);
        assert(eval(Expr::Val(t), with_alias(ctx, alias, items[i]), env) == Ok::<JsonView, Fault>(t@));
        assert(seq![items[i]] + items.subrange(i + 1, items.len() as int) =~= items.subrange(i, items.len() as int));
    } else {
        assert(items.subrange(i, items.len() as int) =~= Seq::<JsonView>::empty());
    }
}

/// Filtering with a condition that never holds keeps no item.
proof fn lemma_filter_none(items: Seq<JsonView>, ctx: JsonView, alias: Seq<char>, env: EvalEnv, i: int, f: JsonValue)
    requires
        0 <= i <= items.len(),
        !truthy(f@),
    ensures
        filter_from(Expr::Val(f), items, ctx, alias, env, i) == Ok::<JsonView, Fault>(JsonView::Array(Seq::empty())),
    decreases items.len() - i,
{
    if i < items.len() {
        lemma_filter_none(items, ctx, alias, env, i + 1, f);
        assert(eval(Expr::Val(f), with_alias(ctx, alias, items[i]), env) == Ok::<JsonView, Fault>(f@));
    }
}

/// Law: `Filter` over an array with a condition that is a truthy literal keeps
/// the whole array; with a falsy literal it keeps nothing.
pub proof fn law_filter_by_literal(list: JsonValue, c: JsonValue, alias: String, ctx: JsonView, env: EvalEnv)
    requires
        list@ is Array,
    ensures
        ({
            let e = Expr::Filter { list: Box::new(Expr::Val(list)), alias, condition: Box::new(Expr::Val(c)) };
            &&& truthy(c@) ==> eval(e, ctx, env) == Ok::<JsonView, Fault>(list@)
            &&& !truthy(c@) ==> eval(e, ctx, env) == Ok::<JsonView, Fault>(JsonView::Array(Seq::empty()))
        }),
{
    let items = list@->Array_0;
    assert(eval(Expr::Val(list), ctx, env) == Ok::<JsonView, Fault>(list@));
    if truthy(c@) {
        lemma_filter_all(items, ctx, alias@, env, 0, c);
        assert(items.subrange(0, items.len() as int) =~= items);
    } else {
        lemma_filter_none(items, ctx, alias@, env, 0, c);
    }
}

/// Law: an expression without `Lookup` has the same value in any two
/// environments that read the same time and write shifted timestamps alike,
/// whether or not they give a data provider, and whatever it answers; one
/// with neither `Lookup` nor `Now` has the same value whatever time they read.
/// So `evaluate` agrees with `evaluate_sync` on such expressions.
pub proof fn law_provider_irrelevant_without_lookup(e: Expr, ctx: JsonView, ea: EvalEnv, eb: EvalEnv)
    requires
        ea.3 == eb.3,
        !reads_env(e, ea.2 != eb.2),
    ensures
        eval(e, ctx, ea) == eval(e, ctx, eb),
    decreases e, 2int, 0int,
{
    match e {
        Expr::Val(_) | Expr::Var(_) | Expr::IsA(_) | Expr::Now => {},
        Expr::Lookup { .. } => {
            assert(reads_env(e, ea.2 != eb.2));
        },
        Expr::And { .. } | Expr::Or { .. } | Expr::Eq { .. } | Expr::Neq { .. } | Expr::Add { .. } | Expr::Mul { .. } | Expr::Sub { .. } | Expr::Div { .. } | Expr::Concat { .. } => lemma_lists_prov(e, ctx, ea, eb),
        Expr::Not { .. } | Expr::Abs { .. } | Expr::Len { .. } | Expr::Trim { .. } | Expr::Lower { .. } | Expr::Upper { .. } | Expr::Min { .. } | Expr::Max { .. } | Expr::Gt { .. } | Expr::Lt { .. } | Expr::Gte { .. } | Expr::Lte { .. } => lemma_unary_prov(e, ctx, ea, eb),
        Expr::Contains { .. } | Expr::RegexMatch { .. } | Expr::DateDiff { .. } | Expr::DateAdd { .. } | Expr::Round { .. } | Expr::If { .. } | Expr::Replace { .. } | Expr::MapItems { .. } | Expr::Filter { .. } => lemma_nested_prov(e, ctx, ea, eb),
    }
}

/// The law for the operators over a list of operands.
proof fn lemma_lists_prov(e: Expr, ctx: JsonView, ea: EvalEnv, eb: EvalEnv)
    requires
        ea.3 == eb.3,
        !reads_env(e, ea.2 != eb.2),
        e is And || e is Or || e is Eq || e is Neq || e is Add || e is Mul || e is Sub || e is Div || e is Concat,
    ensures
        eval(e, ctx, ea) == eval(e, ctx, eb),
    decreases e, 1int, 0int,
{
    match e {
        Expr::And(l) => {
            lemma_and_prov(l@, ctx, ea, eb, 0);
        },
        Expr::Or(l) => {
            lemma_or_prov(l@, ctx, ea, eb, 0);
        },
        Expr::Eq(l) => {
            if l@.len() >= 2 {
                lemma_no_lookup_at(l@, 0, 0, ea.2 != eb.2);
                lemma_no_lookup_at(l@, 0, 1, ea.2 != eb.2);
                law_provider_irrelevant_without_lookup(l@[0], ctx, ea, eb);
                match eval(l@[0], ctx, eb) {
                    Ok(first) => lemma_eq_prov(l@, ctx, ea, eb, first, 1),
                    Err(_) => {},
                }
            }
        },
        Expr::Neq(l) => {
            if l@.len() >= 2 {
                lemma_no_lookup_at(l@, 0, 0, ea.2 != eb.2);
                lemma_no_lookup_at(l@, 0, 1, ea.2 != eb.2);
                law_provider_irrelevant_without_lookup(l@[0], ctx, ea, eb);
                law_provider_irrelevant_without_lookup(l@[1], ctx, ea, eb);
            }
        },
        Expr::Add(l) => {
            lemma_sum_prov(l@, ctx, ea, eb, 0, 0);
        },
        Expr::Mul(l) => {
            lemma_product_prov(l@, ctx, ea, eb, 0, 1);
        },
        Expr::Sub(l) => {
            if l@.len() > 0 {
                lemma_no_lookup_at(l@, 0, 0, ea.2 != eb.2);
                lemma_no_lookup_at(l@, 0, 1, ea.2 != eb.2);
                law_provider_irrelevant_without_lookup(l@[0], ctx, ea, eb);
                match eval(l@[0], ctx, eb) {
                    Ok(v) => match number_of(v) {
                        Ok(n) => lemma_difference_prov(l@, ctx, ea, eb, 1, n),
                        Err(_) => {},
                    },
                    Err(_) => {},
                }
            }
        },
        Expr::Div(l) => {
            if l@.len() >= 2 {
                lemma_no_lookup_at(l@, 0, 0, ea.2 != eb.2);
                lemma_no_lookup_at(l@, 0, 1, ea.2 != eb.2);
                law_provider_irrelevant_without_lookup(l@[0], ctx, ea, eb);
                match eval(l@[0], ctx, eb) {
                    Ok(v) => match number_of(v) {
                        Ok(n) => lemma_quotient_prov(l@, ctx, ea, eb, 1, n, true),
                        Err(_) => {},
                    },
                    Err(_) => {},
                }
            }
        },
        Expr::Concat(l) => {
            lemma_concat_prov(l@, ctx, ea, eb, 0, Seq::empty());
        },
        _ => {},
    }
}

/// The law for the operators over one or two operands.
proof fn lemma_unary_prov(e: Expr, ctx: JsonView, ea: EvalEnv, eb: EvalEnv)
    requires
        ea.3 == eb.3,
        !reads_env(e, ea.2 != eb.2),
        e is Not || e is Abs || e is Len || e is Trim || e is Lower || e is Upper || e is Min || e is Max || e is Gt || e is Lt || e is Gte || e is Lte,
    ensures
        eval(e, ctx, ea) == eval(e, ctx, eb),
    decreases e, 1int, 0int,
{
    match e {
        Expr::Not(a) | Expr::Abs(a) | Expr::Len(a) | Expr::Trim(a) | Expr::Lower(a)
        | Expr::Upper(a) => {
            law_provider_irrelevant_without_lookup(*a, ctx, ea, eb);
        },
        Expr::Min(a) | Expr::Max(a) => {
            lemma_extreme_prov(*a, ctx, ea, eb, true);
            lemma_extreme_prov(*a, ctx, ea, eb, false);
            law_provider_irrelevant_without_lookup(*a, ctx, ea, eb);
        },
        Expr::Gt(a, b) | Expr::Lt(a, b) | Expr::Gte(a, b) | Expr::Lte(a, b) => {
            law_provider_irrelevant_without_lookup(*a, ctx, ea, eb);
            law_provider_irrelevant_without_lookup(*b, ctx, ea, eb);
            let first = eval(*a, ctx, eb);
            lemma_compare_prov(first, *b, ctx, ea, eb, 0);
            lemma_compare_prov(first, *b, ctx, ea, eb, 1);
            lemma_compare_prov(first, *b, ctx, ea, eb, 2);
            lemma_compare_prov(first, *b, ctx, ea, eb, 3);
        },
        _ => {},
    }
}

/// The law for the other operators with operands.
proof fn lemma_nested_prov(e: Expr, ctx: JsonView, ea: EvalEnv, eb: EvalEnv)
    requires
        ea.3 == eb.3,
        !reads_env(e, ea.2 != eb.2),
        e is Contains || e is RegexMatch || e is DateDiff || e is DateAdd || e is Round || e is If || e is Replace || e is MapItems || e is Filter,
    ensures
        eval(e, ctx, ea) == eval(e, ctx, eb),
    decreases e, 1int, 0int,
{
    match e {
        Expr::Contains { list: a, value: b } | Expr::RegexMatch { value: a, pattern: b }
        | Expr::DateDiff { start: a, end: b } | Expr::DateAdd { date: a, days: b }
        | Expr::Round { value: a, precision: b } => {
            law_provider_irrelevant_without_lookup(*a, ctx, ea, eb);
            law_provider_irrelevant_without_lookup(*b, ctx, ea, eb);
        },
        Expr::If { condition, then_branch, else_branch } => {
            law_provider_irrelevant_without_lookup(*condition, ctx, ea, eb);
            law_provider_irrelevant_without_lookup(*then_branch, ctx, ea, eb);
            law_provider_irrelevant_without_lookup(*else_branch, ctx, ea, eb);
        },
        Expr::Replace { value, pattern, replacement } => {
            law_provider_irrelevant_without_lookup(*value, ctx, ea, eb);
            law_provider_irrelevant_without_lookup(*pattern, ctx, ea, eb);
            law_provider_irrelevant_without_lookup(*replacement, ctx, ea, eb);
        },
        Expr::MapItems { list, alias, expr } => {
            law_provider_irrelevant_without_lookup(*list, ctx, ea, eb);
            law_provider_irrelevant_without_lookup(*expr, ctx, ea, eb);
            match eval(*list, ctx, eb) {
                Ok(JsonView::Array(items)) => lemma_map_prov(*expr, items, ctx, ea, eb, alias@, 0),
                _ => {},
            }
        },
        Expr::Filter { list, alias, condition } => {
            law_provider_irrelevant_without_lookup(*list, ctx, ea, eb);
            law_provider_irrelevant_without_lookup(*condition, ctx, ea, eb);
            match eval(*list, ctx, eb) {
                Ok(JsonView::Array(items)) => lemma_filter_prov(*condition, items, ctx, ea, eb, alias@, 0),
                _ => {},
            }
        },
        _ => {},
    }
}

/// No lookup from `i` on means none at any later position.
proof fn lemma_no_lookup_at(l: Seq<Expr>, i: int, k: int, clock: bool)
    requires
        !any_reads(l, i, clock),
        0 <= i <= k,
    ensures
        !any_reads(l, k, clock),
        k < l.len() ==> !reads_env(l[k], clock),
    decreases k - i,
{
    if i < k && i < l.len() {
        lemma_no_lookup_at(l, i + 1, k, clock);
    }
}

proof fn lemma_and_prov(l: Seq<Expr>, ctx: JsonView, ea: EvalEnv, eb: EvalEnv, i: int)
    requires
        ea.3 == eb.3,
        !any_reads(l, i, ea.2 != eb.2),
    ensures
        and_from(l, ctx, ea, i) == and_from(l, ctx, eb, i),
    decreases l, 0int, l.len() - i,
{
    if 0 <= i < l.len() {
        law_provider_irrelevant_without_lookup(l[i], ctx, ea, eb);
        lemma_and_prov(l, ctx, ea, eb, i + 1);
    }
}

proof fn lemma_or_prov(l: Seq<Expr>, ctx: JsonView, ea: EvalEnv, eb: EvalEnv, i: int)
    requires
        ea.3 == eb.3,
        !any_reads(l, i, ea.2 != eb.2),
    ensures
        or_from(l, ctx, ea, i) == or_from(l, ctx, eb, i),
    decreases l, 0int, l.len() - i,
{
    if 0 <= i < l.len() {
        law_provider_irrelevant_without_lookup(l[i], ctx, ea, eb);
        lemma_or_prov(l, ctx, ea, eb, i + 1);
    }
}

proof fn lemma_eq_prov(l: Seq<Expr>, ctx: JsonView, ea: EvalEnv, eb: EvalEnv, first: JsonView, i: int)
    requires
        ea.3 == eb.3,
        !any_reads(l, i, ea.2 != eb.2),
    ensures
        eq_from(l, ctx, ea, first, i) == eq_from(l, ctx, eb, first, i),
    decreases l, 0int, l.len() - i,
{
    if 0 <= i < l.len() {
        law_provider_irrelevant_without_lookup(l[i], ctx, ea, eb);
        lemma_eq_prov(l, ctx, ea, eb, first, i + 1);
    }
}

proof fn lemma_sum_prov(l: Seq<Expr>, ctx: JsonView, ea: EvalEnv, eb: EvalEnv, i: int, acc: int)
    requires
        ea.3 == eb.3,
        !any_reads(l, i, ea.2 != eb.2),
    ensures
        sum_from(l, ctx, ea, i, acc) == sum_from(l, ctx, eb, i, acc),
    decreases l, 0int, l.len() - i,
{
    if 0 <= i < l.len() {
        law_provider_irrelevant_without_lookup(l[i], ctx, ea, eb);
        match eval(l[i], ctx, eb) {
            Ok(v) => match number_of(v) {
                Ok(n) => lemma_sum_prov(l, ctx, ea, eb, i + 1, acc + n),
                Err(_) => {},
            },
            Err(_) => {},
        }
    }
}

proof fn lemma_product_prov(l: Seq<Expr>, ctx: JsonView, ea: EvalEnv, eb: EvalEnv, i: int, acc: int)
    requires
        ea.3 == eb.3,
        !any_reads(l, i, ea.2 != eb.2),
    ensures
        product_from(l, ctx, ea, i, acc) == product_from(l, ctx, eb, i, acc),
    decreases l, 0int, l.len() - i,
{
    if 0 <= i < l.len() {
        law_provider_irrelevant_without_lookup(l[i], ctx, ea, eb);
        match eval(l[i], ctx, eb) {
            Ok(v) => match number_of(v) {
                Ok(n) => lemma_product_prov(l, ctx, ea, eb, i + 1, acc * n),
                Err(_) => {},
            },
            Err(_) => {},
        }
    }
}

proof fn lemma_difference_prov(l: Seq<Expr>, ctx: JsonView, ea: EvalEnv, eb: EvalEnv, i: int, acc: int)
    requires
        ea.3 == eb.3,
        !any_reads(l, i, ea.2 != eb.2),
    ensures
        difference_from(l, ctx, ea, i, acc) == difference_from(l, ctx, eb, i, acc),
    decreases l, 0int, l.len() - i,
{
    if 0 <= i < l.len() {
        law_provider_irrelevant_without_lookup(l[i], ctx, ea, eb);
        match eval(l[i], ctx, eb) {
            Ok(v) => match number_of(v) {
                Ok(n) => lemma_difference_prov(l, ctx, ea, eb, i + 1, acc - n),
                Err(_) => {},
            },
            Err(_) => {},
        }
    }
}

proof fn lemma_quotient_prov(l: Seq<Expr>, ctx: JsonView, ea: EvalEnv, eb: EvalEnv, i: int, acc: int, exact: bool)
    requires
        ea.3 == eb.3,
        !any_reads(l, i, ea.2 != eb.2),
    ensures
        quotient_from(l, ctx, ea, i, acc, exact) == quotient_from(l, ctx, eb, i, acc, exact),
    decreases l, 0int, l.len() - i,
{
    if 0 <= i < l.len() {
        law_provider_irrelevant_without_lookup(l[i], ctx, ea, eb);
        match eval(l[i], ctx, eb) {
            Ok(v) => match number_of(v) {
                Ok(n) => {
                    if n != 0 {
                        lemma_quotient_prov(l, ctx, ea, eb, i + 1, acc / n, true);
                        lemma_quotient_prov(l, ctx, ea, eb, i + 1, acc, false);
                    }
                },
                Err(_) => {},
            },
            Err(_) => {},
        }
    }
}

proof fn lemma_concat_prov(l: Seq<Expr>, ctx: JsonView, ea: EvalEnv, eb: EvalEnv, i: int, acc: Seq<char>)
    requires
        ea.3 == eb.3,
        !any_reads(l, i, ea.2 != eb.2),
    ensures
        concat_from(l, ctx, ea, i, acc) == concat_from(l, ctx, eb, i, acc),
    decreases l, 0int, l.len() - i,
{
    if 0 <= i < l.len() {
        law_provider_irrelevant_without_lookup(l[i], ctx, ea, eb);
        match eval(l[i], ctx, eb) {
            Ok(v) => lemma_concat_prov(l, ctx, ea, eb, i + 1, acc + concat_piece(v)),
            Err(_) => {},
        }
    }
}

proof fn lemma_compare_prov(first: Result<JsonView, Fault>, b: Expr, ctx: JsonView, ea: EvalEnv, eb: EvalEnv, op: int)
    requires
        ea.3 == eb.3,
        !reads_env(b, ea.2 != eb.2),
    ensures
        compare_eval(first, b, ctx, ea, op) == compare_eval(first, b, ctx, eb, op),
    decreases b, 3int, 0int,
{
    law_provider_irrelevant_without_lookup(b, ctx, ea, eb);
}

proof fn lemma_extreme_prov(a: Expr, ctx: JsonView, ea: EvalEnv, eb: EvalEnv, lowest: bool)
    requires
        ea.3 == eb.3,
        !reads_env(a, ea.2 != eb.2),
    ensures
        extreme_eval(a, ctx, ea, lowest) == extreme_eval(a, ctx, eb, lowest),
    decreases a, 3int, 0int,
{
    law_provider_irrelevant_without_lookup(a, ctx, ea, eb);
}

proof fn lemma_map_prov(body: Expr, items: Seq<JsonView>, ctx: JsonView, ea: EvalEnv, eb: EvalEnv, alias: Seq<char>, i: int)
    requires
        ea.3 == eb.3,
        !reads_env(body, ea.2 != eb.2),
    ensures
        map_from(body, items, ctx, alias, ea, i) == map_from(body, items, ctx, alias, eb, i),
    decreases body, 3int, items.len() - i,
{
    if 0 <= i < items.len() {
        law_provider_irrelevant_without_lookup(body, with_alias(ctx, alias, items[i]), ea, eb);
        lemma_map_prov(body, items, ctx, ea, eb, alias, i + 1);
    }
}

proof fn lemma_filter_prov(cond: Expr, items: Seq<JsonView>, ctx: JsonView, ea: EvalEnv, eb: EvalEnv, alias: Seq<char>, i: int)
    requires
        ea.3 == eb.3,
        !reads_env(cond, ea.2 != eb.2),
    ensures
        filter_from(cond, items, ctx, alias, ea, i) == filter_from(cond, items, ctx, alias, eb, i),
    decreases cond, 3int, items.len() - i,
{
    if 0 <= i < items.len() {
        law_provider_irrelevant_without_lookup(cond, with_alias(ctx, alias, items[i]), ea, eb);
        lemma_filter_prov(cond, items, ctx, ea, eb, alias, i + 1);
    }
}

/// What `str::to_uppercase` gives for a text (Unicode case mapping).
pub uninterp spec fn upper_text(s: Seq<char>) -> Seq<char>;

/// What `str::to_lowercase` gives for a text (Unicode case mapping).
pub uninterp spec fn lower_text(s: Seq<char>) -> Seq<char>;

/// The whole days from `start` to `end` when both parse as RFC 3339
/// timestamps (`chrono`), else `None`.
pub uninterp spec fn timestamp_day_span(start: Seq<char>, end: Seq<char>) -> Option<i64>;

/// The days from `start` to `end` when both parse as `%Y-%m-%d` dates
/// (`chrono`), else `None`.
pub uninterp spec fn calendar_day_span(start: Seq<char>, end: Seq<char>) -> Option<i64>;

/// Whether `date` parses with `chrono`'s `FromStr` for `DateTime<Local>` and
/// the instant `days` days later stays in chrono's range.
pub uninterp spec fn timestamp_shift_defined(date: Seq<char>, days: int) -> bool;

/// The `%Y-%m-%d` date `days` days after `date` when `date` parses as such a
/// date and the sum stays in `chrono`'s range, else `None`.
pub uninterp spec fn calendar_shift(date: Seq<char>, days: int) -> Option<Seq<char>>;


/// Calls `str::to_uppercase`; the result is named by `upper_text`, a function of
/// the text alone.
#[verifier::external_body]
pub(crate) fn to_upper(s: &str) -> (r: String)
    ensures
        r@ == upper_text(s@),
{
    s.to_uppercase()
}

/// Calls `str::to_lowercase`; the result is named by `lower_text`, a function of
/// the text alone.
#[verifier::external_body]
pub(crate) fn to_lower(s: &str) -> (r: String)
    ensures
        r@ == lower_text(s@),
{
    s.to_lowercase()
}

/// Parses both texts with `chrono`'s `FromStr` for `DateTime<Local>` and, when
/// both parse, gives `TimeDelta::num_days` of their difference. Parsing goes
/// through a fixed offset, and the difference of two instants does not depend
/// on the local time zone, so the result is named by `timestamp_day_span`.
#[verifier::external_body]
pub(crate) fn timestamp_days_between(start: &str, end: &str) -> (r: Option<i64>)
    ensures
        r == timestamp_day_span(start@, end@),
{
    match (start.parse::<chrono::DateTime<chrono::Local>>(), end.parse::<chrono::DateTime<chrono::Local>>()) {
        (Ok(s), Ok(e)) => Some((e - s).num_days()),
        _ => None,
    }
}

/// Parses both texts with `chrono::NaiveDate::parse_from_str` and the format
/// `%Y-%m-%d` and, when both parse, gives `TimeDelta::num_days` of their
/// difference; named by `calendar_day_span`.
#[verifier::external_body]
pub(crate) fn calendar_days_between(start: &str, end: &str) -> (r: Option<i64>)
    ensures
        r == calendar_day_span(start@, end@),
{
    match (
        chrono::NaiveDate::parse_from_str(start, "%Y-%m-%d"),
        chrono::NaiveDate::parse_from_str(end, "%Y-%m-%d"),
    ) {
        (Ok(s), Ok(e)) => Some((e - s).num_days()),
        _ => None,
    }
}

/// Parses `date` with `chrono`'s `FromStr` for `DateTime<Local>`, adds `days`
/// days (`TimeDelta::try_days`, `checked_add_signed`) and formats the result
/// with `to_rfc3339`. `None` exactly when the text does not parse or the sum
/// leaves chrono's range, which depends on the arguments alone (parsing goes
/// through a fixed offset and the sum is taken on the UTC instant); this is
/// named by `timestamp_shift_defined`. The text itself is written in the
/// machine's local offset, so nothing is claimed of it.
#[verifier::external_body]
pub(crate) fn timestamp_plus_days(date: &str, days: i64) -> (r: Option<String>)
    ensures
        r is Some <==> timestamp_shift_defined(date@, days as int),
{
    let t = date.parse::<chrono::DateTime<chrono::Local>>().ok()?;
    let d = chrono::TimeDelta::try_days(days)?;
    Some(t.checked_add_signed(d)?.to_rfc3339())
}

/// Parses `date` with `chrono::NaiveDate::parse_from_str` and `%Y-%m-%d`, adds
/// `days` days (`TimeDelta::try_days`, `checked_add_signed`) and formats the
/// date the same way; `None` when the text does not parse or the sum leaves
/// chrono's range. The result is a function of the arguments alone, named by
/// `calendar_shift`.
#[verifier::external_body]
pub(crate) fn calendar_plus_days(date: &str, days: i64) -> (r: Option<String>)
    ensures
        match r {
            Some(t) => calendar_shift(date@, days as int) == Some(t@),
            None => calendar_shift(date@, days as int) is None,
        },
{
    let t = chrono::NaiveDate::parse_from_str(date, "%Y-%m-%d").ok()?;
    let d = chrono::TimeDelta::try_days(days)?;
    Some(t.checked_add_signed(d)?.format("%Y-%m-%d").to_string())
}

} // verus!
