//! The rule evaluator: the value of a rule expression in a JSON context,
//! following `rules::eval`.
use vstd::prelude::*;
use crate::json::{JsonValue, JsonView, entries_set, jview, jview_items, lemma_jview_items, vget};
use crate::json_eq::{contains_equal, json_equal};
use crate::json_text::to_json_text;
use crate::pattern::pattern_matches;
use crate::rules::{
    Expr, EvalEnv, Fault, RuleError, and_from, any_lookup, calendar_days_between,
    compare_eval, compare_with, concat_from, concat_piece, difference_from, eq_from,
    eval, extreme_eval, extreme_from, filter_from, has_lookup, in_i64, interleave, is_a, len_of,
    map_from, names_class, number_of, or_from, outcome, pow10, product_from, quotient_from,
    replace_text, resolve_path, round_int, sum_from, text_of, timestamp_days_between,
    timestamp_plus_days, calendar_plus_days, to_lower, to_upper, type_matches, with_alias,
    wrap_i32, is_truthy, truthy, sync_env, lookup_id, timestamp_shift_defined, calendar_shift, ShiftFn,
};
use crate::transform::{now_rfc3339, rfc3339_utc_text};
use crate::text::{chars_of, concat2, contains, ends_with, owned, push_char, replace_all, str_eq, trim};

verus! {

/// A source of document fields for `Lookup`, implemented by the caller.
pub trait DataProvider {
    /// What the provider answers for the field `field` of the document `id`
    /// in `collection`. The default, no answer at all, fits a provider without
    /// data; a provider with data states its answers here.
    closed spec fn answer(&self, collection: Seq<char>, id: Seq<char>, field: Seq<char>) -> Option<JsonView> {
        None
    }

    /// The field of the document `id` in `collection`, when there is one (see
    /// `answer`).
    fn get_value(&self, collection: &str, id: &str, field: &str) -> (r: Option<JsonValue>)
        ensures
            match r {
                Some(v) => self.answer(collection@, id@, field@) == Some(v@),
                None => self.answer(collection@, id@, field@) is None,
            };
}

/// The environment of an evaluation whose lookups `provider` answers, at time
/// `now`, shifted timestamps written as `shift` gives them.
pub open spec fn provider_env<P: DataProvider>(provider: &P, now: Seq<char>, shift: ShiftFn) -> EvalEnv {
    (true, |c: Seq<char>, i: Seq<char>, f: Seq<char>| provider.answer(c, i, f), now, shift)
}

/// The environment of an evaluation with or without a provider.
pub open spec fn env_of<P: DataProvider>(prov: Option<&P>, now: Seq<char>, shift: ShiftFn) -> EvalEnv {
    match prov {
        Some(p) => provider_env(p, now, shift),
        None => sync_env(now, shift),
    }
}

/// A provider that never has data.
pub struct NoOpDataProvider;

impl DataProvider for NoOpDataProvider {
    open spec fn answer(&self, collection: Seq<char>, id: Seq<char>, field: Seq<char>) -> Option<JsonView> {
        None
    }

    fn get_value(&self, collection: &str, id: &str, field: &str) -> (r: Option<JsonValue>)
        ensures
            r is None,
    {
        None
    }
}

/// The rule evaluator.
pub struct Evaluator;

/// Whether a lookup occurs in the expressions from `i` on.
fn any_requires_async(l: &Vec<Expr>, parent: &Expr) -> (b: bool)
    requires
        parent is And || parent is Or || parent is Eq || parent is Neq || parent is Add
            || parent is Sub || parent is Mul || parent is Div || parent is Concat,
        match *parent {
            Expr::And(x) | Expr::Or(x) | Expr::Eq(x) | Expr::Neq(x) | Expr::Add(x) | Expr::Sub(x)
            | Expr::Mul(x) | Expr::Div(x) | Expr::Concat(x) => x == *l,
            _ => false,
        },
    ensures
        b == any_lookup(l@, 0),
    decreases parent, 0int,
{
    let mut i: usize = l.len();
    while i > 0
        invariant
            i <= l@.len(),
            match *parent {
                Expr::And(x) | Expr::Or(x) | Expr::Eq(x) | Expr::Neq(x) | Expr::Add(x) | Expr::Sub(x)
                | Expr::Mul(x) | Expr::Div(x) | Expr::Concat(x) => x == *l,
                _ => false,
            },
            any_lookup(l@, i as int) == false,
        decreases i,
    {
        proof {
            lemma_list_child(parent, l, i - 1);
        }
        if Evaluator::requires_async(&l[i - 1]) {
            proof {
                lemma_any_lookup_from(l@, 0, i - 1);
            }
            return true;
        }
        i = i - 1;
    }
    false
}

/// A lookup at position `k` is found from every earlier position.
proof fn lemma_any_lookup_from(l: Seq<Expr>, i: int, k: int)
    requires
        0 <= i <= k < l.len(),
        has_lookup(l[k]),
    ensures
        any_lookup(l, i),
    decreases k - i,
{
    if i < k {
        lemma_any_lookup_from(l, i + 1, k);
    }
}

/// An operand of a list operator is smaller than the operator.
proof fn lemma_list_child(parent: &Expr, l: &Vec<Expr>, i: int)
    requires
        0 <= i < l@.len(),
        match *parent {
            Expr::And(x) | Expr::Or(x) | Expr::Eq(x) | Expr::Neq(x) | Expr::Add(x) | Expr::Sub(x)
            | Expr::Mul(x) | Expr::Div(x) | Expr::Concat(x) => x == *l,
            _ => false,
        },
    ensures
        decreases_to!(*parent => l@[i]),
{
    assert(decreases_to!(*l => l@[i]));
    match *parent {
        Expr::And(x) => assert(decreases_to!(*parent => (*parent)->And_0)),
        Expr::Or(x) => assert(decreases_to!(*parent => (*parent)->Or_0)),
        Expr::Eq(x) => assert(decreases_to!(*parent => (*parent)->Eq_0)),
        Expr::Neq(x) => assert(decreases_to!(*parent => (*parent)->Neq_0)),
        Expr::Add(x) => assert(decreases_to!(*parent => (*parent)->Add_0)),
        Expr::Sub(x) => assert(decreases_to!(*parent => (*parent)->Sub_0)),
        Expr::Mul(x) => assert(decreases_to!(*parent => (*parent)->Mul_0)),
        Expr::Div(x) => assert(decreases_to!(*parent => (*parent)->Div_0)),
        Expr::Concat(x) => assert(decreases_to!(*parent => (*parent)->Concat_0)),
        _ => {},
    }
}


/// The result of the items before a position put in front of the result from
/// that position on.
pub open spec fn prepend(pre: Seq<JsonView>, r: Result<JsonView, Fault>) -> Result<JsonView, Fault> {
    match r {
        Ok(JsonView::Array(rest)) => Ok(JsonView::Array(pre + rest)),
        other => other,
    }
}

/// `shift` writes each recorded shifted timestamp as it was written.
pub open spec fn fits(shift: ShiftFn, v: Seq<(String, i64, String)>) -> bool {
    forall|i: int| 0 <= i < v.len() ==> shift((#[trigger] v[i]).0@, v[i].1 as int) == v[i].2@
}

/// Recorded shifted timestamps: each shift is defined, and a timestamp shifted
/// by a number of days is recorded with one text only.
pub open spec fn shifts_ok(v: Seq<(String, i64, String)>) -> bool {
    &&& forall|i: int| 0 <= i < v.len() ==> timestamp_shift_defined((#[trigger] v[i]).0@, v[i].1 as int)
    &&& forall|i: int, j: int|
        0 <= i < v.len() && 0 <= j < v.len() && (#[trigger] v[i]).0@ == (#[trigger] v[j]).0@ && v[i].1 == v[j].1
            ==> v[i].2@ == v[j].2@
}

/// The writing of shifted timestamps that the record gives, empty elsewhere.
pub open spec fn shift_fn_of(v: Seq<(String, i64, String)>) -> ShiftFn {
    |d: Seq<char>, n: int|
        if exists|i: int| 0 <= i < v.len() && v[i].0@ == d && v[i].1 as int == n {
            v[choose|i: int| 0 <= i < v.len() && v[i].0@ == d && v[i].1 as int == n].2@
        } else {
            Seq::empty()
        }
}

/// A consistent record is met by the writing it gives.
proof fn lemma_shift_fn_fits(v: Seq<(String, i64, String)>)
    requires
        shifts_ok(v),
    ensures
        fits(shift_fn_of(v), v),
{
    assert forall|i: int| 0 <= i < v.len() implies (shift_fn_of(v))((#[trigger] v[i]).0@, v[i].1 as int) == v[i].2@ by {
        let d = v[i].0@;
        let n = v[i].1 as int;
        assert(0 <= i < v.len() && v[i].0@ == d && v[i].1 as int == n);
        let j = choose|j: int| 0 <= j < v.len() && v[j].0@ == d && v[j].1 as int == n;
        assert(v[j].2@ == v[i].2@);
    }
}

/// Recording a new defined shift keeps the record consistent, and a writing
/// that meets the longer record meets the shorter one.
proof fn lemma_shifts_push(v: Seq<(String, i64, String)>, e: (String, i64, String))
    requires
        shifts_ok(v),
        timestamp_shift_defined(e.0@, e.1 as int),
        forall|i: int| 0 <= i < v.len() ==> !((#[trigger] v[i]).0@ == e.0@ && v[i].1 == e.1),
    ensures
        shifts_ok(v.push(e)),
        forall|sh: ShiftFn| #[trigger] fits(sh, v.push(e)) ==> fits(sh, v) && sh(e.0@, e.1 as int) == e.2@,
{
    let w = v.push(e);
    assert forall|i: int| 0 <= i < v.len() implies #[trigger] w[i] == v[i] by {}
    assert(w[v.len() as int] == e);
    assert forall|sh: ShiftFn| #[trigger] fits(sh, w) implies fits(sh, v) && sh(e.0@, e.1 as int) == e.2@ by {
        assert forall|i: int| 0 <= i < v.len() implies sh((#[trigger] v[i]).0@, v[i].1 as int) == v[i].2@ by {
            assert(w[i] == v[i]);
        }
        assert(w[v.len() as int] == e);
    }
}

/// The position of a recorded shift of `d` by `n` days.
fn find_shift(v: &Vec<(String, i64, String)>, d: &str, n: i64) -> (r: Option<usize>)
    ensures
        match r {
            Some(k) => k < v@.len() && v@[k as int].0@ == d@ && v@[k as int].1 == n,
            None => forall|i: int| 0 <= i < v@.len() ==> !((#[trigger] v@[i]).0@ == d@ && v@[i].1 == n),
        },
{
    let mut k: usize = 0;
    while k < v.len()
        invariant
            k <= v@.len(),
            forall|i: int| 0 <= i < k ==> !((#[trigger] v@[i]).0@ == d@ && v@[i].1 == n),
        decreases v@.len() - k,
    {
        if v[k].1 == n && str_eq(v[k].0.as_str(), d) {
            return Some(k);
        }
        k = k + 1;
    }
    None
}

/// Whether `class` is named by a JSON type text.
fn type_matches_exec(text: &str, class: &str) -> (b: bool)
    ensures
        b == type_matches(text@, class@),
{
    proof {
        reveal_strlit(":");
        reveal_strlit("#");
        assert(":"@ =~= seq![':']);
        assert("#"@ =~= seq!['#']);
    }
    if str_eq(text, class) {
        return true;
    }
    let colon = concat2(":", class);
    let hash = concat2("#", class);
    ends_with(text, colon.as_str()) || ends_with(text, hash.as_str())
}

/// Whether the context's `@type` names `class` (see `is_a`).
fn is_a_exec(ctx: &JsonValue, class: &str) -> (b: bool)
    ensures
        b == is_a(ctx@, class@),
{
    match ctx.get("@type") {
        Some(t) => match t {
            JsonValue::String(s) => type_matches_exec(s.as_str(), class),
            JsonValue::Array(items) => {
                proof {
                    lemma_jview_items(items@);
                }
                let ghost vi = jview_items(items@);
                let mut i: usize = 0;
                while i < items.len()
                    invariant
                        i <= items@.len(),
                        vi == jview_items(items@),
                        vi.len() == items@.len(),
                        forall|j: int| 0 <= j < items@.len() ==> #[trigger] vi[j] == jview(items@[j]),
                        forall|j: int| 0 <= j < i ==> !names_class(#[trigger] vi[j], class@),
                        vget(ctx@, "@type"@) == Some(JsonView::Array(vi)),
                    decreases items@.len() - i,
                {
                    match &items[i] {
                        JsonValue::String(s) => {
                            if type_matches_exec(s.as_str(), class) {
                                proof {
                                    crate::rules::lemma_is_a_item(ctx@, class@, vi, i as int);
                                }
                                return true;
                            }
                        },
                        _ => {},
                    }
                    i = i + 1;
                }
                false
            },
            _ => false,
        },
        None => false,
    }
}

/// The smallest (`lowest`) or largest number among the items.
fn extreme_of(items: &Vec<JsonValue>, lowest: bool) -> (r: Option<i64>)
    ensures
        match r {
            Some(x) => extreme_from(jview_items(items@), 0, None, lowest) == Some(x as int),
            None => extreme_from(jview_items(items@), 0, None, lowest) is None,
        },
{
    proof {
        lemma_jview_items(items@);
    }
    let ghost vi = jview_items(items@);
    let mut best: Option<i64> = None;
    let mut i: usize = 0;
    while i < items.len()
        invariant
            i <= items@.len(),
            vi == jview_items(items@),
            vi.len() == items@.len(),
            forall|j: int| 0 <= j < items@.len() ==> #[trigger] vi[j] == jview(items@[j]),
            extreme_from(vi, 0, None, lowest) == extreme_from(
                vi,
                i as int,
                match best {
                    Some(b) => Some(b as int),
                    None => None,
                },
                lowest,
            ),
        decreases items@.len() - i,
    {
        match &items[i] {
            JsonValue::Number(n) => {
                best = match best {
                    None => Some(*n),
                    Some(b) => if (lowest && *n < b) || (!lowest && *n > b) {
                        Some(*n)
                    } else {
                        Some(b)
                    },
                };
            },
            _ => {},
        }
        i = i + 1;
    }
    best
}

/// The largest power of ten that fits `u64` is `10^19`.
proof fn lemma_pow10_values()
    ensures
        pow10(18) == 1000000000000000000,
        pow10(19) == 10000000000000000000,
        pow10(20) == 100000000000000000000,
{
    reveal_with_fuel(pow10, 21);
}

/// Powers of ten grow with the exponent.
proof fn lemma_pow10_mono(a: nat, b: nat)
    requires
        a <= b,
    ensures
        pow10(a) <= pow10(b),
    decreases b,
{
    if a < b {
        lemma_pow10_mono(a, (b - 1) as nat);
    }
}

/// `10^e` for `e <= 18`.
fn pow10_exec(e: u32) -> (k: u64)
    requires
        e <= 18,
    ensures
        k as int == pow10(e as nat),
{
    let mut k: u64 = 1;
    let mut j: u32 = 0;
    while j < e
        invariant
            j <= e <= 18,
            k as int == pow10(j as nat),
        decreases e - j,
    {
        proof {
            lemma_pow10_mono((j + 1) as nat, 18);
            lemma_pow10_values();
        }
        k = k * 10;
        j = j + 1;
    }
    k
}

/// `v` rounded to `p` decimal places (see `round_int`); `None` when the result
/// leaves the `i64` range.
fn round_to(v: i64, p: i64) -> (r: Option<i64>)
    ensures
        match r {
            Some(x) => x as int == round_int(v as int, p as int),
            None => !in_i64(round_int(v as int, p as int)),
        },
{
    if p >= 0 {
        return Some(v);
    }
    let mag: u64 = if v < 0 {
        let w: i128 = -(v as i128);
        w as u64
    } else {
        v as u64
    };
    let ghost m: int = if v < 0 { -(v as int) } else { v as int };
    assert(mag as int == m);
    if p < -19 {
        proof {
            let e = (-p) as nat;
            lemma_pow10_mono(20, e);
            lemma_pow10_values();
            let k = pow10(e) as int;
            assert(m < k);
            assert(m % k == m) by (nonlinear_arith)
                requires 0 <= m < k;
            assert(m / k == 0) by (nonlinear_arith)
                requires 0 <= m < k;
            assert(2 * m < k);
            assert(pow10((-(p as int)) as nat) as int == k);
            assert((m / k) * k == 0);
        }
        proof {
            assert(round_int(v as int, p as int) == 0);
        }
        return Some(0);
    }
    if p == -19 {
        proof {
            lemma_pow10_values();
            let k = pow10(19) as int;
            assert(m < k);
            assert(m % k == m) by (nonlinear_arith)
                requires 0 <= m < k;
            assert(m / k == 0) by (nonlinear_arith)
                requires 0 <= m < k;
        }
        if mag >= 5000000000000000000 {
            proof {
                let k = pow10(19) as int;
                assert(2 * (m % k) >= k);
                assert((m / k + 1) * k == k);
                assert(pow10((-(p as int)) as nat) == pow10(19));
            }
            return None;
        }
        proof {
            let k = pow10(19) as int;
            assert(2 * (m % k) < k);
            assert((m / k) * k == 0);
            assert(pow10((-(p as int)) as nat) == pow10(19));
        }
        return Some(0);
    }
    let e: u32 = (0 - p) as u32;
    let k: u64 = pow10_exec(e);
    proof {
        lemma_pow10_mono(0, e as nat);
    }
    let q: u64 = mag / k;
    let rem: u64 = mag % k;
    proof {
        assert(q * k + rem == mag) by (nonlinear_arith)
            requires q == mag / k, rem == mag % k, k > 0;
        assert(q * k <= mag) by (nonlinear_arith)
            requires q * k + rem == mag, rem >= 0;
        assert(q <= mag) by (nonlinear_arith)
            requires q * k <= mag, k >= 1, q >= 0;
        assert(rem < k) by (nonlinear_arith)
            requires rem == mag % k, k > 0;
        lemma_pow10_mono(e as nat, 18);
        lemma_pow10_values();
    }
    let q2: u64 = if 2 * rem >= k { q + 1 } else { q };
    proof {
        assert(q2 * k <= mag + k) by (nonlinear_arith)
            requires q2 <= q + 1, q * k <= mag, k > 0;
        lemma_pow10_mono(e as nat, 18);
        lemma_pow10_values();
    }
    let res: u64 = q2 * k;
    let signed: i128 = if v < 0 { -(res as i128) } else { res as i128 };
    assert(signed as int == round_int(v as int, p as int));
    if signed < -9223372036854775808 || signed > 9223372036854775807 {
        return None;
    }
    Some(signed as i64)
}

/// An integer truncated to 32 bits and read as signed (see `wrap_i32`).
fn wrap32(k: i64) -> (r: i64)
    ensures
        r as int == wrap_i32(k as int),
{
    match k.checked_rem_euclid(4294967296) {
        Some(m) => if m >= 2147483648 {
            m - 4294967296
        } else {
            m
        },
        None => 0,
    }
}

/// `s` with `r` before, between and after each character.
fn interleave_exec(s: &str, r: &str) -> (out: String)
    ensures
        out@ == interleave(s@, r@),
{
    let cs = chars_of(s);
    let mut out = owned(r);
    let mut i: usize = 0;
    while i < cs.len()
        invariant
            i <= cs@.len(),
            cs@ == s@,
            out@ == interleave(cs@.take(i as int), r@),
        decreases cs@.len() - i,
    {
        push_char(&mut out, cs[i]);
        out.append(r);
        i = i + 1;
        assert(cs@.take(i as int).drop_last() =~= cs@.take(i - 1));
    }
    assert(cs@.take(cs@.len() as int) =~= cs@);
    out
}

/// `str::replace` (see `replace_text`).
fn replace_exec(s: &str, p: &str, r: &str) -> (out: String)
    ensures
        out@ == replace_text(s@, p@, r@),
{
    if p.unicode_len() == 0 {
        interleave_exec(s, r)
    } else {
        replace_all(s, p, r)
    }
}

/// The number of a value, or a type mismatch.
fn number_operand(v: &JsonValue) -> (r: Result<i64, RuleError>)
    ensures
        match r {
            Ok(n) => number_of(v@) == Ok::<int, Fault>(n as int),
            Err(e) => number_of(v@) == Err::<int, Fault>(e@),
        },
{
    match v {
        JsonValue::Number(n) => Ok(*n),
        _ => Err(RuleError::TypeMismatch),
    }
}

/// The text of a value, or a type mismatch.
fn text_operand(v: &JsonValue) -> (r: Result<&str, RuleError>)
    ensures
        match r {
            Ok(t) => text_of(v@) == Ok::<Seq<char>, Fault>(t@),
            Err(e) => text_of(v@) == Err::<Seq<char>, Fault>(e@),
        },
{
    match v {
        JsonValue::String(s) => Ok(s.as_str()),
        _ => Err(RuleError::TypeMismatch),
    }
}

/// The length for `Len` (see `len_of`).
fn length_of(v: &JsonValue) -> (r: Result<JsonValue, RuleError>)
    ensures
        outcome(r) == len_of(v@),
{
    let n: usize = match v {
        JsonValue::Array(xs) => {
            proof {
                lemma_jview_items(xs@);
            }
            xs.len()
        },
        JsonValue::String(s) => s.as_str().unicode_len(),
        JsonValue::Object(es) => {
            proof {
                crate::json::lemma_jview_entries(es@);
            }
            es.len()
        },
        _ => {
            return Err(RuleError::TypeMismatch);
        },
    };
    let n64: u64 = n as u64;
    if n64 > 9223372036854775807 {
        return Err(RuleError::NotRepresentable);
    }
    Ok(JsonValue::Number(n64 as i64))
}

/// The context with `item` bound to `alias` when it is an object.
fn bind_alias(ctx: &JsonValue, alias: &String, item: &JsonValue) -> (r: JsonValue)
    ensures
        r@ == with_alias(ctx@, alias@, item@),
{
    let mut local = ctx.duplicate();
    local.insert(alias.clone(), item.duplicate());
    local
}

/// `And` over the operands (see `and_from`).
fn eval_and<P: DataProvider>(parent: &Expr, l: &Vec<Expr>, ctx: &JsonValue, prov: Option<&P>, now: &str, shifts: &mut Vec<(String, i64, String)>) -> (r: Result<JsonValue, RuleError>)
    requires
        shifts_ok(old(shifts)@),
        *parent == Expr::And(*l),
    ensures
        shifts_ok(final(shifts)@),
        forall|sh: ShiftFn| #[trigger] fits(sh, final(shifts)@) ==> fits(sh, old(shifts)@) && outcome(r) == and_from(l@, ctx@, env_of(prov, now@, sh), 0),
    decreases parent, 0int,
{
    let ghost s0 = shifts@;
    let mut i: usize = 0;
    while i < l.len()
        invariant
            *parent == Expr::And(*l),
            i <= l@.len(),
            shifts_ok(shifts@),
            s0 == old(shifts)@,
            forall|sh: ShiftFn| #[trigger] fits(sh, shifts@) ==> fits(sh, s0) && and_from(l@, ctx@, env_of(prov, now@, sh), 0) == and_from(l@, ctx@, env_of(prov, now@, sh), i as int),
        decreases l@.len() - i,
    {
        proof {
            lemma_list_child(parent, l, i as int);
        }
        let v = match eval_node(&l[i], ctx, prov, now, shifts) {
            Ok(v) => v,
            Err(e) => {
                return Err(e);
            },
        };
        if !is_truthy(&v) {
            return Ok(JsonValue::Bool(false));
        }
        i = i + 1;
    }
    Ok(JsonValue::Bool(true))
}

/// `Or` over the operands (see `or_from`).
fn eval_or<P: DataProvider>(parent: &Expr, l: &Vec<Expr>, ctx: &JsonValue, prov: Option<&P>, now: &str, shifts: &mut Vec<(String, i64, String)>) -> (r: Result<JsonValue, RuleError>)
    requires
        shifts_ok(old(shifts)@),
        *parent == Expr::Or(*l),
    ensures
        shifts_ok(final(shifts)@),
        forall|sh: ShiftFn| #[trigger] fits(sh, final(shifts)@) ==> fits(sh, old(shifts)@) && outcome(r) == or_from(l@, ctx@, env_of(prov, now@, sh), 0),
    decreases parent, 0int,
{
    let ghost s0 = shifts@;
    let mut i: usize = 0;
    while i < l.len()
        invariant
            *parent == Expr::Or(*l),
            i <= l@.len(),
            shifts_ok(shifts@),
            s0 == old(shifts)@,
            forall|sh: ShiftFn| #[trigger] fits(sh, shifts@) ==> fits(sh, s0) && or_from(l@, ctx@, env_of(prov, now@, sh), 0) == or_from(l@, ctx@, env_of(prov, now@, sh), i as int),
        decreases l@.len() - i,
    {
        proof {
            lemma_list_child(parent, l, i as int);
        }
        let v = match eval_node(&l[i], ctx, prov, now, shifts) {
            Ok(v) => v,
            Err(e) => {
                return Err(e);
            },
        };
        if is_truthy(&v) {
            return Ok(JsonValue::Bool(true));
        }
        i = i + 1;
    }
    Ok(JsonValue::Bool(false))
}

/// `Eq` over the operands.
fn eval_eq<P: DataProvider>(parent: &Expr, l: &Vec<Expr>, ctx: &JsonValue, prov: Option<&P>, now: &str, shifts: &mut Vec<(String, i64, String)>) -> (r: Result<JsonValue, RuleError>)
    requires
        shifts_ok(old(shifts)@),
        *parent == Expr::Eq(*l),
    ensures
        shifts_ok(final(shifts)@),
        forall|sh: ShiftFn| #[trigger] fits(sh, final(shifts)@) ==> fits(sh, old(shifts)@) && outcome(r) == eval(*parent, ctx@, env_of(prov, now@, sh)),
    decreases parent, 0int,
{
    let ghost s0 = shifts@;
    if l.len() < 2 {
        return Ok(JsonValue::Bool(true));
    }
    proof {
        lemma_list_child(parent, l, 0);
    }
    let first = match eval_node(&l[0], ctx, prov, now, shifts) {
        Ok(v) => v,
        Err(e) => {
            return Err(e);
        },
    };
    let mut i: usize = 1;
    while i < l.len()
        invariant
            *parent == Expr::Eq(*l),
            1 <= i <= l@.len(),
            shifts_ok(shifts@),
            s0 == old(shifts)@,
            forall|sh: ShiftFn| #[trigger] fits(sh, shifts@) ==> fits(sh, s0) && eval(*parent, ctx@, env_of(prov, now@, sh)) == eq_from(l@, ctx@, env_of(prov, now@, sh), first@, i as int),
        decreases l@.len() - i,
    {
        proof {
            lemma_list_child(parent, l, i as int);
        }
        let v = match eval_node(&l[i], ctx, prov, now, shifts) {
            Ok(v) => v,
            Err(e) => {
                return Err(e);
            },
        };
        if !json_equal(&first, &v) {
            return Ok(JsonValue::Bool(false));
        }
        i = i + 1;
    }
    Ok(JsonValue::Bool(true))
}

/// `Neq` of the first two operands.
fn eval_neq<P: DataProvider>(parent: &Expr, l: &Vec<Expr>, ctx: &JsonValue, prov: Option<&P>, now: &str, shifts: &mut Vec<(String, i64, String)>) -> (r: Result<JsonValue, RuleError>)
    requires
        shifts_ok(old(shifts)@),
        *parent == Expr::Neq(*l),
    ensures
        shifts_ok(final(shifts)@),
        forall|sh: ShiftFn| #[trigger] fits(sh, final(shifts)@) ==> fits(sh, old(shifts)@) && outcome(r) == eval(*parent, ctx@, env_of(prov, now@, sh)),
    decreases parent, 0int,
{
    let ghost s0 = shifts@;
    if l.len() < 2 {
        return Ok(JsonValue::Bool(false));
    }
    proof {
        lemma_list_child(parent, l, 0);
        lemma_list_child(parent, l, 1);
    }
    let a = match eval_node(&l[0], ctx, prov, now, shifts) {
        Ok(v) => v,
        Err(e) => {
            return Err(e);
        },
    };
    let b = match eval_node(&l[1], ctx, prov, now, shifts) {
        Ok(v) => v,
        Err(e) => {
            return Err(e);
        },
    };
    Ok(JsonValue::Bool(!json_equal(&a, &b)))
}

/// `Add` over the operands (see `sum_from`).
fn eval_sum<P: DataProvider>(parent: &Expr, l: &Vec<Expr>, ctx: &JsonValue, prov: Option<&P>, now: &str, shifts: &mut Vec<(String, i64, String)>) -> (r: Result<JsonValue, RuleError>)
    requires
        shifts_ok(old(shifts)@),
        *parent == Expr::Add(*l),
    ensures
        shifts_ok(final(shifts)@),
        forall|sh: ShiftFn| #[trigger] fits(sh, final(shifts)@) ==> fits(sh, old(shifts)@) && outcome(r) == sum_from(l@, ctx@, env_of(prov, now@, sh), 0, 0),
    decreases parent, 0int,
{
    let ghost s0 = shifts@;
    let mut acc: i64 = 0;
    let mut i: usize = 0;
    while i < l.len()
        invariant
            *parent == Expr::Add(*l),
            i <= l@.len(),
            shifts_ok(shifts@),
            s0 == old(shifts)@,
            forall|sh: ShiftFn| #[trigger] fits(sh, shifts@) ==> fits(sh, s0) && sum_from(l@, ctx@, env_of(prov, now@, sh), 0, 0) == sum_from(l@, ctx@, env_of(prov, now@, sh), i as int, acc as int),
        decreases l@.len() - i,
    {
        proof {
            lemma_list_child(parent, l, i as int);
        }
        let v = match eval_node(&l[i], ctx, prov, now, shifts) {
            Ok(v) => v,
            Err(e) => {
                return Err(e);
            },
        };
        let n = match number_operand(&v) {
            Ok(n) => n,
            Err(e) => {
                return Err(e);
            },
        };
        acc = match acc.checked_add(n) {
            Some(s) => s,
            None => {
                return Err(RuleError::NotRepresentable);
            },
        };
        i = i + 1;
    }
    Ok(JsonValue::Number(acc))
}

/// `Mul` over the operands (see `product_from`).
fn eval_product<P: DataProvider>(parent: &Expr, l: &Vec<Expr>, ctx: &JsonValue, prov: Option<&P>, now: &str, shifts: &mut Vec<(String, i64, String)>) -> (r: Result<JsonValue, RuleError>)
    requires
        shifts_ok(old(shifts)@),
        *parent == Expr::Mul(*l),
    ensures
        shifts_ok(final(shifts)@),
        forall|sh: ShiftFn| #[trigger] fits(sh, final(shifts)@) ==> fits(sh, old(shifts)@) && outcome(r) == product_from(l@, ctx@, env_of(prov, now@, sh), 0, 1),
    decreases parent, 0int,
{
    let ghost s0 = shifts@;
    let mut acc: i64 = 1;
    let mut i: usize = 0;
    while i < l.len()
        invariant
            *parent == Expr::Mul(*l),
            i <= l@.len(),
            shifts_ok(shifts@),
            s0 == old(shifts)@,
            forall|sh: ShiftFn| #[trigger] fits(sh, shifts@) ==> fits(sh, s0) && product_from(l@, ctx@, env_of(prov, now@, sh), 0, 1) == product_from(l@, ctx@, env_of(prov, now@, sh), i as int, acc as int),
        decreases l@.len() - i,
    {
        proof {
            lemma_list_child(parent, l, i as int);
        }
        let v = match eval_node(&l[i], ctx, prov, now, shifts) {
            Ok(v) => v,
            Err(e) => {
                return Err(e);
            },
        };
        let n = match number_operand(&v) {
            Ok(n) => n,
            Err(e) => {
                return Err(e);
            },
        };
        acc = match acc.checked_mul(n) {
            Some(s) => s,
            None => {
                return Err(RuleError::NotRepresentable);
            },
        };
        i = i + 1;
    }
    Ok(JsonValue::Number(acc))
}

/// `Sub`: the first operand minus the others.
fn eval_difference<P: DataProvider>(parent: &Expr, l: &Vec<Expr>, ctx: &JsonValue, prov: Option<&P>, now: &str, shifts: &mut Vec<(String, i64, String)>) -> (r: Result<JsonValue, RuleError>)
    requires
        shifts_ok(old(shifts)@),
        *parent == Expr::Sub(*l),
    ensures
        shifts_ok(final(shifts)@),
        forall|sh: ShiftFn| #[trigger] fits(sh, final(shifts)@) ==> fits(sh, old(shifts)@) && outcome(r) == eval(*parent, ctx@, env_of(prov, now@, sh)),
    decreases parent, 0int,
{
    let ghost s0 = shifts@;
    if l.len() == 0 {
        return Ok(JsonValue::Number(0));
    }
    proof {
        lemma_list_child(parent, l, 0);
    }
    let first = match eval_node(&l[0], ctx, prov, now, shifts) {
        Ok(v) => v,
        Err(e) => {
            return Err(e);
        },
    };
    let mut acc = match number_operand(&first) {
        Ok(n) => n,
        Err(e) => {
            return Err(e);
        },
    };
    let mut i: usize = 1;
    while i < l.len()
        invariant
            *parent == Expr::Sub(*l),
            1 <= i <= l@.len(),
            shifts_ok(shifts@),
            s0 == old(shifts)@,
            forall|sh: ShiftFn| #[trigger] fits(sh, shifts@) ==> fits(sh, s0) && eval(*parent, ctx@, env_of(prov, now@, sh)) == difference_from(l@, ctx@, env_of(prov, now@, sh), i as int, acc as int),
        decreases l@.len() - i,
    {
        proof {
            lemma_list_child(parent, l, i as int);
        }
        let v = match eval_node(&l[i], ctx, prov, now, shifts) {
            Ok(v) => v,
            Err(e) => {
                return Err(e);
            },
        };
        let n = match number_operand(&v) {
            Ok(n) => n,
            Err(e) => {
                return Err(e);
            },
        };
        acc = match acc.checked_sub(n) {
            Some(s) => s,
            None => {
                return Err(RuleError::NotRepresentable);
            },
        };
        i = i + 1;
    }
    Ok(JsonValue::Number(acc))
}

/// `Div`: the first operand divided by the others.
fn eval_quotient<P: DataProvider>(parent: &Expr, l: &Vec<Expr>, ctx: &JsonValue, prov: Option<&P>, now: &str, shifts: &mut Vec<(String, i64, String)>) -> (r: Result<JsonValue, RuleError>)
    requires
        shifts_ok(old(shifts)@),
        *parent == Expr::Div(*l),
    ensures
        shifts_ok(final(shifts)@),
        forall|sh: ShiftFn| #[trigger] fits(sh, final(shifts)@) ==> fits(sh, old(shifts)@) && outcome(r) == eval(*parent, ctx@, env_of(prov, now@, sh)),
    decreases parent, 0int,
{
    let ghost s0 = shifts@;
    if l.len() < 2 {
        return Err(RuleError::InvalidArgs);
    }
    proof {
        lemma_list_child(parent, l, 0);
    }
    let first = match eval_node(&l[0], ctx, prov, now, shifts) {
        Ok(v) => v,
        Err(e) => {
            return Err(e);
        },
    };
    let mut acc = match number_operand(&first) {
        Ok(n) => n,
        Err(e) => {
            return Err(e);
        },
    };
    let mut exact = true;
    let mut i: usize = 1;
    while i < l.len()
        invariant
            *parent == Expr::Div(*l),
            1 <= i <= l@.len(),
            shifts_ok(shifts@),
            s0 == old(shifts)@,
            forall|sh: ShiftFn| #[trigger] fits(sh, shifts@) ==> fits(sh, s0) && eval(*parent, ctx@, env_of(prov, now@, sh)) == quotient_from(l@, ctx@, env_of(prov, now@, sh), i as int, acc as int, exact),
        decreases l@.len() - i,
    {
        proof {
            lemma_list_child(parent, l, i as int);
        }
        let v = match eval_node(&l[i], ctx, prov, now, shifts) {
            Ok(v) => v,
            Err(e) => {
                return Err(e);
            },
        };
        let n = match number_operand(&v) {
            Ok(n) => n,
            Err(e) => {
                return Err(e);
            },
        };
        if n == 0 {
            return Err(RuleError::DivByZero);
        }
        if exact {
            match acc.checked_rem_euclid(n) {
                Some(rm) => {
                    if rm == 0 {
                        match acc.checked_div_euclid(n) {
                            Some(q) => {
                                acc = q;
                            },
                            None => {
                                exact = false;
                            },
                        }
                    } else {
                        exact = false;
                    }
                },
                None => {
                    proof {
                        assert(acc == i64::MIN && n == -1);
                        assert((i64::MIN as int) / (-1int) == 9223372036854775808int) by (nonlinear_arith);
                    }
                    exact = false;
                },
            }
        }
        i = i + 1;
    }
    if exact {
        Ok(JsonValue::Number(acc))
    } else {
        Err(RuleError::NotRepresentable)
    }
}

/// `Concat` over the operands (see `concat_from`).
fn eval_concat<P: DataProvider>(parent: &Expr, l: &Vec<Expr>, ctx: &JsonValue, prov: Option<&P>, now: &str, shifts: &mut Vec<(String, i64, String)>) -> (r: Result<JsonValue, RuleError>)
    requires
        shifts_ok(old(shifts)@),
        *parent == Expr::Concat(*l),
    ensures
        shifts_ok(final(shifts)@),
        forall|sh: ShiftFn| #[trigger] fits(sh, final(shifts)@) ==> fits(sh, old(shifts)@) && outcome(r) == concat_from(l@, ctx@, env_of(prov, now@, sh), 0, Seq::empty()),
    decreases parent, 0int,
{
    let ghost s0 = shifts@;
    let mut acc = String::new();
    let mut i: usize = 0;
    while i < l.len()
        invariant
            *parent == Expr::Concat(*l),
            i <= l@.len(),
            shifts_ok(shifts@),
            s0 == old(shifts)@,
            forall|sh: ShiftFn| #[trigger] fits(sh, shifts@) ==> fits(sh, s0) && concat_from(l@, ctx@, env_of(prov, now@, sh), 0, Seq::empty()) == concat_from(l@, ctx@, env_of(prov, now@, sh), i as int, acc@),
        decreases l@.len() - i,
    {
        proof {
            lemma_list_child(parent, l, i as int);
        }
        let v = match eval_node(&l[i], ctx, prov, now, shifts) {
            Ok(v) => v,
            Err(e) => {
                return Err(e);
            },
        };
        match &v {
            JsonValue::String(s) => acc.append(s.as_str()),
            _ => {
                let t = to_json_text(&v);
                acc.append(t.as_str());
            },
        }
        i = i + 1;
    }
    Ok(JsonValue::String(acc))
}

/// The smallest or largest number of an array operand (see `extreme_eval`).
fn eval_extreme<P: DataProvider>(parent: &Expr, a: &Expr, ctx: &JsonValue, prov: Option<&P>, now: &str, shifts: &mut Vec<(String, i64, String)>, lowest: bool) -> (r: Result<JsonValue, RuleError>)
    requires
        shifts_ok(old(shifts)@),
        decreases_to!(*parent => *a),
    ensures
        shifts_ok(final(shifts)@),
        forall|sh: ShiftFn| #[trigger] fits(sh, final(shifts)@) ==> fits(sh, old(shifts)@) && outcome(r) == extreme_eval(*a, ctx@, env_of(prov, now@, sh), lowest),
    decreases parent, 0int,
{
    let v = match eval_node(a, ctx, prov, now, shifts) {
        Ok(v) => v,
        Err(e) => {
            return Err(e);
        },
    };
    match &v {
        JsonValue::Array(items) => match extreme_of(items, lowest) {
            Some(x) => Ok(JsonValue::Number(x)),
            None => Ok(JsonValue::Null),
        },
        _ => Err(RuleError::TypeMismatch),
    }
}

/// A numeric comparison of two operands (see `compare_eval`).
fn eval_compare<P: DataProvider>(parent: &Expr, a: &Expr, b: &Expr, ctx: &JsonValue, prov: Option<&P>, now: &str, shifts: &mut Vec<(String, i64, String)>, op: u8) -> (r: Result<JsonValue, RuleError>)
    requires
        shifts_ok(old(shifts)@),
        decreases_to!(*parent => *a),
        decreases_to!(*parent => *b),
        op < 4,
    ensures
        shifts_ok(final(shifts)@),
        forall|sh: ShiftFn| #[trigger] fits(sh, final(shifts)@) ==> fits(sh, old(shifts)@) && outcome(r) == compare_eval(eval(*a, ctx@, env_of(prov, now@, sh)), *b, ctx@, env_of(prov, now@, sh), op as int),
    decreases parent, 0int,
{
    let va = match eval_node(a, ctx, prov, now, shifts) {
        Ok(v) => v,
        Err(e) => {
            return Err(e);
        },
    };
    let x = match number_operand(&va) {
        Ok(n) => n,
        Err(e) => {
            return Err(e);
        },
    };
    let vb = match eval_node(b, ctx, prov, now, shifts) {
        Ok(v) => v,
        Err(e) => {
            return Err(e);
        },
    };
    let y = match number_operand(&vb) {
        Ok(n) => n,
        Err(e) => {
            return Err(e);
        },
    };
    let res = if op == 0 {
        x > y
    } else if op == 1 {
        x < y
    } else if op == 2 {
        x >= y
    } else {
        x <= y
    };
    Ok(JsonValue::Bool(res))
}

/// The body evaluated for each item (see `map_from`).
fn eval_map<P: DataProvider>(parent: &Expr, body: &Expr, items: &Vec<JsonValue>, alias: &String, ctx: &JsonValue, prov: Option<&P>, now: &str, shifts: &mut Vec<(String, i64, String)>) -> (r: Result<JsonValue, RuleError>)
    requires
        shifts_ok(old(shifts)@),
        decreases_to!(*parent => *body),
    ensures
        shifts_ok(final(shifts)@),
        forall|sh: ShiftFn| #[trigger] fits(sh, final(shifts)@) ==> fits(sh, old(shifts)@) && outcome(r) == map_from(*body, jview_items(items@), ctx@, alias@, env_of(prov, now@, sh), 0),
    decreases parent, 0int,
{
    let ghost s0 = shifts@;
    let ghost vi = jview_items(items@);
    proof {
        lemma_jview_items(items@);
    }
    let mut out: Vec<JsonValue> = Vec::new();
    let mut i: usize = 0;
    while i < items.len()
        invariant
            decreases_to!(*parent => *body),
            i <= items@.len(),
            shifts_ok(shifts@),
            s0 == old(shifts)@,
            vi == jview_items(items@),
            vi.len() == items@.len(),
            forall|j: int| 0 <= j < items@.len() ==> #[trigger] vi[j] == jview(items@[j]),
            forall|sh: ShiftFn| #[trigger] fits(sh, shifts@) ==> fits(sh, s0) && map_from(*body, vi, ctx@, alias@, env_of(prov, now@, sh), 0) == prepend(
                jview_items(out@),
                map_from(*body, vi, ctx@, alias@, env_of(prov, now@, sh), i as int),
            ),
        decreases items@.len() - i,
    {
        let local = bind_alias(ctx, alias, &items[i]);
        let v = match eval_node(body, &local, prov, now, shifts) {
            Ok(v) => v,
            Err(e) => {
                return Err(e);
            },
        };
        proof {
            lemma_jview_items(out@);
        }
        let ghost before = jview_items(out@);
        let ghost x = v@;
        out.push(v);
        proof {
            lemma_jview_items(out@);
            assert(jview_items(out@) =~= before.push(x));
            assert forall|xs: Seq<JsonView>| #[trigger] (before.push(x) + xs) == before + (seq![x] + xs) by {
                assert(before + (seq![x] + xs) =~= before.push(x) + xs);
            }
        }
        i = i + 1;
    }
    proof {
        assert(jview_items(out@) + Seq::<JsonView>::empty() =~= jview_items(out@));
    }
    Ok(JsonValue::Array(out))
}

/// The items for which the condition holds (see `filter_from`).
fn eval_filter<P: DataProvider>(parent: &Expr, cond: &Expr, items: &Vec<JsonValue>, alias: &String, ctx: &JsonValue, prov: Option<&P>, now: &str, shifts: &mut Vec<(String, i64, String)>) -> (r: Result<JsonValue, RuleError>)
    requires
        shifts_ok(old(shifts)@),
        decreases_to!(*parent => *cond),
    ensures
        shifts_ok(final(shifts)@),
        forall|sh: ShiftFn| #[trigger] fits(sh, final(shifts)@) ==> fits(sh, old(shifts)@) && outcome(r) == filter_from(*cond, jview_items(items@), ctx@, alias@, env_of(prov, now@, sh), 0),
    decreases parent, 0int,
{
    let ghost s0 = shifts@;
    let ghost vi = jview_items(items@);
    proof {
        lemma_jview_items(items@);
    }
    let mut out: Vec<JsonValue> = Vec::new();
    let mut i: usize = 0;
    while i < items.len()
        invariant
            decreases_to!(*parent => *cond),
            i <= items@.len(),
            shifts_ok(shifts@),
            s0 == old(shifts)@,
            vi == jview_items(items@),
            vi.len() == items@.len(),
            forall|j: int| 0 <= j < items@.len() ==> #[trigger] vi[j] == jview(items@[j]),
            forall|sh: ShiftFn| #[trigger] fits(sh, shifts@) ==> fits(sh, s0) && filter_from(*cond, vi, ctx@, alias@, env_of(prov, now@, sh), 0) == prepend(
                jview_items(out@),
                filter_from(*cond, vi, ctx@, alias@, env_of(prov, now@, sh), i as int),
            ),
        decreases items@.len() - i,
    {
        let local = bind_alias(ctx, alias, &items[i]);
        let c = match eval_node(cond, &local, prov, now, shifts) {
            Ok(v) => v,
            Err(e) => {
                return Err(e);
            },
        };
        proof {
            lemma_jview_items(out@);
        }
        let ghost before = jview_items(out@);
        if is_truthy(&c) {
            out.push(items[i].duplicate());
            proof {
                let x = vi[i as int];
                lemma_jview_items(out@);
                assert(jview_items(out@) =~= before.push(x));
                assert forall|xs: Seq<JsonView>| #[trigger] (before.push(x) + xs) == before + (seq![x] + xs) by {
                    assert(before + (seq![x] + xs) =~= before.push(x) + xs);
                }
            }
        }
        i = i + 1;
    }
    proof {
        assert(jview_items(out@) + Seq::<JsonView>::empty() =~= jview_items(out@));
    }
    Ok(JsonValue::Array(out))
}


/// Numeric operators on one value: `Abs`, `Round`, `Min`, `Max`.
fn eval_numeric<P: DataProvider>(expr: &Expr, ctx: &JsonValue, prov: Option<&P>, now: &str, shifts: &mut Vec<(String, i64, String)>) -> (r: Result<JsonValue, RuleError>)
    requires
        shifts_ok(old(shifts)@),
        *expr is Abs || *expr is Round || *expr is Min || *expr is Max,
    ensures
        shifts_ok(final(shifts)@),
        forall|sh: ShiftFn| #[trigger] fits(sh, final(shifts)@) ==> fits(sh, old(shifts)@) && outcome(r) == eval(*expr, ctx@, env_of(prov, now@, sh)),
    decreases expr, 1int,
{
    match expr {
        Expr::Abs(a) => {
            let v = match eval_node(&**a, ctx, prov, now, shifts) {
                Ok(v) => v,
                Err(e) => {
                    return Err(e);
                },
            };
            let n = match number_operand(&v) {
                Ok(n) => n,
                Err(e) => {
                    return Err(e);
                },
            };
            if n < 0 {
                match 0i64.checked_sub(n) {
                    Some(m) => Ok(JsonValue::Number(m)),
                    None => Err(RuleError::NotRepresentable),
                }
            } else {
                Ok(JsonValue::Number(n))
            }
        },
        Expr::Round { value, precision } => {
            let v = match eval_node(&**value, ctx, prov, now, shifts) {
                Ok(v) => v,
                Err(e) => {
                    return Err(e);
                },
            };
            let n = match number_operand(&v) {
                Ok(n) => n,
                Err(e) => {
                    return Err(e);
                },
            };
            let pv = match eval_node(&**precision, ctx, prov, now, shifts) {
                Ok(v) => v,
                Err(e) => {
                    return Err(e);
                },
            };
            let places: i64 = match &pv {
                JsonValue::Number(k) => wrap32(*k),
                _ => 0,
            };
            match round_to(n, places) {
                Some(x) => Ok(JsonValue::Number(x)),
                None => Err(RuleError::NotRepresentable),
            }
        },
        Expr::Min(a) => eval_extreme(expr, &**a, ctx, prov, now, shifts, true),
        Expr::Max(a) => eval_extreme(expr, &**a, ctx, prov, now, shifts, false),
        _ => Err(RuleError::InvalidArgs),
    }
}

/// Text and membership operators.
fn eval_textual<P: DataProvider>(expr: &Expr, ctx: &JsonValue, prov: Option<&P>, now: &str, shifts: &mut Vec<(String, i64, String)>) -> (r: Result<JsonValue, RuleError>)
    requires
        shifts_ok(old(shifts)@),
        *expr is Contains || *expr is RegexMatch || *expr is Replace || *expr is Upper || *expr is Lower || *expr is Trim || *expr is Len,
    ensures
        shifts_ok(final(shifts)@),
        forall|sh: ShiftFn| #[trigger] fits(sh, final(shifts)@) ==> fits(sh, old(shifts)@) && outcome(r) == eval(*expr, ctx@, env_of(prov, now@, sh)),
    decreases expr, 1int,
{
    match expr {
        Expr::Contains { list, value } => {
            let lv = match eval_node(&**list, ctx, prov, now, shifts) {
                Ok(v) => v,
                Err(e) => {
                    return Err(e);
                },
            };
            let sv = match eval_node(&**value, ctx, prov, now, shifts) {
                Ok(v) => v,
                Err(e) => {
                    return Err(e);
                },
            };
            match &lv {
                JsonValue::Array(items) => Ok(JsonValue::Bool(contains_equal(items, &sv))),
                JsonValue::String(s) => match &sv {
                    JsonValue::String(t) => Ok(JsonValue::Bool(contains(s.as_str(), t.as_str()))),
                    _ => Err(RuleError::TypeMismatch),
                },
                _ => Err(RuleError::TypeMismatch),
            }
        },
        Expr::RegexMatch { value, pattern } => {
            let v = match eval_node(&**value, ctx, prov, now, shifts) {
                Ok(v) => v,
                Err(e) => {
                    return Err(e);
                },
            };
            let pv = match eval_node(&**pattern, ctx, prov, now, shifts) {
                Ok(v) => v,
                Err(e) => {
                    return Err(e);
                },
            };
            let t = match text_operand(&v) {
                Ok(t) => t,
                Err(e) => {
                    return Err(e);
                },
            };
            let pt = match text_operand(&pv) {
                Ok(t) => t,
                Err(e) => {
                    return Err(e);
                },
            };
            match pattern_matches(pt, t) {
                Some(b) => Ok(JsonValue::Bool(b)),
                None => Err(RuleError::InvalidRegex),
            }
        },
        Expr::Replace { value, pattern, replacement } => {
            let v = match eval_node(&**value, ctx, prov, now, shifts) {
                Ok(v) => v,
                Err(e) => {
                    return Err(e);
                },
            };
            let pv = match eval_node(&**pattern, ctx, prov, now, shifts) {
                Ok(v) => v,
                Err(e) => {
                    return Err(e);
                },
            };
            let rv = match eval_node(&**replacement, ctx, prov, now, shifts) {
                Ok(v) => v,
                Err(e) => {
                    return Err(e);
                },
            };
            let t = match text_operand(&v) {
                Ok(t) => t,
                Err(e) => {
                    return Err(e);
                },
            };
            let pt = match text_operand(&pv) {
                Ok(t) => t,
                Err(e) => {
                    return Err(e);
                },
            };
            let rt = match text_operand(&rv) {
                Ok(t) => t,
                Err(e) => {
                    return Err(e);
                },
            };
            Ok(JsonValue::String(replace_exec(t, pt, rt)))
        },
        Expr::Upper(a) | Expr::Lower(a) | Expr::Trim(a) => {
            let v = match eval_node(&**a, ctx, prov, now, shifts) {
                Ok(v) => v,
                Err(e) => {
                    return Err(e);
                },
            };
            let t = match text_operand(&v) {
                Ok(t) => t,
                Err(e) => {
                    return Err(e);
                },
            };
            match expr {
                Expr::Upper(_) => Ok(JsonValue::String(to_upper(t))),
                Expr::Lower(_) => Ok(JsonValue::String(to_lower(t))),
                _ => Ok(JsonValue::String(trim(t))),
            }
        },
        Expr::Len(a) => match eval_node(&**a, ctx, prov, now, shifts) {
            Ok(v) => length_of(&v),
            Err(e) => Err(e),
        },
        _ => Err(RuleError::InvalidArgs),
    }
}

/// Negation, conditionals, and the operators that bind list items.
fn eval_control<P: DataProvider>(expr: &Expr, ctx: &JsonValue, prov: Option<&P>, now: &str, shifts: &mut Vec<(String, i64, String)>) -> (r: Result<JsonValue, RuleError>)
    requires
        shifts_ok(old(shifts)@),
        *expr is Not || *expr is MapItems || *expr is Filter || *expr is If,
    ensures
        shifts_ok(final(shifts)@),
        forall|sh: ShiftFn| #[trigger] fits(sh, final(shifts)@) ==> fits(sh, old(shifts)@) && outcome(r) == eval(*expr, ctx@, env_of(prov, now@, sh)),
    decreases expr, 1int,
{
    match expr {
        Expr::Not(a) => match eval_node(&**a, ctx, prov, now, shifts) {
            Ok(v) => Ok(JsonValue::Bool(!is_truthy(&v))),
            Err(e) => Err(e),
        },
        Expr::MapItems { list, alias, expr: body } => {
            let lv = match eval_node(&**list, ctx, prov, now, shifts) {
                Ok(v) => v,
                Err(e) => {
                    return Err(e);
                },
            };
            match &lv {
                JsonValue::Array(items) => eval_map(expr, &**body, items, alias, ctx, prov, now, shifts),
                _ => Err(RuleError::TypeMismatch),
            }
        },
        Expr::Filter { list, alias, condition } => {
            let lv = match eval_node(&**list, ctx, prov, now, shifts) {
                Ok(v) => v,
                Err(e) => {
                    return Err(e);
                },
            };
            match &lv {
                JsonValue::Array(items) => eval_filter(expr, &**condition, items, alias, ctx, prov, now, shifts),
                _ => Err(RuleError::TypeMismatch),
            }
        },
        Expr::If { condition, then_branch, else_branch } => {
            let c = match eval_node(&**condition, ctx, prov, now, shifts) {
                Ok(v) => v,
                Err(e) => {
                    return Err(e);
                },
            };
            if is_truthy(&c) {
                eval_node(&**then_branch, ctx, prov, now, shifts)
            } else {
                eval_node(&**else_branch, ctx, prov, now, shifts)
            }
        },
        _ => Err(RuleError::InvalidArgs),
    }
}

/// Operators that read the clock, the calendar or the data provider.
fn eval_external<P: DataProvider>(expr: &Expr, ctx: &JsonValue, prov: Option<&P>, now: &str, shifts: &mut Vec<(String, i64, String)>) -> (r: Result<JsonValue, RuleError>)
    requires
        shifts_ok(old(shifts)@),
        *expr is Now || *expr is DateAdd || *expr is DateDiff || *expr is Lookup,
    ensures
        shifts_ok(final(shifts)@),
        forall|sh: ShiftFn| #[trigger] fits(sh, final(shifts)@) ==> fits(sh, old(shifts)@) && outcome(r) == eval(*expr, ctx@, env_of(prov, now@, sh)),
    decreases expr, 1int,
{
    match expr {
        Expr::Now => Ok(JsonValue::String(owned(now))),
        Expr::DateAdd { date, days } => {
            let dv = match eval_node(&**date, ctx, prov, now, shifts) {
                Ok(v) => v,
                Err(e) => {
                    return Err(e);
                },
            };
            let nv = match eval_node(&**days, ctx, prov, now, shifts) {
                Ok(v) => v,
                Err(e) => {
                    return Err(e);
                },
            };
            let n = match number_operand(&nv) {
                Ok(n) => n,
                Err(e) => {
                    return Err(e);
                },
            };
            let d = match text_operand(&dv) {
                Ok(t) => t,
                Err(e) => {
                    return Err(e);
                },
            };
            match find_shift(shifts, d, n) {
                Some(k) => {
                    return Ok(JsonValue::String(shifts[k].2.clone()));
                },
                None => {},
            }
            match timestamp_plus_days(d, n) {
                Some(s) => {
                    let ghost before = shifts@;
                    let entry = (owned(d), n, s.clone());
                    proof {
                        lemma_shifts_push(before, entry);
                    }
                    shifts.push(entry);
                    Ok(JsonValue::String(s))
                },
                None => match calendar_plus_days(d, n) {
                    Some(s) => Ok(JsonValue::String(s)),
                    None => Err(RuleError::InvalidDate),
                },
            }
        },
        Expr::DateDiff { start, end } => {
            let sv = match eval_node(&**start, ctx, prov, now, shifts) {
                Ok(v) => v,
                Err(e) => {
                    return Err(e);
                },
            };
            let ev = match eval_node(&**end, ctx, prov, now, shifts) {
                Ok(v) => v,
                Err(e) => {
                    return Err(e);
                },
            };
            let s = match text_operand(&sv) {
                Ok(t) => t,
                Err(e) => {
                    return Err(e);
                },
            };
            let t = match text_operand(&ev) {
                Ok(t) => t,
                Err(e) => {
                    return Err(e);
                },
            };
            match timestamp_days_between(s, t) {
                Some(n) => Ok(JsonValue::Number(n)),
                None => match calendar_days_between(s, t) {
                    Some(n) => Ok(JsonValue::Number(n)),
                    None => Err(RuleError::InvalidDate),
                },
            }
        },
        Expr::Lookup { collection, id, field } => match prov {
            None => Err(RuleError::UnexpectedAsync),
            Some(provider) => {
                let idv = match eval_node(&**id, ctx, prov, now, shifts) {
                    Ok(v) => v,
                    Err(e) => {
                        return Err(e);
                    },
                };
                let id_text: &str = match &idv {
                    JsonValue::String(s) => s.as_str(),
                    _ => "",
                };
                proof {
                    reveal_strlit("");
                    assert(id_text@ == lookup_id(idv@));
                    assert forall|sh: ShiftFn| #[trigger] env_of(prov, now@, sh).1(collection@, id_text@, field@) == provider.answer(collection@, id_text@, field@) by {}
                }
                match provider.get_value(collection.as_str(), id_text, field.as_str()) {
                    Some(v) => Ok(v),
                    None => Ok(JsonValue::Null),
                }
            },
        },
        _ => Err(RuleError::InvalidArgs),
    }
}

/// The value of an expression in a context; lookups go to the provider when
/// there is one (see `eval`).
fn eval_node<P: DataProvider>(expr: &Expr, ctx: &JsonValue, prov: Option<&P>, now: &str, shifts: &mut Vec<(String, i64, String)>) -> (r: Result<JsonValue, RuleError>)
    requires
        shifts_ok(old(shifts)@),
    ensures
        shifts_ok(final(shifts)@),
        forall|sh: ShiftFn| #[trigger] fits(sh, final(shifts)@) ==> fits(sh, old(shifts)@) && outcome(r) == eval(*expr, ctx@, env_of(prov, now@, sh)),
    decreases expr, 2int,
{
    match expr {
        Expr::Val(v) => Ok(v.duplicate()),
        Expr::Var(path) => match resolve_path(ctx, path.as_str()) {
            Ok(v) => Ok(v.duplicate()),
            Err(e) => Err(e),
        },
        Expr::And(l) => eval_and(expr, l, ctx, prov, now, shifts),
        Expr::Or(l) => eval_or(expr, l, ctx, prov, now, shifts),
        Expr::Eq(l) => eval_eq(expr, l, ctx, prov, now, shifts),
        Expr::Neq(l) => eval_neq(expr, l, ctx, prov, now, shifts),
        Expr::Gt(a, b) => eval_compare(expr, &**a, &**b, ctx, prov, now, shifts, 0),
        Expr::Lt(a, b) => eval_compare(expr, &**a, &**b, ctx, prov, now, shifts, 1),
        Expr::Gte(a, b) => eval_compare(expr, &**a, &**b, ctx, prov, now, shifts, 2),
        Expr::Lte(a, b) => eval_compare(expr, &**a, &**b, ctx, prov, now, shifts, 3),
        Expr::Add(l) => eval_sum(expr, l, ctx, prov, now, shifts),
        Expr::Mul(l) => eval_product(expr, l, ctx, prov, now, shifts),
        Expr::Sub(l) => eval_difference(expr, l, ctx, prov, now, shifts),
        Expr::Div(l) => eval_quotient(expr, l, ctx, prov, now, shifts),
        Expr::Concat(l) => eval_concat(expr, l, ctx, prov, now, shifts),
        Expr::IsA(class) => Ok(JsonValue::Bool(is_a_exec(ctx, class.as_str()))),
        Expr::Abs(_) | Expr::Round { .. } | Expr::Min(_) | Expr::Max(_) => eval_numeric(expr, ctx, prov, now, shifts),
        Expr::Contains { .. } | Expr::RegexMatch { .. } | Expr::Replace { .. } | Expr::Upper(_) | Expr::Lower(_) | Expr::Trim(_) | Expr::Len(_) => eval_textual(expr, ctx, prov, now, shifts),
        Expr::Not(_) | Expr::MapItems { .. } | Expr::Filter { .. } | Expr::If { .. } => eval_control(expr, ctx, prov, now, shifts),
        Expr::Now | Expr::DateAdd { .. } | Expr::DateDiff { .. } | Expr::Lookup { .. } => eval_external(expr, ctx, prov, now, shifts),
    }
}

impl Evaluator {
    /// The value of a rule in a context, without a data provider: a `Lookup`
    /// is refused with `UnexpectedAsync`. The clock is read once, and every
    /// `Now` of the rule gives that time; a timestamp shifted by `DateAdd` is
    /// written in local time, one text for each timestamp and number of days
    /// (see `eval`).
    pub fn evaluate_sync(expr: &Expr, context: &JsonValue) -> (r: Result<JsonValue, RuleError>)
        ensures
            exists|t: Seq<char>, sh: ShiftFn|
                #![trigger eval(*expr, context@, sync_env(t, sh))]
                rfc3339_utc_text(t) && outcome(r) == eval(*expr, context@, sync_env(t, sh)),
    {
        let now = now_rfc3339();
        let mut shifts: Vec<(String, i64, String)> = Vec::new();
        let r = eval_node::<NoOpDataProvider>(expr, context, None, now.as_str(), &mut shifts);
        proof {
            let sh = shift_fn_of(shifts@);
            lemma_shift_fn_fits(shifts@);
            assert(fits(sh, shifts@));
            assert(rfc3339_utc_text(now@) && outcome(r) == eval(*expr, context@, sync_env(now@, sh)));
        }
        r
    }

    /// The value of a rule in a context, lookups answered by `provider` (a
    /// missing field reads as `null`). The clock is read once, and every `Now`
    /// of the rule gives that time; a timestamp shifted by `DateAdd` is written
    /// in local time, one text for each timestamp and number of days (see
    /// `eval`).
    pub fn evaluate<P: DataProvider>(expr: &Expr, context: &JsonValue, provider: &P) -> (r: Result<JsonValue, RuleError>)
        ensures
            exists|t: Seq<char>, sh: ShiftFn|
                #![trigger eval(*expr, context@, provider_env(provider, t, sh))]
                rfc3339_utc_text(t) && outcome(r) == eval(*expr, context@, provider_env(provider, t, sh)),
    {
        let now = now_rfc3339();
        let mut shifts: Vec<(String, i64, String)> = Vec::new();
        let r = eval_node(expr, context, Some(provider), now.as_str(), &mut shifts);
        proof {
            let sh = shift_fn_of(shifts@);
            lemma_shift_fn_fits(shifts@);
            assert(fits(sh, shifts@));
            assert(rfc3339_utc_text(now@) && outcome(r) == eval(*expr, context@, provider_env(provider, now@, sh)));
        }
        r
    }

    /// Whether the expression holds a `Lookup`, which needs a data provider.
    pub fn requires_async(expr: &Expr) -> (b: bool)
        ensures
            b == has_lookup(*expr),
        decreases expr, 1int,
    {
        match expr {
            Expr::Lookup { .. } => true,
            Expr::Val(_) | Expr::Var(_) | Expr::Now | Expr::IsA(_) => false,
            Expr::And(l) | Expr::Or(l) | Expr::Eq(l) | Expr::Neq(l) | Expr::Add(l) | Expr::Sub(l)
            | Expr::Mul(l) | Expr::Div(l) | Expr::Concat(l) => any_requires_async(l, expr),
            Expr::Not(a) | Expr::Abs(a) | Expr::Len(a) | Expr::Min(a) | Expr::Max(a)
            | Expr::Trim(a) | Expr::Lower(a) | Expr::Upper(a) => Self::requires_async(a),
            Expr::Gt(a, b) | Expr::Lt(a, b) | Expr::Gte(a, b) | Expr::Lte(a, b) => {
                Self::requires_async(a) || Self::requires_async(b)
            },
            Expr::Contains { list: a, value: b } | Expr::RegexMatch { value: a, pattern: b }
            | Expr::DateDiff { start: a, end: b } | Expr::DateAdd { date: a, days: b }
            | Expr::Round { value: a, precision: b } => {
                Self::requires_async(a) || Self::requires_async(b)
            },
            Expr::If { condition, then_branch, else_branch } => {
                Self::requires_async(condition) || Self::requires_async(then_branch)
                    || Self::requires_async(else_branch)
            },
            Expr::Replace { value, pattern, replacement } => {
                Self::requires_async(value) || Self::requires_async(pattern)
                    || Self::requires_async(replacement)
            },
            Expr::MapItems { list, expr: body, .. } => {
                Self::requires_async(list) || Self::requires_async(body)
            },
            Expr::Filter { list, condition, .. } => {
                Self::requires_async(list) || Self::requires_async(condition)
            },
        }
    }
}

} // verus!
