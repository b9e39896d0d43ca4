//! Compact JSON text of a value: no spaces, members in their stored order,
//! strings quoted with `"`, `\`, and control characters escaped.
use vstd::prelude::*;
use crate::json::{JsonValue, JsonView, jview, jview_entries, jview_items, lemma_jview_entries, lemma_jview_items};
use crate::text::{chars_of, push_char};

verus! {

/// The decimal digit of `d` (0..=9).
pub open spec fn digit_char(d: int) -> char {
    if d == 0 { '0' }
    else if d == 1 { '1' }
    else if d == 2 { '2' }
    else if d == 3 { '3' }
    else if d == 4 { '4' }
    else if d == 5 { '5' }
    else if d == 6 { '6' }
    else if d == 7 { '7' }
    else if d == 8 { '8' }
    else { '9' }
}

/// The lower-case hexadecimal digit of `d` (0..=15).
pub open spec fn hex_char(d: int) -> char {
    if d < 10 { digit_char(d) }
    else if d == 10 { 'a' }
    else if d == 11 { 'b' }
    else if d == 12 { 'c' }
    else if d == 13 { 'd' }
    else if d == 14 { 'e' }
    else { 'f' }
}

/// The decimal text of a natural number, without leading zeros.
pub open spec fn nat_text(n: nat) -> Seq<char>
    decreases n,
{
    if n < 10 {
        seq![digit_char(n as int)]
    } else {
        nat_text(n / 10) + seq![digit_char((n % 10) as int)]
    }
}

/// The decimal text of an integer, with a leading `-` when negative.
pub open spec fn int_text(n: int) -> Seq<char> {
    if n < 0 {
        seq!['-'] + nat_text((-n) as nat)
    } else {
        nat_text(n as nat)
    }
}

/// The escaped form of one character inside a JSON string.
pub open spec fn escape_char(c: char) -> Seq<char> {
    if c == '"' {
        seq!['\\', '"']
    } else if c == '\\' {
        seq!['\\', '\\']
    } else if c == '\u{8}' {
        seq!['\\', 'b']
    } else if c == '\u{c}' {
        seq!['\\', 'f']
    } else if c == '\n' {
        seq!['\\', 'n']
    } else if c == '\r' {
        seq!['\\', 'r']
    } else if c == '\t' {
        seq!['\\', 't']
    } else if (c as int) < 32 {
        seq!['\\', 'u', '0', '0', hex_char((c as int) / 16), hex_char((c as int) % 16)]
    } else {
        seq![c]
    }
}

/// The escaped form of a text.
pub open spec fn escape_text(s: Seq<char>) -> Seq<char>
    decreases s.len(),
{
    if s.len() == 0 {
        Seq::empty()
    } else {
        escape_text(s.drop_last()) + escape_char(s.last())
    }
}

/// A JSON string literal.
pub open spec fn quoted(s: Seq<char>) -> Seq<char> {
    seq!['"'] + escape_text(s) + seq!['"']
}

/// The compact JSON text of a value.
pub open spec fn json_text(v: JsonView) -> Seq<char>
    decreases v, 0int,
{
    match v {
        JsonView::Null => seq!['n', 'u', 'l', 'l'],
        JsonView::Bool(b) => if b {
            seq!['t', 'r', 'u', 'e']
        } else {
            seq!['f', 'a', 'l', 's', 'e']
        },
        JsonView::Number(n) => int_text(n),
        JsonView::Str(s) => quoted(s),
        JsonView::Array(xs) => seq!['['] + items_text(xs, xs.len() as int) + seq![']'],
        JsonView::Object(es) => seq!['{'] + members_text(es, es.len() as int) + seq!['}'],
    }
}

/// The first `k` items, separated by commas.
pub open spec fn items_text(xs: Seq<JsonView>, k: int) -> Seq<char>
    decreases xs, k,
{
    if k <= 0 || k > xs.len() {
        Seq::empty()
    } else if k == 1 {
        json_text(xs[0])
    } else {
        items_text(xs, k - 1) + seq![','] + json_text(xs[k - 1])
    }
}

/// The first `k` members as `"key":value`, separated by commas.
pub open spec fn members_text(es: Seq<(Seq<char>, JsonView)>, k: int) -> Seq<char>
    decreases es, k,
{
    if k <= 0 || k > es.len() {
        Seq::empty()
    } else if k == 1 {
        quoted(es[0].0) + seq![':'] + json_text(es[0].1)
    } else {
        members_text(es, k - 1) + seq![','] + quoted(es[k - 1].0) + seq![':'] + json_text(
            es[k - 1].1,
        )
    }
}

/// The decimal digit character of `d`.
fn digit(d: u64) -> (c: char)
    requires
        d < 10,
    ensures
        c == digit_char(d as int),
{
    if d == 0 { '0' }
    else if d == 1 { '1' }
    else if d == 2 { '2' }
    else if d == 3 { '3' }
    else if d == 4 { '4' }
    else if d == 5 { '5' }
    else if d == 6 { '6' }
    else if d == 7 { '7' }
    else if d == 8 { '8' }
    else { '9' }
}

/// The hexadecimal digit character of `d`.
fn hex_digit(d: u32) -> (c: char)
    requires
        d < 16,
    ensures
        c == hex_char(d as int),
{
    if d < 10 { digit(d as u64) }
    else if d == 10 { 'a' }
    else if d == 11 { 'b' }
    else if d == 12 { 'c' }
    else if d == 13 { 'd' }
    else if d == 14 { 'e' }
    else { 'f' }
}

/// Appends the decimal text of `n`.
fn write_nat(n: u64, out: &mut String)
    ensures
        final(out)@ == old(out)@ + nat_text(n as nat),
    decreases n,
{
    if n >= 10 {
        write_nat(n / 10, out);
        push_char(out, digit(n % 10));
    } else {
        push_char(out, digit(n));
    }
}

/// Appends the decimal text of `n`.
fn write_int(n: i64, out: &mut String)
    ensures
        final(out)@ == old(out)@ + int_text(n as int),
{
    if n < 0 {
        push_char(out, '-');
        let m: i128 = -(n as i128);
        write_nat(m as u64, out);
    } else {
        write_nat(n as u64, out);
    }
}

/// Appends a few characters.
fn write_chars(out: &mut String, cs: &[char])
    ensures
        final(out)@ == old(out)@ + cs@,
{
    let mut i: usize = 0;
    while i < cs.len()
        invariant
            i <= cs@.len(),
            out@ == old(out)@ + cs@.take(i as int),
        decreases cs@.len() - i,
    {
        push_char(out, cs[i]);
        i = i + 1;
        assert(cs@.take(i as int) =~= cs@.take(i - 1).push(cs@[i - 1]));
    }
    assert(cs@.take(cs@.len() as int) =~= cs@);
}

/// Appends the escaped form of one character.
fn write_escaped_char(c: char, out: &mut String)
    ensures
        final(out)@ == old(out)@ + escape_char(c),
{
    if c == '"' {
        write_chars(out, &['\\', '"']);
    } else if c == '\\' {
        write_chars(out, &['\\', '\\']);
    } else if c == '\u{8}' {
        write_chars(out, &['\\', 'b']);
    } else if c == '\u{c}' {
        write_chars(out, &['\\', 'f']);
    } else if c == '\n' {
        write_chars(out, &['\\', 'n']);
    } else if c == '\r' {
        write_chars(out, &['\\', 'r']);
    } else if c == '\t' {
        write_chars(out, &['\\', 't']);
    } else if (c as u32) < 32 {
        let code: u32 = c as u32;
        let hi = hex_digit(code / 16);
        let lo = hex_digit(code % 16);
        write_chars(out, &['\\', 'u', '0', '0', hi, lo]);
    } else {
        push_char(out, c);
    }
}

/// Appends a JSON string literal.
fn write_quoted(s: &str, out: &mut String)
    ensures
        final(out)@ == old(out)@ + quoted(s@),
{
    let cs = chars_of(s);
    push_char(out, '"');
    let ghost start = out@;
    let mut i: usize = 0;
    while i < cs.len()
        invariant
            i <= cs@.len(),
            cs@ == s@,
            start == old(out)@ + seq!['"'],
            out@ == start + escape_text(cs@.take(i as int)),
        decreases cs@.len() - i,
    {
        write_escaped_char(cs[i], out);
        i = i + 1;
        assert(cs@.take(i as int).drop_last() =~= cs@.take(i - 1));
    }
    assert(cs@.take(cs@.len() as int) =~= cs@);
    push_char(out, '"');
}

/// Appends the compact JSON text of `v`.
fn write_json(v: &JsonValue, out: &mut String)
    ensures
        final(out)@ == old(out)@ + json_text(v@),
    decreases v,
{
    match v {
        JsonValue::Null => write_chars(out, &['n', 'u', 'l', 'l']),
        JsonValue::Bool(b) => {
            if *b {
                write_chars(out, &['t', 'r', 'u', 'e']);
            } else {
                write_chars(out, &['f', 'a', 'l', 's', 'e']);
            }
        },
        JsonValue::Number(n) => write_int(*n, out),
        JsonValue::String(s) => write_quoted(s.as_str(), out),
        JsonValue::Array(xs) => {
            proof {
                lemma_jview_items(xs@);
            }
            let ghost vx = jview_items(xs@);
            push_char(out, '[');
            let ghost start = out@;
            let mut i: usize = 0;
            while i < xs.len()
                invariant
                    *v == JsonValue::Array(*xs),
                    i <= xs@.len(),
                    vx == jview_items(xs@),
                    vx.len() == xs@.len(),
                    forall|j: int| 0 <= j < xs@.len() ==> #[trigger] vx[j] == jview(xs@[j]),
                    out@ == start + items_text(vx, i as int),
                decreases xs@.len() - i,
            {
                proof {
                    assert(decreases_to!(*v => (*v)->Array_0));
                    assert(decreases_to!(*xs => xs[i as int]));
                    assert(decreases_to!(*v => xs[i as int]));
                }
                if i > 0 {
                    push_char(out, ',');
                }
                write_json(&xs[i], out);
                i = i + 1;
            }
            push_char(out, ']');
        },
        JsonValue::Object(es) => {
            proof {
                lemma_jview_entries(es@);
            }
            let ghost ve = jview_entries(es@);
            push_char(out, '{');
            let ghost start = out@;
            let mut i: usize = 0;
            while i < es.len()
                invariant
                    *v == JsonValue::Object(*es),
                    i <= es@.len(),
                    ve == jview_entries(es@),
                    ve.len() == es@.len(),
                    forall|j: int|
                        0 <= j < es@.len() ==> #[trigger] ve[j] == (es@[j].0@, jview(es@[j].1)),
                    out@ == start + members_text(ve, i as int),
                decreases es@.len() - i,
            {
                proof {
                    assert(decreases_to!(*v => (*v)->Object_0));
                    assert(decreases_to!(*es => es[i as int]));
                    assert(decreases_to!(es[i as int] => es[i as int].1));
                    assert(decreases_to!(*v => es[i as int].1));
                }
                if i > 0 {
                    push_char(out, ',');
                }
                write_quoted(es[i].0.as_str(), out);
                push_char(out, ':');
                write_json(&es[i].1, out);
                i = i + 1;
            }
            push_char(out, '}');
        },
    }
}

/// The compact JSON text of a value (see `json_text`).
pub fn to_json_text(v: &JsonValue) -> (r: String)
    ensures
        r@ == json_text(v@),
{
    let mut out = String::new();
    write_json(v, &mut out);
    assert(out@ =~= json_text(v@));
    out
}

} // verus!
