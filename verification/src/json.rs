//! JSON documents as plain values: the shapes the library reads and builds.
//!
//! Numbers are held as `i64`. An object keeps its entries in insertion order;
//! `get` finds the first entry under a key and `insert` replaces that entry.
use vstd::prelude::*;
use vstd::string::*;
use crate::text::{
    chars_of, has_prefix, owned, replace_all, replace_spec, split_char, split_spec, starts_with,
    str_eq, texts_of,
};

verus! {

/// A JSON value.
pub enum JsonValue {
    Null,
    Bool(bool),
    Number(i64),
    String(String),
    Array(Vec<JsonValue>),
    Object(Vec<(String, JsonValue)>),
}

/// The mathematical content of a JSON value.
pub enum JsonView {
    Null,
    Bool(bool),
    Number(int),
    Str(Seq<char>),
    Array(Seq<JsonView>),
    Object(Seq<(Seq<char>, JsonView)>),
}

/// The content of a JSON value.
pub open spec fn jview(j: JsonValue) -> JsonView
    decreases j, 0nat,
{
    match j {
        JsonValue::Null => JsonView::Null,
        JsonValue::Bool(b) => JsonView::Bool(b),
        JsonValue::Number(n) => JsonView::Number(n as int),
        JsonValue::String(s) => JsonView::Str(s@),
        JsonValue::Array(v) => JsonView::Array(jview_items(v@)),
        JsonValue::Object(es) => JsonView::Object(jview_entries(es@)),
    }
}

/// The contents of a sequence of JSON values.
pub open spec fn jview_items(s: Seq<JsonValue>) -> Seq<JsonView>
    decreases s, 0nat,
{
    if s.len() == 0 {
        Seq::empty()
    } else {
        seq![jview(s[0])] + jview_items(s.subrange(1, s.len() as int))
    }
}

/// The contents of a sequence of object entries.
pub open spec fn jview_entries(s: Seq<(String, JsonValue)>) -> Seq<(Seq<char>, JsonView)>
    decreases s, 0nat,
{
    if s.len() == 0 {
        Seq::empty()
    } else {
        seq![(s[0].0@, jview(s[0].1))] + jview_entries(s.subrange(1, s.len() as int))
    }
}

impl View for JsonValue {
    type V = JsonView;

    open spec fn view(&self) -> JsonView {
        jview(*self)
    }
}

/// `jview_items` maps each item.
pub broadcast proof fn lemma_jview_items(s: Seq<JsonValue>)
    ensures
        #[trigger] jview_items(s).len() == s.len(),
        forall|i: int| 0 <= i < s.len() ==> #[trigger] jview_items(s)[i] == jview(s[i]),
    decreases s.len(),
{
    if s.len() > 0 {
        let t = s.subrange(1, s.len() as int);
        lemma_jview_items(t);
        assert forall|i: int| 0 <= i < s.len() implies #[trigger] jview_items(s)[i] == jview(
            s[i],
        ) by {
            if i > 0 {
                assert(s[i] == t[i - 1]);
            }
        }
    }
}

/// `jview_entries` maps each entry.
pub broadcast proof fn lemma_jview_entries(s: Seq<(String, JsonValue)>)
    ensures
        #[trigger] jview_entries(s).len() == s.len(),
        forall|i: int|
            0 <= i < s.len() ==> #[trigger] jview_entries(s)[i] == (s[i].0@, jview(s[i].1)),
    decreases s.len(),
{
    if s.len() > 0 {
        let t = s.subrange(1, s.len() as int);
        lemma_jview_entries(t);
        assert forall|i: int| 0 <= i < s.len() implies #[trigger] jview_entries(s)[i] == (
            s[i].0@,
            jview(s[i].1),
        ) by {
            if i > 0 {
                assert(s[i] == t[i - 1]);
            }
        }
    }
}

/// Two item sequences with equal item contents have equal contents.
pub proof fn lemma_jview_items_ext(a: Seq<JsonValue>, b: Seq<JsonValue>)
    requires
        a.len() == b.len(),
        forall|i: int| 0 <= i < a.len() ==> jview(a[i]) == jview(b[i]),
    ensures
        jview_items(a) == jview_items(b),
{
    lemma_jview_items(a);
    lemma_jview_items(b);
    assert(jview_items(a) =~= jview_items(b));
}

/// Two entry sequences with equal entry contents have equal contents.
pub proof fn lemma_jview_entries_ext(a: Seq<(String, JsonValue)>, b: Seq<(String, JsonValue)>)
    requires
        a.len() == b.len(),
        forall|i: int| 0 <= i < a.len() ==> a[i].0@ == b[i].0@ && jview(a[i].1) == jview(b[i].1),
    ensures
        jview_entries(a) == jview_entries(b),
{
    lemma_jview_entries(a);
    lemma_jview_entries(b);
    assert(jview_entries(a) =~= jview_entries(b));
}

// ---------------------------------------------------------------------------
// Object members
// ---------------------------------------------------------------------------

/// Position of the first entry under key `k`, or -1.
pub open spec fn key_pos(es: Seq<(Seq<char>, JsonView)>, k: Seq<char>) -> int
    decreases es.len(),
{
    if es.len() == 0 {
        -1
    } else if es[0].0 == k {
        0
    } else {
        let r = key_pos(es.subrange(1, es.len() as int), k);
        if r < 0 {
            -1
        } else {
            r + 1
        }
    }
}

/// The value under key `k` among the entries `es`.
pub open spec fn entries_get(es: Seq<(Seq<char>, JsonView)>, k: Seq<char>) -> Option<JsonView> {
    let i = key_pos(es, k);
    if 0 <= i < es.len() {
        Some(es[i].1)
    } else {
        None
    }
}

/// The entries `es` with key `k` bound to `v`: the first entry under that key
/// takes the new value, or a new entry is appended.
pub open spec fn entries_set(es: Seq<(Seq<char>, JsonView)>, k: Seq<char>, v: JsonView) -> Seq<
    (Seq<char>, JsonView),
> {
    let i = key_pos(es, k);
    if 0 <= i < es.len() {
        es.update(i, (k, v))
    } else {
        es.push((k, v))
    }
}

/// The member `k` of `j`, when `j` is an object that has one (`Value::get`).
pub open spec fn vget(j: JsonView, k: Seq<char>) -> Option<JsonView> {
    match j {
        JsonView::Object(es) => entries_get(es, k),
        _ => None,
    }
}

/// The text of a string value.
pub open spec fn vstr(j: JsonView) -> Option<Seq<char>> {
    match j {
        JsonView::Str(s) => Some(s),
        _ => None,
    }
}

/// The text of the member `k` of `j`, when that member is a string
/// (`j.get(k).and_then(|v| v.as_str())`).
pub open spec fn member_str(j: JsonView, k: Seq<char>) -> Option<Seq<char>> {
    match vget(j, k) {
        Some(v) => vstr(v),
        None => None,
    }
}

/// The items of the member `k` of `j`, when that member is an array.
pub open spec fn member_items(j: JsonView, k: Seq<char>) -> Option<Seq<JsonView>> {
    match vget(j, k) {
        Some(JsonView::Array(items)) => Some(items),
        _ => None,
    }
}

/// The properties of `key_pos`.
pub proof fn lemma_key_pos(es: Seq<(Seq<char>, JsonView)>, k: Seq<char>)
    ensures
        -1 <= key_pos(es, k) < es.len(),
        key_pos(es, k) >= 0 ==> es[key_pos(es, k)].0 == k,
        forall|j: int| 0 <= j < key_pos(es, k) ==> es[j].0 != k,
        key_pos(es, k) < 0 ==> forall|j: int| 0 <= j < es.len() ==> es[j].0 != k,
    decreases es.len(),
{
    if es.len() > 0 && es[0].0 != k {
        let t = es.subrange(1, es.len() as int);
        lemma_key_pos(t, k);
        assert forall|j: int| 1 <= j < es.len() implies es[j] == t[j - 1] by {}
    }
}

/// `key_pos` is the unique position that is a match with no match before it.
pub proof fn lemma_key_pos_is(es: Seq<(Seq<char>, JsonView)>, k: Seq<char>, i: int)
    requires
        -1 <= i < es.len(),
        i >= 0 ==> es[i].0 == k,
        forall|j: int| 0 <= j < i ==> es[j].0 != k,
        i < 0 ==> forall|j: int| 0 <= j < es.len() ==> es[j].0 != k,
    ensures
        key_pos(es, k) == i,
{
    lemma_key_pos(es, k);
    let p = key_pos(es, k);
    if p >= 0 && i >= 0 {
        if p < i {
            assert(es[p].0 != k);
        }
        if i < p {
            assert(es[i].0 != k);
        }
    }
    if p >= 0 && i < 0 {
        assert(es[p].0 != k);
    }
    if p < 0 && i >= 0 {
        assert(es[i].0 != k);
    }
}

/// Reading a key of an object after binding it gives the value bound, and
/// reading any other key gives what it gave before.
pub proof fn law_set_then_get(es: Seq<(Seq<char>, JsonView)>, k: Seq<char>, v: JsonView)
    ensures
        entries_get(entries_set(es, k, v), k) == Some(v),
        forall|k2: Seq<char>|
            k2 != k ==> #[trigger] entries_get(entries_set(es, k, v), k2) == entries_get(es, k2),
{
    lemma_key_pos(es, k);
    let r = entries_set(es, k, v);
    let i = key_pos(es, k);
    if i >= 0 {
        lemma_key_pos_is(r, k, i);
    } else {
        lemma_key_pos_is(r, k, es.len() as int);
    }
    assert forall|k2: Seq<char>| k2 != k implies #[trigger] entries_get(r, k2) == entries_get(
        es,
        k2,
    ) by {
        lemma_key_pos(es, k2);
        let p = key_pos(es, k2);
        if p >= 0 {
            lemma_key_pos_is(r, k2, p);
        } else {
            lemma_key_pos_is(r, k2, -1);
        }
    }
}

/// Position of the first entry under key `k`.
pub fn find_key(es: &Vec<(String, JsonValue)>, k: &str) -> (r: Option<usize>)
    ensures
        match r {
            Some(i) => i as int == key_pos(jview_entries(es@), k@) && i < es@.len(),
            None => key_pos(jview_entries(es@), k@) == -1,
        },
{
    proof {
        lemma_jview_entries(es@);
    }
    let ghost ves = jview_entries(es@);
    let mut i: usize = 0;
    while i < es.len()
        invariant
            i <= es@.len(),
            ves == jview_entries(es@),
            ves.len() == es@.len(),
            forall|j: int| 0 <= j < es@.len() ==> #[trigger] ves[j] == (es@[j].0@, jview(es@[j].1)),
            forall|j: int| 0 <= j < i ==> ves[j].0 != k@,
        decreases es@.len() - i,
    {
        if str_eq(es[i].0.as_str(), k) {
            proof {
                lemma_key_pos_is(ves, k@, i as int);
            }
            return Some(i);
        }
        i = i + 1;
    }
    proof {
        lemma_key_pos_is(ves, k@, -1);
    }
    None
}

impl JsonValue {
    /// A copy of this value.
    pub fn duplicate(&self) -> (r: JsonValue)
        ensures
            r@ == self@,
        decreases self,
    {
        match self {
            JsonValue::Null => JsonValue::Null,
            JsonValue::Bool(b) => JsonValue::Bool(*b),
            JsonValue::Number(n) => JsonValue::Number(*n),
            JsonValue::String(s) => JsonValue::String(s.clone()),
            JsonValue::Array(items) => {
                let mut out: Vec<JsonValue> = Vec::new();
                let mut i: usize = 0;
                while i < items.len()
                    invariant
                        *self == JsonValue::Array(*items),
                        i <= items@.len(),
                        out@.len() == i,
                        forall|j: int| 0 <= j < i ==> jview(#[trigger] out@[j]) == jview(items@[j]),
                    decreases items@.len() - i,
                {
                    proof {
                        assert(decreases_to!(*self => (*self)->Array_0));
                        assert(decreases_to!(*items => items[i as int]));
                        assert(decreases_to!(*self => items[i as int]));
                    }
                    let c = items[i].duplicate();
                    out.push(c);
                    i = i + 1;
                }
                proof {
                    lemma_jview_items_ext(out@, items@);
                }
                JsonValue::Array(out)
            },
            JsonValue::Object(es) => {
                let mut out: Vec<(String, JsonValue)> = Vec::new();
                let mut i: usize = 0;
                while i < es.len()
                    invariant
                        *self == JsonValue::Object(*es),
                        i <= es@.len(),
                        out@.len() == i,
                        forall|j: int|
                            0 <= j < i ==> (#[trigger] out@[j]).0@ == es@[j].0@ && jview(out@[j].1)
                                == jview(es@[j].1),
                    decreases es@.len() - i,
                {
                    proof {
                        assert(decreases_to!(*self => (*self)->Object_0));
                        assert(decreases_to!(*es => es[i as int]));
                        assert(decreases_to!(es[i as int] => es[i as int].1));
                        assert(decreases_to!(*self => es[i as int].1));
                    }
                    let c = es[i].1.duplicate();
                    out.push((es[i].0.clone(), c));
                    i = i + 1;
                }
                proof {
                    lemma_jview_entries_ext(out@, es@);
                }
                JsonValue::Object(out)
            },
        }
    }

    /// The member under `key`, when this is an object that has one.
    pub fn get(&self, key: &str) -> (r: Option<&JsonValue>)
        ensures
            match r {
                Some(v) => vget(self@, key@) == Some(v@),
                None => vget(self@, key@) is None,
            },
    {
        match self {
            JsonValue::Object(es) => {
                proof {
                    lemma_jview_entries(es@);
                }
                match find_key(es, key) {
                    Some(i) => Some(&es[i].1),
                    None => None,
                }
            },
            _ => None,
        }
    }

    /// The text of a string value.
    pub fn as_str(&self) -> (r: Option<&str>)
        ensures
            match r {
                Some(s) => vstr(self@) == Some(s@),
                None => vstr(self@) is None,
            },
    {
        match self {
            JsonValue::String(s) => Some(s.as_str()),
            _ => None,
        }
    }

    /// The items of an array value.
    pub fn as_array(&self) -> (r: Option<&Vec<JsonValue>>)
        ensures
            match r {
                Some(v) => self@ == JsonView::Array(jview_items(v@)),
                None => !(self@ is Array),
            },
    {
        match self {
            JsonValue::Array(v) => Some(v),
            _ => None,
        }
    }

    /// The entries of an object value.
    pub fn as_object(&self) -> (r: Option<&Vec<(String, JsonValue)>>)
        ensures
            match r {
                Some(es) => self@ == JsonView::Object(jview_entries(es@)),
                None => !(self@ is Object),
            },
    {
        match self {
            JsonValue::Object(es) => Some(es),
            _ => None,
        }
    }

    /// The value of a boolean.
    pub fn as_bool(&self) -> (r: Option<bool>)
        ensures
            match self@ {
                JsonView::Bool(b) => r == Some(b),
                _ => r is None,
            },
    {
        match self {
            JsonValue::Bool(b) => Some(*b),
            _ => None,
        }
    }

    /// The value of a number.
    pub fn as_i64(&self) -> (r: Option<i64>)
        ensures
            match self@ {
                JsonView::Number(n) => r is Some && r->0 as int == n,
                _ => r is None,
            },
    {
        match self {
            JsonValue::Number(n) => Some(*n),
            _ => None,
        }
    }

    /// The value of a non-negative number.
    pub fn as_u64(&self) -> (r: Option<u64>)
        ensures
            match self@ {
                JsonView::Number(n) => if n >= 0 {
                    r is Some && r->0 as int == n
                } else {
                    r is None
                },
                _ => r is None,
            },
    {
        match self {
            JsonValue::Number(n) => if *n >= 0 {
                Some(*n as u64)
            } else {
                None
            },
            _ => None,
        }
    }

    pub fn is_null(&self) -> (b: bool)
        ensures
            b == (self@ is Null),
    {
        matches!(self, JsonValue::Null)
    }

    pub fn is_boolean(&self) -> (b: bool)
        ensures
            b == (self@ is Bool),
    {
        matches!(self, JsonValue::Bool(_))
    }

    pub fn is_number(&self) -> (b: bool)
        ensures
            b == (self@ is Number),
    {
        matches!(self, JsonValue::Number(_))
    }

    pub fn is_string(&self) -> (b: bool)
        ensures
            b == (self@ is Str),
    {
        matches!(self, JsonValue::String(_))
    }

    pub fn is_array(&self) -> (b: bool)
        ensures
            b == (self@ is Array),
    {
        matches!(self, JsonValue::Array(_))
    }

    pub fn is_object(&self) -> (b: bool)
        ensures
            b == (self@ is Object),
    {
        matches!(self, JsonValue::Object(_))
    }

    /// A string value holding `s`.
    pub fn from_str(s: &str) -> (r: JsonValue)
        ensures
            r@ == JsonView::Str(s@),
    {
        JsonValue::String(owned(s))
    }

    /// An empty object.
    pub fn empty_object() -> (r: JsonValue)
        ensures
            r@ == JsonView::Object(Seq::empty()),
    {
        let es: Vec<(String, JsonValue)> = Vec::new();
        proof {
            lemma_jview_entries(es@);
            assert(jview_entries(es@) =~= Seq::<(Seq<char>, JsonView)>::empty());
        }
        JsonValue::Object(es)
    }

    /// Binds `key` to `value` when this is an object; other values are left unchanged.
    pub fn insert(&mut self, key: String, value: JsonValue)
        ensures
            match old(self)@ {
                JsonView::Object(es) => final(self)@ == JsonView::Object(
                    entries_set(es, key@, value@),
                ),
                _ => final(self)@ == old(self)@,
            },
    {
        match self {
            JsonValue::Object(es) => {
                entries_insert(es, key, value);
            },
            _ => {},
        }
    }
}

/// Binds key `k` to `v` in the entries `es`.
pub fn entries_insert(es: &mut Vec<(String, JsonValue)>, k: String, v: JsonValue)
    ensures
        jview_entries(final(es)@) == entries_set(jview_entries(old(es)@), k@, v@),
{
    proof {
        lemma_jview_entries(es@);
    }
    let ghost before = jview_entries(es@);
    match find_key(es, k.as_str()) {
        Some(i) => {
            es.set(i, (k, v));
            proof {
                lemma_jview_entries(es@);
                assert(jview_entries(es@) =~= before.update(i as int, (k@, v@)));
            }
        },
        None => {
            es.push((k, v));
            proof {
                lemma_jview_entries(es@);
                assert(jview_entries(es@) =~= before.push((k@, v@)));
            }
        },
    }
}

// ---------------------------------------------------------------------------
// JSON pointers
// ---------------------------------------------------------------------------

/// A decimal digit.
pub open spec fn is_digit(c: char) -> bool {
    '0' <= c && c <= '9'
}

/// The value of the decimal digits `t`.
pub open spec fn digits_value(t: Seq<char>) -> int
    decreases t.len(),
{
    if t.len() == 0 {
        0
    } else {
        10 * digits_value(t.drop_last()) + (t.last() as int - '0' as int)
    }
}

/// The array index that a pointer token denotes: decimal digits without a
/// leading `+` or a leading zero (but `0` itself), within `usize`.
pub open spec fn index_token(t: Seq<char>) -> Option<int> {
    if t.len() == 0 || t[0] == '+' || (t[0] == '0' && t.len() != 1) || !(forall|i: int|
        0 <= i < t.len() ==> #[trigger] is_digit(t[i])) || digits_value(t) > usize::MAX {
        None
    } else {
        Some(digits_value(t))
    }
}

/// A pointer token with its escapes `~1` (for `/`) and `~0` (for `~`) undone.
pub open spec fn unescape_token(t: Seq<char>) -> Seq<char> {
    replace_spec(replace_spec(t, "~1"@, "/"@), "~0"@, "~"@)
}

/// One step down a pointer: an object member by key, an array item by index.
pub open spec fn pointer_step(target: Option<JsonView>, token: Seq<char>) -> Option<JsonView> {
    match target {
        Some(JsonView::Object(es)) => entries_get(es, token),
        Some(JsonView::Array(items)) => match index_token(token) {
            Some(i) => if i < items.len() {
                Some(items[i])
            } else {
                None
            },
            None => None,
        },
        _ => None,
    }
}

/// The value reached from `root` along the raw tokens `tokens`.
pub open spec fn pointer_fold(root: JsonView, tokens: Seq<Seq<char>>) -> Option<JsonView>
    decreases tokens.len(),
{
    if tokens.len() == 0 {
        Some(root)
    } else {
        pointer_step(pointer_fold(root, tokens.drop_last()), unescape_token(tokens.last()))
    }
}

/// The value that the JSON pointer `p` designates in `root` (RFC 6901, as
/// `serde_json::Value::pointer` reads it).
pub open spec fn pointer_spec(root: JsonView, p: Seq<char>) -> Option<JsonView> {
    if p.len() == 0 {
        Some(root)
    } else if !has_prefix(p, "/"@) {
        None
    } else {
        pointer_fold(root, split_spec(p, '/').drop_first())
    }
}

/// Once a pointer walk has failed, it stays failed.
proof fn lemma_pointer_fails(root: JsonView, tokens: Seq<Seq<char>>, k: int)
    requires
        0 <= k <= tokens.len(),
        pointer_fold(root, tokens.take(k)) is None,
    ensures
        pointer_fold(root, tokens) is None,
    decreases tokens.len() - k,
{
    if k < tokens.len() {
        assert(tokens.take(k + 1).drop_last() =~= tokens.take(k));
        lemma_pointer_fails(root, tokens, k + 1);
    } else {
        assert(tokens.take(k) =~= tokens);
    }
}

/// The array index denoted by a pointer token.
pub fn parse_index(t: &str) -> (r: Option<usize>)
    ensures
        match r {
            Some(i) => index_token(t@) == Some(i as int),
            None => index_token(t@) is None,
        },
{
    let cs = chars_of(t);
    let n = cs.len();
    if n == 0 || cs[0] == '+' || (cs[0] == '0' && n != 1) {
        return None;
    }
    let mut acc: usize = 0;
    let mut i: usize = 0;
    assert(cs@.take(0) =~= Seq::<char>::empty());
    while i < n
        invariant
            cs@ == t@,
            n == cs@.len(),
            i <= n,
            forall|j: int| 0 <= j < i ==> #[trigger] is_digit(cs@[j]),
            acc as int == digits_value(cs@.take(i as int)),
        decreases n - i,
    {
        let c = cs[i];
        assert(cs@.take(i as int + 1).drop_last() =~= cs@.take(i as int));
        if !('0' <= c && c <= '9') {
            assert(!is_digit(cs@[i as int]));
            return None;
        }
        let d = (c as u32 - '0' as u32) as usize;
        proof {
            lemma_digits_grow(cs@, i as int);
        }
        match acc.checked_mul(10) {
            Some(m) => match m.checked_add(d) {
                Some(v) => {
                    acc = v;
                },
                None => {
                    proof {
                        assert(is_digit(cs@[i as int]));
                        if forall|j: int| 0 <= j < n ==> #[trigger] is_digit(cs@[j]) {
                            lemma_digits_monotone(cs@, i as int + 1);
                        }
                    }
                    return None;
                },
            },
            None => {
                proof {
                    assert(is_digit(cs@[i as int]));
                    if forall|j: int| 0 <= j < n ==> #[trigger] is_digit(cs@[j]) {
                        lemma_digits_monotone(cs@, i as int + 1);
                    }
                }
                return None;
            },
        }
        i = i + 1;
    }
    assert(cs@.take(n as int) =~= cs@);
    Some(acc)
}

/// One more digit: the value is ten times the value so far plus the digit.
pub proof fn lemma_digits_grow(cs: Seq<char>, i: int)
    requires
        0 <= i < cs.len(),
    ensures
        digits_value(cs.take(i + 1)) == 10 * digits_value(cs.take(i)) + (cs[i] as int - '0' as int),
{
    assert(cs.take(i + 1).drop_last() =~= cs.take(i));
}

/// Over digits, a longer prefix has a value at least as large.
pub proof fn lemma_digits_monotone(cs: Seq<char>, k: int)
    requires
        0 <= k <= cs.len(),
        forall|j: int| 0 <= j < cs.len() ==> #[trigger] is_digit(cs[j]),
    ensures
        digits_value(cs) >= digits_value(cs.take(k)),
        digits_value(cs.take(k)) >= 0,
    decreases cs.len() - k,
{
    let t = cs.take(k);
    assert forall|j: int| 0 <= j < t.len() implies #[trigger] is_digit(t[j]) by {
        assert(t[j] == cs[j]);
        assert(is_digit(cs[j]));
    }
    lemma_digits_nonneg(t);
    if k < cs.len() {
        lemma_digits_monotone(cs, k + 1);
        lemma_digits_grow(cs, k);
        assert(is_digit(cs[k]));
    } else {
        assert(cs.take(k) =~= cs);
    }
}

/// Digits have a non-negative value.
pub proof fn lemma_digits_nonneg(cs: Seq<char>)
    requires
        forall|j: int| 0 <= j < cs.len() ==> #[trigger] is_digit(cs[j]),
    ensures
        digits_value(cs) >= 0,
    decreases cs.len(),
{
    if cs.len() > 0 {
        let d = cs.drop_last();
        assert forall|j: int| 0 <= j < d.len() implies #[trigger] is_digit(d[j]) by {
            assert(d[j] == cs[j]);
            assert(is_digit(cs[j]));
        }
        lemma_digits_nonneg(d);
        assert(is_digit(cs[cs.len() - 1]));
    }
}

/// A pointer token with its escapes undone.
fn unescape(t: &str) -> (r: String)
    ensures
        r@ == unescape_token(t@),
{
    proof {
        reveal_strlit("~1");
        reveal_strlit("~0");
    }
    let a = replace_all(t, "~1", "/");
    replace_all(a.as_str(), "~0", "~")
}

impl JsonValue {
    /// The value that the JSON pointer `p` designates in this value.
    pub fn pointer(&self, p: &str) -> (r: Option<&JsonValue>)
        ensures
            match r {
                Some(v) => pointer_spec(self@, p@) == Some(v@),
                None => pointer_spec(self@, p@) is None,
            },
    {
        if p.unicode_len() == 0 {
            return Some(self);
        }
        if !starts_with(p, "/") {
            return None;
        }
        let pieces = split_char(p, '/');
        let ghost tokens = split_spec(p@, '/').drop_first();
        assert(texts_of(pieces@) == split_spec(p@, '/'));
        assert(pieces@.len() >= 1);
        let mut cur: &JsonValue = self;
        let mut i: usize = 1;
        assert(tokens.take(0) =~= Seq::<Seq<char>>::empty());
        while i < pieces.len()
            invariant
                1 <= i <= pieces@.len(),
                texts_of(pieces@) == split_spec(p@, '/'),
                tokens == split_spec(p@, '/').drop_first(),
                tokens.len() == pieces@.len() - 1,
                pointer_fold(self@, tokens.take(i - 1)) == Some(cur@),
            decreases pieces@.len() - i,
        {
            let token = unescape(pieces[i].as_str());
            proof {
                assert(tokens.take(i as int).drop_last() =~= tokens.take(i - 1));
                assert(tokens.take(i as int).last() == pieces@[i as int]@);
            }
            let next: Option<&JsonValue> = match cur {
                JsonValue::Object(es) => {
                    proof {
                        lemma_jview_entries(es@);
                    }
                    match find_key(es, token.as_str()) {
                        Some(k) => Some(&es[k].1),
                        None => None,
                    }
                },
                JsonValue::Array(items) => {
                    proof {
                        lemma_jview_items(items@);
                    }
                    match parse_index(token.as_str()) {
                        Some(x) => if x < items.len() {
                            Some(&items[x])
                        } else {
                            None
                        },
                        None => None,
                    }
                },
                _ => None,
            };
            match next {
                Some(n) => {
                    cur = n;
                },
                None => {
                    proof {
                        lemma_pointer_fails(self@, tokens, i as int);
                    }
                    return None;
                },
            }
            i = i + 1;
        }
        assert(tokens.take(pieces@.len() - 1) =~= tokens);
        Some(cur)
    }
}

} // verus!
