//! Equality of JSON values: the same kind and content, objects compared by
//! their members whatever their order.
use vstd::prelude::*;
use crate::json::{
    JsonValue, JsonView, entries_get, find_key, jview, jview_entries, jview_items,
    lemma_jview_entries, lemma_jview_items,
};
use crate::text::str_eq;

verus! {

/// Two JSON contents are equal: same kind, same scalar, arrays equal item by
/// item, objects with as many members and each member of the first present in
/// the second with an equal value.
pub open spec fn json_eq(a: JsonView, b: JsonView) -> bool
    decreases a, 0int,
{
    match a {
        JsonView::Null => b is Null,
        JsonView::Bool(x) => b matches JsonView::Bool(y) && x == y,
        JsonView::Number(x) => b matches JsonView::Number(y) && x == y,
        JsonView::Str(x) => b matches JsonView::Str(y) && x == y,
        JsonView::Array(xs) => match b {
            JsonView::Array(ys) => xs.len() == ys.len() && items_eq_from(xs, ys, 0),
            _ => false,
        },
        JsonView::Object(xs) => match b {
            JsonView::Object(ys) => xs.len() == ys.len() && members_eq_from(xs, ys, 0),
            _ => false,
        },
    }
}

/// The items of `xs` from `i` on equal those of `ys` at the same positions.
pub open spec fn items_eq_from(xs: Seq<JsonView>, ys: Seq<JsonView>, i: int) -> bool
    decreases xs, xs.len() - i,
{
    if i < 0 || i >= xs.len() {
        true
    } else {
        json_eq(xs[i], ys[i]) && items_eq_from(xs, ys, i + 1)
    }
}

/// Each member of `xs` from `i` on is found in `ys` with an equal value.
pub open spec fn members_eq_from(xs: Seq<(Seq<char>, JsonView)>, ys: Seq<(Seq<char>, JsonView)>, i: int) -> bool
    decreases xs, xs.len() - i,
{
    if i < 0 || i >= xs.len() {
        true
    } else {
        match entries_get(ys, xs[i].0) {
            Some(w) => json_eq(xs[i].1, w) && members_eq_from(xs, ys, i + 1),
            None => false,
        }
    }
}

/// Whether two JSON values are equal (see `json_eq`).
pub fn json_equal(a: &JsonValue, b: &JsonValue) -> (r: bool)
    ensures
        r == json_eq(a@, b@),
    decreases a,
{
    match a {
        JsonValue::Null => matches!(b, JsonValue::Null),
        JsonValue::Bool(x) => match b {
            JsonValue::Bool(y) => *x == *y,
            _ => false,
        },
        JsonValue::Number(x) => match b {
            JsonValue::Number(y) => *x == *y,
            _ => false,
        },
        JsonValue::String(x) => match b {
            JsonValue::String(y) => str_eq(x.as_str(), y.as_str()),
            _ => false,
        },
        JsonValue::Array(xs) => match b {
            JsonValue::Array(ys) => {
                proof {
                    lemma_jview_items(xs@);
                    lemma_jview_items(ys@);
                }
                let ghost vx = jview_items(xs@);
                let ghost vy = jview_items(ys@);
                if xs.len() != ys.len() {
                    return false;
                }
                let mut i: usize = xs.len();
                // Walk backwards so that the spec's suffix is built up.
                while i > 0
                    invariant
                        *a == JsonValue::Array(*xs),
                        *b == JsonValue::Array(*ys),
                        i <= xs@.len(),
                        xs@.len() == ys@.len(),
                        vx == jview_items(xs@),
                        vy == jview_items(ys@),
                        vx.len() == xs@.len(),
                        vy.len() == ys@.len(),
                        forall|j: int| 0 <= j < xs@.len() ==> #[trigger] vx[j] == jview(xs@[j]),
                        forall|j: int| 0 <= j < ys@.len() ==> #[trigger] vy[j] == jview(ys@[j]),
                        items_eq_from(vx, vy, i as int),
                    decreases i,
                {
                    proof {
                        assert(decreases_to!(*a => (*a)->Array_0));
                        assert(decreases_to!(*xs => xs[i - 1]));
                        assert(decreases_to!(*a => xs[i - 1]));
                    }
                    let e = json_equal(&xs[i - 1], &ys[i - 1]);
                    if !e {
                        proof {
                            assert(!items_eq_from(vx, vy, i - 1));
                            lemma_items_eq_prefix(vx, vy, 0, i - 1);
                        }
                        return false;
                    }
                    i = i - 1;
                }
                true
            },
            _ => false,
        },
        JsonValue::Object(xs) => match b {
            JsonValue::Object(ys) => {
                proof {
                    lemma_jview_entries(xs@);
                    lemma_jview_entries(ys@);
                }
                let ghost vx = jview_entries(xs@);
                let ghost vy = jview_entries(ys@);
                if xs.len() != ys.len() {
                    return false;
                }
                let mut i: usize = xs.len();
                while i > 0
                    invariant
                        *a == JsonValue::Object(*xs),
                        *b == JsonValue::Object(*ys),
                        i <= xs@.len(),
                        xs@.len() == ys@.len(),
                        vx == jview_entries(xs@),
                        vy == jview_entries(ys@),
                        vx.len() == xs@.len(),
                        vy.len() == ys@.len(),
                        forall|j: int|
                            0 <= j < xs@.len() ==> #[trigger] vx[j] == (xs@[j].0@, jview(xs@[j].1)),
                        forall|j: int|
                            0 <= j < ys@.len() ==> #[trigger] vy[j] == (ys@[j].0@, jview(ys@[j].1)),
                        members_eq_from(vx, vy, i as int),
                    decreases i,
                {
                    proof {
                        assert(decreases_to!(*a => (*a)->Object_0));
                        assert(decreases_to!(*xs => xs[i - 1]));
                        assert(decreases_to!(xs[i - 1] => xs[i - 1].1));
                        assert(decreases_to!(*a => xs[i - 1].1));
                    }
                    let ok = match find_key(ys, xs[i - 1].0.as_str()) {
                        Some(k) => {
                            proof {
                                assert(entries_get(vy, vx[i - 1].0) == Some(jview(ys@[k as int].1)));
                            }
                            json_equal(&xs[i - 1].1, &ys[k].1)
                        },
                        None => {
                            proof {
                                assert(entries_get(vy, vx[i - 1].0) is None);
                            }
                            false
                        },
                    };
                    if !ok {
                        proof {
                            assert(!members_eq_from(vx, vy, i - 1));
                            lemma_members_eq_prefix(vx, vy, 0, i - 1);
                        }
                        return false;
                    }
                    i = i - 1;
                }
                true
            },
            _ => false,
        },
    }
}

/// A failure at position `k` makes every earlier suffix fail.
proof fn lemma_items_eq_prefix(xs: Seq<JsonView>, ys: Seq<JsonView>, i: int, k: int)
    requires
        0 <= i <= k < xs.len(),
        !items_eq_from(xs, ys, k),
    ensures
        !items_eq_from(xs, ys, i),
    decreases k - i,
{
    if i < k {
        lemma_items_eq_prefix(xs, ys, i + 1, k);
    }
}

/// A failure at position `k` makes every earlier suffix fail.
proof fn lemma_members_eq_prefix(xs: Seq<(Seq<char>, JsonView)>, ys: Seq<(Seq<char>, JsonView)>, i: int, k: int)
    requires
        0 <= i <= k < xs.len(),
        !members_eq_from(xs, ys, k),
    ensures
        !members_eq_from(xs, ys, i),
    decreases k - i,
{
    if i < k {
        lemma_members_eq_prefix(xs, ys, i + 1, k);
    }
}

/// Whether `v` is equal to one of the items (see `json_eq`).
pub open spec fn has_equal_item(items: Seq<JsonView>, v: JsonView) -> bool {
    exists|i: int| 0 <= i < items.len() && #[trigger] json_eq(items[i], v)
}

/// Whether one of the items equals `v`.
pub fn contains_equal(items: &Vec<JsonValue>, v: &JsonValue) -> (r: bool)
    ensures
        r == has_equal_item(jview_items(items@), v@),
{
    proof {
        lemma_jview_items(items@);
    }
    let ghost vi = jview_items(items@);
    let mut i: usize = 0;
    while i < items.len()
        invariant
            i <= items@.len(),
            vi == jview_items(items@),
            vi.len() == items@.len(),
            forall|j: int| 0 <= j < items@.len() ==> #[trigger] vi[j] == jview(items@[j]),
            forall|j: int| 0 <= j < i ==> !json_eq(#[trigger] vi[j], v@),
        decreases items@.len() - i,
    {
        if json_equal(&items[i], v) {
            assert(json_eq(vi[i as int], v@));
            return true;
        }
        i = i + 1;
    }
    false
}

} // verus!
