//! The listing of documents in a database's system index: under
//! `collections`, each collection has an entry whose `items` list the files of
//! its documents, one `{"file": "<id>.json"}` object per document.
use vstd::prelude::*;
use crate::json::{
    JsonValue, JsonView, entries_get, entries_insert, entries_set, jview, jview_entries, jview_items,
    lemma_jview_entries, lemma_jview_items, member_str, vget, vstr,
};
use crate::text::{concat2, owned, str_eq};

verus! {

/// The value with member `k` bound to `x`: an object gets the member, `null`
/// becomes an object holding it alone, anything else is left as is.
pub open spec fn set_member(v: JsonView, k: Seq<char>, x: JsonView) -> JsonView {
    match v {
        JsonView::Object(es) => JsonView::Object(entries_set(es, k, x)),
        JsonView::Null => JsonView::Object(seq![(k, x)]),
        _ => v,
    }
}

/// Whether one of the items names the file `f`.
pub open spec fn lists_file(items: Seq<JsonView>, f: Seq<char>) -> bool {
    exists|i: int| 0 <= i < items.len() && member_str(#[trigger] items[i], "file"@) == Some(f)
}

/// The first `k` items without those that name the file `f`.
pub open spec fn items_without(items: Seq<JsonView>, f: Seq<char>, k: int) -> Seq<JsonView>
    decreases k,
{
    if k <= 0 || k > items.len() {
        Seq::empty()
    } else {
        let p = items_without(items, f, k - 1);
        if member_str(items[k - 1], "file"@) == Some(f) {
            p
        } else {
            p.push(items[k - 1])
        }
    }
}

/// The file that holds the document `id`.
pub open spec fn file_name(id: Seq<char>) -> Seq<char> {
    id + ".json"@
}

/// A collection entry with `items` listing the file `f`: the list is created
/// when missing, and the file appended when no item names it yet.
pub open spec fn entry_with_file(entry: JsonView, f: Seq<char>) -> JsonView {
    let e1 = if vget(entry, "items"@) is None {
        set_member(entry, "items"@, JsonView::Array(Seq::empty()))
    } else {
        entry
    };
    match vget(e1, "items"@) {
        Some(JsonView::Array(items)) => if lists_file(items, f) {
            e1
        } else {
            set_member(e1, "items"@, JsonView::Array(items.push(JsonView::Object(seq![("file"@, JsonView::Str(f))]))))
        },
        _ => e1,
    }
}

/// The index after listing the document `id` of the collection `col`: a
/// `collections` object is created when missing, an entry for the collection
/// (with `schema_guess` and no items) when it has none, and its items list
/// the document's file once.
pub open spec fn index_with_item(idx: JsonView, col: Seq<char>, id: Seq<char>, schema_guess: Seq<char>) -> JsonView {
    let idx1 = if vget(idx, "collections"@) is None {
        set_member(idx, "collections"@, JsonView::Object(Seq::empty()))
    } else {
        idx
    };
    match vget(idx1, "collections"@) {
        Some(JsonView::Object(cols)) => {
            let cols1 = if entries_get(cols, col) is None {
                entries_set(
                    cols,
                    col,
                    JsonView::Object(seq![("schema"@, JsonView::Str(schema_guess)), ("items"@, JsonView::Array(Seq::empty()))]),
                )
            } else {
                cols
            };
            let entry = entries_get(cols1, col)->0;
            set_member(idx1, "collections"@, JsonView::Object(entries_set(cols1, col, entry_with_file(entry, file_name(id)))))
        },
        _ => idx1,
    }
}

/// Whether listing a document in `idx` can be done: the index is an object
/// or `null`, and an existing entry for the collection is an object, `null`
/// or has items.
pub open spec fn can_list(idx: JsonView, col: Seq<char>) -> bool {
    &&& (idx is Object || idx is Null)
    &&& match vget(idx, "collections"@) {
        Some(JsonView::Object(cols)) => match entries_get(cols, col) {
            Some(entry) => entry is Object || entry is Null,
            None => true,
        },
        _ => true,
    }
}

/// The index after unlisting the document `id` of the collection `col`:
/// every item of its entry that names the document's file is removed.
pub open spec fn index_without_item(idx: JsonView, col: Seq<char>, id: Seq<char>) -> JsonView {
    match vget(idx, "collections"@) {
        Some(JsonView::Object(cols)) => match entries_get(cols, col) {
            Some(entry) => match vget(entry, "items"@) {
                Some(JsonView::Array(items)) => set_member(
                    idx,
                    "collections"@,
                    JsonView::Object(
                        entries_set(
                            cols,
                            col,
                            set_member(entry, "items"@, JsonView::Array(items_without(items, file_name(id), items.len() as int))),
                        ),
                    ),
                ),
                _ => idx,
            },
            None => idx,
        },
        _ => idx,
    }
}

/// The items that the index lists for a collection.
pub open spec fn listed_items(idx: JsonView, col: Seq<char>) -> Option<Seq<JsonView>> {
    match vget(idx, "collections"@) {
        Some(JsonView::Object(cols)) => match entries_get(cols, col) {
            Some(entry) => match vget(entry, "items"@) {
                Some(JsonView::Array(items)) => Some(items),
                _ => None,
            },
            None => None,
        },
        _ => None,
    }
}

/// Binds member `k` of `v` (see `set_member`).
fn set_member_exec(v: &mut JsonValue, k: String, x: JsonValue)
    ensures
        final(v)@ == set_member(old(v)@, k@, x@),
{
    match v {
        JsonValue::Object(es) => {
            entries_insert(es, k, x);
        },
        JsonValue::Null => {
            let ghost kv = k@;
            let ghost xv = x@;
            let es = vec![(k, x)];
            proof {
                lemma_jview_entries(es@);
                assert(jview_entries(es@) =~= seq![(kv, xv)]);
            }
            *v = JsonValue::Object(es);
        },
        _ => {},
    }
}

/// Whether one of the items names the file `f`.
fn lists_file_exec(items: &Vec<JsonValue>, f: &str) -> (b: bool)
    ensures
        b == lists_file(jview_items(items@), f@),
{
    proof {
        lemma_jview_items(items@);
    }
    let ghost iv = jview_items(items@);
    let mut i: usize = 0;
    while i < items.len()
        invariant
            i <= items@.len(),
            iv == jview_items(items@),
            iv.len() == items@.len(),
            forall|j: int| 0 <= j < items@.len() ==> #[trigger] iv[j] == jview(items@[j]),
            forall|j: int| 0 <= j < i ==> member_str(#[trigger] iv[j], "file"@) != Some(f@),
        decreases items@.len() - i,
    {
        let named = match items[i].get("file") {
            Some(x) => match x.as_str() {
                Some(t) => str_eq(t, f),
                None => false,
            },
            None => false,
        };
        if named {
            assert(member_str(iv[i as int], "file"@) == Some(f@));
            return true;
        }
        i = i + 1;
    }
    false
}

/// The entry of a collection with its items listing the file `f` (see
/// `entry_with_file`).
fn add_file_to_entry(entry: &mut JsonValue, f: &str)
    requires
        old(entry)@ is Object || old(entry)@ is Null,
    ensures
        final(entry)@ == entry_with_file(old(entry)@, f@),
{
    if entry.get("items").is_none() {
        set_member_exec(entry, owned("items"), JsonValue::Array(Vec::new()));
        proof {
            lemma_jview_items(Seq::<JsonValue>::empty());
            assert(jview_items(Seq::<JsonValue>::empty()) =~= Seq::<JsonView>::empty());
        }
    }
    let ghost e1 = entry@;
    let add = match entry.get("items") {
        Some(JsonValue::Array(items)) => !lists_file_exec(items, f),
        _ => false,
    };
    if add {
        let mut items: Vec<JsonValue> = match entry.get("items") {
            Some(JsonValue::Array(items)) => {
                let mut copy: Vec<JsonValue> = Vec::new();
                let mut i: usize = 0;
                while i < items.len()
                    invariant
                        i <= items@.len(),
                        copy@.len() == i,
                        forall|j: int| 0 <= j < i ==> (#[trigger] copy@[j])@ == items@[j]@,
                    decreases items@.len() - i,
                {
                    copy.push(items[i].duplicate());
                    i = i + 1;
                }
                proof {
                    lemma_jview_items(copy@);
                    lemma_jview_items(items@);
                    assert(jview_items(copy@) =~= jview_items(items@));
                }
                copy
            },
            _ => Vec::new(),
        };
        let ghost old_items = jview_items(items@);
        let mut file_entry: Vec<(String, JsonValue)> = Vec::new();
        file_entry.push((owned("file"), JsonValue::String(owned(f))));
        proof {
            lemma_jview_entries(file_entry@);
            assert(jview_entries(file_entry@) =~= seq![("file"@, JsonView::Str(f@))]);
        }
        let ghost before = items@;
        items.push(JsonValue::Object(file_entry));
        proof {
            lemma_jview_items(before);
            lemma_jview_items(items@);
            assert(jview_items(items@) =~= old_items.push(JsonView::Object(seq![("file"@, JsonView::Str(f@))])));
        }
        set_member_exec(entry, owned("items"), JsonValue::Array(items));
    }
}

/// Lists the document `id` of the collection `col_name` in the index (see
/// `index_with_item`); `schema_guess` is the schema given to a collection
/// that the index did not know yet.
pub fn add_item_to_index(index: &mut JsonValue, col_name: &str, id: &str, schema_guess: &str)
    requires
        can_list(old(index)@, col_name@),
    ensures
        final(index)@ == index_with_item(old(index)@, col_name@, id@, schema_guess@),
{
    let ghost idx0 = index@;
    if index.get("collections").is_none() {
        set_member_exec(index, owned("collections"), JsonValue::Object(Vec::new()));
        proof {
            lemma_jview_entries(Seq::<(String, JsonValue)>::empty());
            assert(jview_entries(Seq::<(String, JsonValue)>::empty()) =~= Seq::<(Seq<char>, JsonView)>::empty());
            match idx0 {
                JsonView::Object(es) => {
                    crate::json::law_set_then_get(es, "collections"@, JsonView::Object(Seq::empty()));
                },
                _ => {},
            }
        }
    }
    let ghost idx1 = index@;
    assert(vget(idx1, "collections"@) is Some);
    let filename = concat2(id, ".json");
    let cols_copy: Option<Vec<(String, JsonValue)>> = match index.get("collections") {
        Some(JsonValue::Object(cols)) => Some(copy_entries(cols)),
        _ => None,
    };
    match cols_copy {
        Some(mut cols) => {
            let ghost c0 = jview_entries(cols@);
            assert(vget(idx1, "collections"@) == Some(JsonView::Object(c0)));
            let ghost fresh_v = JsonView::Object(seq![
                ("schema"@, JsonView::Str(schema_guess@)),
                ("items"@, JsonView::Array(Seq::empty())),
            ]);
            if crate::json::find_key(&cols, col_name).is_none() {
                let mut fresh: Vec<(String, JsonValue)> = Vec::new();
                fresh.push((owned("schema"), JsonValue::String(owned(schema_guess))));
                fresh.push((owned("items"), JsonValue::Array(Vec::new())));
                proof {
                    lemma_jview_entries(fresh@);
                    lemma_jview_items(Seq::<JsonValue>::empty());
                    assert(jview_items(Seq::<JsonValue>::empty()) =~= Seq::<JsonView>::empty());
                    assert(jview_entries(fresh@) =~= seq![
                        ("schema"@, JsonView::Str(schema_guess@)),
                        ("items"@, JsonView::Array(Seq::empty())),
                    ]);
                }
                entries_insert(&mut cols, owned(col_name), JsonValue::Object(fresh));
                proof {
                    crate::json::law_set_then_get(c0, col_name@, fresh_v);
                }
            }
            let ghost c1 = jview_entries(cols@);
            proof {
                lemma_jview_entries(cols@);
                crate::json::lemma_key_pos(c1, col_name@);
                crate::json::lemma_key_pos(c0, col_name@);
            }
            let mut entry = match crate::json::find_key(&cols, col_name) {
                Some(k) => {
                    assert(c1[k as int] == (cols@[k as int].0@, jview(cols@[k as int].1)));
                    cols[k].1.duplicate()
                },
                None => JsonValue::Null,
            };
            assert(entries_get(c1, col_name@) is Some);
            assert(entry@ == entries_get(c1, col_name@)->0);
            proof {
                if entries_get(c0, col_name@) is Some {
                    assert(c1 == c0);
                    assert(vget(idx0, "collections"@) == Some(JsonView::Object(c0)));
                } else {
                    assert(entry@ == fresh_v);
                }
            }
            add_file_to_entry(&mut entry, filename.as_str());
            entries_insert(&mut cols, owned(col_name), entry);
            set_member_exec(index, owned("collections"), JsonValue::Object(cols));
        },
        None => {},
    }
}

/// Copies of object entries.
fn copy_entries(es: &Vec<(String, JsonValue)>) -> (r: Vec<(String, JsonValue)>)
    ensures
        jview_entries(r@) == jview_entries(es@),
{
    let mut out: Vec<(String, JsonValue)> = Vec::new();
    let mut i: usize = 0;
    while i < es.len()
        invariant
            i <= es@.len(),
            out@.len() == i,
            forall|j: int| 0 <= j < i ==> (#[trigger] out@[j]).0@ == es@[j].0@ && out@[j].1@ == es@[j].1@,
        decreases es@.len() - i,
    {
        out.push((es[i].0.clone(), es[i].1.duplicate()));
        i = i + 1;
    }
    proof {
        lemma_jview_entries(out@);
        lemma_jview_entries(es@);
        assert(jview_entries(out@) =~= jview_entries(es@));
    }
    out
}

/// The items without those that name the file `f`, and whether any did.
fn remove_file_items(items: &Vec<JsonValue>, f: &str) -> (r: (Vec<JsonValue>, bool))
    ensures
        jview_items(r.0@) == items_without(jview_items(items@), f@, items@.len() as int),
        r.1 == lists_file(jview_items(items@), f@),
{
    proof {
        lemma_jview_items(items@);
    }
    let ghost iv = jview_items(items@);
    let mut out: Vec<JsonValue> = Vec::new();
    proof {
        lemma_jview_items(out@);
        assert(jview_items(out@) =~= Seq::<JsonView>::empty());
    }
    let mut removed = false;
    let mut i: usize = 0;
    while i < items.len()
        invariant
            i <= items@.len(),
            iv == jview_items(items@),
            iv.len() == items@.len(),
            forall|j: int| 0 <= j < items@.len() ==> #[trigger] iv[j] == jview(items@[j]),
            jview_items(out@) == items_without(iv, f@, i as int),
            removed == exists|j: int| 0 <= j < i && member_str(#[trigger] iv[j], "file"@) == Some(f@),
        decreases items@.len() - i,
    {
        let named = match items[i].get("file") {
            Some(x) => match x.as_str() {
                Some(t) => str_eq(t, f),
                None => false,
            },
            None => false,
        };
        assert(named == (member_str(iv[i as int], "file"@) == Some(f@)));
        if named {
            removed = true;
        } else {
            let ghost before = out@;
            out.push(items[i].duplicate());
            proof {
                lemma_jview_items(before);
                lemma_jview_items(out@);
                assert(jview_items(out@) =~= jview_items(before).push(iv[i as int]));
            }
        }
        i = i + 1;
    }
    (out, removed)
}

/// Unlists the document `id` of the collection `col_name` from the index (see
/// `index_without_item`); whether an item was removed, so that the index
/// needs saving.
pub fn remove_item_from_index(index: &mut JsonValue, col_name: &str, id: &str) -> (changed: bool)
    ensures
        final(index)@ == index_without_item(old(index)@, col_name@, id@),
        changed == (listed_items(old(index)@, col_name@) matches Some(items) && lists_file(items, file_name(id@))),
{
    let filename = concat2(id, ".json");
    let ghost idx0 = index@;
    let cols_copy: Option<Vec<(String, JsonValue)>> = match index.get("collections") {
        Some(JsonValue::Object(cols)) => Some(copy_entries(cols)),
        _ => None,
    };
    match cols_copy {
        Some(mut cols) => {
            let ghost c0 = jview_entries(cols@);
            assert(vget(idx0, "collections"@) == Some(JsonView::Object(c0)));
            proof {
                lemma_jview_entries(cols@);
                crate::json::lemma_key_pos(c0, col_name@);
            }
            match crate::json::find_key(&cols, col_name) {
                Some(k) => {
                    assert(c0[k as int] == (cols@[k as int].0@, jview(cols@[k as int].1)));
                    let mut entry = cols[k].1.duplicate();
                    assert(entries_get(c0, col_name@) == Some(entry@));
                    let kept_removed: Option<(Vec<JsonValue>, bool)> = match entry.get("items") {
                        Some(JsonValue::Array(items)) => {
                            proof {
                                lemma_jview_items(items@);
                            }
                            Some(remove_file_items(items, filename.as_str()))
                        },
                        _ => None,
                    };
                    match kept_removed {
                        Some((kept, removed)) => {
                            set_member_exec(&mut entry, owned("items"), JsonValue::Array(kept));
                            entries_insert(&mut cols, owned(col_name), entry);
                            set_member_exec(index, owned("collections"), JsonValue::Object(cols));
                            removed
                        },
                        None => false,
                    }
                },
                None => false,
            }
        },
        None => false,
    }
}

/// Whether the index has the shape that listing a document in `col` relies
/// on: an object or `null`, whose `collections`, when present, is an object,
/// whose entry for the collection, when present, is `null` or an object whose
/// `items`, when present, is an array.
pub open spec fn index_shape_ok(idx: JsonView, col: Seq<char>) -> bool {
    &&& (idx is Object || idx is Null)
    &&& match vget(idx, "collections"@) {
        None => true,
        Some(JsonView::Object(cols)) => match entries_get(cols, col) {
            None => true,
            Some(JsonView::Null) => true,
            Some(JsonView::Object(es)) => match entries_get(es, "items"@) {
                None => true,
                Some(JsonView::Array(_)) => true,
                Some(_) => false,
            },
            Some(_) => false,
        },
        Some(_) => false,
    }
}

/// `vget` of a bound member.
proof fn lemma_get_set_member(v: JsonView, k: Seq<char>, x: JsonView)
    requires
        v is Object || v is Null,
    ensures
        vget(set_member(v, k, x), k) == Some(x),
        forall|k2: Seq<char>| k2 != k ==> #[trigger] vget(set_member(v, k, x), k2) == vget(v, k2),
{
    match v {
        JsonView::Object(es) => {
            crate::json::law_set_then_get(es, k, x);
        },
        _ => {
            crate::json::lemma_key_pos(seq![(k, x)], k);
            assert forall|k2: Seq<char>| k2 != k implies #[trigger] vget(set_member(v, k, x), k2) == vget(v, k2) by {
                crate::json::lemma_key_pos(seq![(k, x)], k2);
                if crate::json::key_pos(seq![(k, x)], k2) >= 0 {
                    assert(seq![(k, x)][crate::json::key_pos(seq![(k, x)], k2)].0 == k2);
                }
            }
        },
    }
}

/// Listing a document in an index of the expected shape makes its collection
/// list the document's file.
pub proof fn law_listed_after_add(idx: JsonView, col: Seq<char>, id: Seq<char>, schema_guess: Seq<char>)
    requires
        index_shape_ok(idx, col),
    ensures
        listed_items(index_with_item(idx, col, id, schema_guess), col) matches Some(items)
            && lists_file(items, file_name(id)),
{
    let f = file_name(id);
    let idx1 = if vget(idx, "collections"@) is None {
        set_member(idx, "collections"@, JsonView::Object(Seq::empty()))
    } else {
        idx
    };
    if vget(idx, "collections"@) is None {
        lemma_get_set_member(idx, "collections"@, JsonView::Object(Seq::empty()));
    }
    let cols = vget(idx1, "collections"@)->0->Object_0;
    let fresh = JsonView::Object(seq![("schema"@, JsonView::Str(schema_guess)), ("items"@, JsonView::Array(Seq::empty()))]);
    let cols1 = if entries_get(cols, col) is None { entries_set(cols, col, fresh) } else { cols };
    if entries_get(cols, col) is None {
        crate::json::law_set_then_get(cols, col, fresh);
        crate::json::law_set_then_get(seq![("schema"@, JsonView::Str(schema_guess))], "items"@, JsonView::Array(Seq::empty()));
        crate::json::lemma_key_pos(seq![("schema"@, JsonView::Str(schema_guess)), ("items"@, JsonView::Array(Seq::empty()))], "items"@);
        assert("schema"@ != "items"@) by {
            reveal_strlit("schema");
            reveal_strlit("items");
            assert("schema"@.len() != "items"@.len());
        }
    }
    let entry = entries_get(cols1, col)->0;
    let e1 = if vget(entry, "items"@) is None { set_member(entry, "items"@, JsonView::Array(Seq::empty())) } else { entry };
    if vget(entry, "items"@) is None {
        lemma_get_set_member(entry, "items"@, JsonView::Array(Seq::empty()));
    }
    let items = vget(e1, "items"@)->0->Array_0;
    let e2 = entry_with_file(entry, f);
    let file_item = JsonView::Object(seq![("file"@, JsonView::Str(f))]);
    if !lists_file(items, f) {
        lemma_get_set_member(e1, "items"@, JsonView::Array(items.push(file_item)));
        crate::json::lemma_key_pos(seq![("file"@, JsonView::Str(f))], "file"@);
        assert(member_str(items.push(file_item)[items.len() as int], "file"@) == Some(f));
    }
    assert(vget(e2, "items"@) matches Some(JsonView::Array(l)) && lists_file(l, f));
    crate::json::law_set_then_get(cols1, col, e2);
    lemma_get_set_member(idx1, "collections"@, JsonView::Object(entries_set(cols1, col, e2)));
}

/// Unlisting a document leaves no item of its collection naming its file.
pub proof fn law_unlisted_after_remove(idx: JsonView, col: Seq<char>, id: Seq<char>)
    ensures
        listed_items(index_without_item(idx, col, id), col) matches Some(items) ==> !lists_file(items, file_name(id)),
{
    let f = file_name(id);
    match vget(idx, "collections"@) {
        Some(JsonView::Object(cols)) => match entries_get(cols, col) {
            Some(entry) => match vget(entry, "items"@) {
                Some(JsonView::Array(items)) => {
                    let kept = items_without(items, f, items.len() as int);
                    lemma_items_without(items, f, items.len() as int);
                    let e2 = set_member(entry, "items"@, JsonView::Array(kept));
                    lemma_get_set_member(entry, "items"@, JsonView::Array(kept));
                    crate::json::law_set_then_get(cols, col, e2);
                    lemma_get_set_member(idx, "collections"@, JsonView::Object(entries_set(cols, col, e2)));
                },
                _ => {},
            },
            None => {},
        },
        _ => {},
    }
}

/// No item kept names the file removed.
proof fn lemma_items_without(items: Seq<JsonView>, f: Seq<char>, k: int)
    requires
        0 <= k <= items.len(),
    ensures
        !lists_file(items_without(items, f, k), f),
    decreases k,
{
    if k > 0 {
        lemma_items_without(items, f, k - 1);
        let p = items_without(items, f, k - 1);
        if member_str(items[k - 1], "file"@) != Some(f) {
            assert forall|i: int| 0 <= i < p.len() + 1 implies member_str(#[trigger] p.push(items[k - 1])[i], "file"@) != Some(f) by {
                if i < p.len() {
                    assert(p.push(items[k - 1])[i] == p[i]);
                }
            }
        }
    }
}

/// Binding a key to the value it already has changes nothing.
proof fn lemma_set_same(es: Seq<(Seq<char>, JsonView)>, k: Seq<char>, v: JsonView)
    requires
        entries_get(es, k) == Some(v),
    ensures
        entries_set(es, k, v) == es,
{
    crate::json::lemma_key_pos(es, k);
    let i = crate::json::key_pos(es, k);
    assert(es[i] == (k, v));
    assert(entries_set(es, k, v) =~= es);
}

/// Binding a member of an object to the value it already has changes nothing.
proof fn lemma_set_member_same(o: JsonView, k: Seq<char>, v: JsonView)
    requires
        o is Object,
        vget(o, k) == Some(v),
    ensures
        set_member(o, k, v) == o,
{
    lemma_set_same(o->Object_0, k, v);
}

/// Listing a document that an index of the expected shape already lists
/// changes nothing: listing is idempotent.
pub proof fn law_add_is_idempotent(idx: JsonView, col: Seq<char>, id: Seq<char>, g1: Seq<char>, g2: Seq<char>)
    requires
        index_shape_ok(idx, col),
    ensures
        index_with_item(index_with_item(idx, col, id, g1), col, id, g2) == index_with_item(idx, col, id, g1),
{
    let once = index_with_item(idx, col, id, g1);
    law_listed_after_add(idx, col, id, g1);
    let f = file_name(id);
    // the first listing leaves an object index whose collections hold an object entry for `col`
    let idx1 = if vget(idx, "collections"@) is None {
        set_member(idx, "collections"@, JsonView::Object(Seq::empty()))
    } else {
        idx
    };
    if vget(idx, "collections"@) is None {
        lemma_get_set_member(idx, "collections"@, JsonView::Object(Seq::empty()));
    }
    assert(idx1 is Object);
    let cols = vget(idx1, "collections"@)->0->Object_0;
    let fresh = JsonView::Object(seq![("schema"@, JsonView::Str(g1)), ("items"@, JsonView::Array(Seq::empty()))]);
    let cols1 = if entries_get(cols, col) is None { entries_set(cols, col, fresh) } else { cols };
    if entries_get(cols, col) is None {
        crate::json::law_set_then_get(cols, col, fresh);
    }
    let entry = entries_get(cols1, col)->0;
    let e2 = entry_with_file(entry, f);
    assert(e2 is Object) by {
        if vget(entry, "items"@) is None {
            lemma_get_set_member(entry, "items"@, JsonView::Array(Seq::empty()));
        }
    }
    let cols2 = entries_set(cols1, col, e2);
    crate::json::law_set_then_get(cols1, col, e2);
    lemma_get_set_member(idx1, "collections"@, JsonView::Object(cols2));
    assert(once == set_member(idx1, "collections"@, JsonView::Object(cols2)));
    assert(vget(once, "collections"@) == Some(JsonView::Object(cols2)));
    assert(entries_get(cols2, col) == Some(e2));
    let items = vget(e2, "items"@)->0->Array_0;
    assert(vget(e2, "items"@) == Some(JsonView::Array(items)));
    assert(lists_file(items, f));
    // the second listing finds everything in place
    assert(entry_with_file(e2, f) == e2);
    lemma_set_same(cols2, col, e2);
    lemma_set_member_same(once, "collections"@, JsonView::Object(cols2));
}

} // verus!
