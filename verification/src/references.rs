//! The resolution of smart links in documents: which links a document holds,
//! and the document with each link replaced by the identifier of the document
//! it designates, given what the lookups found.
use vstd::prelude::*;
use crate::collections::{opt_view, parse_smart_link, resolves_key, should_resolve_key, smart_link_spec};
use crate::json::{
    JsonValue, JsonView, entries_get, entries_insert, entries_set, find_key, jview, jview_entries,
    jview_items, lemma_jview_entries, lemma_jview_items,
};
use crate::text::{owned, str_eq, texts_of};

verus! {

/// What the lookups found: each link text with the identifier of the document
/// it designates, or none.
pub open spec fn res_view(v: Seq<(String, Option<String>)>) -> Seq<(Seq<char>, Option<Seq<char>>)> {
    v.map_values(|p: (String, Option<String>)| (p.0@, opt_view(p.1)))
}

/// The identifier found for the link `s`: the first entry for it, from
/// position `i` on; none when no entry names a document.
pub open spec fn resolved_from(res: Seq<(Seq<char>, Option<Seq<char>>)>, s: Seq<char>, i: int) -> Option<Seq<char>>
    decreases res.len() - i,
{
    if i < 0 || i >= res.len() {
        None
    } else if res[i].0 == s {
        res[i].1
    } else {
        resolved_from(res, s, i + 1)
    }
}

/// A value with every string that is a smart link replaced by the identifier
/// found for it; the first link, in document order, with none found is the
/// error.
pub open spec fn resolve_value(v: JsonView, res: Seq<(Seq<char>, Option<Seq<char>>)>) -> Result<JsonView, Seq<char>>
    decreases v, 0int,
{
    match v {
        JsonView::Str(s) => if smart_link_spec(s) is Some {
            match resolved_from(res, s, 0) {
                Some(id) => Ok(JsonView::Str(id)),
                None => Err(s),
            }
        } else {
            Ok(JsonView::Str(s))
        },
        JsonView::Array(xs) => match resolve_items(xs, xs.len() as int, res) {
            Ok(ys) => Ok(JsonView::Array(ys)),
            Err(e) => Err(e),
        },
        JsonView::Object(es) => match resolve_members(es, es.len() as int, res) {
            Ok(fs) => Ok(JsonView::Object(fs)),
            Err(e) => Err(e),
        },
        _ => Ok(v),
    }
}

/// The first `k` items resolved (see `resolve_value`).
pub open spec fn resolve_items(xs: Seq<JsonView>, k: int, res: Seq<(Seq<char>, Option<Seq<char>>)>) -> Result<
    Seq<JsonView>,
    Seq<char>,
>
    decreases xs, k,
{
    if k <= 0 || k > xs.len() {
        Ok(Seq::empty())
    } else {
        match resolve_items(xs, k - 1, res) {
            Err(e) => Err(e),
            Ok(p) => match resolve_value(xs[k - 1], res) {
                Err(e) => Err(e),
                Ok(y) => Ok(p.push(y)),
            },
        }
    }
}

/// The first `k` members with their values resolved (see `resolve_value`).
pub open spec fn resolve_members(es: Seq<(Seq<char>, JsonView)>, k: int, res: Seq<(Seq<char>, Option<Seq<char>>)>) -> Result<
    Seq<(Seq<char>, JsonView)>,
    Seq<char>,
>
    decreases es, k,
{
    if k <= 0 || k > es.len() {
        Ok(Seq::empty())
    } else {
        match resolve_members(es, k - 1, res) {
            Err(e) => Err(e),
            Ok(p) => match resolve_value(es[k - 1].1, res) {
                Err(e) => Err(e),
                Ok(y) => Ok(p.push((es[k - 1].0, y))),
            },
        }
    }
}

/// The strings of a value that are smart links, in document order.
pub open spec fn links_in(v: JsonView) -> Seq<Seq<char>>
    decreases v, 0int,
{
    match v {
        JsonView::Str(s) => if smart_link_spec(s) is Some {
            seq![s]
        } else {
            Seq::empty()
        },
        JsonView::Array(xs) => links_in_items(xs, xs.len() as int),
        JsonView::Object(es) => links_in_members(es, es.len() as int),
        _ => Seq::empty(),
    }
}

/// The smart links of the first `k` items.
pub open spec fn links_in_items(xs: Seq<JsonView>, k: int) -> Seq<Seq<char>>
    decreases xs, k,
{
    if k <= 0 || k > xs.len() {
        Seq::empty()
    } else {
        links_in_items(xs, k - 1) + links_in(xs[k - 1])
    }
}

/// The smart links of the values of the first `k` members.
pub open spec fn links_in_members(es: Seq<(Seq<char>, JsonView)>, k: int) -> Seq<Seq<char>>
    decreases es, k,
{
    if k <= 0 || k > es.len() {
        Seq::empty()
    } else {
        links_in_members(es, k - 1) + links_in(es[k - 1].1)
    }
}

/// Whether a member is document metadata, set aside during resolution.
pub open spec fn is_meta_key(k: Seq<char>) -> bool {
    k == "$schema"@ || k == "@context"@
}

/// The first `k` members of a document without its metadata, the members
/// selected by `ref_keys` (see `resolves_key`) resolved, the others kept.
pub open spec fn resolve_doc_members(
    es: Seq<(Seq<char>, JsonView)>,
    k: int,
    ref_keys: Seq<Seq<char>>,
    res: Seq<(Seq<char>, Option<Seq<char>>)>,
) -> Result<Seq<(Seq<char>, JsonView)>, Seq<char>>
    decreases k,
{
    if k <= 0 || k > es.len() {
        Ok(Seq::empty())
    } else {
        match resolve_doc_members(es, k - 1, ref_keys, res) {
            Err(e) => Err(e),
            Ok(p) => {
                let e = es[k - 1];
                if is_meta_key(e.0) {
                    Ok(p)
                } else if resolves_key(e.0, ref_keys) {
                    match resolve_value(e.1, res) {
                        Err(x) => Err(x),
                        Ok(y) => Ok(p.push((e.0, y))),
                    }
                } else {
                    Ok(p.push(e))
                }
            },
        }
    }
}

/// The members `fs` with the metadata member `k` of `es`, when it has one,
/// bound again.
pub open spec fn reattach(fs: Seq<(Seq<char>, JsonView)>, es: Seq<(Seq<char>, JsonView)>, k: Seq<char>) -> Seq<
    (Seq<char>, JsonView),
> {
    match entries_get(es, k) {
        Some(v) => entries_set(fs, k, v),
        None => fs,
    }
}

/// A document with its references resolved: for an object, the members that
/// `ref_keys` selects are resolved and its `$schema` and `@context` are set
/// aside and bound again after the others; any other value is resolved whole.
pub open spec fn resolve_document(
    d: JsonView,
    ref_keys: Seq<Seq<char>>,
    res: Seq<(Seq<char>, Option<Seq<char>>)>,
) -> Result<JsonView, Seq<char>> {
    match d {
        JsonView::Object(es) => match resolve_doc_members(es, es.len() as int, ref_keys, res) {
            Err(e) => Err(e),
            Ok(fs) => Ok(JsonView::Object(reattach(reattach(fs, es, "$schema"@), es, "@context"@))),
        },
        _ => resolve_value(d, res),
    }
}

/// Once the first `j` items fail, so do the first `k`, with the same error.
proof fn lemma_items_error_stays(xs: Seq<JsonView>, j: int, k: int, res: Seq<(Seq<char>, Option<Seq<char>>)>)
    requires
        1 <= j <= k <= xs.len(),
        resolve_items(xs, j, res) is Err,
    ensures
        resolve_items(xs, k, res) == resolve_items(xs, j, res),
    decreases k - j,
{
    if j < k {
        lemma_items_error_stays(xs, j, k - 1, res);
    }
}

/// Once the first `j` members fail, so do the first `k`, with the same error.
proof fn lemma_members_error_stays(
    es: Seq<(Seq<char>, JsonView)>,
    j: int,
    k: int,
    res: Seq<(Seq<char>, Option<Seq<char>>)>,
)
    requires
        1 <= j <= k <= es.len(),
        resolve_members(es, j, res) is Err,
    ensures
        resolve_members(es, k, res) == resolve_members(es, j, res),
    decreases k - j,
{
    if j < k {
        lemma_members_error_stays(es, j, k - 1, res);
    }
}

/// Once the first `j` members of a document fail, so do the first `k`.
proof fn lemma_doc_error_stays(
    es: Seq<(Seq<char>, JsonView)>,
    j: int,
    k: int,
    ref_keys: Seq<Seq<char>>,
    res: Seq<(Seq<char>, Option<Seq<char>>)>,
)
    requires
        1 <= j <= k <= es.len(),
        resolve_doc_members(es, j, ref_keys, res) is Err,
    ensures
        resolve_doc_members(es, k, ref_keys, res) == resolve_doc_members(es, j, ref_keys, res),
    decreases k - j,
{
    if j < k {
        lemma_doc_error_stays(es, j, k - 1, ref_keys, res);
    }
}

/// The identifier found for the link `s` (see `resolved_from`).
fn lookup_resolved(resolved: &Vec<(String, Option<String>)>, s: &str) -> (r: Option<String>)
    ensures
        opt_view(r) == resolved_from(res_view(resolved@), s@, 0),
{
    let ghost rv = res_view(resolved@);
    let mut i: usize = 0;
    while i < resolved.len()
        invariant
            i <= resolved@.len(),
            rv == res_view(resolved@),
            resolved_from(rv, s@, 0) == resolved_from(rv, s@, i as int),
        decreases resolved@.len() - i,
    {
        assert(rv[i as int] == (resolved@[i as int].0@, opt_view(resolved@[i as int].1)));
        if str_eq(resolved[i].0.as_str(), s) {
            return match &resolved[i].1 {
                Some(id) => Some(id.clone()),
                None => None,
            };
        }
        i = i + 1;
    }
    None
}

/// `data` with every smart link replaced by the identifier found for it in
/// `resolved`; the error is the first link, in document order, with none.
pub fn resolve_refs_recursive(data: &JsonValue, resolved: &Vec<(String, Option<String>)>) -> (r: Result<JsonValue, String>)
    ensures
        match r {
            Ok(x) => resolve_value(data@, res_view(resolved@)) == Ok::<JsonView, Seq<char>>(x@),
            Err(e) => resolve_value(data@, res_view(resolved@)) == Err::<JsonView, Seq<char>>(e@),
        },
    decreases data,
{
    let ghost res = res_view(resolved@);
    match data {
        JsonValue::String(s) => match parse_smart_link(s.as_str()) {
            Some(_) => match lookup_resolved(resolved, s.as_str()) {
                Some(id) => Ok(JsonValue::String(id)),
                None => Err(s.clone()),
            },
            None => Ok(JsonValue::String(s.clone())),
        },
        JsonValue::Array(xs) => {
            proof {
                lemma_jview_items(xs@);
            }
            let ghost vx = jview_items(xs@);
            let mut out: Vec<JsonValue> = Vec::new();
            proof {
                lemma_jview_items(out@);
                assert(jview_items(out@) =~= Seq::<JsonView>::empty());
            }
            let mut i: usize = 0;
            while i < xs.len()
                invariant
                    *data == JsonValue::Array(*xs),
                    res == res_view(resolved@),
                    i <= xs@.len(),
                    vx == jview_items(xs@),
                    vx.len() == xs@.len(),
                    forall|j: int| 0 <= j < xs@.len() ==> #[trigger] vx[j] == jview(xs@[j]),
                    resolve_items(vx, i as int, res) == Ok::<Seq<JsonView>, Seq<char>>(jview_items(out@)),
                decreases xs@.len() - i,
            {
                proof {
                    assert(decreases_to!(*data => (*data)->Array_0));
                    assert(decreases_to!(*xs => xs[i as int]));
                    assert(decreases_to!(*data => xs[i as int]));
                }
                match resolve_refs_recursive(&xs[i], resolved) {
                    Ok(y) => {
                        let ghost before = out@;
                        out.push(y);
                        proof {
                            lemma_jview_items(before);
                            lemma_jview_items(out@);
                            assert(jview_items(out@) =~= jview_items(before).push(y@));
                        }
                    },
                    Err(e) => {
                        proof {
                            lemma_items_error_stays(vx, i + 1, vx.len() as int, res);
                        }
                        return Err(e);
                    },
                }
                i = i + 1;
            }
            Ok(JsonValue::Array(out))
        },
        JsonValue::Object(es) => {
            proof {
                lemma_jview_entries(es@);
            }
            let ghost ve = jview_entries(es@);
            let mut out: Vec<(String, JsonValue)> = Vec::new();
            proof {
                lemma_jview_entries(out@);
                assert(jview_entries(out@) =~= Seq::<(Seq<char>, JsonView)>::empty());
            }
            let mut i: usize = 0;
            while i < es.len()
                invariant
                    *data == JsonValue::Object(*es),
                    res == res_view(resolved@),
                    i <= es@.len(),
                    ve == jview_entries(es@),
                    ve.len() == es@.len(),
                    forall|j: int| 0 <= j < es@.len() ==> #[trigger] ve[j] == (es@[j].0@, jview(es@[j].1)),
                    resolve_members(ve, i as int, res) == Ok::<Seq<(Seq<char>, JsonView)>, Seq<char>>(
                        jview_entries(out@),
                    ),
                decreases es@.len() - i,
            {
                proof {
                    assert(decreases_to!(*data => (*data)->Object_0));
                    assert(decreases_to!(*es => es[i as int]));
                    assert(decreases_to!(es[i as int] => es[i as int].1));
                    assert(decreases_to!(*data => es[i as int].1));
                }
                match resolve_refs_recursive(&es[i].1, resolved) {
                    Ok(y) => {
                        let ghost before = out@;
                        let k = es[i].0.clone();
                        out.push((k, y));
                        proof {
                            lemma_jview_entries(before);
                            lemma_jview_entries(out@);
                            assert(jview_entries(out@) =~= jview_entries(before).push((es@[i as int].0@, y@)));
                        }
                    },
                    Err(e) => {
                        proof {
                            lemma_members_error_stays(ve, i + 1, ve.len() as int, res);
                        }
                        return Err(e);
                    },
                }
                i = i + 1;
            }
            Ok(JsonValue::Object(out))
        },
        _ => Ok(data.duplicate()),
    }
}

/// The strings of `data` that are smart links, in document order: the
/// documents to look up.
pub fn referenced_links(data: &JsonValue) -> (r: Vec<String>)
    ensures
        texts_of(r@) == links_in(data@),
    decreases data,
{
    match data {
        JsonValue::String(s) => {
            let mut out: Vec<String> = Vec::new();
            if parse_smart_link(s.as_str()).is_some() {
                out.push(s.clone());
            }
            assert(texts_of(out@) =~= links_in(data@));
            out
        },
        JsonValue::Array(xs) => {
            proof {
                lemma_jview_items(xs@);
            }
            let ghost vx = jview_items(xs@);
            let mut out: Vec<String> = Vec::new();
            assert(texts_of(out@) =~= Seq::<Seq<char>>::empty());
            let mut i: usize = 0;
            while i < xs.len()
                invariant
                    *data == JsonValue::Array(*xs),
                    i <= xs@.len(),
                    vx == jview_items(xs@),
                    vx.len() == xs@.len(),
                    forall|j: int| 0 <= j < xs@.len() ==> #[trigger] vx[j] == jview(xs@[j]),
                    texts_of(out@) == links_in_items(vx, i as int),
                decreases xs@.len() - i,
            {
                proof {
                    assert(decreases_to!(*data => (*data)->Array_0));
                    assert(decreases_to!(*xs => xs[i as int]));
                    assert(decreases_to!(*data => xs[i as int]));
                }
                let mut more = referenced_links(&xs[i]);
                let ghost before = out@;
                let ghost added = more@;
                out.append(&mut more);
                assert(texts_of(out@) =~= texts_of(before) + texts_of(added));
                i = i + 1;
            }
            out
        },
        JsonValue::Object(es) => {
            proof {
                lemma_jview_entries(es@);
            }
            let ghost ve = jview_entries(es@);
            let mut out: Vec<String> = Vec::new();
            assert(texts_of(out@) =~= Seq::<Seq<char>>::empty());
            let mut i: usize = 0;
            while i < es.len()
                invariant
                    *data == JsonValue::Object(*es),
                    i <= es@.len(),
                    ve == jview_entries(es@),
                    ve.len() == es@.len(),
                    forall|j: int| 0 <= j < es@.len() ==> #[trigger] ve[j] == (es@[j].0@, jview(es@[j].1)),
                    texts_of(out@) == links_in_members(ve, i as int),
                decreases es@.len() - i,
            {
                proof {
                    assert(decreases_to!(*data => (*data)->Object_0));
                    assert(decreases_to!(*es => es[i as int]));
                    assert(decreases_to!(es[i as int] => es[i as int].1));
                    assert(decreases_to!(*data => es[i as int].1));
                }
                let mut more = referenced_links(&es[i].1);
                let ghost before = out@;
                let ghost added = more@;
                out.append(&mut more);
                assert(texts_of(out@) =~= texts_of(before) + texts_of(added));
                i = i + 1;
            }
            out
        },
        _ => {
            let out: Vec<String> = Vec::new();
            assert(texts_of(out@) =~= Seq::<Seq<char>>::empty());
            out
        },
    }
}

/// A document with its references resolved (see `resolve_document`), the
/// members to resolve chosen by the schema's reference keys `ref_keys`.
pub fn resolve_document_references(
    document: &JsonValue,
    ref_keys: &Vec<String>,
    resolved: &Vec<(String, Option<String>)>,
) -> (r: Result<JsonValue, String>)
    ensures
        match r {
            Ok(x) => resolve_document(document@, texts_of(ref_keys@), res_view(resolved@)) == Ok::<
                JsonView,
                Seq<char>,
            >(x@),
            Err(e) => resolve_document(document@, texts_of(ref_keys@), res_view(resolved@)) == Err::<
                JsonView,
                Seq<char>,
            >(e@),
        },
{
    let ghost res = res_view(resolved@);
    let ghost rk = texts_of(ref_keys@);
    match document {
        JsonValue::Object(es) => {
            proof {
                lemma_jview_entries(es@);
            }
            let ghost ve = jview_entries(es@);
            let mut out: Vec<(String, JsonValue)> = Vec::new();
            proof {
                lemma_jview_entries(out@);
                assert(jview_entries(out@) =~= Seq::<(Seq<char>, JsonView)>::empty());
            }
            let mut i: usize = 0;
            while i < es.len()
                invariant
                    *document == JsonValue::Object(*es),
                    res == res_view(resolved@),
                    rk == texts_of(ref_keys@),
                    i <= es@.len(),
                    ve == jview_entries(es@),
                    ve.len() == es@.len(),
                    forall|j: int| 0 <= j < es@.len() ==> #[trigger] ve[j] == (es@[j].0@, jview(es@[j].1)),
                    resolve_doc_members(ve, i as int, rk, res) == Ok::<Seq<(Seq<char>, JsonView)>, Seq<char>>(
                        jview_entries(out@),
                    ),
                decreases es@.len() - i,
            {
                let key = es[i].0.as_str();
                let ghost before = out@;
                proof {
                    lemma_jview_entries(before);
                }
                if str_eq(key, "$schema") || str_eq(key, "@context") {
                } else if should_resolve_key(key, ref_keys) {
                    match resolve_refs_recursive(&es[i].1, resolved) {
                        Ok(y) => {
                            out.push((owned(key), y));
                            proof {
                                lemma_jview_entries(out@);
                                assert(jview_entries(out@) =~= jview_entries(before).push((es@[i as int].0@, y@)));
                            }
                        },
                        Err(e) => {
                            proof {
                                lemma_doc_error_stays(ve, i + 1, ve.len() as int, rk, res);
                            }
                            return Err(e);
                        },
                    }
                } else {
                    out.push((owned(key), es[i].1.duplicate()));
                    proof {
                        lemma_jview_entries(out@);
                        assert(jview_entries(out@) =~= jview_entries(before).push(ve[i as int]));
                    }
                }
                i = i + 1;
            }
            let ghost fs = jview_entries(out@);
            match find_key(es, "$schema") {
                Some(k) => entries_insert(&mut out, owned("$schema"), es[k].1.duplicate()),
                None => {},
            }
            assert(jview_entries(out@) == reattach(fs, ve, "$schema"@));
            let ghost f1 = jview_entries(out@);
            match find_key(es, "@context") {
                Some(k) => entries_insert(&mut out, owned("@context"), es[k].1.duplicate()),
                None => {},
            }
            assert(jview_entries(out@) == reattach(f1, ve, "@context"@));
            Ok(JsonValue::Object(out))
        },
        _ => resolve_refs_recursive(document, resolved),
    }
}

} // verus!
