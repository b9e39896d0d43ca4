//! The decisions of the document collections manager: smart links between
//! documents, deep merging of documents, the guard on system indexes, and the
//! semantic hooks applied to a document before it is stored.
use vstd::prelude::*;
use vstd::string::*;
use crate::json::{
    JsonValue, JsonView, entries_get, entries_insert, entries_set, find_key, jview, jview_entries,
    jview_items, lemma_jview_entries, lemma_jview_items, member_str, vget, vstr,
};
use crate::json_text::{hex_char, json_text, to_json_text};
use crate::text::{
    chars_of, concat3, contains, has_infix, has_prefix, has_suffix, ends_with, owned, splitn_char,
    splitn_spec, lemma_splitn_piece, split_once_char, split_once_spec, starts_with, str_eq, string_of_range, texts_of,
};

use crate::vocabulary::get_str_opt;
use crate::transform::{now_rfc3339, rfc3339_utc_text};

verus! {

/// How a document is designated: by identifier or by name.
pub enum EntityIdentity {
    Id(String),
    Name(String),
}

/// A link to a document, written in a document's field.
#[derive(Debug)]
pub enum SmartLink {
    /// `ref:collection:field:value`, in the same database.
    Local { col: String, field: String, val: String },
    /// `db://space/db/collection/field/value`.
    Absolute { space: String, db: String, col: String, field: String, val: String },
}

/// The content of a smart link.
pub enum SmartLinkV {
    Local { col: Seq<char>, field: Seq<char>, val: Seq<char> },
    Absolute { space: Seq<char>, db: Seq<char>, col: Seq<char>, field: Seq<char>, val: Seq<char> },
}

impl View for SmartLink {
    type V = SmartLinkV;

    open spec fn view(&self) -> SmartLinkV {
        match self {
            SmartLink::Local { col, field, val } => SmartLinkV::Local {
                col: col@,
                field: field@,
                val: val@,
            },
            SmartLink::Absolute { space, db, col, field, val } => SmartLinkV::Absolute {
                space: space@,
                db: db@,
                col: col@,
                field: field@,
                val: val@,
            },
        }
    }
}

/// A `db://` URI of a factory asset (schema, ontology, context), which is not
/// a document link.
pub open spec fn is_asset_uri(s: Seq<char>) -> bool {
    has_infix(s, "/schemas/"@) || has_infix(s, "/ontologies/"@) || has_infix(s, "/ontology/"@)
        || has_infix(s, "/@context/"@)
}

/// The link written as `s`: `ref:` followed by exactly three `:`-separated
/// parts (the last one may hold `:`), or `db://` followed by exactly five
/// `/`-separated parts (the last one may hold `/`) when the URI is not an asset.
pub open spec fn smart_link_spec(s: Seq<char>) -> Option<SmartLinkV> {
    if has_prefix(s, "ref:"@) {
        let parts = splitn_spec(s, ':', 4);
        if parts.len() == 4 {
            Some(SmartLinkV::Local { col: parts[1], field: parts[2], val: parts[3] })
        } else {
            None
        }
    } else if has_prefix(s, "db://"@) {
        if is_asset_uri(s) {
            None
        } else {
            let parts = splitn_spec(s.subrange(5, s.len() as int), '/', 5);
            if parts.len() == 5 {
                Some(
                    SmartLinkV::Absolute {
                        space: parts[0],
                        db: parts[1],
                        col: parts[2],
                        field: parts[3],
                        val: parts[4],
                    },
                )
            } else {
                None
            }
        }
    } else {
        None
    }
}

/// A local link written `ref:col:field:val` reads back as that link, whatever
/// `val` holds, when neither `col` nor `field` holds a `:`.
pub proof fn law_local_link_reads_back(col: Seq<char>, field: Seq<char>, val: Seq<char>)
    requires
        !col.contains(':'),
        !field.contains(':'),
    ensures
        smart_link_spec("ref:"@ + col + ":"@ + field + ":"@ + val) == Some(SmartLinkV::Local { col, field, val }),
{
    reveal_strlit("ref:");
    reveal_strlit(":");
    let s = "ref:"@ + col + ":"@ + field + ":"@ + val;
    let r = seq!['r', 'e', 'f'];
    assert(s =~= r + seq![':'] + (col + seq![':'] + (field + seq![':'] + val)));
    assert(!r.contains(':')) by {
        assert(r[0] != ':' && r[1] != ':' && r[2] != ':');
    }
    lemma_splitn_piece(r, ':', col + seq![':'] + (field + seq![':'] + val), 4);
    lemma_splitn_piece(col, ':', field + seq![':'] + val, 3);
    lemma_splitn_piece(field, ':', val, 2);
    assert(s.subrange(0, 4) =~= "ref:"@);
    assert(splitn_spec(s, ':', 4) =~= seq![r, col, field, val]);
}

/// An absolute link written `db://space/db/col/field/val` reads back as that
/// link, whatever `val` holds, when none of the first four parts holds a `/`
/// and the text is not the URI of a factory asset.
pub proof fn law_absolute_link_reads_back(
    space: Seq<char>,
    db: Seq<char>,
    col: Seq<char>,
    field: Seq<char>,
    val: Seq<char>,
)
    requires
        !space.contains('/'),
        !db.contains('/'),
        !col.contains('/'),
        !field.contains('/'),
        !is_asset_uri("db://"@ + space + "/"@ + db + "/"@ + col + "/"@ + field + "/"@ + val),
    ensures
        smart_link_spec("db://"@ + space + "/"@ + db + "/"@ + col + "/"@ + field + "/"@ + val) == Some(
            SmartLinkV::Absolute { space, db, col, field, val },
        ),
{
    reveal_strlit("db://");
    reveal_strlit("/");
    reveal_strlit("ref:");
    let s = "db://"@ + space + "/"@ + db + "/"@ + col + "/"@ + field + "/"@ + val;
    let rest = space + seq!['/'] + (db + seq!['/'] + (col + seq!['/'] + (field + seq!['/'] + val)));
    assert(s =~= "db://"@ + rest);
    assert(s.subrange(0, 5) =~= "db://"@);
    assert(s.subrange(5, s.len() as int) =~= rest);
    assert(s[0] == 'd');
    assert(!has_prefix(s, "ref:"@)) by {
        if has_prefix(s, "ref:"@) {
            assert(s.subrange(0, 4)[0] == s[0]);
        }
    }
    lemma_splitn_piece(space, '/', db + seq!['/'] + (col + seq!['/'] + (field + seq!['/'] + val)), 5);
    lemma_splitn_piece(db, '/', col + seq!['/'] + (field + seq!['/'] + val), 4);
    lemma_splitn_piece(col, '/', field + seq!['/'] + val, 3);
    lemma_splitn_piece(field, '/', val, 2);
    assert(splitn_spec(rest, '/', 5) =~= seq![space, db, col, field, val]);
}

/// Reads a smart link (see `smart_link_spec`).
pub fn parse_smart_link(s: &str) -> (r: Option<SmartLink>)
    ensures
        match r {
            Some(l) => smart_link_spec(s@) == Some(l@),
            None => smart_link_spec(s@) is None,
        },
{
    if starts_with(s, "ref:") {
        let parts = splitn_char(s, ':', 4);
        if parts.len() == 4 {
            Some(
                SmartLink::Local {
                    col: parts[1].clone(),
                    field: parts[2].clone(),
                    val: parts[3].clone(),
                },
            )
        } else {
            None
        }
    } else if starts_with(s, "db://") {
        if contains(s, "/schemas/") || contains(s, "/ontologies/") || contains(s, "/ontology/")
            || contains(s, "/@context/") {
            return None;
        }
        proof {
            reveal_strlit("db://");
        }
        let cs = chars_of(s);
        let rest = string_of_range(cs.as_slice(), 5, cs.len());
        let parts = splitn_char(rest.as_str(), '/', 5);
        if parts.len() == 5 {
            Some(
                SmartLink::Absolute {
                    space: parts[0].clone(),
                    db: parts[1].clone(),
                    col: parts[2].clone(),
                    field: parts[3].clone(),
                    val: parts[4].clone(),
                },
            )
        } else {
            None
        }
    } else {
        None
    }
}

// ---------------------------------------------------------------------------
// Deep merge
// ---------------------------------------------------------------------------

/// `b` merged into `a`: two objects merge member by member (a missing member
/// starts as `null`); anything else is replaced by `b`.
pub open spec fn merge_spec(a: JsonView, b: JsonView) -> JsonView
    decreases b, 1nat,
{
    match (a, b) {
        (JsonView::Object(ae), JsonView::Object(be)) => JsonView::Object(merge_entries(ae, be)),
        _ => b,
    }
}

/// The entries `ae` with each entry of `be` merged in, in order.
pub open spec fn merge_entries(ae: Seq<(Seq<char>, JsonView)>, be: Seq<(Seq<char>, JsonView)>) -> Seq<
    (Seq<char>, JsonView),
>
    decreases be, 0nat,
{
    if be.len() == 0 {
        ae
    } else {
        let prev = merge_entries(ae, be.subrange(0, be.len() - 1));
        let k = be[be.len() - 1].0;
        let current = match entries_get(prev, k) {
            Some(v) => v,
            None => JsonView::Null,
        };
        entries_set(prev, k, merge_spec(current, be[be.len() - 1].1))
    }
}

/// Merges `b` into `a` (see `merge_spec`).
pub fn json_merge(a: &mut JsonValue, b: JsonValue)
    ensures
        final(a)@ == merge_spec(old(a)@, b@),
    decreases b@, 1nat,
{
    match b {
        JsonValue::Object(be) => {
            match a {
                JsonValue::Object(ae) => {
                    merge_into_entries(ae, be);
                },
                _ => {
                    *a = JsonValue::Object(be);
                },
            }
        },
        other => {
            *a = other;
        },
    }
}

/// Merges each entry of `be` into the entries `ae`.
fn merge_into_entries(ae: &mut Vec<(String, JsonValue)>, be: Vec<(String, JsonValue)>)
    ensures
        jview_entries(final(ae)@) == merge_entries(jview_entries(old(ae)@), jview_entries(be@)),
    decreases JsonView::Object(jview_entries(be@)), 0nat,
{
    let ghost bv = jview_entries(be@);
    let ghost a0 = jview_entries(ae@);
    proof {
        lemma_jview_entries(be@);
        assert(bv.subrange(0, 0) =~= Seq::<(Seq<char>, JsonView)>::empty());
    }
    let mut i: usize = 0;
    while i < be.len()
        invariant
            i <= be@.len(),
            bv == jview_entries(be@),
            bv.len() == be@.len(),
            forall|j: int| 0 <= j < be@.len() ==> #[trigger] bv[j] == (be@[j].0@, be@[j].1@),
            jview_entries(ae@) == merge_entries(a0, bv.subrange(0, i as int)),
        decreases be@.len() - i,
    {
        let key = be[i].0.clone();
        let mut current = match find_key(ae, key.as_str()) {
            Some(p) => ae[p].1.duplicate(),
            None => JsonValue::Null,
        };
        proof {
            lemma_jview_entries(ae@);
            assert(bv.subrange(0, i as int + 1).subrange(0, i as int) =~= bv.subrange(0, i as int));
            let whole = JsonView::Object(bv);
            assert(whole->Object_0 == bv);
            assert(decreases_to!(whole => whole->Object_0));
            assert(decreases_to!(bv => bv[i as int]));
            assert(decreases_to!(bv[i as int] => bv[i as int].1));
        }
        json_merge(&mut current, be[i].1.duplicate());
        entries_insert(ae, key, current);
        i = i + 1;
    }
    assert(bv.subrange(0, be@.len() as int) =~= bv);
}

// ---------------------------------------------------------------------------
// System indexes
// ---------------------------------------------------------------------------

/// Why the manager refused an operation.
#[derive(Clone, Debug)]
pub enum ManagerError {
    /// The system index has no `$schema`.
    MissingIndexSchema,
    /// The system index declares a schema that is not an index schema.
    SecurityViolation(String),
    /// No schema is defined for a document of the collection, so it is not
    /// inserted.
    StrictSchemaRequired(String),
}

/// A schema URI allowed for a system index: under `/schemas/v1/` or
/// `/schemas/v2/`, and mentioning `/index`.
pub open spec fn is_index_schema(uri: Seq<char>) -> bool {
    (has_infix(uri, "/schemas/v1/"@) && has_infix(uri, "/index"@)) || (has_infix(
        uri,
        "/schemas/v2/"@,
    ) && has_infix(uri, "/index"@))
}

/// The schema URI of a system index document, refused when it is missing or
/// is not an index schema.
pub fn check_system_index_schema(doc: &JsonValue) -> (r: Result<String, ManagerError>)
    ensures
        match member_str(doc@, "$schema"@) {
            None => r matches Err(ManagerError::MissingIndexSchema),
            Some(uri) => if is_index_schema(uri) {
                r matches Ok(u) && u@ == uri
            } else {
                r matches Err(ManagerError::SecurityViolation(u)) && u@ == uri
            },
        },
{
    let uri = match doc.get("$schema") {
        Some(v) => match v.as_str() {
            Some(u) => u,
            None => {
                return Err(ManagerError::MissingIndexSchema);
            },
        },
        None => {
            return Err(ManagerError::MissingIndexSchema);
        },
    };
    let v1 = contains(uri, "/schemas/v1/") && contains(uri, "/index");
    let v2 = contains(uri, "/schemas/v2/") && contains(uri, "/index");
    if !v1 && !v2 {
        return Err(ManagerError::SecurityViolation(owned(uri)));
    }
    Ok(owned(uri))
}

// ---------------------------------------------------------------------------
// Semantic hooks
// ---------------------------------------------------------------------------

/// The primary type of a document: its `@type` string, or the first item of its
/// `@type` array when that is a string.
pub open spec fn primary_type(doc: JsonView) -> Option<Seq<char>> {
    match vget(doc, "@type"@) {
        Some(JsonView::Str(t)) => Some(t),
        Some(JsonView::Array(items)) => if items.len() > 0 {
            vstr(items[0])
        } else {
            None
        },
        _ => None,
    }
}

/// The ontology prefix a document declares through its primary type
/// (`raise` in `raise:User`); `http` and `urn` are schemes, not prefixes.
pub open spec fn semantic_prefix_spec(doc: JsonView) -> Option<Seq<char>> {
    match primary_type(doc) {
        Some(t) => match split_once_spec(t, ':') {
            Some(parts) => if parts.0 != "http"@ && parts.0 != "urn"@ {
                Some(parts.0)
            } else {
                None
            },
            None => None,
        },
        None => None,
    }
}

/// The ontology prefix a document declares (see `semantic_prefix_spec`).
pub fn semantic_prefix(doc: &JsonValue) -> (r: Option<String>)
    ensures
        match r {
            Some(p) => semantic_prefix_spec(doc@) == Some(p@),
            None => semantic_prefix_spec(doc@) is None,
        },
{
    let t = match doc.get("@type") {
        Some(t) => t,
        None => {
            return None;
        },
    };
    let primary: &str = match t.as_str() {
        Some(s) => s,
        None => match t.as_array() {
            Some(items) => {
                proof {
                    lemma_jview_items(items@);
                }
                if items.len() > 0 {
                    match items[0].as_str() {
                        Some(s) => s,
                        None => {
                            return None;
                        },
                    }
                } else {
                    return None;
                }
            },
            None => {
                return None;
            },
        },
    };
    match split_once_char(primary, ':') {
        Some(parts) => {
            if !str_eq(parts.0.as_str(), "http") && !str_eq(parts.0.as_str(), "urn") {
                Some(parts.0)
            } else {
                None
            }
        },
        None => None,
    }
}

/// The handles under which the ontology of `prefix` is searched when the index
/// does not name it: `onto-{prefix}-core`, then `ontology_{prefix}`.
pub fn ontology_handles(prefix: &str) -> (r: (String, String))
    ensures
        r.0@ == "onto-"@ + prefix@ + "-core"@,
        r.1@ == "ontology_"@ + prefix@,
{
    let first = concat3("onto-", prefix, "-core");
    let second = crate::text::concat2("ontology_", prefix);
    (first, second)
}

/// The smart link to the ontology of `prefix` recorded in a system index
/// (`ontologies.{prefix}.uri`), when it is an absolute link.
pub fn ontology_link_from_index(index: &JsonValue, prefix: &str) -> (r: Option<SmartLink>)
    ensures
        match r {
            Some(l) => l@ is Absolute && ({
                let entry = vget(index@, "ontologies"@);
                entry matches Some(o) && vget(o, prefix@) matches Some(p) && member_str(p, "uri"@)
                    matches Some(u) && smart_link_spec(u) == Some(l@)
            }),
            None => !({
                let entry = vget(index@, "ontologies"@);
                entry matches Some(o) && vget(o, prefix@) matches Some(p) && member_str(p, "uri"@)
                    matches Some(u) && smart_link_spec(u) matches Some(SmartLinkV::Absolute { .. })
            }),
        },
{
    let o = match index.get("ontologies") {
        Some(o) => o,
        None => {
            return None;
        },
    };
    let p = match o.get(prefix) {
        Some(p) => p,
        None => {
            return None;
        },
    };
    let u = match p.get("uri") {
        Some(u) => match u.as_str() {
            Some(u) => u,
            None => {
                return None;
            },
        },
        None => {
            return None;
        },
    };
    match parse_smart_link(u) {
        Some(l) => match l {
            SmartLink::Absolute { .. } => Some(l),
            SmartLink::Local { .. } => None,
        },
        None => None,
    }
}

/// The document with `@context` set to `ctx` when it is an object without one;
/// otherwise unchanged.
pub fn inject_context(doc: &mut JsonValue, ctx: &JsonValue)
    ensures
        match old(doc)@ {
            JsonView::Object(es) => if entries_get(es, "@context"@) is None {
                final(doc)@ == JsonView::Object(entries_set(es, "@context"@, ctx@))
            } else {
                final(doc)@ == old(doc)@
            },
            _ => final(doc)@ == old(doc)@,
        },
{
    if doc.is_object() && doc.get("@context").is_none() {
        doc.insert(owned("@context"), ctx.duplicate());
    }
}

/// The schema URI a document is validated with: the collection's declared
/// schema, else the one recorded in the system index, else the document's own
/// `$schema`; empty texts count as absent.
pub open spec fn chosen_schema(
    declared: Option<Seq<char>>,
    indexed: Option<Seq<char>>,
    doc: JsonView,
) -> Option<Seq<char>> {
    if declared matches Some(d) && d.len() > 0 {
        declared
    } else if indexed matches Some(i) && i.len() > 0 {
        indexed
    } else {
        match member_str(doc, "$schema"@) {
            Some(s) => if s.len() > 0 {
                Some(s)
            } else {
                None
            },
            None => None,
        }
    }
}

/// The text of an optional string.
pub open spec fn opt_view(o: Option<String>) -> Option<Seq<char>> {
    match o {
        Some(s) => Some(s@),
        None => None,
    }
}

/// The schema a document is inserted under (see `chosen_schema`), written
/// into the document as its `$schema` when it is an object. A document of
/// `collection` for which no schema is defined is refused, and left as it was.
pub fn require_document_schema(
    collection: &str,
    declared: Option<String>,
    indexed: Option<String>,
    doc: &mut JsonValue,
) -> (r: Result<String, ManagerError>)
    ensures
        match chosen_schema(opt_view(declared), opt_view(indexed), old(doc)@) {
            None => r matches Err(ManagerError::StrictSchemaRequired(c)) && c@ == collection@ && final(doc)@
                == old(doc)@,
            Some(u) => r matches Ok(x) && x@ == u && final(doc)@ == match old(doc)@ {
                JsonView::Object(es) => JsonView::Object(entries_set(es, "$schema"@, JsonView::Str(u))),
                other => other,
            },
        },
{
    match choose_schema_uri(declared, indexed, doc) {
        Some(uri) => {
            doc.insert(owned("$schema"), JsonValue::String(uri.clone()));
            Ok(uri)
        },
        None => Err(ManagerError::StrictSchemaRequired(owned(collection))),
    }
}

/// Chooses the schema URI of a document (see `chosen_schema`).
pub fn choose_schema_uri(declared: Option<String>, indexed: Option<String>, doc: &JsonValue) -> (r: Option<String>)
    ensures
        opt_view(r) == chosen_schema(opt_view(declared), opt_view(indexed), doc@),
{
    match declared {
        Some(d) => if d.as_str().unicode_len() > 0 {
            return Some(d);
        },
        None => {},
    }
    match indexed {
        Some(i) => if i.as_str().unicode_len() > 0 {
            return Some(i);
        },
        None => {},
    }
    match doc.get("$schema") {
        Some(v) => match v.as_str() {
            Some(s) => if s.unicode_len() > 0 {
                Some(owned(s))
            } else {
                None
            },
            None => None,
        },
        None => None,
    }
}

/// A property schema whose `$ref` (or whose items' `$ref`) ends with `_id`
/// holds references to documents.
pub open spec fn is_reference_schema(v: JsonView) -> bool {
    (match member_str(v, "$ref"@) {
        Some(r) => has_suffix(r, "_id"@),
        None => false,
    }) || (match vget(v, "items"@) {
        Some(items) => match member_str(items, "$ref"@) {
            Some(r) => has_suffix(r, "_id"@),
            None => false,
        },
        None => false,
    })
}

/// The keys of the schema properties that hold references, in order.
pub open spec fn reference_keys_spec(props: Seq<(Seq<char>, JsonView)>) -> Seq<Seq<char>>
    decreases props.len(),
{
    if props.len() == 0 {
        Seq::empty()
    } else {
        let prev = reference_keys_spec(props.drop_last());
        if is_reference_schema(props.last().1) {
            prev.push(props.last().0)
        } else {
            prev
        }
    }
}

/// The keys of a schema's properties that hold references to documents.
pub fn reference_keys(schema: &JsonValue) -> (r: Vec<String>)
    ensures
        texts_of(r@) == reference_keys_spec(match vget(schema@, "properties"@) {
            Some(JsonView::Object(es)) => es,
            _ => Seq::empty(),
        }),
{
    let mut out: Vec<String> = Vec::new();
    let props = match schema.get("properties") {
        Some(p) => match p.as_object() {
            Some(es) => es,
            None => {
                assert(texts_of(out@) =~= Seq::<Seq<char>>::empty());
                return out;
            },
        },
        None => {
            assert(texts_of(out@) =~= Seq::<Seq<char>>::empty());
            return out;
        },
    };
    let ghost pv = jview_entries(props@);
    proof {
        lemma_jview_entries(props@);
        assert(pv.take(0) =~= Seq::<(Seq<char>, JsonView)>::empty());
        assert(texts_of(out@) =~= Seq::<Seq<char>>::empty());
    }
    let mut i: usize = 0;
    while i < props.len()
        invariant
            i <= props@.len(),
            pv == jview_entries(props@),
            pv.len() == props@.len(),
            forall|j: int| 0 <= j < props@.len() ==> #[trigger] pv[j] == (props@[j].0@, props@[j].1@),
            texts_of(out@) == reference_keys_spec(pv.take(i as int)),
        decreases props@.len() - i,
    {
        assert(pv.take(i as int + 1).drop_last() =~= pv.take(i as int));
        assert(pv.take(i as int + 1).last() == pv[i as int]);
        let v = &props[i].1;
        let direct = match v.get("$ref") {
            Some(r) => match r.as_str() {
                Some(rs) => ends_with(rs, "_id"),
                None => false,
            },
            None => false,
        };
        let nested = match v.get("items") {
            Some(items) => match items.get("$ref") {
                Some(r) => match r.as_str() {
                    Some(rs) => ends_with(rs, "_id"),
                    None => false,
                },
                None => false,
            },
            None => false,
        };
        if direct || nested {
            let ghost before = texts_of(out@);
            out.push(props[i].0.clone());
            assert(texts_of(out@) =~= before.push(props@[i as int].0@));
        }
        i = i + 1;
    }
    assert(pv.take(props@.len() as int) =~= pv);
    out
}

/// Whether the member `key` of a document is resolved as a reference: one of
/// the schema's reference keys when it declares any, else any key that does
/// not start with `@` or `_`.
pub open spec fn resolves_key(key: Seq<char>, ref_keys: Seq<Seq<char>>) -> bool {
    if ref_keys.len() > 0 {
        ref_keys.contains(key)
    } else {
        !has_prefix(key, "@"@) && !has_prefix(key, "_"@)
    }
}

/// Whether the member `key` is resolved as a reference (see `resolves_key`).
pub fn should_resolve_key(key: &str, ref_keys: &Vec<String>) -> (b: bool)
    ensures
        b == resolves_key(key@, texts_of(ref_keys@)),
{
    if ref_keys.len() > 0 {
        crate::vocabulary::contains_text(ref_keys, key)
    } else {
        !starts_with(key, "@") && !starts_with(key, "_")
    }
}

/// The database that a catalog entry declares, as its handle and the
/// identifier of its domain: none when the entry is inactive or lacks either.
pub open spec fn catalog_entry(d: JsonView) -> Option<(Seq<char>, Seq<char>)> {
    if member_str(d, "status"@) == Some("inactive"@) {
        None
    } else {
        match (member_str(d, "handle"@), member_str(d, "domain_id"@)) {
            (Some(h), Some(i)) => Some((h, i)),
            _ => None,
        }
    }
}

/// The databases that the first `k` catalog entries declare, in order.
pub open spec fn catalog_entries(ds: Seq<JsonView>, k: int) -> Seq<(Seq<char>, Seq<char>)>
    decreases k,
{
    if k <= 0 || k > ds.len() {
        Seq::empty()
    } else {
        let p = catalog_entries(ds, k - 1);
        match catalog_entry(ds[k - 1]) {
            Some(e) => p.push(e),
            None => p,
        }
    }
}

/// Pairs of strings as pairs of texts.
pub open spec fn text_pairs(v: Seq<(String, String)>) -> Seq<(Seq<char>, Seq<char>)> {
    v.map_values(|p: (String, String)| (p.0@, p.1@))
}

/// The databases to search for a document across the node: the active
/// entries of the catalog, as handle and domain identifier (see
/// `catalog_entry`).
pub fn active_databases(databases: &Vec<JsonValue>) -> (r: Vec<(String, String)>)
    ensures
        text_pairs(r@) == catalog_entries(jview_items(databases@), databases@.len() as int),
{
    let ghost ds = jview_items(databases@);
    proof {
        lemma_jview_items(databases@);
    }
    let mut out: Vec<(String, String)> = Vec::new();
    assert(text_pairs(out@) =~= Seq::<(Seq<char>, Seq<char>)>::empty());
    let mut i: usize = 0;
    while i < databases.len()
        invariant
            i <= databases@.len(),
            ds == jview_items(databases@),
            ds.len() == databases@.len(),
            forall|j: int| 0 <= j < databases@.len() ==> #[trigger] ds[j] == jview(databases@[j]),
            text_pairs(out@) == catalog_entries(ds, i as int),
        decreases databases@.len() - i,
    {
        let d = &databases[i];
        let status = get_str_opt(d, "status");
        let inactive = match &status {
            Some(t) => str_eq(t.as_str(), "inactive"),
            None => false,
        };
        if !inactive {
            match (get_str_opt(d, "handle"), get_str_opt(d, "domain_id")) {
                (Some(h), Some(dom)) => {
                    let ghost before = out@;
                    out.push((h, dom));
                    assert(text_pairs(out@) =~= text_pairs(before).push((out@.last().0@, out@.last().1@)));
                },
                _ => {},
            }
        }
        i = i + 1;
    }
    out
}

/// The collections of one database of a storage space.
pub struct CollectionsManager {
    pub space: String,
    pub db: String,
}

impl CollectionsManager {
    pub fn new(space: &str, db: &str) -> (r: CollectionsManager)
        ensures
            r.space@ == space@,
            r.db@ == db@,
    {
        CollectionsManager { space: owned(space), db: owned(db) }
    }

    /// The checksum of a document: the SHA-256 digest of its compact JSON text,
    /// in lower-case hexadecimal.
    pub fn compute_document_checksum(&self, doc: &JsonValue) -> (r: String)
        ensures
            r@ == hex_text(sha256_of_text(json_text(doc@))),
    {
        let text = to_json_text(doc);
        let digest = sha256_digest(text.as_str());
        hex_encode(&digest)
    }

    /// Stamps a document for replication (see `p2p_stamped`), as coming from
    /// `origin_node`, at the current time read from the clock.
    pub fn stamp_p2p(&self, doc: &mut JsonValue, origin_node: &str)
        ensures
            exists|at: Seq<char>| rfc3339_utc_text(at) && final(doc)@ == p2p_stamped(old(doc)@, origin_node@, at),
    {
        let now = now_rfc3339();
        let ghost at = now@;
        let stamp = match doc.get("_p2p") {
            Some(p) => match p.as_object() {
                Some(_) => p.duplicate(),
                None => {
                    return;
                },
            },
            None => {
                return;
            },
        };
        let stripped = match doc.as_object() {
            Some(es) => JsonValue::Object(entries_without_key(es, "_p2p")),
            None => {
                return;
            },
        };
        let sum = self.compute_document_checksum(&stripped);
        let mut p = stamp;
        p.insert(owned("checksum"), JsonValue::String(sum));
        p.insert(owned("origin_node"), JsonValue::String(owned(origin_node)));
        p.insert(owned("last_sync_at"), JsonValue::String(now));
        doc.insert(owned("_p2p"), p);
        assert(rfc3339_utc_text(at) && doc@ == p2p_stamped(old(doc)@, origin_node@, at));
    }
}

/// The entries without those under `k`.
pub open spec fn entries_without(es: Seq<(Seq<char>, JsonView)>, k: Seq<char>) -> Seq<(Seq<char>, JsonView)>
    decreases es.len(),
{
    if es.len() == 0 {
        Seq::empty()
    } else {
        let p = entries_without(es.drop_last(), k);
        if es.last().0 == k {
            p
        } else {
            p.push(es.last())
        }
    }
}

/// A document object after its replication stamp: when it has a `_p2p`
/// object, that object gets the checksum of the document without `_p2p`, the
/// node it comes from and the time of the stamp; any other document is left
/// as it is.
pub open spec fn p2p_stamped(doc: JsonView, origin: Seq<char>, at: Seq<char>) -> JsonView {
    match doc {
        JsonView::Object(es) => match entries_get(es, "_p2p"@) {
            Some(JsonView::Object(p)) => {
                let sum = hex_text(sha256_of_text(json_text(JsonView::Object(entries_without(es, "_p2p"@)))));
                let p1 = entries_set(p, "checksum"@, JsonView::Str(sum));
                let p2 = entries_set(p1, "origin_node"@, JsonView::Str(origin));
                let p3 = entries_set(p2, "last_sync_at"@, JsonView::Str(at));
                JsonView::Object(entries_set(es, "_p2p"@, JsonView::Object(p3)))
            },
            _ => doc,
        },
        _ => doc,
    }
}

/// Copies of the entries, without those under `k`.
fn entries_without_key(es: &Vec<(String, JsonValue)>, k: &str) -> (r: Vec<(String, JsonValue)>)
    ensures
        jview_entries(r@) == entries_without(jview_entries(es@), k@),
{
    let ghost ev = jview_entries(es@);
    proof {
        lemma_jview_entries(es@);
    }
    let mut out: Vec<(String, JsonValue)> = Vec::new();
    let mut i: usize = 0;
    proof {
        lemma_jview_entries(out@);
        assert(ev.take(0) =~= Seq::<(Seq<char>, JsonView)>::empty());
    }
    while i < es.len()
        invariant
            i <= es@.len(),
            ev == jview_entries(es@),
            ev.len() == es@.len(),
            forall|j: int| 0 <= j < es@.len() ==> #[trigger] ev[j] == (es@[j].0@, es@[j].1@),
            jview_entries(out@) == entries_without(ev.take(i as int), k@),
        decreases es@.len() - i,
    {
        proof {
            assert(ev.take(i as int + 1).drop_last() =~= ev.take(i as int));
            assert(ev.take(i as int + 1).last() == ev[i as int]);
        }
        if !str_eq(es[i].0.as_str(), k) {
            proof {
                lemma_jview_entries(out@);
            }
            let ghost before = jview_entries(out@);
            out.push((es[i].0.clone(), es[i].1.duplicate()));
            proof {
                lemma_jview_entries(out@);
                assert(jview_entries(out@) =~= before.push(ev[i as int]));
            }
        }
        i = i + 1;
    }
    proof {
        assert(ev.take(es@.len() as int) =~= ev);
    }
    out
}

/// The SHA-256 digest of the UTF-8 bytes of a text.
pub uninterp spec fn sha256_of_text(text: Seq<char>) -> Seq<u8>;

/// Two lower-case hexadecimal digits for each byte, in order.
pub open spec fn hex_text(bytes: Seq<u8>) -> Seq<char>
    decreases bytes.len(),
{
    if bytes.len() == 0 {
        Seq::empty()
    } else {
        hex_text(bytes.drop_last()) + seq![
            hex_char((bytes.last() / 16) as int),
            hex_char((bytes.last() % 16) as int),
        ]
    }
}

/// Calls `sha2::Sha256::digest` on the UTF-8 bytes of `text`. The digest is
/// named by `sha256_of_text` and, as SHA-256 defines, is 32 bytes long.
#[verifier::external_body]
fn sha256_digest(text: &str) -> (r: Vec<u8>)
    ensures
        r@ == sha256_of_text(text@),
        r@.len() == 32,
{
    <sha2::Sha256 as sha2::Digest>::digest(text.as_bytes()).to_vec()
}

/// Calls `hex::encode`, which writes each byte as two lower-case hexadecimal
/// digits, high nibble first.
#[verifier::external_body]
fn hex_encode(bytes: &Vec<u8>) -> (r: String)
    ensures
        r@ == hex_text(bytes@),
{
    hex::encode(bytes)
}

} // verus!
