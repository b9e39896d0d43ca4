//! Loading and ingestion helpers: documents read back as model elements, the
//! schema chosen for an ingested element, the parts of a schema URI, the
//! bootstrap URI prefix, and the code-generation context of a model.
use vstd::prelude::*;
use vstd::string::*;
use crate::collections::CollectionsManager;
use crate::json::{JsonValue, JsonView, entries_get, entries_set, find_key, jview, jview_entries, key_pos,
    lemma_jview_entries, member_str, vget, vstr};
use crate::model::{ArcadiaElement, I18nString, ProjectModel, SlugString, kinds_text};
use crate::schema::{join_components, path_components};
use crate::text::{
    concat2, concat3, has_prefix, index_of, index_of_char, lemma_index_of, occurs_at, owned,
    replace_all, replace_spec, split_char, split_spec, starts_with, str_eq, string_of_range, chars_of,
    find_chars, texts_of,
};
use crate::vocabulary::{context_fold, expand_iri, object_entries};
use crate::kernel::path_join;

verus! {

// ---------------------------------------------------------------------------
// Model loader
// ---------------------------------------------------------------------------

/// The member `a` of a document, else its member `b` (`get(a).or(get(b))`),
/// when that member is a string.
pub open spec fn first_member_str(doc: JsonView, a: Seq<char>, b: Seq<char>) -> Option<Seq<char>> {
    match vget(doc, a) {
        Some(v) => vstr(v),
        None => member_str(doc, b),
    }
}

/// The members kept as properties: all but the identity, name and type members.
pub open spec fn loaded_props(es: Seq<(Seq<char>, JsonView)>) -> Seq<(Seq<char>, JsonView)>
    decreases es.len(),
{
    if es.len() == 0 {
        Seq::empty()
    } else {
        let prev = loaded_props(es.drop_last());
        let k = es.last().0;
        if k == "id"@ || k == "_id"@ || k == "name"@ || k == "type"@ || k == "@type"@ || k
            == "@context"@ {
            prev
        } else {
            entries_set(prev, k, es.last().1)
        }
    }
}

/// The type of a loaded element: its `type` (else `@type`) string, or
/// `Unknown`, expanded through the layer's context when a layer is given.
pub open spec fn loaded_kind(doc: JsonView, layer_context: Option<JsonView>) -> Seq<char> {
    let raw = match first_member_str(doc, "type"@, "@type"@) {
        Some(t) => t,
        None => "Unknown"@,
    };
    match layer_context {
        Some(ctx) => expand_iri(context_fold(Map::empty(), object_entries(ctx)), raw),
        None => raw,
    }
}

/// The reader of stored documents as model elements.
pub struct ModelLoader {
    pub manager: CollectionsManager,
}

impl ModelLoader {
    pub fn new_with_manager(manager: CollectionsManager) -> (r: ModelLoader)
        ensures
            r.manager == manager,
    {
        ModelLoader { manager }
    }

    /// The element a stored document describes: its handle from `_id` (else
    /// `id`, else `unknown`), its name (else `Sans nom`), its type (see
    /// `loaded_kind`), and its other members as properties.
    pub fn json_to_element(&self, doc: &JsonValue, layer_context: Option<&JsonValue>) -> (r: ArcadiaElement)
        ensures
            r.handle@ == match first_member_str(doc@, "_id"@, "id"@) {
                Some(h) => h,
                None => "unknown"@,
            },
            r.name@ == match member_str(doc@, "name"@) {
                Some(n) => n,
                None => "Sans nom"@,
            },
            kinds_text(r) == seq![loaded_kind(doc@, match layer_context {
                Some(c) => Some(c@),
                None => None,
            })],
            r.props() == JsonView::Object(match doc@ {
                JsonView::Object(es) => loaded_props(es),
                _ => Seq::empty(),
            }),
    {
        let handle: &str = match doc.get("_id") {
            Some(v) => match v.as_str() {
                Some(h) => h,
                None => "unknown",
            },
            None => match doc.get("id") {
                Some(v) => match v.as_str() {
                    Some(h) => h,
                    None => "unknown",
                },
                None => "unknown",
            },
        };
        let name: &str = match doc.get("name") {
            Some(v) => match v.as_str() {
                Some(n) => n,
                None => "Sans nom",
            },
            None => "Sans nom",
        };
        let raw: &str = match doc.get("type") {
            Some(v) => match v.as_str() {
                Some(t) => t,
                None => "Unknown",
            },
            None => match doc.get("@type") {
                Some(v) => match v.as_str() {
                    Some(t) => t,
                    None => "Unknown",
                },
                None => "Unknown",
            },
        };
        let kind_text = match layer_context {
            Some(ctx) => expand_with_context(ctx, raw),
            None => owned(raw),
        };
        let mut kind: Vec<String> = Vec::new();
        kind.push(kind_text);
        assert(crate::model::texts(kind@) =~= seq![kind@[0]@]);
        let mut props: Vec<(String, JsonValue)> = Vec::new();
        proof {
            lemma_jview_entries(props@);
            assert(jview_entries(props@) =~= Seq::<(Seq<char>, JsonView)>::empty());
        }
        match doc {
            JsonValue::Object(es) => {
                let ghost ev = jview_entries(es@);
                proof {
                    lemma_jview_entries(es@);
                    assert(ev.take(0) =~= Seq::<(Seq<char>, JsonView)>::empty());
                }
                let mut i: usize = 0;
                while i < es.len()
                    invariant
                        i <= es@.len(),
                        ev == jview_entries(es@),
                        ev.len() == es@.len(),
                        forall|j: int| 0 <= j < es@.len() ==> #[trigger] ev[j] == (es@[j].0@, es@[j].1@),
                        jview_entries(props@) == loaded_props(ev.take(i as int)),
                    decreases es@.len() - i,
                {
                    assert(ev.take(i as int + 1).drop_last() =~= ev.take(i as int));
                    assert(ev.take(i as int + 1).last() == ev[i as int]);
                    let k = es[i].0.as_str();
                    if !(str_eq(k, "id") || str_eq(k, "_id") || str_eq(k, "name") || str_eq(k, "type")
                        || str_eq(k, "@type") || str_eq(k, "@context")) {
                        crate::json::entries_insert(&mut props, owned(k), es[i].1.duplicate());
                    }
                    i = i + 1;
                }
                assert(ev.take(es@.len() as int) =~= ev);
            },
            _ => {},
        }
        let mut el = ArcadiaElement::with(
            SlugString::from_text(handle),
            I18nString::Single(owned(name)),
            kind,
        );
        el.properties = props;
        el
    }
}

/// The expansion of `t` through the string members of a layer context.
fn expand_with_context(ctx: &JsonValue, t: &str) -> (r: String)
    ensures
        r@ == expand_iri(context_fold(Map::empty(), object_entries(ctx@)), t@),
{
    let mut prefixes: Vec<(String, String)> = Vec::new();
    let ghost entries = object_entries(ctx@);
    match ctx.as_object() {
        Some(obj) => {
            proof {
                lemma_jview_entries(obj@);
                assert(entries.take(0) =~= Seq::<(Seq<char>, JsonView)>::empty());
                assert(crate::assoc::assoc_map(prefixes@).map_values(|s: String| s@) =~= Map::empty());
            }
            let mut i: usize = 0;
            while i < obj.len()
                invariant
                    i <= obj@.len(),
                    entries == jview_entries(obj@),
                    entries.len() == obj@.len(),
                    forall|j: int| 0 <= j < obj@.len() ==> #[trigger] entries[j] == (obj@[j].0@, obj@[j].1@),
                    crate::assoc::assoc_map(prefixes@).map_values(|s: String| s@) == context_fold(
                        Map::empty(),
                        entries.take(i as int),
                    ),
                decreases obj@.len() - i,
            {
                assert(entries.take(i as int + 1).drop_last() =~= entries.take(i as int));
                assert(entries.take(i as int + 1).last() == entries[i as int]);
                match obj[i].1.as_str() {
                    Some(iri) => {
                        let ghost before = crate::assoc::assoc_map(prefixes@).map_values(|s: String| s@);
                        crate::assoc::assoc_insert(&mut prefixes, obj[i].0.clone(), owned(iri));
                        assert(crate::assoc::assoc_map(prefixes@).map_values(|s: String| s@) =~= before.insert(
                            obj@[i as int].0@,
                            iri@,
                        ));
                    },
                    None => {},
                }
                i = i + 1;
            }
            assert(entries.take(obj@.len() as int) =~= entries);
        },
        None => {
            assert(entries =~= Seq::<(Seq<char>, JsonView)>::empty());
            assert(crate::assoc::assoc_map(prefixes@).map_values(|s: String| s@) =~= Map::empty());
        },
    }
    expand_with_prefixes(&prefixes, t)
}

/// The expansion of `t` through prefix/IRI pairs.
fn expand_with_prefixes(dc: &Vec<(String, String)>, t: &str) -> (r: String)
    ensures
        r@ == expand_iri(crate::assoc::assoc_map(dc@).map_values(|s: String| s@), t@),
{
    if crate::vocabulary::VocabularyRegistry::is_iri(t) {
        return owned(t);
    }
    match crate::text::split_once_char(t, ':') {
        Some(parts) => {
            match crate::assoc::assoc_lookup(dc, parts.0.as_str()) {
                Some(base) => {
                    return concat2(base.as_str(), parts.1.as_str());
                },
                None => {},
            }
        },
        None => {},
    }
    owned(t)
}

// ---------------------------------------------------------------------------
// Ingestion
// ---------------------------------------------------------------------------

/// The schema file of an element type, under the v2 asset schemas.
pub open spec fn schema_file_of(kind: Seq<char>) -> Option<Seq<char>> {
    if kind == "raise:Dapp"@ || kind == "pa:PhysicalComponent"@ {
        Some("/mbse/pa/physical_component.schema.json"@)
    } else if kind == "raise:Service"@ || kind == "sa:SystemComponent"@ {
        Some("/mbse/sa/system_component.schema.json"@)
    } else if kind == "raise:Module"@ || kind == "la:LogicalComponent"@ {
        Some("/mbse/la/logical_component.schema.json"@)
    } else if kind == "la:LogicalFunction"@ {
        Some("/mbse/la/logical_function.schema.json"@)
    } else if kind == "sa:SystemCapability"@ {
        Some("/mbse/sa/system_capability.schema.json"@)
    } else if kind == "arcadia:OperationalActivity"@ {
        Some("/mbse/oa/activity.schema.json"@)
    } else if kind == "arcadia:OperationalEntity"@ {
        Some("/mbse/oa/entity.schema.json"@)
    } else {
        None
    }
}

/// The schema file of the first type that has one, or the base schema.
pub open spec fn schema_for_kinds(kinds: Seq<Seq<char>>) -> Seq<char>
    decreases kinds.len(),
{
    if kinds.len() == 0 {
        "/common/types/base.schema.json"@
    } else {
        match schema_file_of(kinds[0]) {
            Some(f) => f,
            None => schema_for_kinds(kinds.subrange(1, kinds.len() as int)),
        }
    }
}

/// The ingestion of external models.
pub struct ModelIngestionService;

impl ModelIngestionService {
    /// The schema URI of an element from its types (see `schema_for_kinds`).
    pub fn resolve_schema_uri(kinds: &[String]) -> (r: String)
        ensures
            r@ == "db://_system/ai-assets/schemas/v2"@ + schema_for_kinds(texts_of(kinds@)),
    {
        let base = "db://_system/ai-assets/schemas/v2";
        let ghost ks = texts_of(kinds@);
        let mut i: usize = 0;
        assert(ks.subrange(0, ks.len() as int) =~= ks);
        while i < kinds.len()
            invariant
                i <= kinds@.len(),
                ks == texts_of(kinds@),
                base@ == "db://_system/ai-assets/schemas/v2"@,
                schema_for_kinds(ks) == schema_for_kinds(ks.subrange(i as int, ks.len() as int)),
            decreases kinds@.len() - i,
        {
            let k = kinds[i].as_str();
            let ghost rest = ks.subrange(i as int, ks.len() as int);
            assert(rest[0] == k@);
            assert(rest.subrange(1, rest.len() as int) =~= ks.subrange(i + 1, ks.len() as int));
            if str_eq(k, "raise:Dapp") || str_eq(k, "pa:PhysicalComponent") {
                return concat2(base, "/mbse/pa/physical_component.schema.json");
            } else if str_eq(k, "raise:Service") || str_eq(k, "sa:SystemComponent") {
                return concat2(base, "/mbse/sa/system_component.schema.json");
            } else if str_eq(k, "raise:Module") || str_eq(k, "la:LogicalComponent") {
                return concat2(base, "/mbse/la/logical_component.schema.json");
            } else if str_eq(k, "la:LogicalFunction") {
                return concat2(base, "/mbse/la/logical_function.schema.json");
            } else if str_eq(k, "sa:SystemCapability") {
                return concat2(base, "/mbse/sa/system_capability.schema.json");
            } else if str_eq(k, "arcadia:OperationalActivity") {
                return concat2(base, "/mbse/oa/activity.schema.json");
            } else if str_eq(k, "arcadia:OperationalEntity") {
                return concat2(base, "/mbse/oa/entity.schema.json");
            }
            i = i + 1;
        }
        concat2(base, "/common/types/base.schema.json")
    }
}

// ---------------------------------------------------------------------------
// Schema URIs
// ---------------------------------------------------------------------------

/// The second piece of `s` split on `p` (`s.split(p).nth(1)`), for a non-empty `p`.
pub open spec fn second_piece(s: Seq<char>, p: Seq<char>) -> Option<Seq<char>> {
    let i = index_of(s, p);
    if i < 0 || i + p.len() > s.len() {
        None
    } else {
        let rest = s.subrange(i + p.len(), s.len() as int);
        let j = index_of(rest, p);
        if j < 0 || j + p.len() > rest.len() {
            Some(rest)
        } else {
            Some(rest.subrange(0, j))
        }
    }
}

/// The version and relative key of a schema URI: the segment after
/// `/schemas/` (else `v2`), and what follows `/schemas/{version}/` (else the URI).
pub open spec fn schema_paths_spec(uri: Seq<char>) -> (Seq<char>, Seq<char>) {
    let version = match second_piece(uri, "/schemas/"@) {
        Some(s) => split_spec(s, '/')[0],
        None => "v2"@,
    };
    let rel = match second_piece(uri, "/schemas/"@ + version + "/"@) {
        Some(r) => r,
        None => uri,
    };
    (version, rel)
}

/// The second piece of `s` split on the non-empty `p`.
fn second_piece_exec(s: &str, p: &str) -> (r: Option<String>)
    requires
        p@.len() > 0,
    ensures
        match r {
            Some(x) => second_piece(s@, p@) == Some(x@),
            None => second_piece(s@, p@) is None,
        },
{
    let cs = chars_of(s);
    let cp = chars_of(p);
    proof {
        lemma_index_of(cs@, cp@);
    }
    let i = match find_chars(cs.as_slice(), cp.as_slice()) {
        Some(i) => i,
        None => {
            return None;
        },
    };
    assert(occurs_at(cs@, cp@, i as int));
    let n = cs.len();
    let start = i + cp.len();
    let rest = string_of_range(cs.as_slice(), start, n);
    let rs = chars_of(rest.as_str());
    proof {
        lemma_index_of(rs@, cp@);
    }
    match find_chars(rs.as_slice(), cp.as_slice()) {
        Some(j) => {
            assert(occurs_at(rs@, cp@, j as int));
            Some(string_of_range(rs.as_slice(), 0, j))
        },
        None => Some(rest),
    }
}


/// `s` without every leading repetition of the non-empty `p`
/// (`str::trim_start_matches`).
pub open spec fn strip_prefixes(s: Seq<char>, p: Seq<char>) -> Seq<char>
    decreases s.len(),
{
    if p.len() > 0 && has_prefix(s, p) {
        strip_prefixes(s.subrange(p.len() as int, s.len() as int), p)
    } else {
        s
    }
}

/// The URI of a schema of the database `space/db`: absolute names are kept,
/// versioned names go under `/schemas/`, and other names go under the domain
/// version after leading `/` and `schemas/` are stripped.
pub open spec fn schema_uri_spec(space: Seq<char>, db: Seq<char>, version: Seq<char>, name: Seq<char>) -> Seq<char> {
    if has_prefix(name, "db://"@) || has_prefix(name, "http"@) {
        name
    } else if has_prefix(name, "v1/"@) || has_prefix(name, "v2/"@) {
        "db://"@ + space + "/"@ + db + "/schemas/"@ + name
    } else {
        "db://"@ + space + "/"@ + db + "/schemas/"@ + version + "/"@ + strip_prefixes(
            strip_prefixes(name, "/"@),
            "schemas/"@,
        )
    }
}

/// The version of a domain's schemas, from the `$schema` URI of its system
/// index (`v2` by default).
pub open spec fn domain_version_spec(index: Option<JsonView>) -> Seq<char> {
    match index {
        Some(ix) => match member_str(ix, "$schema"@) {
            Some(u) => schema_paths_spec(u).0,
            None => "v2"@,
        },
        None => "v2"@,
    }
}

/// The members of an ordered schema: `$schema`, `$id`, the title if any, the
/// type (`object` by default), `unevaluatedProperties` (`false` when strict,
/// else the schema's, `true` by default), and the properties if any.
pub open spec fn ordered_head(uri: Seq<char>, schema: JsonView, strict: bool) -> Seq<(Seq<char>, JsonView)> {
    let s1 = seq![
        ("$schema"@, JsonView::Str("https://json-schema.org/draft/2020-12/schema"@)),
        ("$id"@, JsonView::Str(uri)),
    ];
    let s2 = match vget(schema, "title"@) {
        Some(t) => s1.push(("title"@, t)),
        None => s1,
    };
    let s3 = s2.push(
        (
            "type"@,
            match vget(schema, "type"@) {
                Some(t) => t,
                None => JsonView::Str("object"@),
            },
        ),
    );
    let s4 = s3.push(
        (
            "unevaluatedProperties"@,
            if strict {
                JsonView::Bool(false)
            } else {
                match vget(schema, "unevaluatedProperties"@) {
                    Some(u) => u,
                    None => JsonView::Bool(true),
                }
            },
        ),
    );
    match vget(schema, "properties"@) {
        Some(p) => s4.push(("properties"@, p)),
        None => s4,
    }
}

/// A member name the ordered head already decides.
pub open spec fn is_head_key(k: Seq<char>) -> bool {
    k == "$schema"@ || k == "$id"@ || k == "title"@ || k == "type"@ || k == "properties"@ || k
        == "unevaluatedProperties"@
}

/// The other members of the schema, bound after the head in order.
pub open spec fn ordered_tail(acc: Seq<(Seq<char>, JsonView)>, es: Seq<(Seq<char>, JsonView)>) -> Seq<(Seq<char>, JsonView)>
    decreases es.len(),
{
    if es.len() == 0 {
        acc
    } else {
        let prev = ordered_tail(acc, es.drop_last());
        if is_head_key(es.last().0) {
            prev
        } else {
            entries_set(prev, es.last().0, es.last().1)
        }
    }
}

/// The ordered form of a schema.
pub open spec fn ordered_schema(uri: Seq<char>, schema: JsonView, strict: bool) -> JsonView {
    JsonView::Object(
        ordered_tail(
            ordered_head(uri, schema, strict),
            match schema {
                JsonView::Object(es) => es,
                _ => Seq::empty(),
            },
        ),
    )
}

/// The entries without the first one under `k`, the last entry taking its
/// place (`swap_remove` of an insertion-ordered map).
pub open spec fn swap_removed(es: Seq<(Seq<char>, JsonView)>, k: Seq<char>) -> Seq<(Seq<char>, JsonView)> {
    let p = key_pos(es, k);
    if p < 0 || p >= es.len() {
        es
    } else if p == es.len() - 1 {
        es.drop_last()
    } else {
        es.update(p, es.last()).drop_last()
    }
}

/// Why a schema change was refused.
#[derive(Clone, Debug)]
pub enum DdlError {
    /// The schema has no `properties` object in which to change the property.
    PropertyNotFound(String),
}

/// The properties object of a schema.
pub open spec fn properties_of(schema: JsonView) -> Option<Seq<(Seq<char>, JsonView)>> {
    match vget(schema, "properties"@) {
        Some(JsonView::Object(ps)) => Some(ps),
        _ => None,
    }
}

/// The schema with its `properties` object replaced.
pub open spec fn with_properties(schema: JsonView, ps: Seq<(Seq<char>, JsonView)>) -> JsonView {
    match schema {
        JsonView::Object(es) => JsonView::Object(entries_set(es, "properties"@, JsonView::Object(ps))),
        _ => JsonView::Object(seq![("properties"@, JsonView::Object(ps))]),
    }
}

/// The schema DDL handler of a database.
pub struct DdlHandler {
    manager: CollectionsManager,
}

impl DdlHandler {
    /// The handler of the database that `manager` serves.
    pub fn new(manager: CollectionsManager) -> (r: DdlHandler)
        ensures
            r.space_name() == manager.space@,
            r.db_name() == manager.db@,
    {
        DdlHandler { manager }
    }

    /// The version and relative key of a schema URI (see `schema_paths_spec`).
    pub fn extract_schema_paths(&self, uri: &str) -> (r: (String, String))
        ensures
            (r.0@, r.1@) == schema_paths_spec(uri@),
    {
        proof {
            reveal_strlit("/schemas/");
        }
        let version = match second_piece_exec(uri, "/schemas/") {
            Some(s) => {
                let pieces = split_char(s.as_str(), '/');
                proof {
                    crate::text::lemma_split_nonempty(s@, '/');
                    assert(texts_of(pieces@)[0] == pieces@[0]@);
                }
                pieces[0].clone()
            },
            None => owned("v2"),
        };
        let marker = concat3("/schemas/", version.as_str(), "/");
        let rel = match second_piece_exec(uri, marker.as_str()) {
            Some(r) => r,
            None => owned(uri),
        };
        (version, rel)
    }

    /// The version of the domain's schemas, given its system index when it
    /// could be loaded (see `domain_version_spec`).
    pub fn get_domain_version(&self, index: Option<&JsonValue>) -> (r: String)
        ensures
            r@ == domain_version_spec(
                match index {
                    Some(ix) => Some(ix@),
                    None => None,
                },
            ),
    {
        match index {
            Some(ix) => match ix.get("$schema") {
                Some(JsonValue::String(u)) => self.extract_schema_paths(u.as_str()).0,
                _ => owned("v2"),
            },
            None => owned("v2"),
        }
    }

    /// The URI of a schema of this database (see `schema_uri_spec`), given the
    /// domain version.
    pub fn build_schema_uri(&self, schema_name: &str, domain_version: &str) -> (r: String)
        ensures
            r@ == schema_uri_spec(self.space_name(), self.db_name(), domain_version@, schema_name@),
    {
        proof {
            reveal_strlit("/");
            reveal_strlit("schemas/");
        }
        if starts_with(schema_name, "db://") || starts_with(schema_name, "http") {
            return owned(schema_name);
        }
        let head = concat3("db://", self.manager.space.as_str(), "/");
        let base = concat3(head.as_str(), self.manager.db.as_str(), "/schemas/");
        if starts_with(schema_name, "v1/") || starts_with(schema_name, "v2/") {
            return concat2(base.as_str(), schema_name);
        }
        let no_slash = strip_prefixes_exec(schema_name, "/");
        let relative = strip_prefixes_exec(no_slash.as_str(), "schemas/");
        let with_version = concat3(base.as_str(), domain_version, "/");
        concat2(with_version.as_str(), relative.as_str())
    }

    /// The database space.
    pub closed spec fn space_name(&self) -> Seq<char> {
        self.manager.space@
    }

    /// The database name.
    pub closed spec fn db_name(&self) -> Seq<char> {
        self.manager.db@
    }

    /// The ordered form of a schema: the head members first, then the others in
    /// their order (see `ordered_schema`).
    pub fn prepare_ordered_schema(&self, uri: &str, schema: JsonValue, strict: bool) -> (r: JsonValue)
        ensures
            r@ == ordered_schema(uri@, schema@, strict),
    {
        let mut out: Vec<(String, JsonValue)> = Vec::new();
        out.push((owned("$schema"), JsonValue::String(owned("https://json-schema.org/draft/2020-12/schema"))));
        out.push((owned("$id"), JsonValue::String(owned(uri))));
        match schema.get("title") {
            Some(t) => out.push((owned("title"), t.duplicate())),
            None => {},
        }
        let ty = match schema.get("type") {
            Some(t) => t.duplicate(),
            None => JsonValue::String(owned("object")),
        };
        out.push((owned("type"), ty));
        let unevaluated = if strict {
            JsonValue::Bool(false)
        } else {
            match schema.get("unevaluatedProperties") {
                Some(u) => u.duplicate(),
                None => JsonValue::Bool(true),
            }
        };
        out.push((owned("unevaluatedProperties"), unevaluated));
        match schema.get("properties") {
            Some(p) => out.push((owned("properties"), p.duplicate())),
            None => {},
        }
        let ghost head = jview_entries(out@);
        proof {
            lemma_jview_entries(out@);
            assert(head =~= ordered_head(uri@, schema@, strict));
        }
        match &schema {
            JsonValue::Object(es) => {
                proof {
                    lemma_jview_entries(es@);
                }
                let ghost ve = jview_entries(es@);
                let mut i: usize = 0;
                assert(ve.take(0) =~= Seq::<(Seq<char>, JsonView)>::empty());
                while i < es.len()
                    invariant
                        i <= es@.len(),
                        ve == jview_entries(es@),
                        ve.len() == es@.len(),
                        forall|j: int| 0 <= j < es@.len() ==> #[trigger] ve[j] == (es@[j].0@, jview(es@[j].1)),
                        jview_entries(out@) == ordered_tail(head, ve.take(i as int)),
                    decreases es@.len() - i,
                {
                    assert(ve.take(i as int + 1).drop_last() =~= ve.take(i as int));
                    let k = es[i].0.as_str();
                    let skip = str_eq(k, "$schema") || str_eq(k, "$id") || str_eq(k, "title") || str_eq(k, "type")
                        || str_eq(k, "properties") || str_eq(k, "unevaluatedProperties");
                    if !skip {
                        crate::json::entries_insert(&mut out, es[i].0.clone(), es[i].1.duplicate());
                    }
                    i = i + 1;
                }
                assert(ve.take(es@.len() as int) =~= ve);
            },
            _ => {},
        }
        JsonValue::Object(out)
    }

    /// Adds or replaces a property definition of a schema; a schema without a
    /// `properties` object gets one holding just that property.
    pub fn add_property(&self, schema: &mut JsonValue, prop: &str, def: JsonValue)
        requires
            old(schema)@ is Object || old(schema)@ is Null,
        ensures
            final(schema)@ == with_properties(
                old(schema)@,
                match properties_of(old(schema)@) {
                    Some(ps) => entries_set(ps, prop@, def@),
                    None => seq![(prop@, def@)],
                },
            ),
    {
        let props: Vec<(String, JsonValue)> = match schema.get("properties") {
            Some(JsonValue::Object(ps)) => {
                let mut ps2 = duplicate_entries(ps);
                crate::json::entries_insert(&mut ps2, owned(prop), def);
                ps2
            },
            _ => {
                let mut ps2: Vec<(String, JsonValue)> = Vec::new();
                ps2.push((owned(prop), def));
                proof {
                    lemma_jview_entries(ps2@);
                }
                assert(jview_entries(ps2@) =~= seq![(prop@, ps2@[0].1@)]);
                ps2
            },
        };
        set_properties(schema, props);
    }

    /// Replaces a property definition of a schema; refused, leaving the schema
    /// unchanged, when the schema has no `properties` object.
    pub fn alter_property(&self, schema: &mut JsonValue, prop_name: &str, definition: JsonValue) -> (r: Result<(), DdlError>)
        ensures
            match properties_of(old(schema)@) {
                Some(ps) => r is Ok && final(schema)@ == with_properties(old(schema)@, entries_set(ps, prop_name@, definition@)),
                None => r matches Err(DdlError::PropertyNotFound(p)) && p@ == prop_name@ && final(schema)@ == old(schema)@,
            },
    {
        let props: Vec<(String, JsonValue)> = match schema.get("properties") {
            Some(JsonValue::Object(ps)) => {
                let mut ps2 = duplicate_entries(ps);
                crate::json::entries_insert(&mut ps2, owned(prop_name), definition);
                ps2
            },
            _ => {
                return Err(DdlError::PropertyNotFound(owned(prop_name)));
            },
        };
        set_properties(schema, props);
        Ok(())
    }

    /// Removes a property definition of a schema (the last property takes its
    /// place); a schema without a `properties` object is left unchanged.
    pub fn drop_property(&self, schema: &mut JsonValue, prop_name: &str)
        ensures
            match properties_of(old(schema)@) {
                Some(ps) => final(schema)@ == with_properties(old(schema)@, swap_removed(ps, prop_name@)),
                None => final(schema)@ == old(schema)@,
            },
    {
        let props: Vec<(String, JsonValue)> = match schema.get("properties") {
            Some(JsonValue::Object(ps)) => {
                let mut ps2 = duplicate_entries(ps);
                let ghost before = jview_entries(ps2@);
                proof {
                    lemma_jview_entries(ps2@);
                }
                match find_key(&ps2, prop_name) {
                    Some(p) => {
                        let last = ps2.pop().unwrap();
                        if p < ps2.len() {
                            ps2.set(p, last);
                        }
                        proof {
                            lemma_jview_entries(ps2@);
                            assert(jview_entries(ps2@) =~= swap_removed(before, prop_name@));
                        }
                    },
                    None => {
                        assert(jview_entries(ps2@) =~= swap_removed(before, prop_name@));
                    },
                }
                ps2
            },
            _ => {
                return;
            },
        };
        set_properties(schema, props);
    }
}


/// `s` without every leading repetition of the non-empty `p`.
fn strip_prefixes_exec(s: &str, p: &str) -> (r: String)
    requires
        p@.len() > 0,
    ensures
        r@ == strip_prefixes(s@, p@),
{
    let cs = chars_of(s);
    let cp = chars_of(p);
    let mut i: usize = 0;
    let n = cs.len();
    assert(cs@.subrange(0, cs@.len() as int) =~= cs@);
    loop
        invariant
            n == cs@.len(),
            i <= cs@.len(),
            cs@ == s@,
            cp@ == p@,
            cp@.len() > 0,
            strip_prefixes(s@, p@) == strip_prefixes(cs@.subrange(i as int, cs@.len() as int), p@),
        ensures
            i <= cs@.len(),
            !occurs_at(cs@, cp@, i as int),
            strip_prefixes(s@, p@) == strip_prefixes(cs@.subrange(i as int, cs@.len() as int), p@),
        decreases cs@.len() - i,
    {
        let found = crate::text::occurs_at_exec(cs.as_slice(), cp.as_slice(), i);
        if !found {
            break;
        }
        let ghost rest = cs@.subrange(i as int, cs@.len() as int);
        assert(rest.subrange(0, cp@.len() as int) =~= cs@.subrange(i as int, i + cp@.len()));
        assert(rest.subrange(cp@.len() as int, rest.len() as int) =~= cs@.subrange(i + cp@.len(), cs@.len() as int));
        i = i + cp.len();
    }
    proof {
        let rest = cs@.subrange(i as int, cs@.len() as int);
        if cp@.len() <= rest.len() {
            assert(rest.subrange(0, cp@.len() as int) =~= cs@.subrange(i as int, i + cp@.len()));
        }
    }
    string_of_range(cs.as_slice(), i, cs.len())
}

/// A copy of object entries.
fn duplicate_entries(es: &Vec<(String, JsonValue)>) -> (r: Vec<(String, JsonValue)>)
    ensures
        jview_entries(r@) == jview_entries(es@),
{
    let mut r: Vec<(String, JsonValue)> = Vec::new();
    let mut i: usize = 0;
    while i < es.len()
        invariant
            i <= es@.len(),
            r@.len() == i,
            forall|j: int| 0 <= j < i ==> (#[trigger] r@[j]).0@ == es@[j].0@ && jview(r@[j].1) == jview(es@[j].1),
        decreases es@.len() - i,
    {
        r.push((es[i].0.clone(), es[i].1.duplicate()));
        i = i + 1;
    }
    proof {
        crate::json::lemma_jview_entries_ext(r@, es@);
    }
    r
}

/// Binds `properties` of a schema object (a `null` schema becomes an object).
fn set_properties(schema: &mut JsonValue, props: Vec<(String, JsonValue)>)
    requires
        old(schema)@ is Object || old(schema)@ is Null,
    ensures
        final(schema)@ == with_properties(old(schema)@, jview_entries(props@)),
{
    match schema {
        JsonValue::Object(es) => {
            crate::json::entries_insert(es, owned("properties"), JsonValue::Object(props));
        },
        _ => {
            let mut es: Vec<(String, JsonValue)> = Vec::new();
            es.push((owned("properties"), JsonValue::Object(props)));
            proof {
                lemma_jview_entries(es@);
            }
            assert(jview_entries(es@) =~= seq![("properties"@, es@[0].1@)]);
            *schema = JsonValue::Object(es);
        },
    }
}

/// The schema bootstrapper of a database.
pub struct SchemaBootstrapper {
    manager: CollectionsManager,
}

impl SchemaBootstrapper {
    /// The space of the database bootstrapped.
    pub closed spec fn space_name(&self) -> Seq<char> {
        self.manager.space@
    }

    /// The database bootstrapped.
    pub closed spec fn db_name(&self) -> Seq<char> {
        self.manager.db@
    }

    /// The bootstrapper of the database that `manager` serves.
    pub fn new(manager: CollectionsManager) -> (r: SchemaBootstrapper)
        ensures
            r.space_name() == manager.space@,
            r.db_name() == manager.db@,
    {
        SchemaBootstrapper { manager }
    }

    /// The URI prefix of the bootstrap database, `db://{domain}/{db}`, from the
    /// configured domain and database (`_system` and `bootstrap` by default).
    pub fn get_bios_uri_prefix(domain: Option<String>, db: Option<String>) -> (r: String)
        ensures
            r@ == "db://"@ + (match domain {
                Some(d) => d@,
                None => "_system"@,
            }) + "/"@ + (match db {
                Some(d) => d@,
                None => "bootstrap"@,
            }),
    {
        let d = match domain {
            Some(d) => d,
            None => owned("_system"),
        };
        let b = match db {
            Some(b) => b,
            None => owned("bootstrap"),
        };
        let a = concat3("db://", d.as_str(), "/");
        concat2(a.as_str(), b.as_str())
    }
}

// ---------------------------------------------------------------------------
// Code generation context
// ---------------------------------------------------------------------------

/// The domain and database a model belongs to: the first two `/`-separated
/// parts of its name, else the system mount point.
pub fn resolve_active_context(model: &ProjectModel, system_domain: &str, system_db: &str) -> (r: (String, String))
    ensures
        ({
            let parts = split_spec(model.meta.name@, '/');
            if parts.len() >= 2 {
                r.0@ == parts[0] && r.1@ == parts[1]
            } else {
                r.0@ == system_domain@ && r.1@ == system_db@
            }
        }),
{
    let parts = split_char(model.meta.name.as_str(), '/');
    if parts.len() >= 2 {
        assert(texts_of(parts@)[0] == parts@[0]@);
        assert(texts_of(parts@)[1] == parts@[1]@);
        (parts[0].clone(), parts[1].clone())
    } else {
        (owned(system_domain), owned(system_db))
    }
}

/// The root generated code goes under: the sandbox (falling back to the domain
/// path) for simulations and tests, the domain path otherwise; empty when
/// nothing is configured.
pub fn resolve_domain_root(is_simulation_or_test: bool, code_path: Option<String>, domain_path: Option<String>) -> (r: String)
    ensures
        r@ == if is_simulation_or_test && code_path is Some {
            code_path->0@
        } else {
            match domain_path {
                Some(d) => d@,
                None => Seq::empty(),
            }
        },
{
    if is_simulation_or_test {
        match code_path {
            Some(c) => {
                return c;
            },
            None => {},
        }
    }
    match domain_path {
        Some(d) => d,
        None => String::new(),
    }
}

/// The components of a path from its first `crates` component on.
pub open spec fn from_crates(cs: Seq<Seq<char>>) -> Option<Seq<Seq<char>>>
    decreases cs.len(),
{
    if cs.len() == 0 {
        None
    } else if cs[0] == "crates"@ {
        Some(cs)
    } else {
        from_crates(cs.subrange(1, cs.len() as int))
    }
}

/// The path of a module moved into the sandbox: the part from `crates` on,
/// joined under the sandbox, or else the development root replaced by the
/// sandbox.
pub open spec fn sandbox_path_spec(path: Seq<char>, sandbox: Seq<char>) -> Seq<char> {
    match from_crates(path_components(path)) {
        Some(rel) => path_join(sandbox, join_components(rel)),
        None => replace_spec(path, "/home/zair/condorcet-continuum/raise"@, sandbox),
    }
}

/// The path of a module document: its `path`, else its `properties.path`.
pub open spec fn module_doc_path(doc: JsonView) -> Option<Seq<char>> {
    match vget(doc, "path"@) {
        Some(v) => vstr(v),
        None => match vget(doc, "properties"@) {
            Some(p) => member_str(p, "path"@),
            None => None,
        },
    }
}

/// The part of a path from its first `crates` component on.
fn crates_part(path: &str) -> (r: Option<String>)
    ensures
        match from_crates(path_components(path@)) {
            Some(rel) => r matches Some(x) && x@ == join_components(rel),
            None => r is None,
        },
{
    let comps = crate::schema::components_of_path(path);
    let ghost cv = texts_of(comps@);
    let mut i: usize = 0;
    assert(cv.subrange(0, cv.len() as int) =~= cv);
    while i < comps.len()
        invariant
            i <= comps@.len(),
            cv == texts_of(comps@),
            cv == path_components(path@),
            from_crates(cv) == from_crates(cv.subrange(i as int, cv.len() as int)),
        decreases comps@.len() - i,
    {
        let ghost rest = cv.subrange(i as int, cv.len() as int);
        assert(rest[0] == comps@[i as int]@);
        assert(rest.subrange(1, rest.len() as int) =~= cv.subrange(i + 1, cv.len() as int));
        if str_eq(comps[i].as_str(), "crates") {
            let mut tail: Vec<String> = Vec::new();
            let mut k: usize = i;
            assert(texts_of(tail@) =~= cv.subrange(i as int, i as int));
            while k < comps.len()
                invariant
                    i <= k <= comps@.len(),
                    cv == texts_of(comps@),
                    texts_of(tail@) == cv.subrange(i as int, k as int),
                decreases comps@.len() - k,
            {
                let ghost b = texts_of(tail@);
                tail.push(comps[k].clone());
                assert(texts_of(tail@) =~= b.push(comps@[k as int]@));
                assert(cv.subrange(i as int, k + 1) =~= cv.subrange(i as int, k as int).push(cv[k as int]));
                k = k + 1;
            }
            let joined = crate::schema::join_components_exec(&tail);
            return Some(joined);
        }
        i = i + 1;
    }
    None
}

/// Moves the path of a module document into the sandbox (see
/// `sandbox_path_spec`): its `path` and its `properties.path`, where present.
/// Without a sandbox, or without a path, the document is unchanged.
pub fn redirect_module_to_sandbox(module_doc: &mut JsonValue, sandbox: Option<&str>)
    ensures
        match (sandbox, module_doc_path(old(module_doc)@)) {
            (Some(sb), Some(p)) => final(module_doc)@ == redirected(old(module_doc)@, sandbox_path_spec(p, sb@)),
            _ => final(module_doc)@ == old(module_doc)@,
        },
{
    let sb = match sandbox {
        Some(s) => s,
        None => {
            return;
        },
    };
    let path: String = match module_doc.get("path") {
        Some(v) => match v.as_str() {
            Some(p) => owned(p),
            None => {
                return;
            },
        },
        None => match module_doc.get("properties") {
            Some(props) => match props.get("path") {
                Some(v) => match v.as_str() {
                    Some(p) => owned(p),
                    None => {
                        return;
                    },
                },
                None => {
                    return;
                },
            },
            None => {
                return;
            },
        },
    };
    let new_path = match crates_part(path.as_str()) {
        Some(rel) => crate::kernel::join_path(sb, rel.as_str()),
        None => {
            proof {
                reveal_strlit("/home/zair/condorcet-continuum/raise");
            }
            replace_all(path.as_str(), "/home/zair/condorcet-continuum/raise", sb)
        },
    };
    set_module_path(module_doc, new_path);
}

/// A module document with its `path` and `properties.path` set to `p` where
/// they are present.
pub open spec fn redirected(doc: JsonView, p: Seq<char>) -> JsonView {
    match doc {
        JsonView::Object(es) => {
            let es1 = if entries_get(es, "path"@) is Some {
                entries_set(es, "path"@, JsonView::Str(p))
            } else {
                es
            };
            let es2 = match entries_get(es1, "properties"@) {
                Some(JsonView::Object(ps)) => if entries_get(ps, "path"@) is Some {
                    entries_set(
                        es1,
                        "properties"@,
                        JsonView::Object(entries_set(ps, "path"@, JsonView::Str(p))),
                    )
                } else {
                    es1
                },
                _ => es1,
            };
            JsonView::Object(es2)
        },
        _ => doc,
    }
}

/// Sets the `path` and `properties.path` of a module document where present.
fn set_module_path(doc: &mut JsonValue, p: String)
    ensures
        final(doc)@ == redirected(old(doc)@, p@),
{
    let has_path = doc.get("path").is_some();
    if has_path {
        doc.insert(owned("path"), JsonValue::String(p.clone()));
    }
    let updated: Option<JsonValue> = match doc.get("properties") {
        Some(props) => match props {
            JsonValue::Object(ps) => {
                if props.get("path").is_some() {
                    let mut np = props.duplicate();
                    np.insert(owned("path"), JsonValue::String(p.clone()));
                    Some(np)
                } else {
                    None
                }
            },
            _ => None,
        },
        None => None,
    };
    match updated {
        Some(np) => {
            doc.insert(owned("properties"), np);
        },
        None => {},
    }
}

} // verus!
