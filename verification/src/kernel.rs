//! Node bootstrap decisions: the industrial partitions, the reading of seed
//! operation files, the re-anchoring of factory URIs into a local database, and
//! the candidate locations of AI assets.
use vstd::prelude::*;
use crate::json::{
    JsonValue, JsonView, entries_get, entries_insert, entries_set, find_key, jview, jview_entries, jview_items,
    lemma_jview_entries, lemma_jview_items, member_str, vget,
};
use crate::text::{
    concat2, concat3, contains, ends_with, has_infix, has_prefix, has_suffix, owned, replace_all,
    replace_spec, starts_with, str_eq, texts_of,
};
use crate::collections::CollectionsManager;

verus! {

/// The physical partitions of an industrial node.
#[derive(PartialEq, Eq, Structural, Clone, Copy, Debug)]
pub enum IndustrialPhase {
    System,
    Raise,
    Exploration,
    Modeling,
    Simulation,
    Integration,
    Production,
    Operation,
}

/// The name of a partition.
pub open spec fn phase_name(p: IndustrialPhase) -> Seq<char> {
    match p {
        IndustrialPhase::System => "system"@,
        IndustrialPhase::Raise => "raise"@,
        IndustrialPhase::Exploration => "exploration"@,
        IndustrialPhase::Modeling => "modeling"@,
        IndustrialPhase::Simulation => "simulation"@,
        IndustrialPhase::Integration => "integration"@,
        IndustrialPhase::Production => "production"@,
        IndustrialPhase::Operation => "operation"@,
    }
}

impl IndustrialPhase {
    /// Every partition, in order.
    pub fn all() -> (r: [IndustrialPhase; 8])
        ensures
            r@ == seq![
                IndustrialPhase::System,
                IndustrialPhase::Raise,
                IndustrialPhase::Exploration,
                IndustrialPhase::Modeling,
                IndustrialPhase::Simulation,
                IndustrialPhase::Integration,
                IndustrialPhase::Production,
                IndustrialPhase::Operation,
            ],
    {
        let r = [
            IndustrialPhase::System,
            IndustrialPhase::Raise,
            IndustrialPhase::Exploration,
            IndustrialPhase::Modeling,
            IndustrialPhase::Simulation,
            IndustrialPhase::Integration,
            IndustrialPhase::Production,
            IndustrialPhase::Operation,
        ];
        assert(r@ =~= seq![
            IndustrialPhase::System,
            IndustrialPhase::Raise,
            IndustrialPhase::Exploration,
            IndustrialPhase::Modeling,
            IndustrialPhase::Simulation,
            IndustrialPhase::Integration,
            IndustrialPhase::Production,
            IndustrialPhase::Operation,
        ]);
        r
    }

    /// The name of the partition, in lower case.
    pub fn to_string(&self) -> (r: String)
        ensures
            r@ == phase_name(*self),
    {
        match self {
            IndustrialPhase::System => owned("system"),
            IndustrialPhase::Raise => owned("raise"),
            IndustrialPhase::Exploration => owned("exploration"),
            IndustrialPhase::Modeling => owned("modeling"),
            IndustrialPhase::Simulation => owned("simulation"),
            IndustrialPhase::Integration => owned("integration"),
            IndustrialPhase::Production => owned("production"),
            IndustrialPhase::Operation => owned("operation"),
        }
    }
}

// ---------------------------------------------------------------------------
// Seed operations
// ---------------------------------------------------------------------------

/// An `upsert` operation: an object whose `type` is `upsert` and that has a
/// `document`; its document.
pub open spec fn upsert_document(item: JsonView) -> Option<JsonView> {
    match item {
        JsonView::Object(es) => if member_str(item, "type"@) == Some("upsert"@) {
            entries_get(es, "document"@)
        } else {
            None
        },
        _ => None,
    }
}

/// Every item of `items` is an upsert operation.
pub open spec fn all_upserts(items: Seq<JsonView>) -> bool {
    forall|i: int| 0 <= i < items.len() ==> #[trigger] upsert_document(items[i]) is Some
}

/// The documents of a seed file: the documents of a non-empty array made only
/// of upsert operations, the document of a single upsert operation, and
/// otherwise the file itself as one document.
pub open spec fn operation_documents(raw: JsonView) -> Seq<JsonView> {
    match raw {
        JsonView::Array(items) => if items.len() > 0 && all_upserts(items) {
            items.map_values(|it: JsonView| upsert_document(it)->0)
        } else {
            seq![raw]
        },
        JsonView::Object(_) => match upsert_document(raw) {
            Some(d) => seq![d],
            None => seq![raw],
        },
        _ => seq![raw],
    }
}

/// The document of an upsert operation.
fn upsert_doc(item: &JsonValue) -> (r: Option<&JsonValue>)
    ensures
        match r {
            Some(d) => upsert_document(item@) == Some(d@),
            None => upsert_document(item@) is None,
        },
{
    match item {
        JsonValue::Object(es) => {
            let is_upsert = match item.get("type") {
                Some(t) => match t.as_str() {
                    Some(ts) => str_eq(ts, "upsert"),
                    None => false,
                },
                None => false,
            };
            if !is_upsert {
                return None;
            }
            item.get("document")
        },
        _ => None,
    }
}

/// A system bootstrapper for one database of a domain.
pub struct SystemBootstrapper {
    manager: CollectionsManager,
    domain: String,
    db: String,
}

impl SystemBootstrapper {
    /// The domain seeded.
    pub closed spec fn domain_view(&self) -> Seq<char> {
        self.domain@
    }

    /// The database seeded.
    pub closed spec fn db_view(&self) -> Seq<char> {
        self.db@
    }

    pub fn new(manager: CollectionsManager, domain: String, db: String) -> (r: SystemBootstrapper)
        ensures
            r.domain_view() == domain@,
            r.db_view() == db@,
    {
        SystemBootstrapper { manager, domain, db }
    }

    /// The documents of a seed file (see `operation_documents`).
    pub fn extract_operation_documents(raw: JsonValue) -> (r: Vec<JsonValue>)
        ensures
            jview_items(r@) == operation_documents(raw@),
    {
        let mut docs: Vec<JsonValue> = Vec::new();
        match &raw {
            JsonValue::Array(arr) => {
                let ghost items = jview_items(arr@);
                proof {
                    lemma_jview_items(arr@);
                }
                let mut i: usize = 0;
                let mut is_ops = true;
                while is_ops && i < arr.len()
                    invariant
                        i <= arr@.len(),
                        items == jview_items(arr@),
                        items.len() == arr@.len(),
                        forall|j: int| 0 <= j < arr@.len() ==> #[trigger] items[j] == arr@[j]@,
                        docs@.len() == i,
                        forall|j: int| 0 <= j < i ==> #[trigger] upsert_document(items[j]) == Some(docs@[j]@),
                        !is_ops ==> i < arr@.len() && upsert_document(items[i as int]) is None,
                    decreases arr@.len() - i, (if is_ops { 1int } else { 0int }),
                {
                    match upsert_doc(&arr[i]) {
                        Some(d) => {
                            docs.push(d.duplicate());
                            i = i + 1;
                        },
                        None => {
                            is_ops = false;
                        },
                    }
                }
                if is_ops && docs.len() > 0 {
                    proof {
                        lemma_jview_items(docs@);
                        assert(all_upserts(items));
                        assert(jview_items(docs@) =~= items.map_values(|it: JsonView| upsert_document(it)->0));
                    }
                    return docs;
                }
                proof {
                    if items.len() > 0 && all_upserts(items) {
                        if !is_ops {
                            assert(upsert_document(items[i as int]) is Some);
                        }
                    }
                }
            },
            JsonValue::Object(_) => {
                match upsert_doc(&raw) {
                    Some(d) => {
                        let one = d.duplicate();
                        let mut out: Vec<JsonValue> = Vec::new();
                        out.push(one);
                        proof {
                            lemma_jview_items(out@);
                            assert(jview_items(out@) =~= seq![out@[0]@]);
                        }
                        return out;
                    },
                    None => {},
                }
            },
            _ => {},
        }
        let ghost rv = raw@;
        let mut out: Vec<JsonValue> = Vec::new();
        out.push(raw);
        proof {
            lemma_jview_items(out@);
            assert(jview_items(out@) =~= seq![rv]);
        }
        out
    }
}

// ---------------------------------------------------------------------------
// Re-anchoring factory URIs
// ---------------------------------------------------------------------------

/// A text with the factory ontology locations moved to `local_ontology`, then,
/// for a factory URI, the factory database prefixes moved to `local_prefix`.
pub open spec fn reanchor_text(s: Seq<char>, local_ontology: Seq<char>, local_prefix: Seq<char>) -> Seq<char> {
    let s1 = if has_infix(s, "db://_system/ontology/"@) || has_infix(
        s,
        "db://_system/master/ontologies/"@,
    ) || has_infix(s, "db://_system/ai-assets/ontologies/"@) {
        replace_spec(
            replace_spec(
                replace_spec(s, "db://_system/ontology/"@, local_ontology),
                "db://_system/master/ontologies/"@,
                local_ontology,
            ),
            "db://_system/ai-assets/ontologies/"@,
            local_ontology,
        )
    } else {
        s
    };
    if has_prefix(s1, "db://_system/"@) || has_prefix(s1, "db://ai-assets/"@) {
        replace_spec(
            replace_spec(
                replace_spec(
                    replace_spec(
                        replace_spec(
                            replace_spec(s1, "db://_system/master/"@, local_prefix),
                            "db://_system/bootstrap/"@,
                            local_prefix,
                        ),
                        "db://_system/_system/"@,
                        local_prefix,
                    ),
                    "db://_system/raise/"@,
                    local_prefix,
                ),
                "db://_system/ai-assets/"@,
                local_prefix,
            ),
            "db://ai-assets/"@,
            local_prefix,
        )
    } else {
        s1
    }
}

/// A document with every string, at any depth, re-anchored.
pub open spec fn reanchor_spec(j: JsonView, lo: Seq<char>, lp: Seq<char>) -> JsonView
    decreases j, 1nat,
{
    match j {
        JsonView::Str(s) => JsonView::Str(reanchor_text(s, lo, lp)),
        JsonView::Object(es) => JsonView::Object(reanchor_entries(es, lo, lp)),
        JsonView::Array(items) => JsonView::Array(reanchor_items(items, lo, lp)),
        _ => j,
    }
}

/// The entries with their values re-anchored.
pub open spec fn reanchor_entries(es: Seq<(Seq<char>, JsonView)>, lo: Seq<char>, lp: Seq<char>) -> Seq<
    (Seq<char>, JsonView),
>
    decreases es, 0nat,
{
    if es.len() == 0 {
        Seq::empty()
    } else {
        reanchor_entries(es.subrange(0, es.len() - 1), lo, lp).push(
            (es[es.len() - 1].0, reanchor_spec(es[es.len() - 1].1, lo, lp)),
        )
    }
}

/// The items re-anchored.
pub open spec fn reanchor_items(items: Seq<JsonView>, lo: Seq<char>, lp: Seq<char>) -> Seq<JsonView>
    decreases items, 0nat,
{
    if items.len() == 0 {
        Seq::empty()
    } else {
        reanchor_items(items.subrange(0, items.len() - 1), lo, lp).push(
            reanchor_spec(items[items.len() - 1], lo, lp),
        )
    }
}

impl SystemBootstrapper {
    /// `db://{domain}/{db}/ontologies/`.
    pub open spec fn local_ontology(domain: Seq<char>, db: Seq<char>) -> Seq<char> {
        "db://"@ + domain + "/"@ + db + "/ontologies/"@
    }

    /// `db://{domain}/{db}/`.
    pub open spec fn local_prefix(domain: Seq<char>, db: Seq<char>) -> Seq<char> {
        "db://"@ + domain + "/"@ + db + "/"@
    }

    /// Moves every factory URI of `doc`, at any depth, into this database (see
    /// `reanchor_spec`).
    pub fn reanchor_semantic_node(&self, doc: &mut JsonValue)
        ensures
            final(doc)@ == reanchor_spec(
                old(doc)@,
                Self::local_ontology(self.domain_view(), self.db_view()),
                Self::local_prefix(self.domain_view(), self.db_view()),
            ),
    {
        let a = concat3("db://", self.domain.as_str(), "/");
        let b = concat2(a.as_str(), self.db.as_str());
        let lo = concat2(b.as_str(), "/ontologies/");
        let lp = concat2(b.as_str(), "/");
        let r = reanchored(doc, lo.as_str(), lp.as_str());
        *doc = r;
    }
}

/// A text re-anchored (see `reanchor_text`).
fn reanchor_string(s: &str, lo: &str, lp: &str) -> (r: String)
    ensures
        r@ == reanchor_text(s@, lo@, lp@),
{
    proof {
        reveal_strlit("db://_system/ontology/");
        reveal_strlit("db://_system/master/ontologies/");
        reveal_strlit("db://_system/ai-assets/ontologies/");
        reveal_strlit("db://_system/master/");
        reveal_strlit("db://_system/bootstrap/");
        reveal_strlit("db://_system/_system/");
        reveal_strlit("db://_system/raise/");
        reveal_strlit("db://_system/ai-assets/");
        reveal_strlit("db://ai-assets/");
    }
    let mut t = owned(s);
    if contains(s, "db://_system/ontology/") || contains(s, "db://_system/master/ontologies/")
        || contains(s, "db://_system/ai-assets/ontologies/") {
        let x = replace_all(t.as_str(), "db://_system/ontology/", lo);
        let y = replace_all(x.as_str(), "db://_system/master/ontologies/", lo);
        t = replace_all(y.as_str(), "db://_system/ai-assets/ontologies/", lo);
    }
    if starts_with(t.as_str(), "db://_system/") || starts_with(t.as_str(), "db://ai-assets/") {
        let x1 = replace_all(t.as_str(), "db://_system/master/", lp);
        let x2 = replace_all(x1.as_str(), "db://_system/bootstrap/", lp);
        let x3 = replace_all(x2.as_str(), "db://_system/_system/", lp);
        let x4 = replace_all(x3.as_str(), "db://_system/raise/", lp);
        let x5 = replace_all(x4.as_str(), "db://_system/ai-assets/", lp);
        t = replace_all(x5.as_str(), "db://ai-assets/", lp);
    }
    t
}

/// A document re-anchored (see `reanchor_spec`).
fn reanchored(doc: &JsonValue, lo: &str, lp: &str) -> (r: JsonValue)
    ensures
        r@ == reanchor_spec(doc@, lo@, lp@),
    decreases doc@, 1nat,
{
    match doc {
        JsonValue::String(s) => JsonValue::String(reanchor_string(s.as_str(), lo, lp)),
        JsonValue::Object(es) => {
            let ghost ev = jview_entries(es@);
            proof {
                lemma_jview_entries(es@);
                assert(ev.subrange(0, 0) =~= Seq::<(Seq<char>, JsonView)>::empty());
            }
            let mut out: Vec<(String, JsonValue)> = Vec::new();
            let mut i: usize = 0;
            proof {
                lemma_jview_entries(out@);
            }
            while i < es.len()
                invariant
                    i <= es@.len(),
                    doc@ == JsonView::Object(ev),
                    ev == jview_entries(es@),
                    ev.len() == es@.len(),
                    forall|j: int| 0 <= j < es@.len() ==> #[trigger] ev[j] == (es@[j].0@, es@[j].1@),
                    jview_entries(out@) == reanchor_entries(ev.subrange(0, i as int), lo@, lp@),
                decreases es@.len() - i,
            {
                proof {
                    assert(doc@->Object_0 == ev);
                    assert(decreases_to!(doc@ => doc@->Object_0));
                    assert(decreases_to!(ev => ev[i as int]));
                    assert(decreases_to!(ev[i as int] => ev[i as int].1));
                    assert(ev.subrange(0, i as int + 1).subrange(0, i as int) =~= ev.subrange(0, i as int));
                }
                let v = reanchored(&es[i].1, lo, lp);
                let ghost before = jview_entries(out@);
                let ghost out0 = out@;
                out.push((es[i].0.clone(), v));
                proof {
                    lemma_jview_entries(out0);
                    lemma_jview_entries(out@);
                    assert(jview_entries(out@) =~= before.push((es@[i as int].0@, reanchor_spec(ev[i as int].1, lo@, lp@))));
                }
                i = i + 1;
            }
            assert(ev.subrange(0, es@.len() as int) =~= ev);
            JsonValue::Object(out)
        },
        JsonValue::Array(items) => {
            let ghost iv = jview_items(items@);
            proof {
                lemma_jview_items(items@);
                assert(iv.subrange(0, 0) =~= Seq::<JsonView>::empty());
            }
            let mut out: Vec<JsonValue> = Vec::new();
            let mut i: usize = 0;
            proof {
                lemma_jview_items(out@);
            }
            while i < items.len()
                invariant
                    i <= items@.len(),
                    doc@ == JsonView::Array(iv),
                    iv == jview_items(items@),
                    iv.len() == items@.len(),
                    forall|j: int| 0 <= j < items@.len() ==> #[trigger] iv[j] == items@[j]@,
                    jview_items(out@) == reanchor_items(iv.subrange(0, i as int), lo@, lp@),
                decreases items@.len() - i,
            {
                proof {
                    assert(doc@->Array_0 == iv);
                    assert(decreases_to!(doc@ => doc@->Array_0));
                    assert(decreases_to!(iv => iv[i as int]));
                    assert(iv.subrange(0, i as int + 1).subrange(0, i as int) =~= iv.subrange(0, i as int));
                }
                let v = reanchored(&items[i], lo, lp);
                let ghost before = jview_items(out@);
                let ghost out0 = out@;
                out.push(v);
                proof {
                    lemma_jview_items(out0);
                    lemma_jview_items(out@);
                    assert(jview_items(out@) =~= before.push(reanchor_spec(iv[i as int], lo@, lp@)));
                }
                i = i + 1;
            }
            assert(iv.subrange(0, items@.len() as int) =~= iv);
            JsonValue::Array(out)
        },
        _ => doc.duplicate(),
    }
}

// ---------------------------------------------------------------------------
// AI assets
// ---------------------------------------------------------------------------

/// `tail` joined under `base` with a `/` (a `tail` starting with `/` replaces
/// the base; an empty base gives `tail`).
pub open spec fn path_join(base: Seq<char>, tail: Seq<char>) -> Seq<char> {
    if has_prefix(tail, "/"@) {
        tail
    } else if base.len() == 0 {
        tail
    } else if has_suffix(base, "/"@) {
        base + tail
    } else {
        base + "/"@ + tail
    }
}

/// Joins `tail` under `base` (see `path_join`).
pub fn join_path(base: &str, tail: &str) -> (r: String)
    ensures
        r@ == path_join(base@, tail@),
{
    if starts_with(tail, "/") {
        owned(tail)
    } else if base.unicode_len() == 0 {
        owned(tail)
    } else if ends_with(base, "/") {
        concat2(base, tail)
    } else {
        concat3(base, "/", tail)
    }
}

/// Where AI assets are looked for.
pub struct AssetResolver;

impl AssetResolver {
    /// The two locations of an asset, in the order they are tried: under the
    /// current database's directory, then under the shared `_system` tree of the
    /// domain root.
    pub fn candidate_paths(primary_base_path: &str, asset_category_path: &str, filename: &str, domain_root: &str) -> (r: (String, String))
        ensures
            r.0@ == path_join(primary_base_path@, filename@),
            r.1@ == path_join(path_join(path_join(domain_root@, "_system"@), asset_category_path@), filename@),
    {
        let primary = join_path(primary_base_path, filename);
        let system = join_path(domain_root, "_system");
        let category = join_path(system.as_str(), asset_category_path);
        let shared = join_path(category.as_str(), filename);
        (primary, shared)
    }

    /// The first existing location of an asset, given which of the two
    /// candidate locations exist.
    pub fn resolve_ai_file_sync(candidates: (String, String), primary_exists: bool, shared_exists: bool) -> (r: Option<String>)
        ensures
            primary_exists ==> (r matches Some(p) && p@ == candidates.0@),
            !primary_exists && shared_exists ==> (r matches Some(p) && p@ == candidates.1@),
            !primary_exists && !shared_exists ==> r is None,
    {
        if primary_exists {
            Some(candidates.0)
        } else if shared_exists {
            Some(candidates.1)
        } else {
            None
        }
    }

    /// The context logged when an asset is missing: the file name and the two
    /// locations checked.
    pub fn missing_file_context(primary_base_path: &str, asset_category_path: &str, filename: &str, domain_root: &str) -> (r: JsonValue)
        ensures
            r@ == JsonView::Object(seq![
                ("filename"@, JsonView::Str(filename@)),
                ("checked_primary"@, JsonView::Str(path_join(primary_base_path@, filename@))),
                ("checked_shared"@, JsonView::Str(path_join(path_join(path_join(domain_root@, "_system"@), asset_category_path@), filename@))),
            ]),
    {
        let paths = Self::candidate_paths(primary_base_path, asset_category_path, filename, domain_root);
        let mut es: Vec<(String, JsonValue)> = Vec::new();
        es.push((owned("filename"), JsonValue::String(owned(filename))));
        es.push((owned("checked_primary"), JsonValue::String(paths.0)));
        es.push((owned("checked_shared"), JsonValue::String(paths.1)));
        proof {
            lemma_jview_entries(es@);
            assert(jview_entries(es@) =~= seq![
                ("filename"@, JsonView::Str(filename@)),
                ("checked_primary"@, JsonView::Str(path_join(primary_base_path@, filename@))),
                ("checked_shared"@, JsonView::Str(path_join(path_join(path_join(domain_root@, "_system"@), asset_category_path@), filename@))),
            ]);
        }
        JsonValue::Object(es)
    }
}

// ---------------------------------------------------------------------------
// Industrial partitions
// ---------------------------------------------------------------------------

/// The index schema that a partition is created with.
pub open spec fn partition_schema_file(p: IndustrialPhase) -> Seq<char> {
    match p {
        IndustrialPhase::Raise => "index_raise.schema.json"@,
        IndustrialPhase::Modeling | IndustrialPhase::Simulation => "index_mbse.schema.json"@,
        IndustrialPhase::System => "index_bootstrap.schema.json"@,
        _ => "index_raise.schema.json"@,
    }
}

/// The URI of the index schema of a partition, in the bootstrap database
/// `sys_domain`/`sys_db` at `schema_version`.
pub open spec fn partition_schema_uri_spec(
    p: IndustrialPhase,
    sys_domain: Seq<char>,
    sys_db: Seq<char>,
    schema_version: Seq<char>,
) -> Seq<char> {
    "db://"@ + sys_domain + "/"@ + sys_db + "/schemas/"@ + schema_version + "/system/db/"@
        + partition_schema_file(p)
}

/// The URI of the index schema that the partition `phase` is created with.
pub fn partition_schema_uri(phase: IndustrialPhase, sys_domain: &str, sys_db: &str, schema_version: &str) -> (r: String)
    ensures
        r@ == partition_schema_uri_spec(phase, sys_domain@, sys_db@, schema_version@),
{
    let file = match phase {
        IndustrialPhase::Raise => "index_raise.schema.json",
        IndustrialPhase::Modeling => "index_mbse.schema.json",
        IndustrialPhase::Simulation => "index_mbse.schema.json",
        IndustrialPhase::System => "index_bootstrap.schema.json",
        _ => "index_raise.schema.json",
    };
    let a = concat3("db://", sys_domain, "/");
    let b = concat3(a.as_str(), sys_db, "/schemas/");
    let c = concat3(b.as_str(), schema_version, "/system/db/");
    concat2(c.as_str(), file)
}

/// Whether the creation of a partition failed only because it already exists
/// or because its schema is not registered yet, which leaves the node usable.
pub fn partition_error_is_benign(err_text: &str) -> (b: bool)
    ensures
        b == (has_infix(err_text@, "already initialized"@) || has_infix(err_text@, "ERR_SCHEMA_NOT_IN_REGISTRY"@)),
{
    contains(err_text, "already initialized") || contains(err_text, "ERR_SCHEMA_NOT_IN_REGISTRY")
}

// ---------------------------------------------------------------------------
// System indexes created at bootstrap
// ---------------------------------------------------------------------------

/// The URI of the bootstrap index schema of the database `db` of `domain`.
pub open spec fn bootstrap_schema_uri(domain: Seq<char>, db: Seq<char>, version: Seq<char>) -> Seq<char> {
    "db://"@ + domain + "/"@ + db + "/schemas/"@ + version + "/system/db/index_bootstrap.schema.json"@
}

/// A system index as created at bootstrap: its schema, handle `domain_db`,
/// name, space and database, no collection, the schemas given, no ontology,
/// no rule, and its role.
pub open spec fn bootstrap_index(
    domain: Seq<char>,
    db: Seq<char>,
    version: Seq<char>,
    name: Seq<char>,
    schemas: Seq<(Seq<char>, JsonView)>,
    role: Seq<char>,
) -> JsonView {
    JsonView::Object(
        seq![
            ("$schema"@, JsonView::Str(bootstrap_schema_uri(domain, db, version))),
            ("handle"@, JsonView::Str(domain + "_"@ + db)),
            ("name"@, JsonView::Str(name)),
            ("space"@, JsonView::Str(domain)),
            ("database"@, JsonView::Str(db)),
            ("collections"@, JsonView::Object(Seq::empty())),
            ("schemas"@, JsonView::Object(schemas)),
            ("ontologies"@, JsonView::Object(Seq::empty())),
            ("rules"@, JsonView::Object(Seq::empty())),
            ("db_role"@, JsonView::Str(role)),
        ],
    )
}

/// A relative path with each backslash written as `/`.
pub open spec fn slash_path(p: Seq<char>) -> Seq<char> {
    replace_spec(p, seq!['\\'], seq!['/'])
}

/// The schema files found under a version's directory, each keyed by its
/// relative path (backslashes written as `/`) and pointing to `version/path`.
pub open spec fn schema_files_map(files: Seq<Seq<char>>, version: Seq<char>, k: int) -> Seq<(Seq<char>, JsonView)>
    decreases k,
{
    if k <= 0 || k > files.len() {
        Seq::empty()
    } else {
        entries_set(
            schema_files_map(files, version, k - 1),
            slash_path(files[k - 1]),
            JsonView::Object(seq![("file"@, JsonView::Str(version + "/"@ + slash_path(files[k - 1])))]),
        )
    }
}

/// An empty JSON object.
fn empty_object() -> (r: JsonValue)
    ensures
        r@ == JsonView::Object(Seq::empty()),
{
    let es: Vec<(String, JsonValue)> = Vec::new();
    proof {
        lemma_jview_entries(es@);
        assert(jview_entries(es@) =~= Seq::<(Seq<char>, JsonView)>::empty());
    }
    JsonValue::Object(es)
}

/// A system index as created at bootstrap (see `bootstrap_index`).
fn bootstrap_index_document(
    domain: &str,
    db: &str,
    version: &str,
    name: &str,
    schemas: Vec<(String, JsonValue)>,
    role: &str,
) -> (r: JsonValue)
    ensures
        r@ == bootstrap_index(domain@, db@, version@, name@, jview_entries(schemas@), role@),
{
    let a = concat3("db://", domain, "/");
    let b = concat3(a.as_str(), db, "/schemas/");
    let uri = concat3(b.as_str(), version, "/system/db/index_bootstrap.schema.json");
    let handle = concat3(domain, "_", db);
    let ghost sv = jview_entries(schemas@);
    let mut es: Vec<(String, JsonValue)> = Vec::new();
    es.push((owned("$schema"), JsonValue::String(uri)));
    es.push((owned("handle"), JsonValue::String(handle)));
    es.push((owned("name"), JsonValue::String(owned(name))));
    es.push((owned("space"), JsonValue::String(owned(domain))));
    es.push((owned("database"), JsonValue::String(owned(db))));
    es.push((owned("collections"), empty_object()));
    es.push((owned("schemas"), JsonValue::Object(schemas)));
    es.push((owned("ontologies"), empty_object()));
    es.push((owned("rules"), empty_object()));
    es.push((owned("db_role"), JsonValue::String(owned(role))));
    proof {
        lemma_jview_entries(es@);
        assert(jview_entries(es@) =~= bootstrap_index(domain@, db@, version@, name@, sv, role@)->Object_0);
    }
    JsonValue::Object(es)
}

impl SystemBootstrapper {
    /// The index of the factory of assets, listing the schema files found
    /// under the directory of `schema_version` (paths relative to it).
    pub fn factory_index_document(asset_domain: &str, asset_db: &str, schema_version: &str, schema_files: &Vec<String>) -> (r: JsonValue)
        ensures
            r@ == bootstrap_index(
                asset_domain@,
                asset_db@,
                schema_version@,
                "Factory Assets"@,
                seq![(schema_version@, JsonView::Object(schema_files_map(texts_of(schema_files@), schema_version@, schema_files@.len() as int)))],
                "factory"@,
            ),
    {
        let ghost fs = texts_of(schema_files@);
        let mut map: Vec<(String, JsonValue)> = Vec::new();
        proof {
            lemma_jview_entries(map@);
            assert(jview_entries(map@) =~= Seq::<(Seq<char>, JsonView)>::empty());
        }
        let mut i: usize = 0;
        while i < schema_files.len()
            invariant
                i <= schema_files@.len(),
                fs == texts_of(schema_files@),
                jview_entries(map@) == schema_files_map(fs, schema_version@, i as int),
            decreases schema_files@.len() - i,
        {
            proof {
                reveal_strlit("\\");
                reveal_strlit("/");
                assert("\\"@ =~= seq!['\\']);
                assert("/"@ =~= seq!['/']);
            }
            let rel = replace_all(schema_files[i].as_str(), "\\", "/");
            let file = concat3(schema_version, "/", rel.as_str());
            let mut fe: Vec<(String, JsonValue)> = Vec::new();
            fe.push((owned("file"), JsonValue::String(file)));
            proof {
                lemma_jview_entries(fe@);
                assert(jview_entries(fe@) =~= seq![("file"@, JsonView::Str(schema_version@ + "/"@ + slash_path(fs[i as int])))]);
            }
            entries_insert(&mut map, rel, JsonValue::Object(fe));
            i = i + 1;
        }
        let ghost mv = jview_entries(map@);
        let mut schemas: Vec<(String, JsonValue)> = Vec::new();
        schemas.push((owned(schema_version), JsonValue::Object(map)));
        proof {
            lemma_jview_entries(schemas@);
            assert(jview_entries(schemas@) =~= seq![(schema_version@, JsonView::Object(mv))]);
        }
        bootstrap_index_document(asset_domain, asset_db, schema_version, "Factory Assets", schemas, "factory")
    }

    /// The first index of the master database, before its schemas are
    /// imported.
    pub fn master_index_document(&self, schema_version: &str) -> (r: JsonValue)
        ensures
            r@ == bootstrap_index(self.domain_view(), self.db_view(), schema_version@, "Master Database"@, Seq::empty(), "system"@),
    {
        let schemas: Vec<(String, JsonValue)> = Vec::new();
        proof {
            lemma_jview_entries(schemas@);
            assert(jview_entries(schemas@) =~= Seq::<(Seq<char>, JsonView)>::empty());
        }
        bootstrap_index_document(self.domain.as_str(), self.db.as_str(), schema_version, "Master Database", schemas, "system")
    }

    /// Whether the factory's index must be generated: it is missing or has
    /// no `$schema`.
    pub fn needs_factory_index(existing: Option<&JsonValue>) -> (b: bool)
        ensures
            b == match existing {
                Some(idx) => vget(idx@, "$schema"@) is None,
                None => true,
            },
    {
        match existing {
            Some(idx) => idx.get("$schema").is_none(),
            None => true,
        }
    }

    /// The URI of a schema of the factory, by its key under `schema_version`.
    pub fn factory_schema_uri(asset_domain: &str, asset_db: &str, schema_version: &str, schema_key: &str) -> (r: String)
        ensures
            r@ == "db://"@ + asset_domain@ + "/"@ + asset_db@ + "/schemas/"@ + schema_version@ + "/"@ + schema_key@,
    {
        let a = concat3("db://", asset_domain, "/");
        let b = concat3(a.as_str(), asset_db, "/schemas/");
        let c = concat3(b.as_str(), schema_version, "/");
        concat2(c.as_str(), schema_key)
    }
}

// ---------------------------------------------------------------------------
// Ontologies imported at bootstrap
// ---------------------------------------------------------------------------

/// The ontologies of the factory imported at bootstrap, in order: namespace,
/// file under the factory's `ontologies` directory, handle and version.
pub open spec fn bootstrap_ontologies_spec() -> Seq<(Seq<char>, Seq<char>, Seq<char>, Seq<char>)> {
    seq![
        ("raise"@, "raise/@context/raise.jsonld"@, "onto-raise-core"@, "1.1.0"@),
        ("arcadia"@, "arcadia/@context/arcadia.jsonld"@, "onto-arcadia-core"@, "1.1.0"@),
        ("arcadia"@, "arcadia/@context/data.jsonld"@, "onto-arcadia-data"@, "1.1.0"@),
        ("arcadia"@, "arcadia/@context/transverse.jsonld"@, "onto-arcadia-transverse"@, "1.1.0"@),
        ("arcadia"@, "arcadia/@context/oa.jsonld"@, "onto-arcadia-oa"@, "1.1.0"@),
        ("arcadia"@, "arcadia/@context/sa.jsonld"@, "onto-arcadia-sa"@, "1.1.0"@),
        ("arcadia"@, "arcadia/@context/la.jsonld"@, "onto-arcadia-la"@, "1.1.0"@),
        ("arcadia"@, "arcadia/@context/pa.jsonld"@, "onto-arcadia-pa"@, "1.1.0"@),
        ("arcadia"@, "arcadia/@context/epbs.jsonld"@, "onto-arcadia-epbs"@, "1.1.0"@),
    ]
}

/// Four texts as a tuple of owned strings.
fn text_row(a: &str, b: &str, c: &str, d: &str) -> (r: (String, String, String, String))
    ensures
        r.0@ == a@ && r.1@ == b@ && r.2@ == c@ && r.3@ == d@,
{
    (owned(a), owned(b), owned(c), owned(d))
}

/// Rows of four strings as rows of texts.
pub open spec fn text_rows(v: Seq<(String, String, String, String)>) -> Seq<(Seq<char>, Seq<char>, Seq<char>, Seq<char>)> {
    v.map_values(|r: (String, String, String, String)| (r.0@, r.1@, r.2@, r.3@))
}

impl SystemBootstrapper {
    /// The ontologies imported at bootstrap (see `bootstrap_ontologies_spec`).
    pub fn bootstrap_ontologies() -> (r: Vec<(String, String, String, String)>)
        ensures
            text_rows(r@) == bootstrap_ontologies_spec(),
    {
        let mut v: Vec<(String, String, String, String)> = Vec::new();
        v.push(text_row("raise", "raise/@context/raise.jsonld", "onto-raise-core", "1.1.0"));
        v.push(text_row("arcadia", "arcadia/@context/arcadia.jsonld", "onto-arcadia-core", "1.1.0"));
        v.push(text_row("arcadia", "arcadia/@context/data.jsonld", "onto-arcadia-data", "1.1.0"));
        v.push(text_row("arcadia", "arcadia/@context/transverse.jsonld", "onto-arcadia-transverse", "1.1.0"));
        v.push(text_row("arcadia", "arcadia/@context/oa.jsonld", "onto-arcadia-oa", "1.1.0"));
        v.push(text_row("arcadia", "arcadia/@context/sa.jsonld", "onto-arcadia-sa", "1.1.0"));
        v.push(text_row("arcadia", "arcadia/@context/la.jsonld", "onto-arcadia-la", "1.1.0"));
        v.push(text_row("arcadia", "arcadia/@context/pa.jsonld", "onto-arcadia-pa", "1.1.0"));
        v.push(text_row("arcadia", "arcadia/@context/epbs.jsonld", "onto-arcadia-epbs", "1.1.0"));
        assert(text_rows(v@) =~= bootstrap_ontologies_spec());
        v
    }

    /// The documents of an ontology file: the items of an array, else the
    /// file's value itself.
    pub fn ontology_file_documents(json: JsonValue) -> (r: Vec<JsonValue>)
        ensures
            jview_items(r@) == match json@ {
                JsonView::Array(items) => items,
                other => seq![other],
            },
    {
        match json {
            JsonValue::Array(items) => items,
            other => {
                let ghost ov = other@;
                let v = vec![other];
                proof {
                    lemma_jview_items(v@);
                    assert(jview_items(v@) =~= seq![ov]);
                }
                v
            },
        }
    }

    /// The URI under which an imported ontology is registered in this
    /// database.
    pub fn ontology_registration_uri(&self, handle: &str) -> (r: String)
        ensures
            r@ == "db://"@ + self.domain_view() + "/"@ + self.db_view() + "/collections/_ontologies/handle/"@ + handle@,
    {
        let a = concat3("db://", self.domain.as_str(), "/");
        let b = concat3(a.as_str(), self.db.as_str(), "/collections/_ontologies/handle/");
        concat2(b.as_str(), handle)
    }
}

// ---------------------------------------------------------------------------
// Seeds and locales
// ---------------------------------------------------------------------------

/// The upserts of the first `k` seed operations, in order: for each object
/// whose `type` is `upsert` and that has a `document`, its `collection` (empty
/// when it has none as a string) and the document re-anchored (see
/// `reanchor_spec`).
pub open spec fn seed_upserts_spec(ops: Seq<JsonView>, k: int, lo: Seq<char>, lp: Seq<char>) -> Seq<(Seq<char>, JsonView)>
    decreases k,
{
    if k <= 0 || k > ops.len() {
        Seq::empty()
    } else {
        let p = seed_upserts_spec(ops, k - 1, lo, lp);
        let op = ops[k - 1];
        if member_str(op, "type"@) == Some("upsert"@) && vget(op, "document"@) is Some {
            let col = match member_str(op, "collection"@) {
                Some(c) => c,
                None => Seq::empty(),
            };
            p.push((col, reanchor_spec(vget(op, "document"@)->0, lo, lp)))
        } else {
            p
        }
    }
}

impl SystemBootstrapper {
    /// The documents that a seed file upserts, with their collections (see
    /// `seed_upserts_spec`), re-anchored into this database.
    pub fn seed_upserts(&self, operations: &Vec<JsonValue>) -> (r: Vec<(String, JsonValue)>)
        ensures
            jview_entries(r@) == seed_upserts_spec(
                jview_items(operations@),
                operations@.len() as int,
                Self::local_ontology(self.domain_view(), self.db_view()),
                Self::local_prefix(self.domain_view(), self.db_view()),
            ),
    {
        let a = concat3("db://", self.domain.as_str(), "/");
        let b = concat2(a.as_str(), self.db.as_str());
        let lo = concat2(b.as_str(), "/ontologies/");
        let lp = concat2(b.as_str(), "/");
        let ghost ops = jview_items(operations@);
        proof {
            lemma_jview_items(operations@);
        }
        let mut out: Vec<(String, JsonValue)> = Vec::new();
        proof {
            lemma_jview_entries(out@);
            assert(jview_entries(out@) =~= Seq::<(Seq<char>, JsonView)>::empty());
        }
        let mut i: usize = 0;
        while i < operations.len()
            invariant
                i <= operations@.len(),
                ops == jview_items(operations@),
                ops.len() == operations@.len(),
                forall|j: int| 0 <= j < operations@.len() ==> #[trigger] ops[j] == jview(operations@[j]),
                lo@ == Self::local_ontology(self.domain_view(), self.db_view()),
                lp@ == Self::local_prefix(self.domain_view(), self.db_view()),
                jview_entries(out@) == seed_upserts_spec(ops, i as int, lo@, lp@),
            decreases operations@.len() - i,
        {
            let op = &operations[i];
            let is_upsert = match op.get("type") {
                Some(t) => match t.as_str() {
                    Some(x) => str_eq(x, "upsert"),
                    None => false,
                },
                None => false,
            };
            if is_upsert {
                match op.get("document") {
                    Some(d) => {
                        let col = match op.get("collection") {
                            Some(c) => match c.as_str() {
                                Some(x) => owned(x),
                                None => String::new(),
                            },
                            None => String::new(),
                        };
                        let doc = reanchored(d, lo.as_str(), lp.as_str());
                        let ghost before = out@;
                        out.push((col, doc));
                        proof {
                            lemma_jview_entries(before);
                            lemma_jview_entries(out@);
                            assert(jview_entries(out@) =~= jview_entries(before).push((out@.last().0@, out@.last().1@)));
                        }
                    },
                    None => {},
                }
            }
            i = i + 1;
        }
        out
    }

    /// The schema of the `locales` collection of this database.
    pub fn locale_schema_uri(&self, schema_version: &str) -> (r: String)
        ensures
            r@ == "db://"@ + self.domain_view() + "/"@ + self.db_view() + "/schemas/"@ + schema_version@
                + "/system/configs/locale.schema.json"@,
    {
        let a = concat3("db://", self.domain.as_str(), "/");
        let b = concat3(a.as_str(), self.db.as_str(), "/schemas/");
        concat3(b.as_str(), schema_version, "/system/configs/locale.schema.json")
    }
}

} // verus!
