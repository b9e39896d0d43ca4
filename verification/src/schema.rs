//! JSON schemas addressed by `db://` URIs: the registry that holds them, the
//! resolution of relative references and JSON pointers, and the validator.
use vstd::prelude::*;
use vstd::string::*;
use crate::assoc::{
    assoc_contains, assoc_insert, assoc_lookup, assoc_map, assoc_pos, keys_of, lemma_assoc_pos,
    lemma_assoc_pos_same_keys, lemma_assoc_set_distinct, lemma_assoc_map_len,
};
use crate::json::{
    JsonValue, JsonView, entries_get, find_key, jview_entries, jview_items, key_pos, lemma_key_pos,
    lemma_jview_entries, lemma_jview_items, member_items, member_str, pointer_spec, vget, vstr,
};
use crate::pattern::{TextPattern, regex_compiles, regex_matches};
use crate::text::{
    concat2, has_prefix, index_of, index_of_char, lemma_index_of, occurs_at, owned,
    replace_all, replace_spec, split_char, split_spec, starts_with, str_eq, string_of_range,
    chars_of, texts_of, find_chars, split_once_char, split_once_spec,
};

verus! {

// ---------------------------------------------------------------------------
// Paths
// ---------------------------------------------------------------------------

/// The pieces of a path that are real components: empty pieces and `.` are dropped.
pub open spec fn kept_segments(pieces: Seq<Seq<char>>) -> Seq<Seq<char>>
    decreases pieces.len(),
{
    if pieces.len() == 0 {
        Seq::empty()
    } else {
        let prev = kept_segments(pieces.drop_last());
        let last = pieces.last();
        if last.len() == 0 || last == "."@ {
            prev
        } else {
            prev.push(last)
        }
    }
}

/// The components of a `/`-separated path.
pub open spec fn path_components(p: Seq<char>) -> Seq<Seq<char>> {
    kept_segments(split_spec(p, '/'))
}

/// The components after resolving `..`: each `..` removes the component before
/// it, when there is one.
pub open spec fn normalize_components(cs: Seq<Seq<char>>) -> Seq<Seq<char>>
    decreases cs.len(),
{
    if cs.len() == 0 {
        Seq::empty()
    } else {
        let prev = normalize_components(cs.drop_last());
        if cs.last() == ".."@ {
            if prev.len() > 0 {
                prev.drop_last()
            } else {
                prev
            }
        } else {
            prev.push(cs.last())
        }
    }
}

/// The components joined by `/`.
pub open spec fn join_components(cs: Seq<Seq<char>>) -> Seq<char>
    decreases cs.len(),
{
    if cs.len() == 0 {
        Seq::empty()
    } else if cs.len() == 1 {
        cs[0]
    } else {
        join_components(cs.drop_last()) + "/"@ + cs.last()
    }
}

/// The normal form of a path: `.` and empty components dropped, `..` resolved,
/// no leading `/`.
pub open spec fn normalize_path_spec(p: Seq<char>) -> Seq<char> {
    join_components(normalize_components(path_components(p)))
}

/// The components of the parent directory of a path with components `cs`.
pub open spec fn parent_components(cs: Seq<Seq<char>>) -> Seq<Seq<char>> {
    if cs.len() > 0 {
        cs.drop_last()
    } else {
        cs
    }
}

/// `target` resolved against the document `base`: `db://` targets are taken as
/// they are, an empty target is `base`, an absolute path replaces the base path,
/// and a relative one is joined to the base's directory; the result is
/// normalized and keeps the `db://` scheme of the base.
pub open spec fn resolve_path_spec(base: Seq<char>, target: Seq<char>) -> Seq<char> {
    if has_prefix(target, "db://"@) {
        target
    } else if target.len() == 0 {
        base
    } else {
        let scheme: Seq<char> = if has_prefix(base, "db://"@) {
            "db://"@
        } else {
            Seq::empty()
        };
        let base_path = base.subrange(scheme.len() as int, base.len() as int);
        let joined = if has_prefix(target, "/"@) {
            path_components(target)
        } else {
            parent_components(path_components(base_path)) + path_components(target)
        };
        scheme + replace_spec(join_components(normalize_components(joined)), "\\"@, "/"@)
    }
}

/// A URI split before its first `#`: the document part, and the fragment with its `#`.
pub open spec fn split_fragment_spec(uri: Seq<char>) -> (Seq<char>, Option<Seq<char>>) {
    let i = index_of_char(uri, '#');
    if 0 <= i < uri.len() {
        (uri.subrange(0, i), Some(uri.subrange(i, uri.len() as int)))
    } else {
        (uri, None)
    }
}

/// The real components of a path.
pub fn components_of_path(p: &str) -> (r: Vec<String>)
    ensures
        texts_of(r@) == path_components(p@),
{
    let pieces = split_char(p, '/');
    let ghost ps = texts_of(pieces@);
    let mut out: Vec<String> = Vec::new();
    let mut i: usize = 0;
    assert(ps.take(0) =~= Seq::<Seq<char>>::empty());
    assert(texts_of(out@) =~= Seq::<Seq<char>>::empty());
    while i < pieces.len()
        invariant
            i <= pieces@.len(),
            ps == texts_of(pieces@),
            ps == split_spec(p@, '/'),
            texts_of(out@) == kept_segments(ps.take(i as int)),
        decreases pieces@.len() - i,
    {
        assert(ps.take(i as int + 1).drop_last() =~= ps.take(i as int));
        assert(ps.take(i as int + 1).last() == pieces@[i as int]@);
        let piece = &pieces[i];
        if piece.as_str().unicode_len() != 0 && !str_eq(piece.as_str(), ".") {
            let ghost before = texts_of(out@);
            out.push(piece.clone());
            assert(texts_of(out@) =~= before.push(piece@));
        }
        i = i + 1;
    }
    assert(ps.take(pieces@.len() as int) =~= ps);
    out
}

/// The components with `..` resolved.
fn normalize_components_exec(cs: &Vec<String>) -> (r: Vec<String>)
    ensures
        texts_of(r@) == normalize_components(texts_of(cs@)),
{
    let ghost all = texts_of(cs@);
    let mut out: Vec<String> = Vec::new();
    let mut i: usize = 0;
    assert(all.take(0) =~= Seq::<Seq<char>>::empty());
    assert(texts_of(out@) =~= Seq::<Seq<char>>::empty());
    while i < cs.len()
        invariant
            i <= cs@.len(),
            all == texts_of(cs@),
            texts_of(out@) == normalize_components(all.take(i as int)),
        decreases cs@.len() - i,
    {
        assert(all.take(i as int + 1).drop_last() =~= all.take(i as int));
        assert(all.take(i as int + 1).last() == cs@[i as int]@);
        let ghost before = texts_of(out@);
        if str_eq(cs[i].as_str(), "..") {
            if out.len() > 0 {
                out.pop();
                assert(texts_of(out@) =~= before.drop_last());
            }
        } else {
            out.push(cs[i].clone());
            assert(texts_of(out@) =~= before.push(cs@[i as int]@));
        }
        i = i + 1;
    }
    assert(all.take(cs@.len() as int) =~= all);
    out
}

/// The components joined by `/`.
pub fn join_components_exec(cs: &Vec<String>) -> (r: String)
    ensures
        r@ == join_components(texts_of(cs@)),
{
    let ghost all = texts_of(cs@);
    let mut out = String::new();
    if cs.len() == 0 {
        assert(all =~= Seq::<Seq<char>>::empty());
        return out;
    }
    out = cs[0].clone();
    let mut i: usize = 1;
    assert(all.take(1) =~= seq![cs@[0]@]);
    while i < cs.len()
        invariant
            1 <= i <= cs@.len(),
            all == texts_of(cs@),
            out@ == join_components(all.take(i as int)),
        decreases cs@.len() - i,
    {
        assert(all.take(i as int + 1).drop_last() =~= all.take(i as int));
        assert(all.take(i as int + 1).last() == cs@[i as int]@);
        let with_sep = concat2(out.as_str(), "/");
        out = concat2(with_sep.as_str(), cs[i].as_str());
        i = i + 1;
    }
    assert(all.take(cs@.len() as int) =~= all);
    out
}

/// The normal form of a path (`.` dropped, `..` resolved, no leading `/`).
pub fn normalize_path(path: &str) -> (r: String)
    ensures
        r@ == normalize_path_spec(path@),
{
    let cs = components_of_path(path);
    let norm = normalize_components_exec(&cs);
    join_components_exec(&norm)
}

/// `target` resolved against the document URI `base` (see `resolve_path_spec`).
pub fn resolve_path_uri(base: &str, target: &str) -> (r: String)
    ensures
        r@ == resolve_path_spec(base@, target@),
{
    if starts_with(target, "db://") {
        return owned(target);
    }
    if target.unicode_len() == 0 {
        return owned(base);
    }
    let has_scheme = starts_with(base, "db://");
    let bcs = chars_of(base);
    let base_path = if has_scheme {
        proof {
            reveal_strlit("db://");
        }
        string_of_range(bcs.as_slice(), 5, bcs.len())
    } else {
        assert(bcs@.subrange(0, bcs@.len() as int) =~= bcs@);
        string_of_range(bcs.as_slice(), 0, bcs.len())
    };
    let joined: Vec<String> = if starts_with(target, "/") {
        components_of_path(target)
    } else {
        let mut parent = components_of_path(base_path.as_str());
        if parent.len() > 0 {
            let ghost before = texts_of(parent@);
            parent.pop();
            assert(texts_of(parent@) =~= before.drop_last());
        }
        let rest = components_of_path(target);
        let ghost front = texts_of(parent@);
        let mut k: usize = 0;
        while k < rest.len()
            invariant
                k <= rest@.len(),
                texts_of(parent@) == front + texts_of(rest@).take(k as int),
            decreases rest@.len() - k,
        {
            let ghost before = texts_of(parent@);
            parent.push(rest[k].clone());
            assert(texts_of(rest@).take(k as int + 1) =~= texts_of(rest@).take(k as int).push(
                rest@[k as int]@,
            ));
            assert(texts_of(parent@) =~= before.push(rest@[k as int]@));
            k = k + 1;
        }
        assert(texts_of(rest@).take(rest@.len() as int) =~= texts_of(rest@));
        parent
    };
    let norm = normalize_components_exec(&joined);
    let path = join_components_exec(&norm);
    proof {
        reveal_strlit("\\");
    }
    let slashed = replace_all(path.as_str(), "\\", "/");
    if has_scheme {
        concat2("db://", slashed.as_str())
    } else {
        proof {
            assert(Seq::<char>::empty() + slashed@ =~= slashed@);
        }
        slashed
    }
}

/// Splits a URI before its first `#` (the fragment keeps its `#`).
pub fn split_uri_fragment(uri: &str) -> (r: (String, Option<String>))
    ensures
        r.0@ == split_fragment_spec(uri@).0,
        match r.1 {
            Some(f) => split_fragment_spec(uri@).1 == Some(f@),
            None => split_fragment_spec(uri@).1 is None,
        },
{
    let cs = chars_of(uri);
    let pat = vec!['#'];
    assert(pat@ =~= seq!['#']);
    proof {
        lemma_index_of(cs@, pat@);
    }
    match find_chars(cs.as_slice(), pat.as_slice()) {
        Some(i) => {
            assert(occurs_at(cs@, pat@, i as int));
            let n = cs.len();
            (string_of_range(cs.as_slice(), 0, i), Some(string_of_range(cs.as_slice(), i, n)))
        },
        None => {
            assert(cs@.subrange(0, cs@.len() as int) =~= cs@);
            (string_of_range(cs.as_slice(), 0, cs.len()), None)
        },
    }
}

// ---------------------------------------------------------------------------
// The registry
// ---------------------------------------------------------------------------

/// The URI of a schema under the `schemas` tree of a mount point.
pub open spec fn mount_uri(domain: Seq<char>, db: Seq<char>, version: Seq<char>, rel: Seq<char>) -> Seq<
    char,
> {
    "db://"@ + domain + "/"@ + db + "/schemas/"@ + version + "/"@ + rel
}

/// The URIs tried, in order, for a `version/rel` schema missing under its own
/// URI: each mount point, then the system tree.
pub open spec fn fallback_candidates(
    mounts: Seq<(Seq<char>, Seq<char>)>,
    version: Seq<char>,
    rel: Seq<char>,
) -> Seq<Seq<char>> {
    mounts.map_values(|m: (Seq<char>, Seq<char>)| mount_uri(m.0, m.1, version, rel)).push(
        mount_uri("_system"@, "_system"@, version, rel),
    )
}

/// The schema under the first registered URI among `cands`.
pub open spec fn first_registered(schemas: Map<Seq<char>, JsonView>, cands: Seq<Seq<char>>) -> Option<
    JsonView,
>
    decreases cands.len(),
{
    if cands.len() == 0 {
        None
    } else if schemas.contains_key(cands[0]) {
        Some(schemas[cands[0]])
    } else {
        first_registered(schemas, cands.subrange(1, cands.len() as int))
    }
}

/// What a registry holds: schemas by URI, and the fallback mount points.
pub struct SchemaCtx {
    pub schemas: Map<Seq<char>, JsonView>,
    pub mounts: Seq<(Seq<char>, Seq<char>)>,
}

/// The schema found for `uri`: the one registered under it, else, for a URI with
/// a `/schemas/version/rel` part, the first fallback candidate registered.
pub open spec fn lookup_schema(ctx: SchemaCtx, uri: Seq<char>) -> Option<JsonView> {
    if ctx.schemas.contains_key(uri) {
        Some(ctx.schemas[uri])
    } else {
        let i = index_of(uri, "/schemas/"@);
        if i < 0 {
            None
        } else {
            let rest = uri.subrange(i + "/schemas/"@.len(), uri.len() as int);
            match split_once_spec(rest, '/') {
                Some(parts) => first_registered(
                    ctx.schemas,
                    fallback_candidates(ctx.mounts, parts.0, parts.1),
                ),
                None => None,
            }
        }
    }
}

/// Schemas by URI.
pub struct SchemaRegistry {
    by_uri: Vec<(String, JsonValue)>,
    pub base_prefix: String,
    mount_points: Vec<(String, String)>,
}

impl SchemaRegistry {
    /// No URI is registered twice.
    #[verifier::type_invariant]
    closed spec fn uris_distinct(&self) -> bool {
        keys_of(self.by_uri@).no_duplicates()
    }

    /// The schemas and mount points of this registry.
    pub closed spec fn ctx(&self) -> SchemaCtx {
        SchemaCtx {
            schemas: assoc_map(self.by_uri@).map_values(|j: JsonValue| j@),
            mounts: self.mount_points@.map_values(|m: (String, String)| (m.0@, m.1@)),
        }
    }

    /// The prefix of relative schema paths.
    pub closed spec fn prefix(&self) -> Seq<char> {
        self.base_prefix@
    }

    /// An empty registry under the default prefix, with no mount point.
    pub fn new() -> (r: SchemaRegistry)
        ensures
            r.ctx().schemas.len() == 0,
            r.ctx().mounts.len() == 0,
            r.prefix() == "db://unknown/unknown/schemas/v2/"@,
    {
        let r = SchemaRegistry {
            by_uri: Vec::new(),
            base_prefix: owned("db://unknown/unknown/schemas/v2/"),
            mount_points: Vec::new(),
        };
        assert(r.ctx().schemas =~= Map::empty());
        assert(r.ctx().mounts =~= Seq::empty());
        r
    }

    /// Sets the mount points (domain, database) searched, in order, for a schema
    /// missing under its own URI.
    pub fn set_mount_points(&mut self, mounts: Vec<(String, String)>)
        ensures
            final(self).ctx().schemas == old(self).ctx().schemas,
            final(self).ctx().mounts == mounts@.map_values(|m: (String, String)| (m.0@, m.1@)),
            final(self).prefix() == old(self).prefix(),
    {
        proof {
            use_type_invariant(&*self);
        }
        self.mount_points = mounts;
    }

    /// Registers `schema` under `uri`, replacing any schema already there.
    pub fn register(&mut self, uri: String, schema: JsonValue)
        ensures
            final(self).ctx().schemas == old(self).ctx().schemas.insert(uri@, schema@),
            final(self).ctx().mounts == old(self).ctx().mounts,
            final(self).prefix() == old(self).prefix(),
    {
        proof {
            use_type_invariant(&*self);
        }
        let ghost before = self.ctx().schemas;
        let ghost v = schema@;
        let ghost k = uri@;
        let mut pairs: Vec<(String, JsonValue)> = Vec::new();
        std::mem::swap(&mut pairs, &mut self.by_uri);
        proof {
            lemma_assoc_set_distinct(pairs@, uri, schema);
        }
        assoc_insert(&mut pairs, uri, schema);
        self.by_uri = pairs;
        assert(self.ctx().schemas =~= before.insert(k, v));
    }

    /// The schema registered under exactly `uri`.
    fn get_exact(&self, uri: &str) -> (r: Option<&JsonValue>)
        ensures
            r is Some <==> self.ctx().schemas.contains_key(uri@),
            r matches Some(j) ==> self.ctx().schemas[uri@] == j@,
    {
        assoc_lookup(&self.by_uri, uri)
    }

    /// The schema for `uri`: the one registered under it, else the first one
    /// registered under a fallback candidate (see `lookup_schema`).
    pub fn get_by_uri(&self, uri: &str) -> (r: Option<&JsonValue>)
        ensures
            match r {
                Some(j) => lookup_schema(self.ctx(), uri@) == Some(j@),
                None => lookup_schema(self.ctx(), uri@) is None,
            },
    {
        let ctx = Ghost(self.ctx());
        match self.get_exact(uri) {
            Some(j) => {
                return Some(j);
            },
            None => {},
        }
        let cs = chars_of(uri);
        let marker = chars_of("/schemas/");
        proof {
            reveal_strlit("/schemas/");
            lemma_index_of(cs@, marker@);
        }
        let idx = match find_chars(cs.as_slice(), marker.as_slice()) {
            Some(i) => i,
            None => {
                return None;
            },
        };
        assert(occurs_at(cs@, marker@, idx as int));
        let n = cs.len();
        let mlen = marker.len();
        let rest = string_of_range(cs.as_slice(), idx + mlen, n);
        let parts = match split_once_char(rest.as_str(), '/') {
            Some(p) => p,
            None => {
                return None;
            },
        };
        let ghost cands = fallback_candidates(ctx@.mounts, parts.0@, parts.1@);
        assert(lookup_schema(ctx@, uri@) == first_registered(ctx@.schemas, cands));
        assert(cands.subrange(0, cands.len() as int) =~= cands);
        let mut k: usize = 0;
        while k < self.mount_points.len()
            invariant
                ctx@ == self.ctx(),
                lookup_schema(ctx@, uri@) == first_registered(ctx@.schemas, cands),
                k <= self.mount_points@.len(),
                cands == fallback_candidates(ctx@.mounts, parts.0@, parts.1@),
                cands.len() == self.mount_points@.len() + 1,
                first_registered(ctx@.schemas, cands) == first_registered(
                    ctx@.schemas,
                    cands.subrange(k as int, cands.len() as int),
                ),
            decreases self.mount_points@.len() - k,
        {
            let m = &self.mount_points[k];
            let cand = make_mount_uri(m.0.as_str(), m.1.as_str(), parts.0.as_str(), parts.1.as_str());
            let ghost tail = cands.subrange(k as int, cands.len() as int);
            assert(tail[0] == cand@);
            assert(tail.subrange(1, tail.len() as int) =~= cands.subrange(k + 1, cands.len() as int));
            match self.get_exact(cand.as_str()) {
                Some(j) => {
                    return Some(j);
                },
                None => {},
            }
            k = k + 1;
        }
        let cand = make_mount_uri("_system", "_system", parts.0.as_str(), parts.1.as_str());
        let ghost tail = cands.subrange(k as int, cands.len() as int);
        assert(tail[0] == cand@);
        assert(tail.subrange(1, tail.len() as int) =~= Seq::<Seq<char>>::empty());
        assert(first_registered(ctx@.schemas, tail.subrange(1, tail.len() as int)) is None);
        self.get_exact(cand.as_str())
    }

    /// The registered URIs, each once.
    pub fn list_uris(&self) -> (r: Vec<String>)
        ensures
            forall|k: Seq<char>| #[trigger] self.ctx().schemas.contains_key(k) <==> texts_of(r@).contains(k),
            texts_of(r@).no_duplicates(),
            r@.len() == self.ctx().schemas.len(),
    {
        proof {
            use_type_invariant(self);
            lemma_assoc_map_len(self.by_uri@);
            assert(self.ctx().schemas.dom() =~= assoc_map(self.by_uri@).dom());
        }
        let mut out: Vec<String> = Vec::new();
        let mut i: usize = 0;
        while i < self.by_uri.len()
            invariant
                i <= self.by_uri@.len(),
                texts_of(out@) == keys_of(self.by_uri@).take(i as int),
            decreases self.by_uri@.len() - i,
        {
            let ghost before = texts_of(out@);
            out.push(self.by_uri[i].0.clone());
            assert(texts_of(out@) =~= before.push(self.by_uri@[i as int].0@));
            assert(keys_of(self.by_uri@).take(i as int + 1) =~= keys_of(self.by_uri@).take(i as int).push(
                self.by_uri@[i as int].0@,
            ));
            i = i + 1;
        }
        proof {
            assert(keys_of(self.by_uri@).take(self.by_uri@.len() as int) =~= keys_of(self.by_uri@));
            assert(out@.len() == texts_of(out@).len());
            assert forall|k: Seq<char>| #[trigger] self.ctx().schemas.contains_key(k) <==> texts_of(
                out@,
            ).contains(k) by {
                lemma_assoc_pos(self.by_uri@, k);
                if texts_of(out@).contains(k) {
                    let j = choose|j: int| 0 <= j < texts_of(out@).len() && texts_of(out@)[j] == k;
                    assert(keys_of(self.by_uri@)[j] == k);
                }
                if self.ctx().schemas.contains_key(k) {
                    let p = assoc_pos(self.by_uri@, k);
                    assert(texts_of(out@)[p] == k);
                }
            }
        }
        out
    }

    /// The URI of a schema path relative to the registry's prefix.
    pub fn uri(&self, relative_path: &str) -> (r: String)
        ensures
            r@ == self.prefix() + relative_path@,
    {
        concat2(self.base_prefix.as_str(), relative_path)
    }
}

/// `db://domain/db/schemas/version/rel`.
fn make_mount_uri(domain: &str, db: &str, version: &str, rel: &str) -> (r: String)
    ensures
        r@ == mount_uri(domain@, db@, version@, rel@),
{
    let a = concat2("db://", domain);
    let b = concat2(a.as_str(), "/");
    let c = concat2(b.as_str(), db);
    let d = concat2(c.as_str(), "/schemas/");
    let e = concat2(d.as_str(), version);
    let f = concat2(e.as_str(), "/");
    concat2(f.as_str(), rel)
}

// ---------------------------------------------------------------------------
// Validation: what is required of an instance
// ---------------------------------------------------------------------------

/// How many `$ref` links the validator follows in a row without descending into
/// the instance; a chain of references that loops would otherwise never end.
pub const MAX_REF_HOPS: usize = 64;

/// The member `k` of a property's schema `sub`, or else of the schema `resolved`
/// that it refers to.
pub open spec fn first_member(sub: JsonView, resolved: JsonView, k: Seq<char>) -> Option<JsonView> {
    match vget(sub, k) {
        Some(v) => Some(v),
        None => vget(resolved, k),
    }
}

/// The compute plan of a property that is due: its `x_compute` object (see
/// `first_member`), when the `update` strategy (`if_missing` unless a string
/// says otherwise) is `always`, or `if_missing` while the value is missing,
/// and the `plan` is an object with a string `op`; that op and the plan.
pub open spec fn due_plan(sub: JsonView, resolved: JsonView, missing: bool) -> Option<(Seq<char>, JsonView)> {
    match first_member(sub, resolved, "x_compute"@) {
        Some(JsonView::Object(c)) => {
            let strategy = match entries_get(c, "update"@) {
                Some(JsonView::Str(t)) => t,
                _ => "if_missing"@,
            };
            if strategy == "always"@ || (strategy == "if_missing"@ && missing) {
                match entries_get(c, "plan"@) {
                    Some(JsonView::Object(p)) => match entries_get(p, "op"@) {
                        Some(JsonView::Str(op)) => Some((op, JsonView::Object(p))),
                        _ => None,
                    },
                    _ => None,
                }
            } else {
                None
            }
        },
        _ => None,
    }
}

/// Whether the member `key` of an object is missing: absent or `null`.
pub open spec fn member_missing(obj: JsonView, key: Seq<char>) -> bool {
    match vget(obj, key) {
        None => true,
        Some(v) => v is Null,
    }
}

/// The compute plan that is due for a property (see `due_plan`).
pub fn due_compute_plan(sub: &JsonValue, resolved: &JsonValue, missing: bool) -> (r: Option<(String, JsonValue)>)
    ensures
        match r {
            Some((op, plan)) => due_plan(sub@, resolved@, missing) == Some((op@, plan@)),
            None => due_plan(sub@, resolved@, missing) is None,
        },
{
    let node = match sub.get("x_compute") {
        Some(v) => v,
        None => match resolved.get("x_compute") {
            Some(v) => v,
            None => {
                return None;
            },
        },
    };
    if node.as_object().is_none() {
        return None;
    }
    let always = match node.get("update") {
        Some(u) => match u.as_str() {
            Some(t) => if str_eq(t, "always") {
                true
            } else if str_eq(t, "if_missing") {
                false
            } else {
                return None;
            },
            None => false,
        },
        None => false,
    };
    proof {
        reveal_strlit("always");
        reveal_strlit("if_missing");
        assert("always"@.len() != "if_missing"@.len());
    }
    if !always && !missing {
        return None;
    }
    match node.get("plan") {
        Some(p) => match p.get("op") {
            Some(o) => match o.as_str() {
                Some(op) => if p.as_object().is_some() {
                    Some((owned(op), p.duplicate()))
                } else {
                    None
                },
                None => None,
            },
            None => None,
        },
        None => None,
    }
}

/// Whether the member `key` of an object is missing (see `member_missing`).
pub fn is_member_missing(obj: &JsonValue, key: &str) -> (b: bool)
    ensures
        b == member_missing(obj@, key@),
{
    match obj.get(key) {
        None => true,
        Some(v) => v.is_null(),
    }
}

/// The default to insert for a property whose value is still missing: its
/// `default` (see `first_member`).
pub fn due_default(sub: &JsonValue, resolved: &JsonValue, still_missing: bool) -> (r: Option<JsonValue>)
    ensures
        match r {
            Some(v) => still_missing && first_member(sub@, resolved@, "default"@) == Some(v@),
            None => !still_missing || first_member(sub@, resolved@, "default"@) is None,
        },
{
    if !still_missing {
        return None;
    }
    match sub.get("default") {
        Some(v) => Some(v.duplicate()),
        None => match resolved.get("default") {
            Some(v) => Some(v.duplicate()),
            None => None,
        },
    }
}

/// Why an instance (or a schema) was refused.
pub enum ValidationError {
    SchemaNotInRegistry(String),
    RefNotFound(String),
    PointerNotFound(String, String),
    RefChainTooLong(String),
    TypeMismatch(String),
    RequiredFieldMissing(String),
    NestedPropertyFail(String, Box<ValidationError>),
    InvalidPatternProperty(String),
    PatternPropertyFail(String, Box<ValidationError>),
    AdditionalPropertyForbidden(String),
    StringTooShort(u64),
    StringTooLong(u64),
    InvalidRegex(String),
    PatternMismatch,
    NumberTooSmall(i64),
    NumberTooLarge(i64),
    ArrayTooSmall(u64),
    ArrayTooLarge(u64),
    ArrayItemFail(usize, Box<ValidationError>),
}

/// The content of a `ValidationError`.
pub enum VErr {
    SchemaNotInRegistry(Seq<char>),
    RefNotFound(Seq<char>),
    PointerNotFound(Seq<char>, Seq<char>),
    RefChainTooLong(Seq<char>),
    TypeMismatch(Seq<char>),
    RequiredFieldMissing(Seq<char>),
    NestedPropertyFail(Seq<char>, Box<VErr>),
    InvalidPatternProperty(Seq<char>),
    PatternPropertyFail(Seq<char>, Box<VErr>),
    AdditionalPropertyForbidden(Seq<char>),
    StringTooShort(int),
    StringTooLong(int),
    InvalidRegex(Seq<char>),
    PatternMismatch,
    NumberTooSmall(int),
    NumberTooLarge(int),
    ArrayTooSmall(int),
    ArrayTooLarge(int),
    ArrayItemFail(int, Box<VErr>),
}

/// The content of an error.
pub open spec fn verr(e: ValidationError) -> VErr
    decreases e,
{
    match e {
        ValidationError::SchemaNotInRegistry(u) => VErr::SchemaNotInRegistry(u@),
        ValidationError::RefNotFound(u) => VErr::RefNotFound(u@),
        ValidationError::PointerNotFound(p, u) => VErr::PointerNotFound(p@, u@),
        ValidationError::RefChainTooLong(u) => VErr::RefChainTooLong(u@),
        ValidationError::TypeMismatch(t) => VErr::TypeMismatch(t@),
        ValidationError::RequiredFieldMissing(k) => VErr::RequiredFieldMissing(k@),
        ValidationError::NestedPropertyFail(k, c) => VErr::NestedPropertyFail(k@, Box::new(verr(*c))),
        ValidationError::InvalidPatternProperty(p) => VErr::InvalidPatternProperty(p@),
        ValidationError::PatternPropertyFail(k, c) => VErr::PatternPropertyFail(k@, Box::new(verr(*c))),
        ValidationError::AdditionalPropertyForbidden(k) => VErr::AdditionalPropertyForbidden(k@),
        ValidationError::StringTooShort(n) => VErr::StringTooShort(n as int),
        ValidationError::StringTooLong(n) => VErr::StringTooLong(n as int),
        ValidationError::InvalidRegex(p) => VErr::InvalidRegex(p@),
        ValidationError::PatternMismatch => VErr::PatternMismatch,
        ValidationError::NumberTooSmall(n) => VErr::NumberTooSmall(n as int),
        ValidationError::NumberTooLarge(n) => VErr::NumberTooLarge(n as int),
        ValidationError::ArrayTooSmall(n) => VErr::ArrayTooSmall(n as int),
        ValidationError::ArrayTooLarge(n) => VErr::ArrayTooLarge(n as int),
        ValidationError::ArrayItemFail(i, c) => VErr::ArrayItemFail(i as int, Box::new(verr(*c))),
    }
}

impl View for ValidationError {
    type V = VErr;

    open spec fn view(&self) -> VErr {
        verr(*self)
    }
}

/// The content of a validation outcome.
pub open spec fn outcome(r: Result<(), ValidationError>) -> Result<(), VErr> {
    match r {
        Ok(_) => Ok(()),
        Err(e) => Err(e@),
    }
}

/// A non-negative number member (`as_u64`).
pub open spec fn member_count(j: JsonView, k: Seq<char>) -> Option<int> {
    match vget(j, k) {
        Some(JsonView::Number(n)) => if n >= 0 {
            Some(n)
        } else {
            None
        },
        _ => None,
    }
}

/// A number member.
pub open spec fn member_number(j: JsonView, k: Seq<char>) -> Option<int> {
    match vget(j, k) {
        Some(JsonView::Number(n)) => Some(n),
        _ => None,
    }
}

/// The entries of an object member; none for a missing or non-object member.
pub open spec fn member_entries(j: JsonView, k: Seq<char>) -> Seq<(Seq<char>, JsonView)> {
    match vget(j, k) {
        Some(JsonView::Object(es)) => es,
        _ => Seq::empty(),
    }
}

/// The items of an array member; none for a missing or non-array member.
pub open spec fn member_list(j: JsonView, k: Seq<char>) -> Seq<JsonView> {
    match member_items(j, k) {
        Some(items) => items,
        None => Seq::empty(),
    }
}

/// The schema that a `$ref` designates, with the URI of its document.
pub open spec fn ref_target(ctx: SchemaCtx, uri: Seq<char>, r: Seq<char>) -> Result<
    (Seq<char>, JsonView),
    VErr,
> {
    let split = if has_prefix(r, "#"@) {
        (uri, Some(r))
    } else {
        split_fragment_spec(resolve_path_spec(uri, r))
    };
    let file = split.0;
    match lookup_schema(ctx, file) {
        None => Err(VErr::RefNotFound(file)),
        Some(root) => match split.1 {
            None => Ok((file, root)),
            Some(frag) => {
                let ptr = replace_spec(frag, "#"@, Seq::empty());
                match pointer_spec(root, ptr) {
                    Some(target) => Ok((file, target)),
                    None => Err(VErr::PointerNotFound(ptr, file)),
                }
            },
        },
    }
}

/// A schema without `$ref` whose `type` is `integer` or `number`.
pub open spec fn numeric_schema(schema: JsonView) -> bool {
    &&& vget(schema, "$ref"@) is None
    &&& (vget(schema, "type"@) == Some(JsonView::Str("integer"@)) || vget(schema, "type"@) == Some(
        JsonView::Str("number"@),
    ))
}

/// The type names met before `number` and `integer` are other texts.
proof fn lemma_numeric_type_names()
    ensures
        "integer"@ != "object"@,
        "integer"@ != "string"@,
        "integer"@ != "number"@,
        "number"@ != "object"@,
        "number"@ != "string"@,
{
    reveal_strlit("integer");
    reveal_strlit("number");
    reveal_strlit("object");
    reveal_strlit("string");
    assert("integer"@.len() != "object"@.len());
    assert("integer"@.len() != "string"@.len());
    assert("integer"@.len() != "number"@.len());
    assert("number"@[0] != "object"@[0]);
    assert("number"@[0] != "string"@[0]);
}

/// Law: a number above a numeric schema's `maximum`, and not below its
/// `minimum` if it has one, is refused with `NumberTooLarge(maximum)`.
pub proof fn law_number_above_maximum(n: int, m: int, schema: JsonView, ctx: SchemaCtx, uri: Seq<char>, hops: nat)
    requires
        numeric_schema(schema),
        vget(schema, "maximum"@) == Some(JsonView::Number(m)),
        n > m,
        vget(schema, "minimum"@) matches Some(JsonView::Number(lo)) ==> n >= lo,
    ensures
        node_check(JsonView::Number(n), schema, ctx, uri, hops) == Err::<(), VErr>(VErr::NumberTooLarge(m)),
{
    lemma_numeric_type_names();
}

/// Law: a number below a numeric schema's `minimum` is refused with
/// `NumberTooSmall(minimum)`.
pub proof fn law_number_below_minimum(n: int, m: int, schema: JsonView, ctx: SchemaCtx, uri: Seq<char>, hops: nat)
    requires
        numeric_schema(schema),
        vget(schema, "minimum"@) == Some(JsonView::Number(m)),
        n < m,
    ensures
        node_check(JsonView::Number(n), schema, ctx, uri, hops) == Err::<(), VErr>(VErr::NumberTooSmall(m)),
{
    lemma_numeric_type_names();
}

/// Law: a number within a numeric schema's bounds (each where it is given as a
/// number) is accepted.
pub proof fn law_number_within_bounds(n: int, schema: JsonView, ctx: SchemaCtx, uri: Seq<char>, hops: nat)
    requires
        numeric_schema(schema),
        vget(schema, "minimum"@) matches Some(JsonView::Number(lo)) ==> n >= lo,
        vget(schema, "maximum"@) matches Some(JsonView::Number(hi)) ==> n <= hi,
    ensures
        node_check(JsonView::Number(n), schema, ctx, uri, hops) == Ok::<(), VErr>(()),
{
    lemma_numeric_type_names();
}

/// A schema without `$ref` whose `type` is `t`.
pub open spec fn typed_schema(schema: JsonView, t: Seq<char>) -> bool {
    &&& vget(schema, "$ref"@) is None
    &&& vget(schema, "type"@) == Some(JsonView::Str(t))
}

/// Law: a string shorter than a string schema's `minLength` is refused with
/// `StringTooShort(minLength)`; one longer than its `maxLength`, and not
/// shorter than its `minLength`, with `StringTooLong(maxLength)`.
pub proof fn law_string_length_bounds(text: Seq<char>, m: int, schema: JsonView, ctx: SchemaCtx, uri: Seq<char>, hops: nat)
    requires
        typed_schema(schema, "string"@),
        m >= 0,
    ensures
        vget(schema, "minLength"@) == Some(JsonView::Number(m)) && text.len() < m ==> node_check(
            JsonView::Str(text),
            schema,
            ctx,
            uri,
            hops,
        ) == Err::<(), VErr>(VErr::StringTooShort(m)),
        (vget(schema, "maxLength"@) == Some(JsonView::Number(m)) && text.len() > m && (vget(schema, "minLength"@) matches Some(
            JsonView::Number(lo),
        ) ==> text.len() >= lo)) ==> node_check(JsonView::Str(text), schema, ctx, uri, hops) == Err::<(), VErr>(
            VErr::StringTooLong(m),
        ),
{
    reveal_strlit("string");
    reveal_strlit("object");
    assert("string"@[0] != "object"@[0]);
}

/// Law: an instance of another kind than a schema's `type` (`object`, `string`,
/// `number`, `array` or `null`) is refused with `TypeMismatch` naming that
/// type.
pub proof fn law_type_mismatch(inst: JsonView, t: Seq<char>, schema: JsonView, ctx: SchemaCtx, uri: Seq<char>, hops: nat)
    requires
        typed_schema(schema, t),
    ensures
        t == "object"@ && !(inst is Object) ==> node_check(inst, schema, ctx, uri, hops) == Err::<(), VErr>(
            VErr::TypeMismatch(t),
        ),
        t == "string"@ && !(inst is Str) ==> node_check(inst, schema, ctx, uri, hops) == Err::<(), VErr>(
            VErr::TypeMismatch(t),
        ),
        t == "number"@ && !(inst is Number) ==> node_check(inst, schema, ctx, uri, hops) == Err::<(), VErr>(
            VErr::TypeMismatch(t),
        ),
        t == "array"@ && !(inst is Array) ==> node_check(inst, schema, ctx, uri, hops) == Err::<(), VErr>(
            VErr::TypeMismatch(t),
        ),
        t == "null"@ && !(inst is Null) ==> node_check(inst, schema, ctx, uri, hops) == Err::<(), VErr>(
            VErr::TypeMismatch(t),
        ),
{
    reveal_strlit("object");
    reveal_strlit("string");
    reveal_strlit("number");
    reveal_strlit("integer");
    reveal_strlit("boolean");
    reveal_strlit("array");
    reveal_strlit("null");
    assert("string"@[0] != "object"@[0]);
    assert("number"@[0] != "object"@[0] && "number"@[0] != "string"@[0]);
    assert("array"@.len() != "object"@.len() && "array"@.len() != "string"@.len() && "array"@.len() != "number"@.len()
        && "array"@.len() != "integer"@.len() && "array"@.len() != "boolean"@.len());
    assert("null"@.len() != "object"@.len() && "null"@.len() != "string"@.len() && "null"@.len() != "number"@.len()
        && "null"@.len() != "integer"@.len() && "null"@.len() != "boolean"@.len() && "null"@.len() != "array"@.len());
}

/// A required key missing from the members: the fold stops at one.
proof fn lemma_required_missing(es: Seq<(Seq<char>, JsonView)>, reqs: Seq<JsonView>, i: int)
    requires
        0 <= i < reqs.len(),
        vstr(reqs[i]) is Some,
        entries_get(es, vstr(reqs[i])->0) is None,
    ensures
        required_fold(es, reqs) matches Err(VErr::RequiredFieldMissing(k)) && (exists|j: int|
            0 <= j < reqs.len() && vstr(reqs[j]) == Some(k)) && entries_get(es, k) is None,
    decreases reqs.len(),
{
    let p = reqs.drop_last();
    if i < reqs.len() - 1 {
        assert(p[i] == reqs[i]);
        lemma_required_missing(es, p, i);
        let k = match required_fold(es, p) {
            Err(VErr::RequiredFieldMissing(k)) => k,
            _ => Seq::empty(),
        };
        let j = choose|j: int| 0 <= j < p.len() && vstr(p[j]) == Some(k);
        assert(reqs[j] == p[j]);
    } else {
        match required_fold(es, p) {
            Err(e) => {
                lemma_required_fold_errs(es, p);
                let k = match e {
                    VErr::RequiredFieldMissing(k) => k,
                    _ => Seq::empty(),
                };
                let j = choose|j: int| 0 <= j < p.len() && vstr(p[j]) == Some(k);
                assert(reqs[j] == p[j]);
            },
            Ok(_) => {},
        }
    }
}

/// The only error of the `required` fold names a required key that is missing.
proof fn lemma_required_fold_errs(es: Seq<(Seq<char>, JsonView)>, reqs: Seq<JsonView>)
    ensures
        required_fold(es, reqs) is Err ==> (required_fold(es, reqs) matches Err(VErr::RequiredFieldMissing(k)) && (
        exists|j: int| 0 <= j < reqs.len() && vstr(reqs[j]) == Some(k)) && entries_get(es, k) is None),
    decreases reqs.len(),
{
    if reqs.len() > 0 {
        let p = reqs.drop_last();
        lemma_required_fold_errs(es, p);
        match required_fold(es, p) {
            Err(VErr::RequiredFieldMissing(k)) => {
                let j = choose|j: int| 0 <= j < p.len() && vstr(p[j]) == Some(k);
                assert(reqs[j] == p[j]);
            },
            _ => {},
        }
    }
}

/// Law: an object that lacks one of the keys its object schema requires is
/// refused with `RequiredFieldMissing`, naming a required key that it lacks.
pub proof fn law_required_key_missing(es: Seq<(Seq<char>, JsonView)>, i: int, schema: JsonView, ctx: SchemaCtx, uri: Seq<char>, hops: nat)
    requires
        typed_schema(schema, "object"@),
        vget(schema, "required"@) matches Some(JsonView::Array(reqs)) && 0 <= i < reqs.len() && vstr(reqs[i]) is Some
            && entries_get(es, vstr(reqs[i])->0) is None,
    ensures
        node_check(JsonView::Object(es), schema, ctx, uri, hops) matches Err(VErr::RequiredFieldMissing(k))
            && entries_get(es, k) is None && (vget(schema, "required"@) matches Some(JsonView::Array(reqs)) && exists|
            j: int,
        | 0 <= j < reqs.len() && vstr(reqs[j]) == Some(k)),
{
    let reqs = vget(schema, "required"@)->0->Array_0;
    assert(member_list(schema, "required"@) == reqs);
    lemma_required_missing(es, reqs, i);
    assert(member_str(schema, "$ref"@) is None);
    assert(member_str(schema, "type"@) == Some("object"@));
    assert(node_check(JsonView::Object(es), schema, ctx, uri, hops) == object_check(JsonView::Object(es), schema, ctx, uri));
    assert(object_check(JsonView::Object(es), schema, ctx, uri) == required_fold(es, reqs));
}

/// The length and pattern constraints on a string.
pub open spec fn string_check(s: Seq<char>, schema: JsonView) -> Result<(), VErr> {
    let min = member_count(schema, "minLength"@);
    let max = member_count(schema, "maxLength"@);
    if min is Some && s.len() < min->0 {
        Err(VErr::StringTooShort(min->0))
    } else if max is Some && s.len() > max->0 {
        Err(VErr::StringTooLong(max->0))
    } else {
        match member_str(schema, "pattern"@) {
            Some(p) => if !regex_compiles(p) {
                Err(VErr::InvalidRegex(p))
            } else if !regex_matches(p, s) {
                Err(VErr::PatternMismatch)
            } else {
                Ok(())
            },
            None => Ok(()),
        }
    }
}

/// The bounds on a number.
pub open spec fn number_check(n: int, schema: JsonView) -> Result<(), VErr> {
    let min = member_number(schema, "minimum"@);
    let max = member_number(schema, "maximum"@);
    if min is Some && n < min->0 {
        Err(VErr::NumberTooSmall(min->0))
    } else if max is Some && n > max->0 {
        Err(VErr::NumberTooLarge(max->0))
    } else {
        Ok(())
    }
}

/// The bounds on the length of an array.
pub open spec fn array_size_check(len: int, schema: JsonView) -> Result<(), VErr> {
    let min = member_count(schema, "minItems"@);
    let max = member_count(schema, "maxItems"@);
    if min is Some && len < min->0 {
        Err(VErr::ArrayTooSmall(min->0))
    } else if max is Some && len > max->0 {
        Err(VErr::ArrayTooLarge(max->0))
    } else {
        Ok(())
    }
}

/// The first `required` key missing from the entries `es`.
pub open spec fn required_fold(es: Seq<(Seq<char>, JsonView)>, reqs: Seq<JsonView>) -> Result<(), VErr>
    decreases reqs.len(),
{
    if reqs.len() == 0 {
        Ok(())
    } else {
        match required_fold(es, reqs.drop_last()) {
            Err(e) => Err(e),
            Ok(_) => match vstr(reqs.last()) {
                Some(key) => if entries_get(es, key) is None {
                    Err(VErr::RequiredFieldMissing(key))
                } else {
                    Ok(())
                },
                None => Ok(()),
            },
        }
    }
}

/// A key that `additionalProperties: false` still accepts: a declared property,
/// a key matched by a pattern property, a key starting with `_`, `$schema` or
/// `@context`.
pub open spec fn extra_key_allowed(
    key: Seq<char>,
    defined: Seq<(Seq<char>, JsonView)>,
    pats: Seq<(Seq<char>, JsonView)>,
) -> bool {
    ||| exists|i: int| 0 <= i < defined.len() && #[trigger] defined[i].0 == key
    ||| exists|i: int| 0 <= i < pats.len() && #[trigger] regex_matches(pats[i].0, key)
    ||| has_prefix(key, "_"@)
    ||| key == "$schema"@
    ||| key == "@context"@
}

/// The first of the first `k` entries whose key is not accepted.
pub open spec fn additional_fold(
    es: Seq<(Seq<char>, JsonView)>,
    k: int,
    defined: Seq<(Seq<char>, JsonView)>,
    pats: Seq<(Seq<char>, JsonView)>,
) -> Result<(), VErr>
    decreases k,
{
    if k <= 0 || k > es.len() {
        Ok(())
    } else {
        match additional_fold(es, k - 1, defined, pats) {
            Err(e) => Err(e),
            Ok(_) => if extra_key_allowed(es[k - 1].0, defined, pats) {
                Ok(())
            } else {
                Err(VErr::AdditionalPropertyForbidden(es[k - 1].0))
            },
        }
    }
}

/// The `additionalProperties` rule: only `false` restricts the keys.
pub open spec fn additional_check(es: Seq<(Seq<char>, JsonView)>, schema: JsonView) -> Result<(), VErr> {
    match vget(schema, "additionalProperties"@) {
        Some(ap) => {
            let allowed = match ap {
                JsonView::Bool(b) => b,
                _ => true,
            };
            if allowed {
                Ok(())
            } else {
                additional_fold(
                    es,
                    es.len() as int,
                    member_entries(schema, "properties"@),
                    member_entries(schema, "patternProperties"@),
                )
            }
        },
        None => Ok(()),
    }
}

/// Whether `inst` satisfies `schema`, read in the document `uri`, with `hops`
/// more `$ref` links allowed in a row. The first failure is reported.
pub open spec fn node_check(
    inst: JsonView,
    schema: JsonView,
    ctx: SchemaCtx,
    uri: Seq<char>,
    hops: nat,
) -> Result<(), VErr>
    decreases inst, hops + 5, 0nat, 0nat,
{
    match member_str(schema, "$ref"@) {
        Some(r) => if hops == 0 {
            Err(VErr::RefChainTooLong(r))
        } else {
            match ref_target(ctx, uri, r) {
                Err(e) => Err(e),
                Ok(t) => node_check(inst, t.1, ctx, t.0, (hops - 1) as nat),
            }
        },
        None => match member_str(schema, "type"@) {
            Some(t) => if t == "object"@ {
                if inst is Object {
                    object_check(inst, schema, ctx, uri)
                } else {
                    Err(VErr::TypeMismatch("object"@))
                }
            } else if t == "string"@ {
                match inst {
                    JsonView::Str(text) => string_check(text, schema),
                    _ => Err(VErr::TypeMismatch("string"@)),
                }
            } else if t == "number"@ {
                match inst {
                    JsonView::Number(n) => number_check(n, schema),
                    _ => Err(VErr::TypeMismatch("number"@)),
                }
            } else if t == "integer"@ {
                match inst {
                    JsonView::Number(n) => number_check(n, schema),
                    _ => Err(VErr::TypeMismatch("integer"@)),
                }
            } else if t == "boolean"@ {
                if inst is Bool {
                    Ok(())
                } else {
                    Err(VErr::TypeMismatch("boolean"@))
                }
            } else if t == "array"@ {
                if inst is Array {
                    array_check(inst, schema, ctx, uri)
                } else {
                    Err(VErr::TypeMismatch("array"@))
                }
            } else if t == "null"@ {
                if inst is Null {
                    Ok(())
                } else {
                    Err(VErr::TypeMismatch("null"@))
                }
            } else {
                Ok(())
            },
            None => Ok(()),
        },
    }
}

/// The object rules, in order: `required`, `properties`, `patternProperties`,
/// `additionalProperties`.
pub open spec fn object_check(inst: JsonView, schema: JsonView, ctx: SchemaCtx, uri: Seq<char>) -> Result<
    (),
    VErr,
>
    decreases inst, 4nat, 0nat, 0nat,
{
    match inst {
        JsonView::Object(es) => match required_fold(es, member_list(schema, "required"@)) {
            Err(e) => Err(e),
            Ok(_) => match props_fold(inst, ctx, uri, member_entries(schema, "properties"@)) {
                Err(e) => Err(e),
                Ok(_) => match patterns_fold(
                    inst,
                    ctx,
                    uri,
                    member_entries(schema, "patternProperties"@),
                ) {
                    Err(e) => Err(e),
                    Ok(_) => additional_check(es, schema),
                },
            },
        },
        _ => Ok(()),
    }
}

/// The declared properties, in order: each present member must satisfy its schema.
pub open spec fn props_fold(
    inst: JsonView,
    ctx: SchemaCtx,
    uri: Seq<char>,
    props: Seq<(Seq<char>, JsonView)>,
) -> Result<(), VErr>
    decreases inst, 3nat, props.len(), 0nat,
{
    if props.len() == 0 {
        Ok(())
    } else {
        match props_fold(inst, ctx, uri, props.drop_last()) {
            Err(e) => Err(e),
            Ok(_) => match inst {
                JsonView::Object(es) => {
                    let key = props.last().0;
                    let p = key_pos(es, key);
                    if 0 <= p < es.len() {
                        match node_check(es[p].1, props.last().1, ctx, uri, MAX_REF_HOPS as nat) {
                            Err(e) => Err(VErr::NestedPropertyFail(key, Box::new(e))),
                            Ok(_) => Ok(()),
                        }
                    } else {
                        Ok(())
                    }
                },
                _ => Ok(()),
            },
        }
    }
}

/// The pattern properties, in order: each pattern must compile, and every member
/// whose key it matches must satisfy its schema.
pub open spec fn patterns_fold(
    inst: JsonView,
    ctx: SchemaCtx,
    uri: Seq<char>,
    pats: Seq<(Seq<char>, JsonView)>,
) -> Result<(), VErr>
    decreases inst, 2nat, pats.len(), 0nat,
{
    if pats.len() == 0 {
        Ok(())
    } else {
        match patterns_fold(inst, ctx, uri, pats.drop_last()) {
            Err(e) => Err(e),
            Ok(_) => if !regex_compiles(pats.last().0) {
                Err(VErr::InvalidPatternProperty(pats.last().0))
            } else {
                match inst {
                    JsonView::Object(es) => keys_fold(
                        inst,
                        ctx,
                        uri,
                        pats.last().0,
                        pats.last().1,
                        es.len() as int,
                    ),
                    _ => Ok(()),
                }
            },
        }
    }
}

/// The first `k` members whose key `pattern` matches must satisfy `sub`.
pub open spec fn keys_fold(
    inst: JsonView,
    ctx: SchemaCtx,
    uri: Seq<char>,
    pattern: Seq<char>,
    sub: JsonView,
    k: int,
) -> Result<(), VErr>
    decreases inst, 1nat, k, 0nat,
{
    if k <= 0 {
        Ok(())
    } else {
        match keys_fold(inst, ctx, uri, pattern, sub, k - 1) {
            Err(e) => Err(e),
            Ok(_) => match inst {
                JsonView::Object(es) => if k <= es.len() && regex_matches(pattern, es[k - 1].0) {
                    match node_check(es[k - 1].1, sub, ctx, uri, MAX_REF_HOPS as nat) {
                        Err(e) => Err(VErr::PatternPropertyFail(es[k - 1].0, Box::new(e))),
                        Ok(_) => Ok(()),
                    }
                } else {
                    Ok(())
                },
                _ => Ok(()),
            },
        }
    }
}

/// The array rules: `minItems`, `maxItems`, then an object `items` schema for
/// every item.
pub open spec fn array_check(inst: JsonView, schema: JsonView, ctx: SchemaCtx, uri: Seq<char>) -> Result<
    (),
    VErr,
>
    decreases inst, 4nat, 0nat, 0nat,
{
    match inst {
        JsonView::Array(items) => match array_size_check(items.len() as int, schema) {
            Err(e) => Err(e),
            Ok(_) => match vget(schema, "items"@) {
                Some(item_schema) => if item_schema is Object {
                    items_fold(inst, item_schema, ctx, uri, items.len() as int)
                } else {
                    Ok(())
                },
                None => Ok(()),
            },
        },
        _ => Ok(()),
    }
}

/// The first `k` items must satisfy `item_schema`.
pub open spec fn items_fold(
    inst: JsonView,
    item_schema: JsonView,
    ctx: SchemaCtx,
    uri: Seq<char>,
    k: int,
) -> Result<(), VErr>
    decreases inst, 1nat, k, 0nat,
{
    if k <= 0 {
        Ok(())
    } else {
        match items_fold(inst, item_schema, ctx, uri, k - 1) {
            Err(e) => Err(e),
            Ok(_) => match inst {
                JsonView::Array(items) => if k <= items.len() {
                    match node_check(items[k - 1], item_schema, ctx, uri, MAX_REF_HOPS as nat) {
                        Err(e) => Err(VErr::ArrayItemFail(k - 1, Box::new(e))),
                        Ok(_) => Ok(()),
                    }
                } else {
                    Ok(())
                },
                _ => Ok(()),
            },
        }
    }
}

// ---------------------------------------------------------------------------
// Validation: a failure found early is the answer
// ---------------------------------------------------------------------------

proof fn lemma_required_err(es: Seq<(Seq<char>, JsonView)>, reqs: Seq<JsonView>, k: int)
    requires
        0 <= k <= reqs.len(),
        required_fold(es, reqs.take(k)) is Err,
    ensures
        required_fold(es, reqs) == required_fold(es, reqs.take(k)),
    decreases reqs.len() - k,
{
    if k < reqs.len() {
        assert(reqs.take(k + 1).drop_last() =~= reqs.take(k));
        lemma_required_err(es, reqs, k + 1);
    } else {
        assert(reqs.take(k) =~= reqs);
    }
}

proof fn lemma_props_err(inst: JsonView, ctx: SchemaCtx, uri: Seq<char>, props: Seq<(Seq<char>, JsonView)>, k: int)
    requires
        0 <= k <= props.len(),
        props_fold(inst, ctx, uri, props.take(k)) is Err,
    ensures
        props_fold(inst, ctx, uri, props) == props_fold(inst, ctx, uri, props.take(k)),
    decreases props.len() - k,
{
    if k < props.len() {
        assert(props.take(k + 1).drop_last() =~= props.take(k));
        lemma_props_err(inst, ctx, uri, props, k + 1);
    } else {
        assert(props.take(k) =~= props);
    }
}

proof fn lemma_patterns_err(inst: JsonView, ctx: SchemaCtx, uri: Seq<char>, pats: Seq<(Seq<char>, JsonView)>, k: int)
    requires
        0 <= k <= pats.len(),
        patterns_fold(inst, ctx, uri, pats.take(k)) is Err,
    ensures
        patterns_fold(inst, ctx, uri, pats) == patterns_fold(inst, ctx, uri, pats.take(k)),
    decreases pats.len() - k,
{
    if k < pats.len() {
        assert(pats.take(k + 1).drop_last() =~= pats.take(k));
        lemma_patterns_err(inst, ctx, uri, pats, k + 1);
    } else {
        assert(pats.take(k) =~= pats);
    }
}

proof fn lemma_keys_err(
    inst: JsonView,
    ctx: SchemaCtx,
    uri: Seq<char>,
    pattern: Seq<char>,
    sub: JsonView,
    k: int,
    m: int,
)
    requires
        0 <= k <= m,
        keys_fold(inst, ctx, uri, pattern, sub, k) is Err,
    ensures
        keys_fold(inst, ctx, uri, pattern, sub, m) == keys_fold(inst, ctx, uri, pattern, sub, k),
    decreases m - k,
{
    if k < m {
        lemma_keys_err(inst, ctx, uri, pattern, sub, k, m - 1);
    }
}

proof fn lemma_items_err(inst: JsonView, item_schema: JsonView, ctx: SchemaCtx, uri: Seq<char>, k: int, m: int)
    requires
        0 <= k <= m,
        items_fold(inst, item_schema, ctx, uri, k) is Err,
    ensures
        items_fold(inst, item_schema, ctx, uri, m) == items_fold(inst, item_schema, ctx, uri, k),
    decreases m - k,
{
    if k < m {
        lemma_items_err(inst, item_schema, ctx, uri, k, m - 1);
    }
}

proof fn lemma_additional_err(
    es: Seq<(Seq<char>, JsonView)>,
    defined: Seq<(Seq<char>, JsonView)>,
    pats: Seq<(Seq<char>, JsonView)>,
    k: int,
    m: int,
)
    requires
        0 <= k <= m <= es.len(),
        additional_fold(es, k, defined, pats) is Err,
    ensures
        additional_fold(es, m, defined, pats) == additional_fold(es, k, defined, pats),
    decreases m - k,
{
    if k < m {
        lemma_additional_err(es, defined, pats, k, m - 1);
    }
}

// ---------------------------------------------------------------------------
// Validation: the checks
// ---------------------------------------------------------------------------

/// A non-negative number member.
fn get_count(j: &JsonValue, k: &str) -> (r: Option<u64>)
    ensures
        match r {
            Some(n) => member_count(j@, k@) == Some(n as int),
            None => member_count(j@, k@) is None,
        },
{
    match j.get(k) {
        Some(v) => v.as_u64(),
        None => None,
    }
}

/// A number member.
fn get_number(j: &JsonValue, k: &str) -> (r: Option<i64>)
    ensures
        match r {
            Some(n) => member_number(j@, k@) == Some(n as int),
            None => member_number(j@, k@) is None,
        },
{
    match j.get(k) {
        Some(v) => v.as_i64(),
        None => None,
    }
}

/// The entries of an object member (empty when there is none).
fn get_entries<'a>(j: &'a JsonValue, k: &str) -> (r: Option<&'a Vec<(String, JsonValue)>>)
    ensures
        match r {
            Some(es) => member_entries(j@, k@) == jview_entries(es@),
            None => member_entries(j@, k@) == Seq::<(Seq<char>, JsonView)>::empty(),
        },
{
    match j.get(k) {
        Some(v) => v.as_object(),
        None => None,
    }
}

/// The string rules (`minLength`, `maxLength`, `pattern`).
fn validate_string(s: &str, schema: &JsonValue) -> (r: Result<(), ValidationError>)
    ensures
        outcome(r) == string_check(s@, schema@),
{
    let n = s.unicode_len() as u64;
    match get_count(schema, "minLength") {
        Some(min) => if n < min {
            return Err(ValidationError::StringTooShort(min));
        },
        None => {},
    }
    match get_count(schema, "maxLength") {
        Some(max) => if n > max {
            return Err(ValidationError::StringTooLong(max));
        },
        None => {},
    }
    match schema.get("pattern") {
        Some(pv) => match pv.as_str() {
            Some(p) => match TextPattern::new(p) {
                Some(re) => if !re.is_match(s) {
                    Err(ValidationError::PatternMismatch)
                } else {
                    Ok(())
                },
                None => Err(ValidationError::InvalidRegex(owned(p))),
            },
            None => Ok(()),
        },
        None => Ok(()),
    }
}

/// The number rules (`minimum`, `maximum`).
fn validate_number(n: i64, schema: &JsonValue) -> (r: Result<(), ValidationError>)
    ensures
        outcome(r) == number_check(n as int, schema@),
{
    match get_number(schema, "minimum") {
        Some(min) => if n < min {
            return Err(ValidationError::NumberTooSmall(min));
        },
        None => {},
    }
    match get_number(schema, "maximum") {
        Some(max) => if n > max {
            return Err(ValidationError::NumberTooLarge(max));
        },
        None => {},
    }
    Ok(())
}

/// Whether `key` is accepted next to the declared properties `defined` and the
/// compiled pattern properties.
fn extra_key_allowed_exec(
    key: &str,
    defined: &Vec<(String, JsonValue)>,
    compiled: &Vec<TextPattern>,
    Ghost(pats): Ghost<Seq<(Seq<char>, JsonView)>>,
) -> (b: bool)
    requires
        compiled@.len() == pats.len(),
        forall|i: int| 0 <= i < pats.len() ==> #[trigger] compiled@[i]@ == pats[i].0,
    ensures
        b == extra_key_allowed(key@, jview_entries(defined@), pats),
{
    let ghost dv = jview_entries(defined@);
    proof {
        lemma_jview_entries(defined@);
    }
    let mut i: usize = 0;
    while i < defined.len()
        invariant
            i <= defined@.len(),
            dv == jview_entries(defined@),
            dv.len() == defined@.len(),
            forall|j: int| 0 <= j < defined@.len() ==> #[trigger] dv[j] == (defined@[j].0@, defined@[j].1@),
            forall|j: int| 0 <= j < i ==> dv[j].0 != key@,
        decreases defined@.len() - i,
    {
        if str_eq(defined[i].0.as_str(), key) {
            assert(dv[i as int].0 == key@);
            return true;
        }
        i = i + 1;
    }
    let mut j: usize = 0;
    while j < compiled.len()
        invariant
            j <= compiled@.len(),
            compiled@.len() == pats.len(),
            forall|i: int| 0 <= i < pats.len() ==> #[trigger] compiled@[i]@ == pats[i].0,
            forall|i: int| 0 <= i < j ==> !regex_matches(#[trigger] pats[i].0, key@),
        decreases compiled@.len() - j,
    {
        if compiled[j].is_match(key) {
            assert(regex_matches(pats[j as int].0, key@));
            return true;
        }
        j = j + 1;
    }
    proof {
        assert forall|i: int| 0 <= i < dv.len() implies !(#[trigger] dv[i].0 == key@) by {}
    }
    starts_with(key, "_") || str_eq(key, "$schema") || str_eq(key, "@context")
}

/// The schema that the `$ref` text `r` designates, with the URI of its document.
fn resolve_ref<'a>(reg: &'a SchemaRegistry, uri: &str, r: &str) -> (res: Result<
    (String, &'a JsonValue),
    ValidationError,
>)
    ensures
        match res {
            Ok(t) => ref_target(reg.ctx(), uri@, r@) == Ok::<(Seq<char>, JsonView), VErr>((t.0@, t.1@)),
            Err(e) => ref_target(reg.ctx(), uri@, r@) == Err::<(Seq<char>, JsonView), VErr>(e@),
        },
{
    let split: (String, Option<String>) = if starts_with(r, "#") {
        (owned(uri), Some(owned(r)))
    } else {
        let resolved = resolve_path_uri(uri, r);
        split_uri_fragment(resolved.as_str())
    };
    let file = split.0;
    let root = match reg.get_by_uri(file.as_str()) {
        Some(t) => t,
        None => {
            return Err(ValidationError::RefNotFound(file));
        },
    };
    match split.1 {
        Some(frag) => {
            proof {
                reveal_strlit("#");
            }
            let ptr = replace_all(frag.as_str(), "#", "");
            proof {
                reveal_strlit("");
                assert(""@ =~= Seq::<char>::empty());
            }
            match root.pointer(ptr.as_str()) {
                Some(t) => Ok((file, t)),
                None => Err(ValidationError::PointerNotFound(ptr, file)),
            }
        },
        None => Ok((file, root)),
    }
}

/// Validates `inst` against `schema`, read in the document `uri`, with `hops`
/// more `$ref` links allowed in a row.
fn validate_node(
    inst: &JsonValue,
    schema: &JsonValue,
    reg: &SchemaRegistry,
    uri: &str,
    hops: usize,
) -> (r: Result<(), ValidationError>)
    ensures
        outcome(r) == node_check(inst@, schema@, reg.ctx(), uri@, hops as nat),
    decreases inst@, hops + 5, 0nat, 0nat,
{
    match schema.get("$ref") {
        Some(rv) => match rv.as_str() {
            Some(r) => {
                if hops == 0 {
                    return Err(ValidationError::RefChainTooLong(owned(r)));
                }
                let target = resolve_ref(reg, uri, r);
                return match target {
                    Err(e) => Err(e),
                    Ok(t) => validate_node(inst, t.1, reg, t.0.as_str(), hops - 1),
                };
            },
            None => {},
        },
        None => {},
    }
    let t = match schema.get("type") {
        Some(tv) => match tv.as_str() {
            Some(t) => t,
            None => {
                return Ok(());
            },
        },
        None => {
            return Ok(());
        },
    };
    if str_eq(t, "object") {
        if inst.is_object() {
            validate_object(inst, schema, reg, uri)
        } else {
            Err(ValidationError::TypeMismatch(owned("object")))
        }
    } else if str_eq(t, "string") {
        match inst.as_str() {
            Some(text) => validate_string(text, schema),
            None => Err(ValidationError::TypeMismatch(owned("string"))),
        }
    } else if str_eq(t, "number") {
        match inst.as_i64() {
            Some(n) => validate_number(n, schema),
            None => Err(ValidationError::TypeMismatch(owned("number"))),
        }
    } else if str_eq(t, "integer") {
        match inst.as_i64() {
            Some(n) => validate_number(n, schema),
            None => Err(ValidationError::TypeMismatch(owned("integer"))),
        }
    } else if str_eq(t, "boolean") {
        if inst.is_boolean() {
            Ok(())
        } else {
            Err(ValidationError::TypeMismatch(owned("boolean")))
        }
    } else if str_eq(t, "array") {
        if inst.is_array() {
            validate_array(inst, schema, reg, uri)
        } else {
            Err(ValidationError::TypeMismatch(owned("array")))
        }
    } else if str_eq(t, "null") {
        if inst.is_null() {
            Ok(())
        } else {
            Err(ValidationError::TypeMismatch(owned("null")))
        }
    } else {
        Ok(())
    }
}

/// The array rules.
fn validate_array(inst: &JsonValue, schema: &JsonValue, reg: &SchemaRegistry, uri: &str) -> (r: Result<
    (),
    ValidationError,
>)
    ensures
        outcome(r) == array_check(inst@, schema@, reg.ctx(), uri@),
    decreases inst@, 4nat, 0nat, 0nat,
{
    let items = match inst {
        JsonValue::Array(items) => items,
        _ => {
            return Ok(());
        },
    };
    proof {
        lemma_jview_items(items@);
    }
    let ghost iv = jview_items(items@);
    let n = items.len() as u64;
    assert(n == iv.len());
    match get_count(schema, "minItems") {
        Some(min) => if n < min {
            return Err(ValidationError::ArrayTooSmall(min));
        },
        None => {},
    }
    match get_count(schema, "maxItems") {
        Some(max) => if n > max {
            return Err(ValidationError::ArrayTooLarge(max));
        },
        None => {},
    }
    assert(array_size_check(iv.len() as int, schema@) is Ok);
    let item_schema = match schema.get("items") {
        Some(s) => s,
        None => {
            return Ok(());
        },
    };
    if !item_schema.is_object() {
        return Ok(());
    }
    validate_items(inst, items, item_schema, reg, uri)
}

/// Every item must satisfy `item_schema`.
fn validate_items(
    inst: &JsonValue,
    items: &Vec<JsonValue>,
    item_schema: &JsonValue,
    reg: &SchemaRegistry,
    uri: &str,
) -> (r: Result<(), ValidationError>)
    requires
        inst@ == JsonView::Array(jview_items(items@)),
    ensures
        outcome(r) == items_fold(inst@, item_schema@, reg.ctx(), uri@, items@.len() as int),
    decreases inst@, 2nat, 0nat, 0nat,
{
    proof {
        lemma_jview_items(items@);
    }
    let ghost iv = jview_items(items@);
    let ghost ctx = reg.ctx();
    let mut k: usize = 0;
    while k < items.len()
        invariant
            k <= items@.len(),
            inst@ == JsonView::Array(iv),
            iv == jview_items(items@),
            iv.len() == items@.len(),
            forall|j: int| 0 <= j < items@.len() ==> #[trigger] iv[j] == items@[j]@,
            ctx == reg.ctx(),
            items_fold(inst@, item_schema@, ctx, uri@, k as int) is Ok,
        decreases items@.len() - k,
    {
        proof {
            assert(decreases_to!(inst@ => iv));
            assert(decreases_to!(iv => iv[k as int]));
        }
        match validate_node(&items[k], item_schema, reg, uri, MAX_REF_HOPS) {
            Err(e) => {
                let err = ValidationError::ArrayItemFail(k, Box::new(e));
                proof {
                    assert(items_fold(inst@, item_schema@, ctx, uri@, k + 1) == Err::<(), VErr>(
                        err@,
                    ));
                    lemma_items_err(inst@, item_schema@, ctx, uri@, k + 1, iv.len() as int);
                }
                return Err(err);
            },
            Ok(_) => {},
        }
        k = k + 1;
    }
    Ok(())
}

/// The `required` rule.
fn validate_required(es: &Vec<(String, JsonValue)>, schema: &JsonValue) -> (r: Result<(), ValidationError>)
    ensures
        outcome(r) == required_fold(jview_entries(es@), member_list(schema@, "required"@)),
{
    let ghost ev = jview_entries(es@);
    let ghost reqv = member_list(schema@, "required"@);
    let reqs = match schema.get("required") {
        Some(rv) => match rv.as_array() {
            Some(reqs) => reqs,
            None => {
                return Ok(());
            },
        },
        None => {
            return Ok(());
        },
    };
    proof {
        lemma_jview_items(reqs@);
        assert(reqv.take(0) =~= Seq::<JsonView>::empty());
    }
    let mut i: usize = 0;
    while i < reqs.len()
        invariant
            i <= reqs@.len(),
            reqv == jview_items(reqs@),
            reqv.len() == reqs@.len(),
            forall|j: int| 0 <= j < reqs@.len() ==> #[trigger] reqv[j] == reqs@[j]@,
            ev == jview_entries(es@),
            reqv == member_list(schema@, "required"@),
            required_fold(ev, reqv.take(i as int)) is Ok,
        decreases reqs@.len() - i,
    {
        assert(reqv.take(i as int + 1).drop_last() =~= reqv.take(i as int));
        assert(reqv.take(i as int + 1).last() == reqv[i as int]);
        match reqs[i].as_str() {
            Some(key) => {
                let found = find_key(es, key);
                proof {
                    lemma_key_pos(ev, key@);
                    assert(vstr(reqv[i as int]) == Some(key@));
                }
                if found.is_none() {
                    let err = ValidationError::RequiredFieldMissing(owned(key));
                    proof {
                        assert(entries_get(ev, key@) is None);
                        assert(required_fold(ev, reqv.take(i as int)) is Ok);
                        assert(required_fold(ev, reqv.take(i as int + 1)) == Err::<(), VErr>(err@));
                        lemma_required_err(ev, reqv, i as int + 1);
                    }
                    return Err(err);
                }
                assert(entries_get(ev, key@) is Some);
            },
            None => {},
        }
        i = i + 1;
    }
    assert(reqv.take(reqs@.len() as int) =~= reqv);
    Ok(())
}

/// The `properties` rule: each present member must satisfy its schema.
fn validate_properties(
    inst: &JsonValue,
    es: &Vec<(String, JsonValue)>,
    defined: &Vec<(String, JsonValue)>,
    reg: &SchemaRegistry,
    uri: &str,
) -> (r: Result<(), ValidationError>)
    requires
        inst@ == JsonView::Object(jview_entries(es@)),
    ensures
        outcome(r) == props_fold(inst@, reg.ctx(), uri@, jview_entries(defined@)),
    decreases inst@, 3nat, 0nat, 0nat,
{
    proof {
        lemma_jview_entries(es@);
        lemma_jview_entries(defined@);
    }
    let ghost ev = jview_entries(es@);
    let ghost propv = jview_entries(defined@);
    let ghost ctx = reg.ctx();
    assert(propv.take(0) =~= Seq::<(Seq<char>, JsonView)>::empty());
    let mut i: usize = 0;
    while i < defined.len()
        invariant
            i <= defined@.len(),
            propv == jview_entries(defined@),
            propv.len() == defined@.len(),
            forall|j: int|
                0 <= j < defined@.len() ==> #[trigger] propv[j] == (defined@[j].0@, defined@[j].1@),
            inst@ == JsonView::Object(ev),
            ev == jview_entries(es@),
            ev.len() == es@.len(),
            forall|j: int| 0 <= j < es@.len() ==> #[trigger] ev[j] == (es@[j].0@, es@[j].1@),
            ctx == reg.ctx(),
            props_fold(inst@, ctx, uri@, propv.take(i as int)) is Ok,
        decreases defined@.len() - i,
    {
        assert(propv.take(i as int + 1).drop_last() =~= propv.take(i as int));
        assert(propv.take(i as int + 1).last() == propv[i as int]);
        let key = &defined[i].0;
        match find_key(es, key.as_str()) {
            Some(p) => {
                proof {
                    assert(decreases_to!(inst@ => ev));
                    assert(decreases_to!(ev => ev[p as int]));
                    assert(decreases_to!(ev[p as int] => ev[p as int].1));
                }
                match validate_node(&es[p].1, &defined[i].1, reg, uri, MAX_REF_HOPS) {
                    Err(e) => {
                        let err = ValidationError::NestedPropertyFail(key.clone(), Box::new(e));
                        proof {
                            assert(props_fold(inst@, ctx, uri@, propv.take(i as int + 1)) == Err::<
                                (),
                                VErr,
                            >(err@));
                            lemma_props_err(inst@, ctx, uri@, propv, i as int + 1);
                        }
                        return Err(err);
                    },
                    Ok(_) => {},
                }
            },
            None => {},
        }
        i = i + 1;
    }
    assert(propv.take(defined@.len() as int) =~= propv);
    Ok(())
}

/// One pattern property: every member whose key `re` matches must satisfy `sub`.
fn validate_pattern_keys(
    inst: &JsonValue,
    es: &Vec<(String, JsonValue)>,
    re: &TextPattern,
    sub: &JsonValue,
    reg: &SchemaRegistry,
    uri: &str,
) -> (r: Result<(), ValidationError>)
    requires
        inst@ == JsonView::Object(jview_entries(es@)),
    ensures
        outcome(r) == keys_fold(inst@, reg.ctx(), uri@, re@, sub@, es@.len() as int),
    decreases inst@, 1nat, 0nat, 0nat,
{
    proof {
        lemma_jview_entries(es@);
    }
    let ghost ev = jview_entries(es@);
    let ghost ctx = reg.ctx();
    let mut k: usize = 0;
    while k < es.len()
        invariant
            k <= es@.len(),
            inst@ == JsonView::Object(ev),
            ev == jview_entries(es@),
            ev.len() == es@.len(),
            forall|j: int| 0 <= j < es@.len() ==> #[trigger] ev[j] == (es@[j].0@, es@[j].1@),
            ctx == reg.ctx(),
            keys_fold(inst@, ctx, uri@, re@, sub@, k as int) is Ok,
        decreases es@.len() - k,
    {
        if re.is_match(es[k].0.as_str()) {
            proof {
                assert(decreases_to!(inst@ => ev));
                assert(decreases_to!(ev => ev[k as int]));
                assert(decreases_to!(ev[k as int] => ev[k as int].1));
            }
            match validate_node(&es[k].1, sub, reg, uri, MAX_REF_HOPS) {
                Err(e) => {
                    let err = ValidationError::PatternPropertyFail(es[k].0.clone(), Box::new(e));
                    proof {
                        assert(keys_fold(inst@, ctx, uri@, re@, sub@, k + 1) == Err::<(), VErr>(
                            err@,
                        ));
                        lemma_keys_err(inst@, ctx, uri@, re@, sub@, k + 1, ev.len() as int);
                    }
                    return Err(err);
                },
                Ok(_) => {},
            }
        }
        k = k + 1;
    }
    Ok(())
}

/// The `patternProperties` rule; on success, the compiled patterns in order.
fn validate_patterns(
    inst: &JsonValue,
    es: &Vec<(String, JsonValue)>,
    pats: &Vec<(String, JsonValue)>,
    reg: &SchemaRegistry,
    uri: &str,
) -> (r: Result<Vec<TextPattern>, ValidationError>)
    requires
        inst@ == JsonView::Object(jview_entries(es@)),
    ensures
        match r {
            Ok(compiled) => {
                &&& patterns_fold(inst@, reg.ctx(), uri@, jview_entries(pats@)) is Ok
                &&& compiled@.len() == pats@.len()
                &&& forall|j: int| 0 <= j < pats@.len() ==> #[trigger] compiled@[j]@ == pats@[j].0@
            },
            Err(e) => patterns_fold(inst@, reg.ctx(), uri@, jview_entries(pats@)) == Err::<(), VErr>(
                e@,
            ),
        },
    decreases inst@, 2nat, 0nat, 0nat,
{
    proof {
        lemma_jview_entries(pats@);
    }
    let ghost patv = jview_entries(pats@);
    let ghost ctx = reg.ctx();
    assert(patv.take(0) =~= Seq::<(Seq<char>, JsonView)>::empty());
    let mut compiled: Vec<TextPattern> = Vec::new();
    let mut i: usize = 0;
    while i < pats.len()
        invariant
            i <= pats@.len(),
            patv == jview_entries(pats@),
            patv.len() == pats@.len(),
            forall|j: int| 0 <= j < pats@.len() ==> #[trigger] patv[j] == (pats@[j].0@, pats@[j].1@),
            inst@ == JsonView::Object(jview_entries(es@)),
            ctx == reg.ctx(),
            patterns_fold(inst@, ctx, uri@, patv.take(i as int)) is Ok,
            compiled@.len() == i,
            forall|j: int| 0 <= j < i ==> #[trigger] compiled@[j]@ == pats@[j].0@,
        decreases pats@.len() - i,
    {
        assert(patv.take(i as int + 1).drop_last() =~= patv.take(i as int));
        assert(patv.take(i as int + 1).last() == patv[i as int]);
        let re = match TextPattern::new(pats[i].0.as_str()) {
            Some(re) => re,
            None => {
                let err = ValidationError::InvalidPatternProperty(pats[i].0.clone());
                proof {
                    assert(patterns_fold(inst@, ctx, uri@, patv.take(i as int + 1)) == Err::<
                        (),
                        VErr,
                    >(err@));
                    lemma_patterns_err(inst@, ctx, uri@, patv, i as int + 1);
                }
                return Err(err);
            },
        };
        match validate_pattern_keys(inst, es, &re, &pats[i].1, reg, uri) {
            Err(e) => {
                proof {
                    lemma_jview_entries(es@);
                    assert(patterns_fold(inst@, ctx, uri@, patv.take(i as int + 1)) == Err::<
                        (),
                        VErr,
                    >(e@));
                    lemma_patterns_err(inst@, ctx, uri@, patv, i as int + 1);
                }
                return Err(e);
            },
            Ok(_) => {
                proof {
                    lemma_jview_entries(es@);
                }
            },
        }
        compiled.push(re);
        i = i + 1;
    }
    assert(patv.take(pats@.len() as int) =~= patv);
    Ok(compiled)
}

/// The `additionalProperties` rule.
fn validate_additional(
    es: &Vec<(String, JsonValue)>,
    schema: &JsonValue,
    defined: &Vec<(String, JsonValue)>,
    compiled: &Vec<TextPattern>,
    Ghost(patv): Ghost<Seq<(Seq<char>, JsonView)>>,
) -> (r: Result<(), ValidationError>)
    requires
        member_entries(schema@, "properties"@) == jview_entries(defined@),
        member_entries(schema@, "patternProperties"@) == patv,
        compiled@.len() == patv.len(),
        forall|j: int| 0 <= j < patv.len() ==> #[trigger] compiled@[j]@ == patv[j].0,
    ensures
        outcome(r) == additional_check(jview_entries(es@), schema@),
{
    proof {
        lemma_jview_entries(es@);
    }
    let ghost ev = jview_entries(es@);
    let ghost propv = jview_entries(defined@);
    let ap = match schema.get("additionalProperties") {
        Some(ap) => ap,
        None => {
            return Ok(());
        },
    };
    let allowed = match ap.as_bool() {
        Some(b) => b,
        None => true,
    };
    if allowed {
        return Ok(());
    }
    assert(additional_check(ev, schema@) == additional_fold(ev, ev.len() as int, propv, patv));
    let mut k: usize = 0;
    while k < es.len()
        invariant
            additional_check(ev, schema@) == additional_fold(ev, ev.len() as int, propv, patv),
            k <= es@.len(),
            ev == jview_entries(es@),
            ev.len() == es@.len(),
            forall|j: int| 0 <= j < es@.len() ==> #[trigger] ev[j] == (es@[j].0@, es@[j].1@),
            propv == jview_entries(defined@),
            compiled@.len() == patv.len(),
            forall|j: int| 0 <= j < patv.len() ==> #[trigger] compiled@[j]@ == patv[j].0,
            additional_fold(ev, k as int, propv, patv) is Ok,
        decreases es@.len() - k,
    {
        if !extra_key_allowed_exec(es[k].0.as_str(), defined, compiled, Ghost(patv)) {
            let err = ValidationError::AdditionalPropertyForbidden(es[k].0.clone());
            proof {
                assert(additional_fold(ev, k + 1, propv, patv) == Err::<(), VErr>(err@));
                lemma_additional_err(ev, propv, patv, k + 1, ev.len() as int);
            }
            return Err(err);
        }
        k = k + 1;
    }
    Ok(())
}

/// The object rules, in order: `required`, `properties`, `patternProperties`,
/// `additionalProperties`.
fn validate_object(inst: &JsonValue, schema: &JsonValue, reg: &SchemaRegistry, uri: &str) -> (r: Result<
    (),
    ValidationError,
>)
    ensures
        outcome(r) == object_check(inst@, schema@, reg.ctx(), uri@),
    decreases inst@, 4nat, 0nat, 0nat,
{
    let es = match inst {
        JsonValue::Object(es) => es,
        _ => {
            return Ok(());
        },
    };
    match validate_required(es, schema) {
        Err(e) => {
            return Err(e);
        },
        Ok(_) => {},
    }
    let empty_defined: Vec<(String, JsonValue)> = Vec::new();
    let defined: &Vec<(String, JsonValue)> = match get_entries(schema, "properties") {
        Some(props) => props,
        None => &empty_defined,
    };
    proof {
        lemma_jview_entries(empty_defined@);
        assert(jview_entries(empty_defined@) =~= Seq::<(Seq<char>, JsonView)>::empty());
    }
    match validate_properties(inst, es, defined, reg, uri) {
        Err(e) => {
            return Err(e);
        },
        Ok(_) => {},
    }
    let empty_pats: Vec<(String, JsonValue)> = Vec::new();
    let pats: &Vec<(String, JsonValue)> = match get_entries(schema, "patternProperties") {
        Some(ps) => ps,
        None => &empty_pats,
    };
    proof {
        lemma_jview_entries(empty_pats@);
        assert(jview_entries(empty_pats@) =~= Seq::<(Seq<char>, JsonView)>::empty());
        lemma_jview_entries(pats@);
    }
    let ghost patv = jview_entries(pats@);
    let compiled = match validate_patterns(inst, es, pats, reg, uri) {
        Err(e) => {
            return Err(e);
        },
        Ok(c) => c,
    };
    assert forall|j: int| 0 <= j < patv.len() implies #[trigger] compiled@[j]@ == patv[j].0 by {
        assert(patv[j] == (pats@[j].0@, pats@[j].1@));
    }
    validate_additional(es, schema, defined, &compiled, Ghost(patv))
}

// ---------------------------------------------------------------------------
// The validator
// ---------------------------------------------------------------------------

impl SchemaRegistry {
    /// A copy of this registry.
    pub fn duplicate(&self) -> (r: SchemaRegistry)
        ensures
            r.ctx() == self.ctx(),
            r.prefix() == self.prefix(),
    {
        let mut by_uri: Vec<(String, JsonValue)> = Vec::new();
        let mut i: usize = 0;
        while i < self.by_uri.len()
            invariant
                i <= self.by_uri@.len(),
                by_uri@.len() == i,
                forall|j: int|
                    0 <= j < i ==> (#[trigger] by_uri@[j]).0@ == self.by_uri@[j].0@ && by_uri@[j].1@
                        == self.by_uri@[j].1@,
            decreases self.by_uri@.len() - i,
        {
            by_uri.push((self.by_uri[i].0.clone(), self.by_uri[i].1.duplicate()));
            i = i + 1;
        }
        let mut mounts: Vec<(String, String)> = Vec::new();
        let mut k: usize = 0;
        while k < self.mount_points.len()
            invariant
                k <= self.mount_points@.len(),
                mounts@.len() == k,
                forall|j: int|
                    0 <= j < k ==> (#[trigger] mounts@[j]).0@ == self.mount_points@[j].0@
                        && mounts@[j].1@ == self.mount_points@[j].1@,
            decreases self.mount_points@.len() - k,
        {
            mounts.push((self.mount_points[k].0.clone(), self.mount_points[k].1.clone()));
            k = k + 1;
        }
        proof {
            use_type_invariant(self);
            assert(keys_of(by_uri@) =~= keys_of(self.by_uri@));
        }
        let r = SchemaRegistry {
            by_uri,
            base_prefix: self.base_prefix.clone(),
            mount_points: mounts,
        };
        proof {
            lemma_assoc_pos_same_keys(r.by_uri@, self.by_uri@);
            assert forall|k: Seq<char>| #[trigger] r.ctx().schemas.contains_key(k) implies r.ctx().schemas[k]
                == self.ctx().schemas[k] by {
                lemma_assoc_pos(self.by_uri@, k);
            }
            assert(r.ctx().schemas =~= self.ctx().schemas);
            assert(r.ctx().mounts =~= self.ctx().mounts);
        }
        r
    }
}

/// A schema bound to its registry, ready to validate instances.
pub struct SchemaValidator {
    root_uri: String,
    schema: JsonValue,
    reg: SchemaRegistry,
}

impl SchemaValidator {
    /// The URI of the root schema.
    pub closed spec fn root(&self) -> Seq<char> {
        self.root_uri@
    }

    /// The root schema.
    pub closed spec fn root_schema(&self) -> JsonView {
        self.schema@
    }

    /// The registry that references are resolved in.
    pub closed spec fn ctx(&self) -> SchemaCtx {
        self.reg.ctx()
    }

    /// Binds the schema found for `root_uri` in `reg`; refused when the registry
    /// has none.
    pub fn compile_with_registry(root_uri: &str, reg: &SchemaRegistry) -> (r: Result<
        SchemaValidator,
        ValidationError,
    >)
        ensures
            match r {
                Ok(v) => {
                    &&& lookup_schema(reg.ctx(), root_uri@) == Some(v.root_schema())
                    &&& v.root() == root_uri@
                    &&& v.ctx() == reg.ctx()
                },
                Err(e) => {
                    &&& lookup_schema(reg.ctx(), root_uri@) is None
                    &&& e@ == VErr::SchemaNotInRegistry(root_uri@)
                },
            },
    {
        match reg.get_by_uri(root_uri) {
            Some(schema) => Ok(
                SchemaValidator {
                    root_uri: owned(root_uri),
                    schema: schema.duplicate(),
                    reg: reg.duplicate(),
                },
            ),
            None => Err(ValidationError::SchemaNotInRegistry(owned(root_uri))),
        }
    }

    /// Validates `instance` against the root schema (see `node_check`).
    pub fn validate(&self, instance: &JsonValue) -> (r: Result<(), ValidationError>)
        ensures
            outcome(r) == node_check(
                instance@,
                self.root_schema(),
                self.ctx(),
                self.root(),
                MAX_REF_HOPS as nat,
            ),
    {
        validate_node(instance, &self.schema, &self.reg, self.root_uri.as_str(), MAX_REF_HOPS)
    }
}

/// Law: a schema registered under a URI is the one found for that URI.
pub proof fn law_registered_schema_is_found(ctx: SchemaCtx, uri: Seq<char>, schema: JsonView)
    ensures
        lookup_schema(SchemaCtx { schemas: ctx.schemas.insert(uri, schema), mounts: ctx.mounts }, uri)
            == Some(schema),
{
}

/// Law: an instance whose type differs from a schema's `type` is refused with a
/// type mismatch, before any other rule is read.
pub proof fn law_string_schema_refuses_non_strings(
    inst: JsonView,
    schema: JsonView,
    ctx: SchemaCtx,
    uri: Seq<char>,
    hops: nat,
)
    requires
        member_str(schema, "$ref"@) is None,
        member_str(schema, "type"@) == Some("string"@),
        !(inst is Str),
    ensures
        node_check(inst, schema, ctx, uri, hops) == Err::<(), VErr>(VErr::TypeMismatch("string"@)),
{
    reveal_strlit("string");
    reveal_strlit("object");
    assert("string"@[0] != "object"@[0]);
}

/// Law: validation follows a `$ref` chain: a schema that is only a reference to
/// another registered schema judges instances as that schema does, with one hop
/// fewer.
pub proof fn law_ref_follows_target(
    inst: JsonView,
    schema: JsonView,
    ctx: SchemaCtx,
    uri: Seq<char>,
    hops: nat,
    r: Seq<char>,
    file: Seq<char>,
    target: JsonView,
)
    requires
        hops > 0,
        member_str(schema, "$ref"@) == Some(r),
        ref_target(ctx, uri, r) == Ok::<(Seq<char>, JsonView), VErr>((file, target)),
    ensures
        node_check(inst, schema, ctx, uri, hops) == node_check(inst, target, ctx, file, (hops - 1) as nat),
{
}

} // verus!
