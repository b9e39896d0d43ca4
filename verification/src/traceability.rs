//! Traceability: the graph of links between elements, impact analysis over it,
//! compliance checks and model statistics.
use vstd::prelude::*;
use crate::assoc::{assoc_find, assoc_map, assoc_lookup, lemma_assoc_pos, assoc_pos};
use crate::json::{JsonValue, JsonView, jview_entries, jview_items, lemma_jview_entries,
    lemma_jview_items, member_str, vget, vstr};
use crate::model::{ArcadiaElement, ProjectModel, element_json, flatten_layers, texts};
use crate::text::{contains, has_infix, owned, str_eq, texts_of, concat3};
use crate::vocabulary::{PropertyType, VocabularyRegistry, RegistryState, expand_iri, str_items};

verus! {

// ---------------------------------------------------------------------------
// The link graph
// ---------------------------------------------------------------------------

/// The links recorded under a key, or none.
pub open spec fn get_or_empty(m: Map<Seq<char>, Seq<Seq<char>>>, k: Seq<char>) -> Seq<Seq<char>> {
    if m.contains_key(k) {
        m[k]
    } else {
        Seq::empty()
    }
}

/// The property names that always denote a link.
pub open spec fn builtin_link(key: Seq<char>) -> bool {
    key == "allocatedTo"@ || key == "realizedBy"@ || key == "satisfiedBy"@ || key == "verifiedBy"@
        || key == "model_id"@
}

/// A property whose values are links: a built-in link name, or a key whose
/// expansion is an object property of the ontology.
pub open spec fn is_link_key(st: RegistryState, key: Seq<char>) -> bool {
    builtin_link(key) || {
        let e = expand_iri(st@.default_context, key);
        st@.properties.contains_key(e) && st@.properties[e].property_type
            == PropertyType::ObjectProperty
    }
}

/// The identifiers a property value links to: a string, or the strings of an array.
pub open spec fn link_targets(v: JsonView) -> Seq<Seq<char>> {
    match v {
        JsonView::Str(t) => seq![t],
        JsonView::Array(items) => str_items(items),
        _ => Seq::empty(),
    }
}

/// `id` appended to the upstream links of each target, in order.
pub open spec fn add_upstream(
    up: Map<Seq<char>, Seq<Seq<char>>>,
    targets: Seq<Seq<char>>,
    id: Seq<char>,
) -> Map<Seq<char>, Seq<Seq<char>>>
    decreases targets.len(),
{
    if targets.len() == 0 {
        up
    } else {
        let prev = add_upstream(up, targets.drop_last(), id);
        prev.insert(targets.last(), get_or_empty(prev, targets.last()).push(id))
    }
}

/// The link graph: downstream links by source, upstream links by target.
pub struct LinkGraph {
    pub down: Map<Seq<char>, Seq<Seq<char>>>,
    pub up: Map<Seq<char>, Seq<Seq<char>>>,
}

/// The graph with links from `id` to `targets` added.
pub open spec fn add_links(g: LinkGraph, id: Seq<char>, targets: Seq<Seq<char>>) -> LinkGraph {
    LinkGraph {
        down: g.down.insert(id, get_or_empty(g.down, id) + targets),
        up: add_upstream(g.up, targets, id),
    }
}

/// The properties of a document: its `properties` object, else the document itself.
pub open spec fn doc_props(doc: JsonView) -> Seq<(Seq<char>, JsonView)> {
    match vget(doc, "properties"@) {
        Some(JsonView::Object(es)) => es,
        _ => match doc {
            JsonView::Object(es) => es,
            _ => Seq::empty(),
        },
    }
}

/// The graph after reading the link properties `es` of the element `id`.
pub open spec fn props_links(st: RegistryState, g: LinkGraph, id: Seq<char>, es: Seq<(Seq<char>, JsonView)>) -> LinkGraph
    decreases es.len(),
{
    if es.len() == 0 {
        g
    } else {
        let prev = props_links(st, g, id, es.drop_last());
        if is_link_key(st, es.last().0) {
            add_links(prev, id, link_targets(es.last().1))
        } else {
            prev
        }
    }
}

/// The graph of the documents, in order; documents without a `handle` string
/// are skipped.
pub open spec fn trace_docs(st: RegistryState, docs: Seq<JsonView>) -> LinkGraph
    decreases docs.len(),
{
    if docs.len() == 0 {
        LinkGraph { down: Map::empty(), up: Map::empty() }
    } else {
        let prev = trace_docs(st, docs.drop_last());
        match member_str(docs.last(), "handle"@) {
            Some(id) => props_links(st, prev, id, doc_props(docs.last())),
            None => prev,
        }
    }
}


/// Every link is seen from both ends: `b` is downstream of `a` exactly when
/// `a` is upstream of `b`.
pub open spec fn mirrored(g: LinkGraph) -> bool {
    forall|a: Seq<char>, b: Seq<char>|
        #![trigger get_or_empty(g.down, a).contains(b), get_or_empty(g.up, b).contains(a)]
        get_or_empty(g.down, a).contains(b) <==> get_or_empty(g.up, b).contains(a)
}

/// What `add_upstream` records: the upstream links before, plus `id` for
/// each target.
proof fn lemma_add_upstream(up: Map<Seq<char>, Seq<Seq<char>>>, targets: Seq<Seq<char>>, id: Seq<char>, b: Seq<char>, x: Seq<char>)
    ensures
        get_or_empty(add_upstream(up, targets, id), b).contains(x) <==> (get_or_empty(up, b).contains(x)
            || (x == id && targets.contains(b))),
    decreases targets.len(),
{
    if targets.len() > 0 {
        let prev = add_upstream(up, targets.drop_last(), id);
        lemma_add_upstream(up, targets.drop_last(), id, b, x);
        let t = targets.last();
        if b == t {
            let l = get_or_empty(prev, t);
            assert(get_or_empty(add_upstream(up, targets, id), b) == l.push(id));
            assert(l.push(id).contains(x) <==> (l.contains(x) || x == id)) by {
                if l.push(id).contains(x) {
                    let k = choose|k: int| 0 <= k < l.push(id).len() && l.push(id)[k] == x;
                    if k < l.len() {
                        assert(l[k] == x);
                    }
                }
                if l.contains(x) {
                    let k = choose|k: int| 0 <= k < l.len() && l[k] == x;
                    assert(l.push(id)[k] == x);
                }
                if x == id {
                    assert(l.push(id)[l.len() as int] == x);
                }
            }
        }
        assert(targets.contains(b) <==> (targets.drop_last().contains(b) || b == t)) by {
            if targets.contains(b) {
                let k = choose|k: int| 0 <= k < targets.len() && targets[k] == b;
                if k < targets.len() - 1 {
                    assert(targets.drop_last()[k] == b);
                }
            }
            if targets.drop_last().contains(b) {
                let k = choose|k: int| 0 <= k < targets.drop_last().len() && targets.drop_last()[k] == b;
                assert(targets[k] == b);
            }
            if b == t {
                assert(targets[targets.len() - 1] == b);
            }
        }
    }
}

/// Adding links keeps the graph mirrored.
proof fn lemma_add_links_mirrored(g: LinkGraph, id: Seq<char>, targets: Seq<Seq<char>>)
    requires
        mirrored(g),
    ensures
        mirrored(add_links(g, id, targets)),
{
    let g2 = add_links(g, id, targets);
    assert forall|a: Seq<char>, b: Seq<char>|
        get_or_empty(g2.down, a).contains(b) <==> get_or_empty(g2.up, b).contains(a) by {
        lemma_add_upstream(g.up, targets, id, b, a);
        assert(get_or_empty(g.down, a).contains(b) <==> get_or_empty(g.up, b).contains(a));
        if a == id {
            let l = get_or_empty(g.down, id);
            assert(get_or_empty(g2.down, a) == l + targets);
            assert((l + targets).contains(b) <==> (l.contains(b) || targets.contains(b))) by {
                if (l + targets).contains(b) {
                    let k = choose|k: int| 0 <= k < (l + targets).len() && (l + targets)[k] == b;
                    if k < l.len() {
                        assert(l[k] == b);
                    } else {
                        assert(targets[k - l.len()] == b);
                    }
                }
                if l.contains(b) {
                    let k = choose|k: int| 0 <= k < l.len() && l[k] == b;
                    assert((l + targets)[k] == b);
                }
                if targets.contains(b) {
                    let k = choose|k: int| 0 <= k < targets.len() && targets[k] == b;
                    assert((l + targets)[l.len() + k] == b);
                }
            }
        } else {
            assert(get_or_empty(g2.down, a) == get_or_empty(g.down, a));
        }
    }
}

/// Reading the link properties of one element keeps the graph mirrored.
proof fn lemma_props_links_mirrored(st: RegistryState, g: LinkGraph, id: Seq<char>, es: Seq<(Seq<char>, JsonView)>)
    requires
        mirrored(g),
    ensures
        mirrored(props_links(st, g, id, es)),
    decreases es.len(),
{
    if es.len() > 0 {
        lemma_props_links_mirrored(st, g, id, es.drop_last());
        let prev = props_links(st, g, id, es.drop_last());
        if is_link_key(st, es.last().0) {
            lemma_add_links_mirrored(prev, id, link_targets(es.last().1));
        }
    }
}

/// Law: in the graph traced from any documents, `b` is downstream of `a`
/// exactly when `a` is upstream of `b`.
pub proof fn law_links_are_mirrored(st: RegistryState, docs: Seq<JsonView>, a: Seq<char>, b: Seq<char>)
    ensures
        get_or_empty(trace_docs(st, docs).down, a).contains(b) <==> get_or_empty(trace_docs(st, docs).up, b).contains(a),
{
    lemma_trace_mirrored(st, docs);
}

/// The traced graph is mirrored.
proof fn lemma_trace_mirrored(st: RegistryState, docs: Seq<JsonView>)
    ensures
        mirrored(trace_docs(st, docs)),
    decreases docs.len(),
{
    if docs.len() == 0 {
        let g = LinkGraph { down: Map::empty(), up: Map::empty() };
        assert forall|a: Seq<char>, b: Seq<char>|
            get_or_empty(g.down, a).contains(b) <==> get_or_empty(g.up, b).contains(a) by {
            assert(get_or_empty(g.down, a) =~= Seq::<Seq<char>>::empty());
            assert(get_or_empty(g.up, b) =~= Seq::<Seq<char>>::empty());
        }
    } else {
        lemma_trace_mirrored(st, docs.drop_last());
        let prev = trace_docs(st, docs.drop_last());
        match member_str(docs.last(), "handle"@) {
            Some(id) => lemma_props_links_mirrored(st, prev, id, doc_props(docs.last())),
            None => {},
        }
    }
}

/// How many times `x` occurs in `s`.
pub open spec fn occurrences(s: Seq<Seq<char>>, x: Seq<char>) -> nat
    decreases s.len(),
{
    if s.len() == 0 {
        0
    } else {
        occurrences(s.drop_last(), x) + if s.last() == x { 1nat } else { 0nat }
    }
}

/// Occurrences in a concatenation add up.
proof fn lemma_occurrences_concat(l: Seq<Seq<char>>, t: Seq<Seq<char>>, x: Seq<char>)
    ensures
        occurrences(l + t, x) == occurrences(l, x) + occurrences(t, x),
    decreases t.len(),
{
    if t.len() == 0 {
        assert(l + t =~= l);
    } else {
        lemma_occurrences_concat(l, t.drop_last(), x);
        assert((l + t).drop_last() =~= l + t.drop_last());
        assert((l + t).last() == t.last());
    }
}

/// Every link is counted alike from both ends: `b` occurs among the
/// downstream links of `a` as often as `a` among the upstream links of `b`.
pub open spec fn counted(g: LinkGraph) -> bool {
    forall|a: Seq<char>, b: Seq<char>|
        #![trigger occurrences(get_or_empty(g.down, a), b), occurrences(get_or_empty(g.up, b), a)]
        occurrences(get_or_empty(g.down, a), b) == occurrences(get_or_empty(g.up, b), a)
}

/// What `add_upstream` counts: the upstream links before, plus `id` once for
/// each time `b` is a target.
proof fn lemma_add_upstream_count(up: Map<Seq<char>, Seq<Seq<char>>>, targets: Seq<Seq<char>>, id: Seq<char>, b: Seq<char>, x: Seq<char>)
    ensures
        occurrences(get_or_empty(add_upstream(up, targets, id), b), x) == occurrences(get_or_empty(up, b), x)
            + if x == id { occurrences(targets, b) } else { 0nat },
    decreases targets.len(),
{
    if targets.len() > 0 {
        let prev = add_upstream(up, targets.drop_last(), id);
        lemma_add_upstream_count(up, targets.drop_last(), id, b, x);
        let t = targets.last();
        if b == t {
            let l = get_or_empty(prev, t);
            assert(get_or_empty(add_upstream(up, targets, id), b) == l.push(id));
            assert(l.push(id).drop_last() =~= l);
        }
    }
}

/// Adding links keeps the counts alike.
proof fn lemma_add_links_counted(g: LinkGraph, id: Seq<char>, targets: Seq<Seq<char>>)
    requires
        counted(g),
    ensures
        counted(add_links(g, id, targets)),
{
    let g2 = add_links(g, id, targets);
    assert forall|a: Seq<char>, b: Seq<char>|
        occurrences(get_or_empty(g2.down, a), b) == occurrences(get_or_empty(g2.up, b), a) by {
        lemma_add_upstream_count(g.up, targets, id, b, a);
        assert(occurrences(get_or_empty(g.down, a), b) == occurrences(get_or_empty(g.up, b), a));
        if a == id {
            lemma_occurrences_concat(get_or_empty(g.down, id), targets, b);
        } else {
            assert(get_or_empty(g2.down, a) == get_or_empty(g.down, a));
        }
    }
}

/// Reading the link properties of one element keeps the counts alike.
proof fn lemma_props_links_counted(st: RegistryState, g: LinkGraph, id: Seq<char>, es: Seq<(Seq<char>, JsonView)>)
    requires
        counted(g),
    ensures
        counted(props_links(st, g, id, es)),
    decreases es.len(),
{
    if es.len() > 0 {
        lemma_props_links_counted(st, g, id, es.drop_last());
        let prev = props_links(st, g, id, es.drop_last());
        if is_link_key(st, es.last().0) {
            lemma_add_links_counted(prev, id, link_targets(es.last().1));
        }
    }
}

/// The traced graph counts every link alike from both ends.
proof fn lemma_trace_counted(st: RegistryState, docs: Seq<JsonView>)
    ensures
        counted(trace_docs(st, docs)),
    decreases docs.len(),
{
    if docs.len() == 0 {
        let g = LinkGraph { down: Map::empty(), up: Map::empty() };
        assert forall|a: Seq<char>, b: Seq<char>|
            occurrences(get_or_empty(g.down, a), b) == occurrences(get_or_empty(g.up, b), a) by {
            assert(get_or_empty(g.down, a) =~= Seq::<Seq<char>>::empty());
            assert(get_or_empty(g.up, b) =~= Seq::<Seq<char>>::empty());
        }
    } else {
        lemma_trace_counted(st, docs.drop_last());
        let prev = trace_docs(st, docs.drop_last());
        match member_str(docs.last(), "handle"@) {
            Some(id) => lemma_props_links_counted(st, prev, id, doc_props(docs.last())),
            None => {},
        }
    }
}

/// Law: in the graph traced from any documents, the upstream index is exactly
/// the reverse of the downstream one: `b` occurs among the downstream links of
/// `a` as many times as `a` occurs among the upstream links of `b`.
pub proof fn law_link_counts_agree(st: RegistryState, docs: Seq<JsonView>, a: Seq<char>, b: Seq<char>)
    ensures
        occurrences(get_or_empty(trace_docs(st, docs).down, a), b) == occurrences(
            get_or_empty(trace_docs(st, docs).up, b),
            a,
        ),
{
    lemma_trace_counted(st, docs);
}

/// Links by element, as key/list pairs.
pub open spec fn links_view(v: Seq<(String, Vec<String>)>) -> Map<Seq<char>, Seq<Seq<char>>> {
    assoc_map(v).map_values(|l: Vec<String>| texts(l@))
}

/// A copy of a list of strings.
fn copy_strings(v: &Vec<String>) -> (r: Vec<String>)
    ensures
        texts(r@) == texts(v@),
{
    let mut r: Vec<String> = Vec::new();
    let mut i: usize = 0;
    while i < v.len()
        invariant
            i <= v@.len(),
            texts(r@) == texts(v@).take(i as int),
        decreases v@.len() - i,
    {
        let ghost before = texts(r@);
        r.push(v[i].clone());
        assert(texts(r@) =~= before.push(v@[i as int]@));
        assert(texts(v@).take(i as int + 1) =~= texts(v@).take(i as int).push(v@[i as int]@));
        i = i + 1;
    }
    assert(texts(v@).take(v@.len() as int) =~= texts(v@));
    r
}

/// Appends `extra` to the links recorded under `key`, creating the entry.
fn append_links(m: &mut Vec<(String, Vec<String>)>, key: &str, extra: &Vec<String>)
    ensures
        links_view(final(m)@) == links_view(old(m)@).insert(
            key@,
            get_or_empty(links_view(old(m)@), key@) + texts(extra@),
        ),
{
    let ghost before = links_view(m@);
    match assoc_find(m, key) {
        Some(p) => {
            let mut cur = copy_strings(&m[p].1);
            let mut i: usize = 0;
            let ghost base = texts(cur@);
            while i < extra.len()
                invariant
                    i <= extra@.len(),
                    texts(cur@) == base + texts(extra@).take(i as int),
                decreases extra@.len() - i,
            {
                let ghost c0 = texts(cur@);
                cur.push(extra[i].clone());
                assert(texts(cur@) =~= c0.push(extra@[i as int]@));
                assert(texts(extra@).take(i as int + 1) =~= texts(extra@).take(i as int).push(
                    extra@[i as int]@,
                ));
                i = i + 1;
            }
            assert(texts(extra@).take(extra@.len() as int) =~= texts(extra@));
            let k = m[p].0.clone();
            let ghost m0 = m@;
            m.set(p, (k, cur));
            proof {
                lemma_assoc_pos(m0, key@);
                crate::assoc::lemma_assoc_pos_same_keys(m@, m0);
                let target = before.insert(key@, get_or_empty(before, key@) + texts(extra@));
                assert forall|x: Seq<char>| #[trigger] links_view(m@).contains_key(x)
                    == target.contains_key(x) by {
                    lemma_assoc_pos(m0, x);
                }
                assert forall|x: Seq<char>| target.contains_key(x) implies #[trigger] links_view(m@)[x]
                    == target[x] by {
                    lemma_assoc_pos(m0, x);
                    if x != key@ {
                        let q = assoc_pos(m0, x);
                        assert(q != p);
                        assert(m@[q] == m0[q]);
                    }
                }
                assert(links_view(m@) =~= target);
            }
        },
        None => {
            let ghost m0 = m@;
            let cur = copy_strings(extra);
            crate::assoc::assoc_insert(m, owned(key), cur);
            proof {
                assert(!assoc_map(m0).contains_key(key@));
                assert(texts(extra@) =~= Seq::<Seq<char>>::empty() + texts(extra@));
                assert(links_view(m@) =~= before.insert(key@, get_or_empty(before, key@) + texts(extra@)));
            }
        },
    }
}

/// The traceability graph between element handles.
pub struct Tracer {
    downstream_links: Vec<(String, Vec<String>)>,
    upstream_links: Vec<(String, Vec<String>)>,
}

impl Tracer {
    /// The links of this tracer.
    pub closed spec fn graph(&self) -> LinkGraph {
        LinkGraph { down: links_view(self.downstream_links@), up: links_view(self.upstream_links@) }
    }

    /// Whether the property `key` carries links.
    fn link_key(reg: &VocabularyRegistry, key: &str) -> (b: bool)
        ensures
            b == is_link_key(reg.current(), key@),
    {
        is_link_property(key, reg)
    }

    /// The graph of the documents (see `trace_docs`), with link properties read
    /// through the registry.
    fn build_graph(documents: &Vec<JsonValue>, reg: &VocabularyRegistry) -> (r: Tracer)
        ensures
            r.graph() == trace_docs(reg.current(), jview_items(documents@)),
    {
        let ghost st = reg.current();
        let ghost docs = jview_items(documents@);
        let mut t = Tracer { downstream_links: Vec::new(), upstream_links: Vec::new() };
        proof {
            lemma_jview_items(documents@);
            assert(docs.take(0) =~= Seq::<JsonView>::empty());
            assert(t.graph().down =~= Map::empty());
            assert(t.graph().up =~= Map::empty());
        }
        let mut d: usize = 0;
        while d < documents.len()
            invariant
                d <= documents@.len(),
                st == reg.current(),
                docs == jview_items(documents@),
                docs.len() == documents@.len(),
                forall|j: int| 0 <= j < documents@.len() ==> #[trigger] docs[j] == documents@[j]@,
                t.graph() == trace_docs(st, docs.take(d as int)),
            decreases documents@.len() - d,
        {
            assert(docs.take(d as int + 1).drop_last() =~= docs.take(d as int));
            assert(docs.take(d as int + 1).last() == documents@[d as int]@);
            let doc = &documents[d];
            match doc.get("handle") {
                Some(h) => match h.as_str() {
                    Some(id) => {
                        t.read_props(doc, id, reg);
                    },
                    None => {},
                },
                None => {},
            }
            d = d + 1;
        }
        assert(docs.take(documents@.len() as int) =~= docs);
        t
    }

    /// Reads the link properties of the document `doc` of element `id`.
    fn read_props(&mut self, doc: &JsonValue, id: &str, reg: &VocabularyRegistry)
        ensures
            final(self).graph() == props_links(reg.current(), old(self).graph(), id@, doc_props(doc@)),
    {
        let empty: Vec<(String, JsonValue)> = Vec::new();
        let props: &Vec<(String, JsonValue)> = match doc.get("properties") {
            Some(p) => match p.as_object() {
                Some(es) => es,
                None => match doc.as_object() {
                    Some(es) => es,
                    None => &empty,
                },
            },
            None => match doc.as_object() {
                Some(es) => es,
                None => &empty,
            },
        };
        proof {
            lemma_jview_entries(props@);
            lemma_jview_entries(empty@);
            assert(jview_entries(empty@) =~= Seq::<(Seq<char>, JsonView)>::empty());
        }
        let ghost es = jview_entries(props@);
        assert(es == doc_props(doc@));
        let ghost g0 = self.graph();
        assert(es.take(0) =~= Seq::<(Seq<char>, JsonView)>::empty());
        let mut i: usize = 0;
        while i < props.len()
            invariant
                i <= props@.len(),
                es == jview_entries(props@),
                es.len() == props@.len(),
                forall|j: int| 0 <= j < props@.len() ==> #[trigger] es[j] == (props@[j].0@, props@[j].1@),
                self.graph() == props_links(reg.current(), g0, id@, es.take(i as int)),
            decreases props@.len() - i,
        {
            assert(es.take(i as int + 1).drop_last() =~= es.take(i as int));
            assert(es.take(i as int + 1).last() == es[i as int]);
            if Self::link_key(reg, props[i].0.as_str()) {
                let targets = collect_targets(&props[i].1);
                self.add(id, &targets);
            }
            i = i + 1;
        }
        assert(es.take(props@.len() as int) =~= es);
    }

    /// Records links from `id` to each of `targets`.
    fn add(&mut self, id: &str, targets: &Vec<String>)
        ensures
            final(self).graph() == add_links(old(self).graph(), id@, texts(targets@)),
    {
        let ghost up0 = self.graph().up;
        let ghost down0 = self.graph().down;
        let ghost ts = texts(targets@);
        let mut k: usize = 0;
        assert(ts.take(0) =~= Seq::<Seq<char>>::empty());
        while k < targets.len()
            invariant
                k <= targets@.len(),
                links_view(self.downstream_links@) == down0,
                ts == texts(targets@),
                links_view(self.upstream_links@) == add_upstream(up0, ts.take(k as int), id@),
            decreases targets@.len() - k,
        {
            let mut one: Vec<String> = Vec::new();
            one.push(owned(id));
            assert(texts(one@) =~= seq![id@]);
            assert(ts.take(k as int + 1).drop_last() =~= ts.take(k as int));
            assert(ts.take(k as int + 1).last() == targets@[k as int]@);
            append_links(&mut self.upstream_links, targets[k].as_str(), &one);
            proof {
                let prev = add_upstream(up0, ts.take(k as int), id@);
                assert(get_or_empty(prev, targets@[k as int]@) + seq![id@] =~= get_or_empty(
                    prev,
                    targets@[k as int]@,
                ).push(id@));
            }
            k = k + 1;
        }
        assert(ts.take(targets@.len() as int) =~= ts);
        append_links(&mut self.downstream_links, id, targets);
    }

    /// The tracer of a list of documents.
    pub fn from_json_list(documents: Vec<JsonValue>, reg: &VocabularyRegistry) -> (r: Tracer)
        ensures
            r.graph() == trace_docs(reg.current(), jview_items(documents@)),
    {
        Self::build_graph(&documents, reg)
    }

    /// The tracer of every element of a model, read as documents.
    pub fn from_legacy_model(model: &ProjectModel, reg: &VocabularyRegistry) -> (r: Tracer)
        ensures
            r.graph() == trace_docs(
                reg.current(),
                flatten_layers(model.layers@).map_values(|e: ArcadiaElement| element_json(e)),
            ),
    {
        let all = model.all_elements();
        let mut docs: Vec<JsonValue> = Vec::new();
        let mut i: usize = 0;
        while i < all.len()
            invariant
                i <= all@.len(),
                all@.len() == flatten_layers(model.layers@).len(),
                forall|m: int| 0 <= m < all@.len() ==> *all@[m] == flatten_layers(model.layers@)[m],
                docs@.len() == i,
                forall|m: int| 0 <= m < i ==> #[trigger] docs@[m]@ == element_json(
                    flatten_layers(model.layers@)[m],
                ),
            decreases all@.len() - i,
        {
            docs.push(all[i].to_json());
            i = i + 1;
        }
        proof {
            lemma_jview_items(docs@);
            let target = flatten_layers(model.layers@).map_values(|e: ArcadiaElement| element_json(e));
            assert forall|m: int| 0 <= m < docs@.len() implies jview_items(docs@)[m] == target[m] by {
                assert(jview_items(docs@)[m] == crate::json::jview(docs@[m]));
                assert(docs@[m]@ == element_json(flatten_layers(model.layers@)[m]));
            }
            assert(jview_items(docs@) =~= target);
        }
        Self::build_graph(&docs, reg)
    }

    /// The elements `element_id` links to.
    pub fn get_downstream_ids(&self, element_id: &str) -> (r: Vec<String>)
        ensures
            texts(r@) == get_or_empty(self.graph().down, element_id@),
    {
        match assoc_lookup(&self.downstream_links, element_id) {
            Some(l) => copy_strings(l),
            None => {
                let r: Vec<String> = Vec::new();
                assert(texts(r@) =~= Seq::<Seq<char>>::empty());
                r
            },
        }
    }

    /// The elements that link to `element_id`.
    pub fn get_upstream_ids(&self, element_id: &str) -> (r: Vec<String>)
        ensures
            texts(r@) == get_or_empty(self.graph().up, element_id@),
    {
        match assoc_lookup(&self.upstream_links, element_id) {
            Some(l) => copy_strings(l),
            None => {
                let r: Vec<String> = Vec::new();
                assert(texts(r@) =~= Seq::<Seq<char>>::empty());
                r
            },
        }
    }
}

/// The identifiers a property value links to.
pub(crate) fn collect_targets(v: &JsonValue) -> (r: Vec<String>)
    ensures
        texts(r@) == link_targets(v@),
{
    let mut out: Vec<String> = Vec::new();
    match v {
        JsonValue::String(t) => {
            out.push(t.clone());
            assert(texts(out@) =~= seq![t@]);
        },
        JsonValue::Array(items) => {
            let ghost iv = jview_items(items@);
            proof {
                lemma_jview_items(items@);
                assert(iv.take(0) =~= Seq::<JsonView>::empty());
                assert(texts(out@) =~= Seq::<Seq<char>>::empty());
            }
            let mut i: usize = 0;
            while i < items.len()
                invariant
                    i <= items@.len(),
                    iv == jview_items(items@),
                    iv.len() == items@.len(),
                    forall|j: int| 0 <= j < items@.len() ==> #[trigger] iv[j] == items@[j]@,
                    texts(out@) == str_items(iv.take(i as int)),
                decreases items@.len() - i,
            {
                assert(iv.take(i as int + 1).drop_last() =~= iv.take(i as int));
                assert(iv.take(i as int + 1).last() == items@[i as int]@);
                match items[i].as_str() {
                    Some(t) => {
                        let ghost before = texts(out@);
                        out.push(owned(t));
                        assert(texts(out@) =~= before.push(t@));
                    },
                    None => {},
                }
                i = i + 1;
            }
            assert(iv.take(items@.len() as int) =~= iv);
        },
        _ => {
            assert(texts(out@) =~= Seq::<Seq<char>>::empty());
        },
    }
    out
}

/// Whether the property `key` carries links: a built-in link name, or a key
/// whose expansion through the prefix context is an object property.
pub fn is_link_property(key: &str, reg: &VocabularyRegistry) -> (b: bool)
    ensures
        b == is_link_key(reg.current(), key@),
{
    if str_eq(key, "allocatedTo") || str_eq(key, "realizedBy") || str_eq(key, "satisfiedBy")
        || str_eq(key, "verifiedBy") || str_eq(key, "model_id") {
        return true;
    }
    let expanded = expand_term(reg, key);
    match reg.get_property(expanded.as_str()) {
        Some(p) => p.property_type == PropertyType::ObjectProperty,
        None => false,
    }
}

/// The expansion of a term through the registry's prefix context.
fn expand_term(reg: &VocabularyRegistry, t: &str) -> (r: String)
    ensures
        r@ == expand_iri(reg.current()@.default_context, t@),
{
    if VocabularyRegistry::is_iri(t) {
        return owned(t);
    }
    match crate::text::split_once_char(t, ':') {
        Some(parts) => {
            match assoc_lookup(reg.get_default_context(), parts.0.as_str()) {
                Some(base) => {
                    return crate::text::concat2(base.as_str(), parts.1.as_str());
                },
                None => {},
            }
        },
        None => {},
    }
    owned(t)
}

// ---------------------------------------------------------------------------
// Impact analysis
// ---------------------------------------------------------------------------

/// The elements next to `id`: those it links to, then those linking to it.
pub open spec fn neighbours(g: LinkGraph, id: Seq<char>) -> Seq<Seq<char>> {
    get_or_empty(g.down, id) + get_or_empty(g.up, id)
}

/// The state of a depth-first walk: the elements visited, and the impacted
/// elements found with their depth.
pub struct WalkState {
    pub visited: Seq<Seq<char>>,
    pub found: Seq<(Seq<char>, int)>,
}

/// The walk from `id` at `depth`: an element beyond `max` or already visited
/// stops it; otherwise the element is visited, recorded when it is not the root,
/// and its neighbours are walked in order, one level deeper.
pub open spec fn visit(g: LinkGraph, id: Seq<char>, depth: int, max: int, w: WalkState) -> WalkState
    decreases max + 1 - depth, 0int, 0int,
{
    if depth > max || depth < 0 || w.visited.contains(id) {
        w
    } else {
        let w1 = WalkState {
            visited: w.visited.push(id),
            found: if depth > 0 {
                w.found.push((id, depth))
            } else {
                w.found
            },
        };
        visit_all(g, neighbours(g, id), depth + 1, max, w1)
    }
}

/// The walks from each of `ids` in turn, at `depth`.
pub open spec fn visit_all(g: LinkGraph, ids: Seq<Seq<char>>, depth: int, max: int, w: WalkState) -> WalkState
    decreases max + 1 - depth, 1int, ids.len(),
{
    if ids.len() == 0 || depth > max + 1 {
        w
    } else {
        visit_all(g, ids.subrange(1, ids.len() as int), depth, max, visit(g, ids[0], depth, max, w))
    }
}

/// A walk state in which the found elements are distinct, visited, within
/// `1..=max`, and the root is visited but not found.
pub open spec fn walk_ok(w: WalkState, root: Seq<char>, max: int) -> bool {
    &&& w.visited.contains(root)
    &&& forall|i: int, j: int| 0 <= i < j < w.found.len() ==> w.found[i].0 != w.found[j].0
    &&& forall|i: int| 0 <= i < w.found.len() ==> w.visited.contains(#[trigger] w.found[i].0)
    &&& forall|i: int| 0 <= i < w.found.len() ==> 1 <= (#[trigger] w.found[i]).1 <= max
    &&& forall|i: int| 0 <= i < w.found.len() ==> (#[trigger] w.found[i]).0 != root
}

/// A walk keeps its state well-formed.
proof fn lemma_visit(g: LinkGraph, id: Seq<char>, depth: int, max: int, w: WalkState, root: Seq<char>)
    requires
        walk_ok(w, root, max),
    ensures
        walk_ok(visit(g, id, depth, max, w), root, max),
    decreases max + 1 - depth, 0int, 0int,
{
    if depth > max || depth < 0 || w.visited.contains(id) {
    } else {
        let w1 = WalkState {
            visited: w.visited.push(id),
            found: if depth > 0 {
                w.found.push((id, depth))
            } else {
                w.found
            },
        };
        assert(id != root);
        assert forall|i: int| 0 <= i < w1.found.len() implies w1.visited.contains(
            #[trigger] w1.found[i].0,
        ) by {
            if i < w.found.len() {
                assert(w.visited.contains(w.found[i].0));
                let k = choose|k: int| 0 <= k < w.visited.len() && w.visited[k] == w.found[i].0;
                assert(w1.visited[k] == w.found[i].0);
            } else {
                assert(w1.visited[w.visited.len() as int] == id);
            }
        }
        assert(w1.visited[w.visited.len() as int] == id);
        let k0 = choose|k: int| 0 <= k < w.visited.len() && w.visited[k] == root;
        assert(w1.visited[k0] == root);
        assert forall|i: int, j: int| 0 <= i < j < w1.found.len() implies w1.found[i].0
            != w1.found[j].0 by {
            if j == w.found.len() {
                assert(w.visited.contains(w.found[i].0));
            }
        }
        lemma_visit_all(g, neighbours(g, id), depth + 1, max, w1, root);
    }
}

/// Walks from a list of elements keep the state well-formed.
proof fn lemma_visit_all(g: LinkGraph, ids: Seq<Seq<char>>, depth: int, max: int, w: WalkState, root: Seq<char>)
    requires
        walk_ok(w, root, max),
    ensures
        walk_ok(visit_all(g, ids, depth, max, w), root, max),
    decreases max + 1 - depth, 1int, ids.len(),
{
    if ids.len() == 0 || depth > max + 1 {
    } else {
        lemma_visit(g, ids[0], depth, max, w, root);
        lemma_visit_all(g, ids.subrange(1, ids.len() as int), depth, max, visit(g, ids[0], depth, max, w), root);
    }
}

/// Law: the impacted elements of a walk from `root` are distinct, never the
/// root itself, and lie at a distance between 1 and `max`.
pub proof fn law_impact_walk_well_formed(g: LinkGraph, root: Seq<char>, max: int)
    requires
        max >= 0,
    ensures
        walk_ok(
            visit(g, root, 0, max, WalkState { visited: Seq::empty(), found: Seq::empty() }),
            root,
            max,
        ),
{
    let w0 = WalkState { visited: Seq::empty(), found: Seq::empty() };
    let w1 = WalkState { visited: seq![root], found: Seq::empty() };
    assert(!w0.visited.contains(root));
    assert(w0.visited.push(root) =~= seq![root]);
    assert(w1.visited[0] == root);
    lemma_visit_all(g, neighbours(g, root), 1, max, w1, root);
}

/// Every element of `a` is in `b`.
pub open spec fn kept(a: Seq<Seq<char>>, b: Seq<Seq<char>>) -> bool {
    forall|y: Seq<char>| #[trigger] a.contains(y) ==> b.contains(y)
}

/// The found elements whose expansion is done: each found element closer than
/// `max`, but for the positions in `open`, has all its neighbours visited.
pub open spec fn expanded(g: LinkGraph, w: WalkState, max: int, open: Set<int>) -> bool {
    forall|i: int, y: Seq<char>|
        #![trigger w.found[i], neighbours(g, w.found[i].0).contains(y)]
        0 <= i < w.found.len() && w.found[i].1 < max && !open.contains(i) && neighbours(g, w.found[i].0).contains(y)
            ==> w.visited.contains(y)
}

/// Every visited element is the root or found.
pub open spec fn visited_found(w: WalkState, root: Seq<char>) -> bool {
    forall|y: Seq<char>|
        #[trigger] w.visited.contains(y) ==> y == root || exists|j: int| 0 <= j < w.found.len() && w.found[j].0 == y
}

/// What a walk step keeps and adds.
pub open spec fn walk_grows(w: WalkState, r: WalkState) -> bool {
    &&& kept(w.visited, r.visited)
    &&& r.found.len() >= w.found.len()
    &&& forall|i: int| 0 <= i < w.found.len() ==> #[trigger] r.found[i] == w.found[i]
}

/// A walk from `id` at a positive depth keeps finished expansions finished,
/// records what it visits, and visits `id` when within the limit.
proof fn lemma_visit_closes(g: LinkGraph, id: Seq<char>, depth: int, max: int, w: WalkState, open: Set<int>, root: Seq<char>)
    requires
        depth >= 1,
        expanded(g, w, max, open),
        visited_found(w, root),
        forall|i: int| #[trigger] open.contains(i) ==> 0 <= i < w.found.len(),
    ensures
        walk_grows(w, visit(g, id, depth, max, w)),
        expanded(g, visit(g, id, depth, max, w), max, open),
        visited_found(visit(g, id, depth, max, w), root),
        depth <= max ==> visit(g, id, depth, max, w).visited.contains(id),
    decreases max + 1 - depth, 0int, 0int,
{
    if depth > max || depth < 0 || w.visited.contains(id) {
    } else {
        let n = w.found.len() as int;
        let w1 = WalkState { visited: w.visited.push(id), found: w.found.push((id, depth)) };
        assert(w1 == (WalkState {
            visited: w.visited.push(id),
            found: if depth > 0 { w.found.push((id, depth)) } else { w.found },
        }));
        let open1 = open.insert(n);
        assert forall|y: Seq<char>| #[trigger] w.visited.contains(y) implies w1.visited.contains(y) by {
            let k = choose|k: int| 0 <= k < w.visited.len() && w.visited[k] == y;
            assert(w1.visited[k] == y);
        }
        assert(w1.visited[w.visited.len() as int] == id);
        assert forall|i: int| 0 <= i < w.found.len() implies #[trigger] w1.found[i] == w.found[i] by {}
        assert forall|i: int, y: Seq<char>|
            0 <= i < w1.found.len() && w1.found[i].1 < max && !open1.contains(i) && neighbours(g, w1.found[i].0).contains(y)
                implies w1.visited.contains(y) by {
            assert(w1.found[i] == w.found[i]);
            assert(w.visited.contains(y));
        }
        assert forall|y: Seq<char>| #[trigger] w1.visited.contains(y) implies y == root || exists|j: int|
            0 <= j < w1.found.len() && w1.found[j].0 == y by {
            let k = choose|k: int| 0 <= k < w1.visited.len() && w1.visited[k] == y;
            if k < w.visited.len() {
                assert(w.visited[k] == y);
                assert(w.visited.contains(y));
                if y != root {
                    let j = choose|j: int| 0 <= j < w.found.len() && w.found[j].0 == y;
                    assert(w1.found[j].0 == y);
                }
            } else {
                assert(w1.found[n].0 == y);
            }
        }
        lemma_visit_all_closes(g, neighbours(g, id), depth + 1, max, w1, open1, root);
        let r = visit_all(g, neighbours(g, id), depth + 1, max, w1);
        assert(r == visit(g, id, depth, max, w));
        assert forall|i: int, y: Seq<char>|
            0 <= i < r.found.len() && r.found[i].1 < max && !open.contains(i) && neighbours(g, r.found[i].0).contains(y)
                implies r.visited.contains(y) by {
            if i == n {
                assert(r.found[n] == w1.found[n]);
            }
        }
        assert forall|y: Seq<char>| #[trigger] w.visited.contains(y) implies r.visited.contains(y) by {
            assert(w1.visited.contains(y));
        }
        assert(w1.visited.contains(id));
    }
}

/// Walks from each of `ids` at a positive depth: as `lemma_visit_closes`, and
/// every one of `ids` is visited when within the limit.
proof fn lemma_visit_all_closes(g: LinkGraph, ids: Seq<Seq<char>>, depth: int, max: int, w: WalkState, open: Set<int>, root: Seq<char>)
    requires
        depth >= 1,
        expanded(g, w, max, open),
        visited_found(w, root),
        forall|i: int| #[trigger] open.contains(i) ==> 0 <= i < w.found.len(),
    ensures
        walk_grows(w, visit_all(g, ids, depth, max, w)),
        expanded(g, visit_all(g, ids, depth, max, w), max, open),
        visited_found(visit_all(g, ids, depth, max, w), root),
        depth <= max ==> kept(ids, visit_all(g, ids, depth, max, w).visited),
    decreases max + 1 - depth, 1int, ids.len(),
{
    if ids.len() == 0 || depth > max + 1 {
        if ids.len() == 0 {
            assert forall|y: Seq<char>| #[trigger] ids.contains(y) implies w.visited.contains(y) by {}
        }
    } else {
        let w2 = visit(g, ids[0], depth, max, w);
        lemma_visit_closes(g, ids[0], depth, max, w, open, root);
        let rest = ids.subrange(1, ids.len() as int);
        assert forall|i: int| #[trigger] open.contains(i) implies 0 <= i < w2.found.len() by {}
        lemma_visit_all_closes(g, rest, depth, max, w2, open, root);
        let r = visit_all(g, rest, depth, max, w2);
        assert(r == visit_all(g, ids, depth, max, w));
        assert forall|y: Seq<char>| #[trigger] w.visited.contains(y) implies r.visited.contains(y) by {
            assert(w2.visited.contains(y));
        }
        assert forall|i: int| 0 <= i < w.found.len() implies #[trigger] r.found[i] == w.found[i] by {
            assert(w2.found[i] == w.found[i]);
        }
        if depth <= max {
            assert forall|y: Seq<char>| #[trigger] ids.contains(y) implies r.visited.contains(y) by {
                let k = choose|k: int| 0 <= k < ids.len() && ids[k] == y;
                if k == 0 {
                    assert(w2.visited.contains(y));
                } else {
                    assert(rest[k - 1] == y);
                    assert(rest.contains(y));
                }
            }
        }
    }
}

/// Law: impact analysis follows links both ways. In the walk from `root` up to
/// `max`, every element that the root (when `max` is at least 1), or an
/// impacted element closer than `max`, links to or is linked from is itself
/// the root or impacted.
pub proof fn law_impact_follows_links_both_ways(g: LinkGraph, root: Seq<char>, max: int, x: Seq<char>, y: Seq<char>)
    requires
        max >= 0,
        (x == root && max >= 1) || ({
            let r = visit(g, root, 0, max, WalkState { visited: Seq::empty(), found: Seq::empty() });
            exists|i: int| 0 <= i < r.found.len() && r.found[i].0 == x && r.found[i].1 < max
        }),
        get_or_empty(g.down, x).contains(y) || get_or_empty(g.up, x).contains(y),
    ensures
        ({
            let r = visit(g, root, 0, max, WalkState { visited: Seq::empty(), found: Seq::empty() });
            y == root || exists|j: int| 0 <= j < r.found.len() && r.found[j].0 == y
        }),
{
    let w0 = WalkState { visited: Seq::empty(), found: Seq::empty() };
    let w1 = WalkState { visited: seq![root], found: Seq::empty() };
    assert(!w0.visited.contains(root));
    assert(w0.visited.push(root) =~= seq![root]);
    let r = visit(g, root, 0, max, w0);
    assert(r == visit_all(g, neighbours(g, root), 1, max, w1));
    assert forall|z: Seq<char>| #[trigger] w1.visited.contains(z) implies z == root || exists|j: int|
        0 <= j < w1.found.len() && w1.found[j].0 == z by {
        let k = choose|k: int| 0 <= k < w1.visited.len() && w1.visited[k] == z;
        assert(w1.visited[k] == root);
    }
    lemma_visit_all_closes(g, neighbours(g, root), 1, max, w1, Set::empty(), root);
    let nx = neighbours(g, x);
    assert(nx.contains(y)) by {
        let d = get_or_empty(g.down, x);
        let u = get_or_empty(g.up, x);
        if d.contains(y) {
            let k = choose|k: int| 0 <= k < d.len() && d[k] == y;
            assert(nx[k] == y);
        } else {
            let k = choose|k: int| 0 <= k < u.len() && u[k] == y;
            assert(nx[d.len() + k] == y);
        }
    }
    if x == root && max >= 1 {
        assert(r.visited.contains(y));
    } else {
        let i = choose|i: int| 0 <= i < r.found.len() && r.found[i].0 == x && r.found[i].1 < max;
        assert(neighbours(g, r.found[i].0).contains(y));
        assert(r.visited.contains(y));
    }
}

/// Walking from elements beyond the depth limit changes nothing.
proof fn lemma_visit_all_beyond(g: LinkGraph, ids: Seq<Seq<char>>, depth: int, max: int, w: WalkState)
    requires
        depth > max,
    ensures
        visit_all(g, ids, depth, max, w) == w,
    decreases ids.len(),
{
    if ids.len() > 0 && depth <= max + 1 {
        assert(visit(g, ids[0], depth, max, w) == w);
        lemma_visit_all_beyond(g, ids.subrange(1, ids.len() as int), depth, max, w);
    }
}

/// An element reached by impact analysis, with its distance from the root.
#[derive(Clone, Debug)]
pub struct ImpactedItem {
    pub element_id: String,
    pub distance: usize,
}

/// The result of an impact analysis.
#[derive(Clone, Debug)]
pub struct ImpactReport {
    pub root_element_id: String,
    pub impacted_elements: Vec<ImpactedItem>,
}

/// The content of a list of impacted items.
pub open spec fn items_view(v: Seq<ImpactedItem>) -> Seq<(Seq<char>, int)> {
    v.map_values(|i: ImpactedItem| (i.element_id@, i.distance as int))
}

/// Why an impact analysis was refused.
#[derive(PartialEq, Eq, Structural, Clone, Copy, Debug)]
pub enum ImpactError {
    /// The root element has no link at all.
    RootNotFound,
}

/// Impact analysis over a traceability graph.
pub struct ImpactAnalyzer {
    tracer: Tracer,
}

impl ImpactAnalyzer {
    /// The graph analysed.
    pub closed spec fn graph(&self) -> LinkGraph {
        self.tracer.graph()
    }

    pub fn new(tracer: Tracer) -> (r: ImpactAnalyzer)
        ensures
            r.graph() == tracer.graph(),
    {
        ImpactAnalyzer { tracer }
    }

    /// The elements reached from `element_id` by a depth-first walk over links
    /// in both directions, up to `max_depth` (see `visit`); refused when the
    /// element has no link.
    pub fn analyze(&self, element_id: &str, max_depth: usize) -> (r: Result<ImpactReport, ImpactError>)
        ensures
            match r {
                Ok(rep) => {
                    &&& neighbours(self.graph(), element_id@).len() > 0
                    &&& rep.root_element_id@ == element_id@
                    &&& items_view(rep.impacted_elements@) == visit(
                        self.graph(),
                        element_id@,
                        0,
                        max_depth as int,
                        WalkState { visited: Seq::empty(), found: Seq::empty() },
                    ).found
                },
                Err(e) => neighbours(self.graph(), element_id@).len() == 0,
            },
            r is Err <==> (get_or_empty(self.graph().down, element_id@).len() == 0 && get_or_empty(
                self.graph().up,
                element_id@,
            ).len() == 0),
    {
        let down = self.tracer.get_downstream_ids(element_id);
        let up = self.tracer.get_upstream_ids(element_id);
        if down.len() == 0 && up.len() == 0 {
            return Err(ImpactError::RootNotFound);
        }
        let mut visited: Vec<String> = Vec::new();
        let mut impacted: Vec<ImpactedItem> = Vec::new();
        proof {
            assert(texts(visited@) =~= Seq::<Seq<char>>::empty());
            assert(items_view(impacted@) =~= Seq::<(Seq<char>, int)>::empty());
        }
        self.traverse(element_id, 0, max_depth, &mut visited, &mut impacted);
        Ok(ImpactReport { root_element_id: owned(element_id), impacted_elements: impacted })
    }

    /// One step of the walk (see `visit`).
    fn traverse(
        &self,
        id: &str,
        depth: usize,
        max: usize,
        visited: &mut Vec<String>,
        results: &mut Vec<ImpactedItem>,
    )
        ensures
            ({
                let w = visit(
                    self.graph(),
                    id@,
                    depth as int,
                    max as int,
                    WalkState { visited: texts(old(visited)@), found: items_view(old(results)@) },
                );
                texts(final(visited)@) == w.visited && items_view(final(results)@) == w.found
            }),
        decreases max + 1 - depth,
    {
        let ghost g = self.graph();
        if depth > max || crate::vocabulary::contains_text(visited, id) {
            return;
        }
        let ghost v0 = texts(visited@);
        let ghost f0 = items_view(results@);
        visited.push(owned(id));
        assert(texts(visited@) =~= v0.push(id@));
        if depth > 0 {
            results.push(ImpactedItem { element_id: owned(id), distance: depth });
            assert(items_view(results@) =~= f0.push((id@, depth as int)));
        }
        let ghost w1 = WalkState { visited: texts(visited@), found: items_view(results@) };
        if depth == max {
            proof {
                lemma_visit_all_beyond(g, neighbours(g, id@), depth + 1, max as int, w1);
            }
            return;
        }
        let down = self.tracer.get_downstream_ids(id);
        let up = self.tracer.get_upstream_ids(id);
        let mut next: Vec<String> = Vec::new();
        let mut k: usize = 0;
        while k < down.len()
            invariant
                k <= down@.len(),
                texts(next@) == texts(down@).take(k as int),
            decreases down@.len() - k,
        {
            let ghost b = texts(next@);
            next.push(down[k].clone());
            assert(texts(next@) =~= b.push(down@[k as int]@));
            assert(texts(down@).take(k as int + 1) =~= texts(down@).take(k as int).push(down@[k as int]@));
            k = k + 1;
        }
        let mut k: usize = 0;
        assert(texts(down@).take(down@.len() as int) =~= texts(down@));
        while k < up.len()
            invariant
                k <= up@.len(),
                texts(next@) == texts(down@) + texts(up@).take(k as int),
            decreases up@.len() - k,
        {
            let ghost b = texts(next@);
            next.push(up[k].clone());
            assert(texts(next@) =~= b.push(up@[k as int]@));
            assert(texts(up@).take(k as int + 1) =~= texts(up@).take(k as int).push(up@[k as int]@));
            k = k + 1;
        }
        assert(texts(up@).take(up@.len() as int) =~= texts(up@));
        let ghost ns = texts(next@);
        assert(ns == neighbours(g, id@));
        let mut k: usize = 0;
        assert(ns.subrange(0, ns.len() as int) =~= ns);
        while k < next.len()
            invariant
                g == self.graph(),
                depth < max,
                k <= next@.len(),
                ns == texts(next@),
                visit_all(g, ns, depth + 1, max as int, w1) == visit_all(
                    g,
                    ns.subrange(k as int, ns.len() as int),
                    depth + 1,
                    max as int,
                    WalkState { visited: texts(visited@), found: items_view(results@) },
                ),
            decreases next@.len() - k,
        {
            let ghost wk = WalkState { visited: texts(visited@), found: items_view(results@) };
            let ghost rest = ns.subrange(k as int, ns.len() as int);
            assert(rest[0] == next@[k as int]@);
            assert(rest.subrange(1, rest.len() as int) =~= ns.subrange(k + 1, ns.len() as int));
            self.traverse(next[k].as_str(), depth + 1, max, visited, results);
            k = k + 1;
        }
    }
}

// ---------------------------------------------------------------------------
// Compliance
// ---------------------------------------------------------------------------

/// A breach of a compliance rule.
#[derive(Clone, Debug)]
pub struct Violation {
    pub element_id: Option<String>,
    pub rule_id: String,
    pub description: String,
    pub severity: String,
}

/// The content of a violation.
pub struct ViolationV {
    pub element_id: Option<Seq<char>>,
    pub rule_id: Seq<char>,
    pub description: Seq<char>,
    pub severity: Seq<char>,
}

impl View for Violation {
    type V = ViolationV;

    open spec fn view(&self) -> ViolationV {
        ViolationV {
            element_id: match self.element_id {
                Some(e) => Some(e@),
                None => None,
            },
            rule_id: self.rule_id@,
            description: self.description@,
            severity: self.severity@,
        }
    }
}

/// The contents of a list of violations.
pub open spec fn violations_view(v: Seq<Violation>) -> Seq<ViolationV> {
    v.map_values(|x: Violation| x@)
}

/// The outcome of a compliance check.
#[derive(Clone, Debug)]
pub struct ComplianceReport {
    pub standard: String,
    pub passed: bool,
    pub rules_checked: usize,
    pub violations: Vec<Violation>,
}

/// Why a compliance check could not be completed.
#[derive(Clone, Debug)]
pub enum ComplianceError {
    /// An element lacks a field the check needs.
    DataIncomplete(String),
}

/// A compliance standard checked over a traceability graph and the documents
/// of the elements, by identifier.
pub trait ComplianceChecker {
    /// The name of the standard.
    fn name(&self) -> &str;

    /// Checks the documents against the standard.
    fn check(&self, tracer: &Tracer, docs: &Vec<(String, JsonValue)>) -> Result<
        ComplianceReport,
        ComplianceError,
    >;
}

/// The entries of the document index, as contents.
pub open spec fn docs_view(docs: Seq<(String, JsonValue)>) -> Seq<(Seq<char>, JsonView)> {
    jview_entries(docs)
}

/// A system function: its `@type` mentions `SystemFunction`, or its `kind` is
/// `Function`.
pub open spec fn is_system_function(doc: JsonView) -> bool {
    (match member_str(doc, "@type"@) {
        Some(t) => has_infix(t, "SystemFunction"@),
        None => false,
    }) || member_str(doc, "kind"@) == Some("Function"@)
}

/// The DO-178C traceability audit of the documents, in order: the number of
/// system functions checked, and a violation for each one without downstream
/// links; a function without a downstream link and without a name stops the audit.
pub open spec fn do178_fold(g: LinkGraph, docs: Seq<(Seq<char>, JsonView)>) -> Result<
    (int, Seq<ViolationV>),
    Seq<char>,
>
    decreases docs.len(),
{
    if docs.len() == 0 {
        Ok((0, Seq::empty()))
    } else {
        match do178_fold(g, docs.drop_last()) {
            Err(id) => Err(id),
            Ok(acc) => {
                let id = docs.last().0;
                let doc = docs.last().1;
                if is_system_function(doc) {
                    if get_or_empty(g.down, id).len() == 0 {
                        match member_str(doc, "name"@) {
                            Some(name) => Ok(
                                (
                                    acc.0 + 1,
                                    acc.1.push(
                                        ViolationV {
                                            element_id: Some(id),
                                            rule_id: "DO178-TRACE-01"@,
                                            description: "La fonction '"@ + name
                                                + "' n'est pas allouée à un composant logiciel (LA)"@,
                                            severity: "High"@,
                                        },
                                    ),
                                ),
                            ),
                            None => Err(id),
                        }
                    } else {
                        Ok((acc.0 + 1, acc.1))
                    }
                } else {
                    Ok(acc)
                }
            },
        }
    }
}

/// The DO-178C software traceability checker.
pub struct Do178cChecker;

impl ComplianceChecker for Do178cChecker {
    fn name(&self) -> (r: &str)
        ensures
            r@ == "DO-178C (Software Traceability)"@,
    {
        "DO-178C (Software Traceability)"
    }

    fn check(&self, tracer: &Tracer, docs: &Vec<(String, JsonValue)>) -> (r: Result<
        ComplianceReport,
        ComplianceError,
    >)
        ensures
            match do178_fold(tracer.graph(), docs_view(docs@)) {
                Ok(acc) => r matches Ok(rep) && rep.standard@ == "DO-178C (Software Traceability)"@
                    && rep.rules_checked as int == acc.0 && violations_view(rep.violations@)
                    == acc.1 && rep.passed == (acc.1.len() == 0),
                Err(id) => r matches Err(ComplianceError::DataIncomplete(e)) && e@ == id,
            },
    {
        let ghost g = tracer.graph();
        let ghost dv = docs_view(docs@);
        proof {
            lemma_jview_entries(docs@);
            assert(dv.take(0) =~= Seq::<(Seq<char>, JsonView)>::empty());
        }
        let mut violations: Vec<Violation> = Vec::new();
        let mut checked: usize = 0;
        let mut i: usize = 0;
        assert(violations_view(violations@) =~= Seq::<ViolationV>::empty());
        while i < docs.len()
            invariant
                i <= docs@.len(),
                g == tracer.graph(),
                dv == docs_view(docs@),
                dv.len() == docs@.len(),
                forall|j: int| 0 <= j < docs@.len() ==> #[trigger] dv[j] == (docs@[j].0@, docs@[j].1@),
                checked <= i,
                do178_fold(g, dv.take(i as int)) == Ok::<(int, Seq<ViolationV>), Seq<char>>(
                    (checked as int, violations_view(violations@)),
                ),
            decreases docs@.len() - i,
        {
            assert(dv.take(i as int + 1).drop_last() =~= dv.take(i as int));
            assert(dv.take(i as int + 1).last() == dv[i as int]);
            let id = &docs[i].0;
            let doc = &docs[i].1;
            let by_type = match doc.get("@type") {
                Some(t) => match t.as_str() {
                    Some(ts) => contains(ts, "SystemFunction"),
                    None => false,
                },
                None => false,
            };
            let by_kind = match doc.get("kind") {
                Some(k) => match k.as_str() {
                    Some(ks) => str_eq(ks, "Function"),
                    None => false,
                },
                None => false,
            };
            if by_type || by_kind {
                let downstream = tracer.get_downstream_ids(id.as_str());
                if downstream.len() == 0 {
                    let name = match doc.get("name") {
                        Some(n) => match n.as_str() {
                            Some(ns) => ns,
                            None => {
                                proof {
                                    lemma_do178_err(g, dv, i as int + 1);
                                }
                                return Err(ComplianceError::DataIncomplete(id.clone()));
                            },
                        },
                        None => {
                            proof {
                                lemma_do178_err(g, dv, i as int + 1);
                            }
                            return Err(ComplianceError::DataIncomplete(id.clone()));
                        },
                    };
                    let description = concat3(
                        "La fonction '",
                        name,
                        "' n'est pas allouée à un composant logiciel (LA)",
                    );
                    let ghost before = violations_view(violations@);
                    violations.push(
                        Violation {
                            element_id: Some(id.clone()),
                            rule_id: owned("DO178-TRACE-01"),
                            description,
                            severity: owned("High"),
                        },
                    );
                    assert(violations_view(violations@) =~= before.push(violations@[violations@.len() - 1]@));
                }
                checked = checked + 1;
            }
            i = i + 1;
        }
        assert(dv.take(docs@.len() as int) =~= dv);
        let passed = violations.len() == 0;
        Ok(
            ComplianceReport {
                standard: owned(self.name()),
                passed,
                rules_checked: checked,
                violations,
            },
        )
    }
}

proof fn lemma_do178_err(g: LinkGraph, docs: Seq<(Seq<char>, JsonView)>, k: int)
    requires
        0 <= k <= docs.len(),
        do178_fold(g, docs.take(k)) is Err,
    ensures
        do178_fold(g, docs) == do178_fold(g, docs.take(k)),
    decreases docs.len() - k,
{
    if k < docs.len() {
        assert(docs.take(k + 1).drop_last() =~= docs.take(k));
        lemma_do178_err(g, docs, k + 1);
    } else {
        assert(docs.take(k) =~= docs);
    }
}

/// The document registered under `id` has the `kind` `k`.
pub open spec fn doc_has_kind(docs: Seq<(Seq<char>, JsonView)>, id: Seq<char>, k: Seq<char>) -> bool {
    let p = crate::json::key_pos(docs, id);
    0 <= p < docs.len() && member_str(docs[p].1, "kind"@) == Some(k)
}

/// Some evidence element has the `kind` `k`.
pub open spec fn has_evidence(docs: Seq<(Seq<char>, JsonView)>, evidence: Seq<Seq<char>>, k: Seq<char>) -> bool {
    exists|i: int| 0 <= i < evidence.len() && #[trigger] doc_has_kind(docs, evidence[i], k)
}

/// The AI governance violations of one AI model.
pub open spec fn ai_violations(docs: Seq<(Seq<char>, JsonView)>, g: LinkGraph, id: Seq<char>, doc: JsonView) -> Seq<ViolationV> {
    let name = match member_str(doc, "name"@) {
        Some(n) => n,
        None => id,
    };
    let evidence = get_or_empty(g.up, id);
    let qr: Seq<ViolationV> = if !has_evidence(docs, evidence, "QualityReport"@) {
        seq![
            ViolationV {
                element_id: Some(id),
                rule_id: "AI-GOV-QR"@,
                description: "Le modèle IA '"@ + name + "' manque d'un QualityReport validé"@,
                severity: "Critical"@,
            },
        ]
    } else {
        Seq::empty()
    };
    let xai: Seq<ViolationV> = if !has_evidence(docs, evidence, "XaiFrame"@) {
        seq![
            ViolationV {
                element_id: Some(id),
                rule_id: "AI-GOV-XAI"@,
                description: "Le modèle IA '"@ + name + "' manque d'une trame d'explicabilité (XAI)"@,
                severity: "High"@,
            },
        ]
    } else {
        Seq::empty()
    };
    qr + xai
}

/// The AI governance audit of the first `k` documents: the number of AI models
/// (`nature` is `AI_Model`) and their violations, in order.
pub open spec fn ai_fold(g: LinkGraph, docs: Seq<(Seq<char>, JsonView)>, k: int) -> (int, Seq<ViolationV>)
    decreases k,
{
    if k <= 0 || k > docs.len() {
        (0, Seq::empty())
    } else {
        let prev = ai_fold(g, docs, k - 1);
        let id = docs[k - 1].0;
        let doc = docs[k - 1].1;
        if member_str(doc, "nature"@) == Some("AI_Model"@) {
            (prev.0 + 1, prev.1 + ai_violations(docs, g, id, doc))
        } else {
            prev
        }
    }
}

/// Whether one of `evidence` is a document of kind `k`.
fn find_evidence(docs: &Vec<(String, JsonValue)>, evidence: &Vec<String>, k: &str) -> (b: bool)
    ensures
        b == has_evidence(docs_view(docs@), texts(evidence@), k@),
{
    let ghost dv = docs_view(docs@);
    proof {
        lemma_jview_entries(docs@);
    }
    let mut i: usize = 0;
    while i < evidence.len()
        invariant
            i <= evidence@.len(),
            dv == docs_view(docs@),
            dv.len() == docs@.len(),
            forall|j: int| 0 <= j < docs@.len() ==> #[trigger] dv[j] == (docs@[j].0@, docs@[j].1@),
            forall|j: int| 0 <= j < i ==> !#[trigger] doc_has_kind(dv, texts(evidence@)[j], k@),
        decreases evidence@.len() - i,
    {
        assert(texts(evidence@)[i as int] == evidence@[i as int]@);
        let hit = match crate::json::find_key(docs, evidence[i].as_str()) {
            Some(p) => match docs[p].1.get("kind") {
                Some(kv) => match kv.as_str() {
                    Some(ks) => str_eq(ks, k),
                    None => false,
                },
                None => false,
            },
            None => false,
        };
        if hit {
            assert(doc_has_kind(dv, texts(evidence@)[i as int], k@));
            return true;
        }
        i = i + 1;
    }
    false
}

/// The AI governance checker.
pub struct AiGovernanceChecker;

impl ComplianceChecker for AiGovernanceChecker {
    fn name(&self) -> (r: &str)
        ensures
            r@ == "RAISE AI Governance"@,
    {
        "RAISE AI Governance"
    }

    fn check(&self, tracer: &Tracer, docs: &Vec<(String, JsonValue)>) -> (r: Result<
        ComplianceReport,
        ComplianceError,
    >)
        ensures
            ({
                let acc = ai_fold(tracer.graph(), docs_view(docs@), docs@.len() as int);
                r matches Ok(rep) && rep.standard@ == "RAISE AI Governance"@ && rep.rules_checked as int
                    == acc.0 && violations_view(rep.violations@) == acc.1 && rep.passed == (acc.1.len()
                    == 0)
            }),
    {
        let ghost g = tracer.graph();
        let ghost dv = docs_view(docs@);
        proof {
            lemma_jview_entries(docs@);
        }
        let mut violations: Vec<Violation> = Vec::new();
        let mut checked: usize = 0;
        let mut i: usize = 0;
        assert(violations_view(violations@) =~= Seq::<ViolationV>::empty());
        while i < docs.len()
            invariant
                i <= docs@.len(),
                g == tracer.graph(),
                dv == docs_view(docs@),
                dv.len() == docs@.len(),
                forall|j: int| 0 <= j < docs@.len() ==> #[trigger] dv[j] == (docs@[j].0@, docs@[j].1@),
                checked <= i,
                ai_fold(g, dv, i as int) == (checked as int, violations_view(violations@)),
            decreases docs@.len() - i,
        {
            let id = &docs[i].0;
            let doc = &docs[i].1;
            let is_ai = match doc.get("nature") {
                Some(n) => match n.as_str() {
                    Some(ns) => str_eq(ns, "AI_Model"),
                    None => false,
                },
                None => false,
            };
            if is_ai {
                let name: &str = match doc.get("name") {
                    Some(n) => match n.as_str() {
                        Some(ns) => ns,
                        None => id.as_str(),
                    },
                    None => id.as_str(),
                };
                let evidence = tracer.get_upstream_ids(id.as_str());
                let has_quality = find_evidence(docs, &evidence, "QualityReport");
                let has_xai = find_evidence(docs, &evidence, "XaiFrame");
                let ghost before = violations_view(violations@);
                if !has_quality {
                    violations.push(
                        Violation {
                            element_id: Some(id.clone()),
                            rule_id: owned("AI-GOV-QR"),
                            description: concat3("Le modèle IA '", name, "' manque d'un QualityReport validé"),
                            severity: owned("Critical"),
                        },
                    );
                }
                let ghost mid = violations_view(violations@);
                if !has_xai {
                    violations.push(
                        Violation {
                            element_id: Some(id.clone()),
                            rule_id: owned("AI-GOV-XAI"),
                            description: concat3(
                                "Le modèle IA '",
                                name,
                                "' manque d'une trame d'explicabilité (XAI)",
                            ),
                            severity: owned("High"),
                        },
                    );
                }
                proof {
                    let vs = ai_violations(dv, g, id@, doc@);
                    if !has_quality {
                        assert(mid =~= before.push(violations@[before.len() as int]@));
                    } else {
                        assert(mid =~= before);
                    }
                    assert(violations_view(violations@) =~= before + vs);
                }
                checked = checked + 1;
            }
            i = i + 1;
        }
        let passed = violations.len() == 0;
        Ok(
            ComplianceReport {
                standard: owned(self.name()),
                passed,
                rules_checked: checked,
                violations,
            },
        )
    }
}

// ---------------------------------------------------------------------------
// Model statistics
// ---------------------------------------------------------------------------

/// Counts of elements by family.
#[derive(Clone, Copy, Debug, PartialEq, Eq, Structural)]
pub struct ModelStats {
    pub total_elements: usize,
    pub total_functions: usize,
    pub total_components: usize,
    pub total_requirements: usize,
    pub total_scenarios: usize,
    pub total_functional_chains: usize,
}

/// An audit of a project: the date, the result of each compliance check and
/// the model statistics.
pub struct AuditReport {
    pub project_name: String,
    pub date: String,
    pub compliance_results: Vec<JsonValue>,
    pub model_stats: ModelStats,
}

/// Why statistics could not be computed: the document `id` has a non-string
/// `field` (`kind` or `@type`).
#[derive(Clone, Debug)]
pub enum StatsError {
    DataTypeMismatch(String, String),
}

/// A member that must be a string when present: `Ok` with its text (empty when
/// absent), `Err` when present and not a string.
pub open spec fn optional_text(doc: JsonView, k: Seq<char>) -> Result<Seq<char>, ()> {
    match vget(doc, k) {
        None => Ok(Seq::empty()),
        Some(JsonView::Str(t)) => Ok(t),
        Some(_) => Err(()),
    }
}

/// The family of a document: 1 function, 2 component, 3 requirement,
/// 4 scenario, 5 functional chain, 0 none; by `kind`, or by a mention in `@type`.
pub open spec fn family(kind: Seq<char>, iri: Seq<char>) -> int {
    if kind == "Function"@ || has_infix(iri, "Function"@) {
        1
    } else if kind == "Component"@ || has_infix(iri, "Component"@) {
        2
    } else if kind == "Requirement"@ || has_infix(iri, "Requirement"@) {
        3
    } else if kind == "Scenario"@ || has_infix(iri, "Scenario"@) {
        4
    } else if kind == "FunctionalChain"@ || has_infix(iri, "FunctionalChain"@) {
        5
    } else {
        0
    }
}

/// The number of the first `k` documents of family `f`; `None` when one of
/// them has a non-string `kind` or `@type`.
pub open spec fn family_count(docs: Seq<(Seq<char>, JsonView)>, k: int, f: int) -> Option<int>
    decreases k,
{
    if k <= 0 || k > docs.len() {
        Some(0)
    } else {
        match family_count(docs, k - 1, f) {
            None => None,
            Some(n) => {
                let doc = docs[k - 1].1;
                match (optional_text(doc, "kind"@), optional_text(doc, "@type"@)) {
                    (Ok(kind), Ok(iri)) => Some(if family(kind, iri) == f {
                        n + 1
                    } else {
                        n
                    }),
                    _ => None,
                }
            },
        }
    }
}

/// The audit report generator.
pub struct AuditGenerator;

impl AuditGenerator {
    /// The statistics of the documents: their number and the count of each family
    /// (see `family_count`); refused at the first document with a non-string
    /// `kind` or `@type`.
    pub fn calculate_stats(docs: &Vec<(String, JsonValue)>) -> (r: Result<ModelStats, StatsError>)
        ensures
            ({
                let dv = docs_view(docs@);
                let n = docs@.len() as int;
                match r {
                    Ok(s) => {
                        &&& s.total_elements == docs@.len()
                        &&& family_count(dv, n, 1) == Some(s.total_functions as int)
                        &&& family_count(dv, n, 2) == Some(s.total_components as int)
                        &&& family_count(dv, n, 3) == Some(s.total_requirements as int)
                        &&& family_count(dv, n, 4) == Some(s.total_scenarios as int)
                        &&& family_count(dv, n, 5) == Some(s.total_functional_chains as int)
                    },
                    Err(_) => family_count(dv, n, 1) is None,
                }
            }),
    {
        let ghost dv = docs_view(docs@);
        proof {
            lemma_jview_entries(docs@);
        }
        let mut stats = ModelStats {
            total_elements: docs.len(),
            total_functions: 0,
            total_components: 0,
            total_requirements: 0,
            total_scenarios: 0,
            total_functional_chains: 0,
        };
        let mut i: usize = 0;
        while i < docs.len()
            invariant
                i <= docs@.len(),
                dv == docs_view(docs@),
                dv.len() == docs@.len(),
                forall|j: int| 0 <= j < docs@.len() ==> #[trigger] dv[j] == (docs@[j].0@, docs@[j].1@),
                stats.total_elements == docs@.len(),
                stats.total_functions <= i,
                stats.total_components <= i,
                stats.total_requirements <= i,
                stats.total_scenarios <= i,
                stats.total_functional_chains <= i,
                family_count(dv, i as int, 1) == Some(stats.total_functions as int),
                family_count(dv, i as int, 2) == Some(stats.total_components as int),
                family_count(dv, i as int, 3) == Some(stats.total_requirements as int),
                family_count(dv, i as int, 4) == Some(stats.total_scenarios as int),
                family_count(dv, i as int, 5) == Some(stats.total_functional_chains as int),
            decreases docs@.len() - i,
        {
            let doc = &docs[i].1;
            let kind: &str = match doc.get("kind") {
                Some(v) => match v.as_str() {
                    Some(t) => t,
                    None => {
                        proof {
                            lemma_family_none(dv, i as int + 1, docs@.len() as int, 1);
                        }
                        return Err(StatsError::DataTypeMismatch(docs[i].0.clone(), owned("kind")));
                    },
                },
                None => "",
            };
            let iri: &str = match doc.get("@type") {
                Some(v) => match v.as_str() {
                    Some(t) => t,
                    None => {
                        proof {
                            lemma_family_none(dv, i as int + 1, docs@.len() as int, 1);
                        }
                        return Err(StatsError::DataTypeMismatch(docs[i].0.clone(), owned("@type")));
                    },
                },
                None => "",
            };
            proof {
                reveal_strlit("");
                assert(""@ =~= Seq::<char>::empty());
            }
            if str_eq(kind, "Function") || contains(iri, "Function") {
                stats.total_functions = stats.total_functions + 1;
            } else if str_eq(kind, "Component") || contains(iri, "Component") {
                stats.total_components = stats.total_components + 1;
            } else if str_eq(kind, "Requirement") || contains(iri, "Requirement") {
                stats.total_requirements = stats.total_requirements + 1;
            } else if str_eq(kind, "Scenario") || contains(iri, "Scenario") {
                stats.total_scenarios = stats.total_scenarios + 1;
            } else if str_eq(kind, "FunctionalChain") || contains(iri, "FunctionalChain") {
                stats.total_functional_chains = stats.total_functional_chains + 1;
            }
            i = i + 1;
        }
        Ok(stats)
    }
}

proof fn lemma_family_none(docs: Seq<(Seq<char>, JsonView)>, k: int, m: int, f: int)
    requires
        0 <= k <= m <= docs.len(),
        family_count(docs, k, f) is None,
    ensures
        family_count(docs, m, f) is None,
    decreases m - k,
{
    if k < m {
        lemma_family_none(docs, k, m - 1, f);
    }
}

} // verus!
