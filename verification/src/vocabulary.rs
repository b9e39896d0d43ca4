//! The semantic vocabulary: classes and properties loaded from JSON-LD ontologies,
//! prefix contexts, and the class ancestry derived from `rdfs:subClassOf`.
use vstd::prelude::*;
use crate::assoc::{
    assoc_contains, assoc_find, assoc_get, assoc_insert, assoc_lookup, assoc_map, assoc_pos,
    lemma_assoc_pos, lemma_assoc_pos_same_keys,
};
use crate::json::{
    JsonValue, JsonView, jview_entries, jview_items, lemma_jview_entries, lemma_jview_items,
    member_items, member_str, vget, vstr,
};
use crate::model::texts;
use crate::text::{
    concat2, has_prefix, owned, split_once_char, split_once_spec, starts_with, str_eq,
};

verus! {

/// The two kinds of ontology properties.
#[derive(PartialEq, Eq, Structural, Clone, Copy, Debug)]
pub enum PropertyType {
    DatatypeProperty,
    ObjectProperty,
}

/// An ontology class.
pub struct Class {
    pub iri: String,
    pub label: String,
    pub comment: String,
    pub sub_class_of: Option<String>,
}

/// An ontology property.
pub struct Property {
    pub iri: String,
    pub label: String,
    pub property_type: PropertyType,
    pub domain: Option<String>,
    pub range: Option<String>,
}

/// The text of an optional string.
pub open spec fn opt_text(o: Option<String>) -> Option<Seq<char>> {
    match o {
        Some(s) => Some(s@),
        None => None,
    }
}

/// The content of a class.
pub struct ClassV {
    pub iri: Seq<char>,
    pub label: Seq<char>,
    pub comment: Seq<char>,
    pub sub_class_of: Option<Seq<char>>,
}

/// The content of a property.
pub struct PropertyV {
    pub iri: Seq<char>,
    pub label: Seq<char>,
    pub property_type: PropertyType,
    pub domain: Option<Seq<char>>,
    pub range: Option<Seq<char>>,
}

impl View for Class {
    type V = ClassV;

    open spec fn view(&self) -> ClassV {
        ClassV {
            iri: self.iri@,
            label: self.label@,
            comment: self.comment@,
            sub_class_of: opt_text(self.sub_class_of),
        }
    }
}

impl View for Property {
    type V = PropertyV;

    open spec fn view(&self) -> PropertyV {
        PropertyV {
            iri: self.iri@,
            label: self.label@,
            property_type: self.property_type,
            domain: opt_text(self.domain),
            range: opt_text(self.range),
        }
    }
}

/// A copy of an optional string.
pub fn copy_opt(o: &Option<String>) -> (r: Option<String>)
    ensures
        opt_text(r) == opt_text(*o),
{
    match o {
        Some(s) => Some(s.clone()),
        None => None,
    }
}

impl Class {
    /// A copy of this class.
    pub fn duplicate(&self) -> (r: Class)
        ensures
            r@ == self@,
    {
        Class {
            iri: self.iri.clone(),
            label: self.label.clone(),
            comment: self.comment.clone(),
            sub_class_of: copy_opt(&self.sub_class_of),
        }
    }
}

impl Property {
    /// A copy of this property.
    pub fn duplicate(&self) -> (r: Property)
        ensures
            r@ == self@,
    {
        Property {
            iri: self.iri.clone(),
            label: self.label.clone(),
            property_type: self.property_type,
            domain: copy_opt(&self.domain),
            range: copy_opt(&self.range),
        }
    }
}

/// The loaded vocabulary: classes and properties by IRI, the prefix context, the
/// raw `@context` of each loaded layer, and the ancestors of each class.
pub struct RegistryState {
    pub classes: Vec<(String, Class)>,
    pub properties: Vec<(String, Property)>,
    pub default_context: Vec<(String, String)>,
    pub layer_contexts: Vec<(String, JsonValue)>,
    pub ancestry: Vec<(String, Vec<String>)>,
}

/// The content of a registry state (without the derived ancestry).
pub struct RegistryView {
    pub classes: Map<Seq<char>, ClassV>,
    pub properties: Map<Seq<char>, PropertyV>,
    pub default_context: Map<Seq<char>, Seq<char>>,
    pub layer_contexts: Map<Seq<char>, JsonView>,
}

impl View for RegistryState {
    type V = RegistryView;

    open spec fn view(&self) -> RegistryView {
        RegistryView {
            classes: assoc_map(self.classes@).map_values(|c: Class| c@),
            properties: assoc_map(self.properties@).map_values(|p: Property| p@),
            default_context: assoc_map(self.default_context@).map_values(|s: String| s@),
            layer_contexts: assoc_map(self.layer_contexts@).map_values(|j: JsonValue| j@),
        }
    }
}

// ---------------------------------------------------------------------------
// Ancestry
// ---------------------------------------------------------------------------

/// The declared parent of class `p`, when `p` is a known class.
pub open spec fn parent_in(cl: Map<Seq<char>, ClassV>, p: Seq<char>) -> Option<Seq<char>> {
    if cl.contains_key(p) {
        cl[p].sub_class_of
    } else {
        None
    }
}

/// The parent chain from `cur`, appended to `seen`: it stops at the first class
/// already seen, at a missing parent, or after 101 steps.
pub open spec fn chain_from(
    cl: Map<Seq<char>, ClassV>,
    cur: Option<Seq<char>>,
    seen: Seq<Seq<char>>,
    depth: int,
) -> Seq<Seq<char>>
    decreases 101 - depth,
{
    match cur {
        None => seen,
        Some(p) => if depth > 100 || depth < 0 || seen.contains(p) {
            seen
        } else {
            chain_from(cl, parent_in(cl, p), seen.push(p), depth + 1)
        },
    }
}

/// The ancestors recorded for a class.
pub open spec fn ancestors_of(cl: Map<Seq<char>, ClassV>, c: ClassV) -> Seq<Seq<char>> {
    chain_from(cl, c.sub_class_of, Seq::empty(), 0)
}

/// The ancestry of `st` is the one derived from its classes: one entry per class,
/// holding that class's ancestors.
pub open spec fn ancestry_holds(st: RegistryState) -> bool {
    let cl = st@.classes;
    let an = assoc_map(st.ancestry@);
    &&& an.dom() == cl.dom()
    &&& forall|k: Seq<char>|
        #![trigger an[k]]
        an.contains_key(k) ==> texts(an[k]@) == ancestors_of(cl, cl[k])
}

/// The chain extends what was already seen.
pub proof fn lemma_chain_extends(
    cl: Map<Seq<char>, ClassV>,
    cur: Option<Seq<char>>,
    seen: Seq<Seq<char>>,
    depth: int,
)
    ensures
        chain_from(cl, cur, seen, depth).len() >= seen.len(),
        chain_from(cl, cur, seen, depth).subrange(0, seen.len() as int) == seen,
    decreases 101 - depth,
{
    match cur {
        None => {
            assert(seen.subrange(0, seen.len() as int) =~= seen);
        },
        Some(p) => {
            if depth > 100 || depth < 0 || seen.contains(p) {
                assert(seen.subrange(0, seen.len() as int) =~= seen);
            } else {
                lemma_chain_extends(cl, parent_in(cl, p), seen.push(p), depth + 1);
                let r = chain_from(cl, parent_in(cl, p), seen.push(p), depth + 1);
                assert(r.subrange(0, seen.len() as int) =~= r.subrange(
                    0,
                    seen.len() as int + 1,
                ).subrange(0, seen.len() as int));
            }
        },
    }
}

/// Law: the declared parent of a class is always among its recorded ancestors.
pub proof fn law_parent_is_ancestor(cl: Map<Seq<char>, ClassV>, c: ClassV, p: Seq<char>)
    requires
        c.sub_class_of == Some(p),
    ensures
        ancestors_of(cl, c).contains(p),
{
    let s: Seq<Seq<char>> = Seq::empty();
    assert(!s.contains(p));
    lemma_chain_extends(cl, parent_in(cl, p), s.push(p), 1);
    let r = chain_from(cl, parent_in(cl, p), s.push(p), 1);
    assert(r.subrange(0, 1)[0] == p);
    assert(r[0] == p);
}

/// A chain under way is closed under parents: each element before the depth
/// limit has its parent in the chain.
proof fn lemma_chain_closed(
    cl: Map<Seq<char>, ClassV>,
    cur: Option<Seq<char>>,
    seen: Seq<Seq<char>>,
    depth: int,
)
    requires
        depth == seen.len(),
        forall|j: int| 0 <= j < seen.len() - 1 ==> parent_in(cl, #[trigger] seen[j]) == Some(seen[j + 1]),
        seen.len() > 0 ==> parent_in(cl, seen.last()) == cur,
    ensures
        forall|j: int|
            0 <= j < chain_from(cl, cur, seen, depth).len() && j < 100 && parent_in(
                cl,
                #[trigger] chain_from(cl, cur, seen, depth)[j],
            ) is Some ==> chain_from(cl, cur, seen, depth).contains(
                parent_in(cl, chain_from(cl, cur, seen, depth)[j])->0,
            ),
    decreases 101 - depth,
{
    let r = chain_from(cl, cur, seen, depth);
    match cur {
        None => {
            assert forall|j: int|
                0 <= j < r.len() && j < 100 && parent_in(cl, #[trigger] r[j]) is Some implies r.contains(
                    parent_in(cl, r[j])->0,
                ) by {
                assert(j + 1 < seen.len());
                assert(r[j + 1] == parent_in(cl, r[j])->0);
            }
        },
        Some(p) => {
            if depth > 100 || depth < 0 || seen.contains(p) {
                assert forall|j: int|
                    0 <= j < r.len() && j < 100 && parent_in(cl, #[trigger] r[j]) is Some implies r.contains(
                        parent_in(cl, r[j])->0,
                    ) by {
                    if j + 1 < seen.len() {
                        assert(r[j + 1] == parent_in(cl, r[j])->0);
                    } else {
                        assert(parent_in(cl, r[j])->0 == p);
                    }
                }
            } else {
                let s2 = seen.push(p);
                assert forall|j: int| 0 <= j < s2.len() - 1 implies parent_in(cl, #[trigger] s2[j]) == Some(s2[j + 1]) by {
                    if j < seen.len() - 1 {
                        assert(s2[j] == seen[j] && s2[j + 1] == seen[j + 1]);
                    } else {
                        assert(s2[j] == seen.last());
                    }
                }
                lemma_chain_closed(cl, parent_in(cl, p), s2, depth + 1);
            }
        },
    }
}

/// Law: ancestry is transitive. Whenever an ancestor among the first hundred
/// of a class has a declared parent, that parent is an ancestor of the class
/// too; so a class's grandparent, great-grandparent and so on are all
/// recorded.
pub proof fn law_ancestry_is_transitive(cl: Map<Seq<char>, ClassV>, c: ClassV, i: int, q: Seq<char>)
    requires
        0 <= i < ancestors_of(cl, c).len(),
        i < 100,
        cl.contains_key(ancestors_of(cl, c)[i]),
        cl[ancestors_of(cl, c)[i]].sub_class_of == Some(q),
    ensures
        ancestors_of(cl, c).contains(q),
{
    lemma_chain_closed(cl, c.sub_class_of, Seq::empty(), 0);
    assert(parent_in(cl, ancestors_of(cl, c)[i]) == Some(q));
}

/// Law: the parent of a class's declared parent, when that parent is a known
/// class, is among the class's ancestors.
pub proof fn law_grandparent_is_ancestor(cl: Map<Seq<char>, ClassV>, c: ClassV, p: Seq<char>, q: Seq<char>)
    requires
        c.sub_class_of == Some(p),
        cl.contains_key(p),
        cl[p].sub_class_of == Some(q),
    ensures
        ancestors_of(cl, c).contains(q),
{
    law_parent_is_ancestor(cl, c, p);
    let s: Seq<Seq<char>> = Seq::empty();
    assert(!s.contains(p));
    lemma_chain_extends(cl, parent_in(cl, p), s.push(p), 1);
    let r = ancestors_of(cl, c);
    assert(r.subrange(0, 1)[0] == p);
    assert(r[0] == p);
    law_ancestry_is_transitive(cl, c, 0, q);
}

/// The ancestors of one class, following `rdfs:subClassOf` links.
fn ancestors_exec(classes: &Vec<(String, Class)>, start: &Option<String>) -> (r: Vec<String>)
    ensures
        texts(r@) == chain_from(
            assoc_map(classes@).map_values(|c: Class| c@),
            opt_text(*start),
            Seq::empty(),
            0,
        ),
{
    let ghost cl = assoc_map(classes@).map_values(|c: Class| c@);
    let mut ancestors: Vec<String> = Vec::new();
    let mut current: Option<String> = copy_opt(start);
    let mut depth: usize = 0;
    assert(texts(ancestors@) =~= Seq::<Seq<char>>::empty());
    loop
        invariant
            cl == assoc_map(classes@).map_values(|c: Class| c@),
            depth <= 101,
            chain_from(cl, opt_text(*start), Seq::empty(), 0) == chain_from(
                cl,
                opt_text(current),
                texts(ancestors@),
                depth as int,
            ),
        decreases 101 - depth,
    {
        match current {
            None => {
                return ancestors;
            },
            Some(parent) => {
                if depth > 100 || contains_text(&ancestors, parent.as_str()) {
                    return ancestors;
                }
                let next = match assoc_lookup(classes, parent.as_str()) {
                    Some(c) => copy_opt(&c.sub_class_of),
                    None => None,
                };
                proof {
                    assert(parent_in(cl, parent@) == opt_text(next));
                }
                let ghost before = texts(ancestors@);
                ancestors.push(parent);
                proof {
                    assert(texts(ancestors@) =~= before.push(ancestors@[ancestors@.len() - 1]@));
                }
                current = next;
                depth = depth + 1;
            },
        }
    }
}

/// Whether `s` is among the texts of `v`.
pub fn contains_text(v: &Vec<String>, s: &str) -> (b: bool)
    ensures
        b == texts(v@).contains(s@),
{
    let mut i: usize = 0;
    while i < v.len()
        invariant
            i <= v@.len(),
            forall|j: int| 0 <= j < i ==> v@[j]@ != s@,
        decreases v@.len() - i,
    {
        if str_eq(v[i].as_str(), s) {
            assert(texts(v@)[i as int] == s@);
            return true;
        }
        i = i + 1;
    }
    assert forall|j: int| 0 <= j < texts(v@).len() implies texts(v@)[j] != s@ by {
        assert(texts(v@)[j] == v@[j]@);
    }
    false
}

impl RegistryState {
    /// An empty state.
    pub fn new() -> (r: RegistryState)
        ensures
            r.classes@.len() == 0,
            r.properties@.len() == 0,
            r.default_context@.len() == 0,
            r.layer_contexts@.len() == 0,
            r.ancestry@.len() == 0,
            ancestry_holds(r),
    {
        let r = RegistryState {
            classes: Vec::new(),
            properties: Vec::new(),
            default_context: Vec::new(),
            layer_contexts: Vec::new(),
            ancestry: Vec::new(),
        };
        proof {
            assert(assoc_map(r.ancestry@).dom() =~= r@.classes.dom());
        }
        r
    }
}

impl VocabularyRegistry {
    /// Recomputes the ancestors of every class.
    pub fn rebuild_ancestry(state: &mut RegistryState)
        ensures
            final(state).classes == old(state).classes,
            final(state).properties == old(state).properties,
            final(state).default_context == old(state).default_context,
            final(state).layer_contexts == old(state).layer_contexts,
            ancestry_holds(*final(state)),
    {
        let ghost cl = state@.classes;
        let mut ancestry: Vec<(String, Vec<String>)> = Vec::new();
        let mut i: usize = 0;
        while i < state.classes.len()
            invariant
                cl == state@.classes,
                i <= state.classes@.len(),
                ancestry@.len() == i,
                forall|j: int|
                    0 <= j < i ==> (#[trigger] ancestry@[j]).0@ == state.classes@[j].0@ && texts(
                        ancestry@[j].1@,
                    ) == ancestors_of(cl, state.classes@[j].1@),
            decreases state.classes@.len() - i,
        {
            let anc = ancestors_exec(&state.classes, &state.classes[i].1.sub_class_of);
            ancestry.push((state.classes[i].0.clone(), anc));
            i = i + 1;
        }
        proof {
            let cs = state.classes@;
            lemma_assoc_pos_same_keys(ancestry@, cs);
            let an = assoc_map(ancestry@);
            assert(an.dom() =~= cl.dom());
            assert forall|k: Seq<char>| #![trigger an[k]] an.contains_key(k) implies texts(an[k]@)
                == ancestors_of(cl, cl[k]) by {
                lemma_assoc_pos(cs, k);
                let p = assoc_pos(cs, k);
                assert(an[k] == ancestry@[p].1);
                assert(cl[k] == cs[p].1@);
            }
        }
        state.ancestry = ancestry;
    }
}


// ---------------------------------------------------------------------------
// Reading a JSON-LD layer
// ---------------------------------------------------------------------------

/// The prefix context after reading the entries of a layer's `@context`: each
/// string member binds its key.
pub open spec fn context_fold(
    dc: Map<Seq<char>, Seq<char>>,
    es: Seq<(Seq<char>, JsonView)>,
) -> Map<Seq<char>, Seq<char>>
    decreases es.len(),
{
    if es.len() == 0 {
        dc
    } else {
        let prev = context_fold(dc, es.drop_last());
        match es.last().1 {
            JsonView::Str(iri) => prev.insert(es.last().0, iri),
            _ => prev,
        }
    }
}

/// The entries of an object value; nothing for other values.
pub open spec fn object_entries(j: JsonView) -> Seq<(Seq<char>, JsonView)> {
    match j {
        JsonView::Object(es) => es,
        _ => Seq::empty(),
    }
}

/// A full IRI: `http...` or `urn:...`.
pub open spec fn is_iri_text(t: Seq<char>) -> bool {
    has_prefix(t, "http"@) || has_prefix(t, "urn:"@)
}

/// The expansion of a compact IRI `prefix:suffix` through the prefix context;
/// full IRIs and unknown prefixes are kept as they are.
pub open spec fn expand_iri(dc: Map<Seq<char>, Seq<char>>, t: Seq<char>) -> Seq<char> {
    if is_iri_text(t) {
        t
    } else {
        match split_once_spec(t, ':') {
            Some(parts) => if dc.contains_key(parts.0) {
                dc[parts.0] + parts.1
            } else {
                t
            },
            None => t,
        }
    }
}

/// The texts of the string items, in order.
pub open spec fn str_items(items: Seq<JsonView>) -> Seq<Seq<char>>
    decreases items.len(),
{
    if items.len() == 0 {
        Seq::empty()
    } else {
        let prev = str_items(items.drop_last());
        match vstr(items.last()) {
            Some(t) => prev.push(t),
            None => prev,
        }
    }
}

/// The `@type` of a node: one string, or the strings of an array.
pub open spec fn node_types(node: JsonView) -> Seq<Seq<char>> {
    match vget(node, "@type"@) {
        Some(JsonView::Str(t)) => seq![t],
        Some(JsonView::Array(items)) => str_items(items),
        _ => Seq::empty(),
    }
}

/// The text of an optional string, or the empty text.
pub open spec fn text_or_empty(o: Option<Seq<char>>) -> Seq<char> {
    match o {
        Some(t) => t,
        None => Seq::empty(),
    }
}

/// An optional compact IRI, expanded.
pub open spec fn expand_opt(dc: Map<Seq<char>, Seq<char>>, o: Option<Seq<char>>) -> Option<
    Seq<char>,
> {
    match o {
        Some(t) => Some(expand_iri(dc, t)),
        None => None,
    }
}

/// The class that a node declares under the IRI `id`.
pub open spec fn class_of_node(dc: Map<Seq<char>, Seq<char>>, node: JsonView, id: Seq<char>) -> ClassV {
    ClassV {
        iri: id,
        label: text_or_empty(member_str(node, "rdfs:label"@)),
        comment: text_or_empty(member_str(node, "rdfs:comment"@)),
        sub_class_of: expand_opt(dc, member_str(node, "rdfs:subClassOf"@)),
    }
}

/// The property that a node declares under the IRI `id`.
pub open spec fn property_of_node(
    dc: Map<Seq<char>, Seq<char>>,
    node: JsonView,
    id: Seq<char>,
) -> PropertyV {
    PropertyV {
        iri: id,
        label: text_or_empty(member_str(node, "rdfs:label"@)),
        property_type: if node_types(node).contains("owl:ObjectProperty"@) {
            PropertyType::ObjectProperty
        } else {
            PropertyType::DatatypeProperty
        },
        domain: expand_opt(dc, member_str(node, "rdfs:domain"@)),
        range: expand_opt(dc, member_str(node, "rdfs:range"@)),
    }
}

/// Whether a node's types declare a property.
pub open spec fn declares_property(types: Seq<Seq<char>>) -> bool {
    types.contains("owl:ObjectProperty"@) || types.contains("owl:DatatypeProperty"@)
}

/// Classes and properties after reading one graph node.
pub open spec fn node_step(
    dc: Map<Seq<char>, Seq<char>>,
    acc: (Map<Seq<char>, ClassV>, Map<Seq<char>, PropertyV>),
    node: JsonView,
) -> (Map<Seq<char>, ClassV>, Map<Seq<char>, PropertyV>) {
    match member_str(node, "@id"@) {
        None => acc,
        Some(id) => {
            let full = expand_iri(dc, id);
            let types = node_types(node);
            let cl = if types.contains("owl:Class"@) {
                acc.0.insert(full, class_of_node(dc, node, full))
            } else {
                acc.0
            };
            let pr = if declares_property(types) {
                acc.1.insert(full, property_of_node(dc, node, full))
            } else {
                acc.1
            };
            (cl, pr)
        },
    }
}

/// Classes and properties after reading the graph nodes in order.
pub open spec fn graph_fold(
    dc: Map<Seq<char>, Seq<char>>,
    acc: (Map<Seq<char>, ClassV>, Map<Seq<char>, PropertyV>),
    nodes: Seq<JsonView>,
) -> (Map<Seq<char>, ClassV>, Map<Seq<char>, PropertyV>)
    decreases nodes.len(),
{
    if nodes.len() == 0 {
        acc
    } else {
        node_step(dc, graph_fold(dc, acc, nodes.drop_last()), nodes.last())
    }
}

/// The `@graph` nodes of a layer document; none when it has no such array.
pub open spec fn graph_nodes(j: JsonView) -> Seq<JsonView> {
    match member_items(j, "@graph"@) {
        Some(items) => items,
        None => Seq::empty(),
    }
}

/// Every class and every property is stored under its own IRI.
pub open spec fn keyed_by_iri(cl: Map<Seq<char>, ClassV>, pr: Map<Seq<char>, PropertyV>) -> bool {
    &&& forall|k: Seq<char>| #[trigger] cl.contains_key(k) ==> cl[k].iri == k
    &&& forall|k: Seq<char>| #[trigger] pr.contains_key(k) ==> pr[k].iri == k
}

/// Reading graph nodes stores each class and property under its own IRI.
pub proof fn lemma_graph_fold_keyed(
    dc: Map<Seq<char>, Seq<char>>,
    acc: (Map<Seq<char>, ClassV>, Map<Seq<char>, PropertyV>),
    nodes: Seq<JsonView>,
)
    requires
        keyed_by_iri(acc.0, acc.1),
    ensures
        keyed_by_iri(graph_fold(dc, acc, nodes).0, graph_fold(dc, acc, nodes).1),
    decreases nodes.len(),
{
    if nodes.len() > 0 {
        lemma_graph_fold_keyed(dc, acc, nodes.drop_last());
    }
}

/// The vocabulary after loading `layer` from the document `j`, whose
/// `@context` is `ctx`.
pub open spec fn loaded_view(
    before: RegistryView,
    layer: Seq<char>,
    j: JsonView,
    ctx: JsonView,
) -> RegistryView {
    let dc = context_fold(before.default_context, object_entries(ctx));
    let read = graph_fold(dc, (before.classes, before.properties), graph_nodes(j));
    RegistryView {
        classes: read.0,
        properties: read.1,
        default_context: dc,
        layer_contexts: before.layer_contexts.insert(layer, ctx),
    }
}

/// Why a layer could not be loaded.
#[derive(PartialEq, Eq, Structural, Clone, Copy, Debug)]
pub enum VocabularyError {
    /// The layer document has no `@context`.
    ContextMissing,
}

/// The semantic registry: the current vocabulary and the pool of interned IRIs.
pub struct VocabularyRegistry {
    state: RegistryState,
    intern_pool: Vec<(String, String)>,
}

impl VocabularyRegistry {
    /// The current vocabulary.
    pub closed spec fn current(&self) -> RegistryState {
        self.state
    }

    /// The interned texts.
    pub closed spec fn pool(&self) -> Map<Seq<char>, Seq<char>> {
        assoc_map(self.intern_pool@).map_values(|s: String| s@)
    }

    /// Well-formedness: the ancestry is the one derived from the classes, and
    /// each interned text is stored under itself.
    pub closed spec fn wf(&self) -> bool {
        &&& ancestry_holds(self.state)
        &&& keyed_by_iri(self.state@.classes, self.state@.properties)
        &&& forall|k: Seq<char>| #[trigger] self.pool().contains_key(k) ==> self.pool()[k] == k
    }

    /// An empty registry.
    pub fn new() -> (r: VocabularyRegistry)
        ensures
            r.wf(),
            r.current()@.classes.len() == 0,
            r.current()@.properties.len() == 0,
            r.current()@.default_context.len() == 0,
            r.current()@.layer_contexts.len() == 0,
            r.pool().len() == 0,
    {
        let r = VocabularyRegistry { state: RegistryState::new(), intern_pool: Vec::new() };
        proof {
            assert(r.state@.classes =~= Map::empty());
            assert(r.state@.properties =~= Map::empty());
            assert(r.state@.default_context =~= Map::empty());
            assert(r.state@.layer_contexts =~= Map::empty());
            assert(r.pool() =~= Map::empty());
        }
        r
    }

    /// The shared copy of `text`: the pooled string when there is one, else a new
    /// one that the pool keeps.
    pub fn intern(&mut self, text: &str) -> (r: String)
        requires
            old(self).wf(),
        ensures
            final(self).wf(),
            r@ == text@,
            final(self).current() == old(self).current(),
            final(self).pool() == old(self).pool().insert(text@, text@),
    {
        let ghost before = self.pool();
        match assoc_lookup(&self.intern_pool, text) {
            Some(shared) => {
                let r = shared.clone();
                proof {
                    assert(before.contains_key(text@));
                    assert(before =~= before.insert(text@, text@));
                }
                r
            },
            None => {
                let shared = owned(text);
                let r = shared.clone();
                assoc_insert(&mut self.intern_pool, owned(text), shared);
                proof {
                    assert(self.pool() =~= before.insert(text@, text@));
                }
                r
            },
        }
    }

    /// The current vocabulary.
    pub fn get_state(&self) -> (r: &RegistryState)
        ensures
            *r == self.current(),
    {
        &self.state
    }

    /// Whether `t` is a full IRI (`http...` or `urn:...`).
    pub fn is_iri(t: &str) -> (b: bool)
        ensures
            b == is_iri_text(t@),
    {
        starts_with(t, "http") || starts_with(t, "urn:")
    }
}

/// The `@type` strings of a node.
fn extract_types(n: &JsonValue) -> (r: Vec<String>)
    ensures
        texts(r@) == node_types(n@),
{
    let mut v: Vec<String> = Vec::new();
    match n.get("@type") {
        Some(t) => match t.as_str() {
            Some(one) => {
                v.push(owned(one));
                assert(texts(v@) =~= seq![one@]);
                v
            },
            None => match t.as_array() {
                Some(a) => {
                    let ghost items = jview_items(a@);
                    proof {
                        lemma_jview_items(a@);
                        assert(items.take(0) =~= Seq::<JsonView>::empty());
                        assert(texts(v@) =~= Seq::<Seq<char>>::empty());
                    }
                    let mut i: usize = 0;
                    while i < a.len()
                        invariant
                            i <= a@.len(),
                            items == jview_items(a@),
                            items.len() == a@.len(),
                            forall|j: int| 0 <= j < a@.len() ==> #[trigger] items[j] == a@[j]@,
                            texts(v@) == str_items(items.take(i as int)),
                        decreases a@.len() - i,
                    {
                        proof {
                            assert(items.take(i as int + 1).drop_last() =~= items.take(i as int));
                            assert(items.take(i as int + 1).last() == a@[i as int]@);
                        }
                        match a[i].as_str() {
                            Some(one) => {
                                let ghost before = texts(v@);
                                v.push(owned(one));
                                assert(texts(v@) =~= before.push(one@));
                            },
                            None => {},
                        }
                        i = i + 1;
                    }
                    assert(items.take(a@.len() as int) =~= items);
                    v
                },
                None => {
                    assert(texts(v@) =~= Seq::<Seq<char>>::empty());
                    v
                },
            },
        },
        None => {
            assert(texts(v@) =~= Seq::<Seq<char>>::empty());
            v
        },
    }
}

/// The member `k` of `n` when it is a string.
pub(crate) fn get_str_opt(n: &JsonValue, k: &str) -> (r: Option<String>)
    ensures
        opt_text(r) == member_str(n@, k@),
{
    match n.get(k) {
        Some(v) => match v.as_str() {
            Some(t) => Some(owned(t)),
            None => None,
        },
        None => None,
    }
}

/// The member `k` of `n` when it is a string, else the empty string.
fn get_str(n: &JsonValue, k: &str) -> (r: String)
    ensures
        r@ == text_or_empty(member_str(n@, k@)),
{
    match get_str_opt(n, k) {
        Some(t) => t,
        None => String::new(),
    }
}

impl VocabularyRegistry {
    /// The expansion of `t` through the prefix context `dc`, interned.
    fn expand(&mut self, t: &str, dc: &Vec<(String, String)>) -> (r: String)
        requires
            old(self).wf(),
        ensures
            final(self).wf(),
            final(self).current() == old(self).current(),
            r@ == expand_iri(assoc_map(dc@).map_values(|s: String| s@), t@),
    {
        if Self::is_iri(t) {
            return self.intern(t);
        }
        match split_once_char(t, ':') {
            Some(parts) => {
                match assoc_lookup(dc, parts.0.as_str()) {
                    Some(base) => {
                        let full = concat2(base.as_str(), parts.1.as_str());
                        return self.intern(full.as_str());
                    },
                    None => {},
                }
            },
            None => {},
        }
        self.intern(t)
    }

    /// Reads one `@graph` node into `st`: a class, a property, both or neither.
    fn read_node(&mut self, st: &mut RegistryState, node: &JsonValue)
        requires
            old(self).wf(),
        ensures
            final(self).wf(),
            final(self).current() == old(self).current(),
            (final(st)@.classes, final(st)@.properties) == node_step(
                old(st)@.default_context,
                (old(st)@.classes, old(st)@.properties),
                node@,
            ),
            final(st).default_context == old(st).default_context,
            final(st).layer_contexts == old(st).layer_contexts,
    {
        let ghost dc = st@.default_context;
        let id = match node.get("@id") {
            Some(v) => match v.as_str() {
                Some(t) => t,
                None => {
                    return;
                },
            },
            None => {
                return;
            },
        };
        let full_id = self.expand(id, &st.default_context);
        let types = extract_types(node);
        let ghost cl0 = st@.classes;
        let ghost pr0 = st@.properties;
        if contains_text(&types, "owl:Class") {
            let label = get_str(node, "rdfs:label");
            let label = self.intern(label.as_str());
            let comment = get_str(node, "rdfs:comment");
            let comment = self.intern(comment.as_str());
            let sub_class_of = match get_str_opt(node, "rdfs:subClassOf") {
                Some(parent) => Some(self.expand(parent.as_str(), &st.default_context)),
                None => None,
            };
            let cls = Class { iri: full_id.clone(), label, comment, sub_class_of };
            assert(cls@ == class_of_node(dc, node@, full_id@));
            assoc_insert(&mut st.classes, full_id.clone(), cls);
            assert(st@.classes =~= cl0.insert(full_id@, class_of_node(dc, node@, full_id@)));
        }
        let ghost cl1 = st@.classes;
        let is_object = contains_text(&types, "owl:ObjectProperty");
        if is_object || contains_text(&types, "owl:DatatypeProperty") {
            let label = get_str(node, "rdfs:label");
            let label = self.intern(label.as_str());
            let domain = match get_str_opt(node, "rdfs:domain") {
                Some(d) => Some(self.expand(d.as_str(), &st.default_context)),
                None => None,
            };
            let range = match get_str_opt(node, "rdfs:range") {
                Some(r) => Some(self.expand(r.as_str(), &st.default_context)),
                None => None,
            };
            let property_type = if is_object {
                PropertyType::ObjectProperty
            } else {
                PropertyType::DatatypeProperty
            };
            let prop = Property { iri: full_id.clone(), label, property_type, domain, range };
            assert(prop@ == property_of_node(dc, node@, full_id@));
            assoc_insert(&mut st.properties, full_id.clone(), prop);
            assert(st@.properties =~= pr0.insert(full_id@, property_of_node(dc, node@, full_id@)));
        }
        assert(st@.classes == cl1);
    }
}

impl VocabularyRegistry {
    /// Loads the JSON-LD document of one layer: its `@context` is recorded for
    /// the layer, its string members join the prefix context, and the classes
    /// and properties declared in `@graph` are added (a later declaration of an
    /// IRI replaces an earlier one). The ancestry is then rebuilt. A document
    /// without `@context` is refused and the vocabulary is left as it was.
    pub fn load_layer_from_json(&mut self, layer: &str, json: &JsonValue) -> (r: Result<
        (),
        VocabularyError,
    >)
        requires
            old(self).wf(),
        ensures
            final(self).wf(),
            match vget(json@, "@context"@) {
                None => r == Err::<(), VocabularyError>(VocabularyError::ContextMissing)
                    && final(self).current() == old(self).current(),
                Some(ctx) => r is Ok && final(self).current()@ == loaded_view(
                    old(self).current()@,
                    layer@,
                    json@,
                    ctx,
                ),
            },
    {
        let ctx = match json.get("@context") {
            Some(c) => c,
            None => {
                return Err(VocabularyError::ContextMissing);
            },
        };
        let ghost before = self.state@;
        let ghost pool0 = self.intern_pool;
        let mut new_state = RegistryState::new();
        let ghost empty = new_state;
        std::mem::swap(&mut new_state, &mut self.state);
        assert(new_state@ == before);
        assert(self.state == empty);
        assert(ancestry_holds(self.state));
        assert(self.intern_pool == pool0);
        assert(self.pool() == old(self).pool());
        assert(self.wf());
        let ghost lc0 = new_state@.layer_contexts;
        assoc_insert(&mut new_state.layer_contexts, owned(layer), ctx.duplicate());
        assert(new_state@.layer_contexts =~= lc0.insert(layer@, ctx@));
        let ghost entries = object_entries(ctx@);
        match ctx.as_object() {
            Some(obj) => {
                proof {
                    lemma_jview_entries(obj@);
                    assert(entries.take(0) =~= Seq::<(Seq<char>, JsonView)>::empty());
                }
                let mut i: usize = 0;
                while i < obj.len()
                    invariant
                        self.wf(),
                        i <= obj@.len(),
                        entries == jview_entries(obj@),
                        entries.len() == obj@.len(),
                        forall|j: int|
                            0 <= j < obj@.len() ==> #[trigger] entries[j] == (
                                obj@[j].0@,
                                obj@[j].1@,
                            ),
                        new_state@.default_context == context_fold(
                            before.default_context,
                            entries.take(i as int),
                        ),
                        new_state@.classes == before.classes,
                        new_state@.properties == before.properties,
                        new_state@.layer_contexts == before.layer_contexts.insert(layer@, ctx@),
                    decreases obj@.len() - i,
                {
                    proof {
                        assert(entries.take(i as int + 1).drop_last() =~= entries.take(i as int));
                        assert(entries.take(i as int + 1).last() == entries[i as int]);
                    }
                    match obj[i].1.as_str() {
                        Some(iri) => {
                            let shared = self.intern(iri);
                            let ghost dc0 = new_state@.default_context;
                            assoc_insert(&mut new_state.default_context, obj[i].0.clone(), shared);
                            assert(new_state@.default_context =~= dc0.insert(obj@[i as int].0@, iri@));
                        },
                        None => {},
                    }
                    i = i + 1;
                }
                assert(entries.take(obj@.len() as int) =~= entries);
            },
            None => {
                assert(entries =~= Seq::<(Seq<char>, JsonView)>::empty());
            },
        }
        let ghost dc = new_state@.default_context;
        let ghost acc0 = (before.classes, before.properties);
        let ghost nodes = graph_nodes(json@);
        match json.get("@graph") {
            Some(g) => match g.as_array() {
                Some(items) => {
                    proof {
                        lemma_jview_items(items@);
                        assert(nodes.take(0) =~= Seq::<JsonView>::empty());
                    }
                    let mut i: usize = 0;
                    while i < items.len()
                        invariant
                            self.wf(),
                            i <= items@.len(),
                            nodes == jview_items(items@),
                            nodes.len() == items@.len(),
                            forall|j: int| 0 <= j < items@.len() ==> #[trigger] nodes[j] == items@[j]@,
                            new_state@.default_context == dc,
                            (new_state@.classes, new_state@.properties) == graph_fold(
                                dc,
                                acc0,
                                nodes.take(i as int),
                            ),
                            new_state@.layer_contexts == before.layer_contexts.insert(layer@, ctx@),
                        decreases items@.len() - i,
                    {
                        proof {
                            assert(nodes.take(i as int + 1).drop_last() =~= nodes.take(i as int));
                            assert(nodes.take(i as int + 1).last() == items@[i as int]@);
                        }
                        self.read_node(&mut new_state, &items[i]);
                        i = i + 1;
                    }
                    assert(nodes.take(items@.len() as int) =~= nodes);
                },
                None => {
                    assert(nodes =~= Seq::<JsonView>::empty());
                },
            },
            None => {
                assert(nodes =~= Seq::<JsonView>::empty());
            },
        }
        proof {
            lemma_graph_fold_keyed(dc, acc0, nodes);
        }
        VocabularyRegistry::rebuild_ancestry(&mut new_state);
        let ghost pool1 = self.pool();
        assert(self.wf());
        self.state = new_state;
        assert(self.pool() == pool1);
        Ok(())
    }

    /// The class declared under `iri`.
    pub fn get_class(&self, iri: &str) -> (r: Option<Class>)
        ensures
            r is Some <==> self.current()@.classes.contains_key(iri@),
            r matches Some(c) ==> c@ == self.current()@.classes[iri@],
            self.wf() && r is Some ==> r.unwrap().iri@ == iri@,
    {
        match assoc_lookup(&self.state.classes, iri) {
            Some(c) => Some(c.duplicate()),
            None => None,
        }
    }

    /// The property declared under `iri`.
    pub fn get_property(&self, iri: &str) -> (r: Option<Property>)
        ensures
            r is Some <==> self.current()@.properties.contains_key(iri@),
            r matches Some(p) ==> p@ == self.current()@.properties[iri@],
    {
        match assoc_lookup(&self.state.properties, iri) {
            Some(p) => Some(p.duplicate()),
            None => None,
        }
    }

    /// A class found by its IRI carries that IRI, and whether a class is
    /// declared under an IRI is whether it can be found.
    pub proof fn law_class_found_under_its_iri(&self, iri: Seq<char>)
        requires
            self.wf(),
        ensures
            self.current()@.classes.contains_key(iri) ==> self.current()@.classes[iri].iri == iri,
            self.current()@.properties.contains_key(iri) ==> self.current()@.properties[iri].iri == iri,
    {
    }

    /// Whether a class is declared under `iri`.
    pub fn has_class(&self, iri: &str) -> (b: bool)
        ensures
            b == self.current()@.classes.contains_key(iri@),
    {
        assoc_contains(&self.state.classes, iri)
    }

    /// The `@context` recorded for `layer`.
    pub fn get_context_for_layer(&self, layer: &str) -> (r: Option<JsonValue>)
        ensures
            r is Some <==> self.current()@.layer_contexts.contains_key(layer@),
            r matches Some(c) ==> c@ == self.current()@.layer_contexts[layer@],
    {
        match assoc_lookup(&self.state.layer_contexts, layer) {
            Some(c) => Some(c.duplicate()),
            None => None,
        }
    }

    /// The prefix context, as prefix/IRI pairs.
    pub fn get_default_context(&self) -> (r: &Vec<(String, String)>)
        ensures
            assoc_map(r@).map_values(|s: String| s@) == self.current()@.default_context,
    {
        &self.state.default_context
    }
}

/// `child` is `parent` or has `parent` among its recorded ancestors.
pub open spec fn subtype_holds(st: RegistryState, child: Seq<char>, parent: Seq<char>) -> bool {
    let an = assoc_map(st.ancestry@);
    child == parent || (an.contains_key(child) && texts(an[child]@).contains(parent))
}

/// `child` is `parent` or a declared class that descends from it.
pub open spec fn descends_from(cl: Map<Seq<char>, ClassV>, child: Seq<char>, parent: Seq<char>) -> bool {
    child == parent || (cl.contains_key(child) && ancestors_of(cl, cl[child]).contains(parent))
}

/// Law: in a well-formed state, the recorded ancestry says exactly what the
/// `rdfs:subClassOf` chains of the declared classes say.
pub proof fn law_ancestry_matches_classes(st: RegistryState, child: Seq<char>, parent: Seq<char>)
    requires
        ancestry_holds(st),
    ensures
        subtype_holds(st, child, parent) == descends_from(st@.classes, child, parent),
{
    let an = assoc_map(st.ancestry@);
    if an.contains_key(child) {
        assert(texts(an[child]@) == ancestors_of(st@.classes, st@.classes[child]));
    }
}

impl VocabularyRegistry {
    /// Whether one of `children` is `parent` or one of its subclasses.
    pub fn is_subtype_of(&self, children: &[String], parent: &str) -> (b: bool)
        ensures
            b == exists|i: int|
                0 <= i < children@.len() && #[trigger] subtype_holds(
                    self.current(),
                    children@[i]@,
                    parent@,
                ),
            self.wf() ==> (b == exists|i: int|
                0 <= i < children@.len() && #[trigger] descends_from(
                    self.current()@.classes,
                    children@[i]@,
                    parent@,
                )),
    {
        let mut i: usize = 0;
        while i < children.len()
            invariant
                i <= children@.len(),
                forall|j: int| 0 <= j < i ==> !subtype_holds(self.current(), #[trigger] children@[j]@, parent@),
            decreases children@.len() - i,
        {
            let child = children[i].as_str();
            if str_eq(child, parent) {
                assert(subtype_holds(self.current(), children@[i as int]@, parent@));
                proof {
                    if self.wf() {
                        law_ancestry_matches_classes(self.state, children@[i as int]@, parent@);
                    }
                }
                return true;
            }
            match assoc_lookup(&self.state.ancestry, child) {
                Some(ancestors) => {
                    if contains_text(ancestors, parent) {
                        assert(subtype_holds(self.current(), children@[i as int]@, parent@));
                        proof {
                            if self.wf() {
                                law_ancestry_matches_classes(self.state, children@[i as int]@, parent@);
                            }
                        }
                        return true;
                    }
                },
                None => {},
            }
            i = i + 1;
        }
        proof {
            if self.wf() {
                assert forall|j: int| 0 <= j < children@.len() implies !#[trigger] descends_from(
                    self.current()@.classes,
                    children@[j]@,
                    parent@,
                ) by {
                    law_ancestry_matches_classes(self.state, children@[j]@, parent@);
                    assert(!subtype_holds(self.current(), children@[j]@, parent@));
                }
            }
        }
        false
    }
}

} // verus!
