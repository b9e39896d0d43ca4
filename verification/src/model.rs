//! The "pure graph" project model: elements grouped by layer and collection.
use vstd::prelude::*;
use crate::json::{
    JsonValue, JsonView, entries_insert, entries_set, jview, jview_entries, jview_items,
    lemma_jview_entries, lemma_jview_items, vget, vstr,
};
use crate::pattern::{TextPattern, regex_compiles, regex_matches};
use crate::text::{owned, str_eq, texts_of};

verus! {

/// The shape every element handle must have.
pub const SLUG_PATTERN: &'static str = "^[_a-z0-9]([a-z0-9-_]*[a-z0-9])?$";

/// A business identifier (handle) of an element.
pub struct SlugString(String);

impl View for SlugString {
    type V = Seq<char>;

    closed spec fn view(&self) -> Seq<char> {
        self.0@
    }
}

/// Outcome of a refused handle.
pub enum SlugError {
    /// The text does not have the shape of a handle.
    InvalidSlug(String),
}

impl SlugString {
    /// A checked handle: `Ok` exactly when `s` matches the slug pattern.
    pub fn new(s: &str) -> (r: Result<SlugString, SlugError>)
        ensures
            r is Ok <==> (regex_compiles(SLUG_PATTERN@) && regex_matches(SLUG_PATTERN@, s@)),
            r matches Ok(v) ==> v@ == s@,
            r matches Err(SlugError::InvalidSlug(t)) ==> t@ == s@,
    {
        match TextPattern::new(SLUG_PATTERN) {
            Some(re) => {
                if re.is_match(s) {
                    Ok(SlugString(owned(s)))
                } else {
                    Err(SlugError::InvalidSlug(owned(s)))
                }
            },
            None => Err(SlugError::InvalidSlug(owned(s))),
        }
    }

    /// A handle read from an optional JSON string, falling back to `fallback` when
    /// the value is absent, not a string, or not a valid handle.
    pub fn from_json(val: Option<&JsonValue>, fallback: &str) -> (r: SlugString)
        ensures
            ({
                let s = match val {
                    Some(v) => match vstr(v@) {
                        Some(t) => t,
                        None => fallback@,
                    },
                    None => fallback@,
                };
                r@ == if regex_compiles(SLUG_PATTERN@) && regex_matches(SLUG_PATTERN@, s) {
                    s
                } else {
                    fallback@
                }
            }),
    {
        let s: &str = match val {
            Some(v) => match v.as_str() {
                Some(t) => t,
                None => fallback,
            },
            None => fallback,
        };
        match Self::new(s) {
            Ok(v) => v,
            Err(_) => SlugString(owned(fallback)),
        }
    }

    /// An unchecked handle (the `TryFrom<&str>` conversion, which accepts any text).
    pub fn from_text(s: &str) -> (r: SlugString)
        ensures
            r@ == s@,
    {
        SlugString(owned(s))
    }

    /// The text of the handle.
    pub fn as_str(&self) -> (r: &str)
        ensures
            r@ == self@,
    {
        self.0.as_str()
    }

    /// The default handle, `"unnamed"`.
    pub fn unnamed() -> (r: SlugString)
        ensures
            r@ == "unnamed"@,
    {
        SlugString(owned("unnamed"))
    }

    /// A copy of this handle.
    pub fn duplicate(&self) -> (r: SlugString)
        ensures
            r@ == self@,
    {
        SlugString(self.0.clone())
    }
}

/// A display name.
pub enum I18nString {
    /// A single, untranslated text.
    Single(String),
}

impl View for I18nString {
    type V = Seq<char>;

    open spec fn view(&self) -> Seq<char> {
        match self {
            I18nString::Single(s) => s@,
        }
    }
}

impl I18nString {
    /// The text of the name.
    pub fn as_str(&self) -> (r: &str)
        ensures
            r@ == self@,
    {
        match self {
            I18nString::Single(s) => s.as_str(),
        }
    }

    /// The empty name.
    pub fn empty() -> (r: I18nString)
        ensures
            r@ == Seq::<char>::empty(),
    {
        I18nString::Single(String::new())
    }

    /// A copy of this name.
    pub fn duplicate(&self) -> (r: I18nString)
        ensures
            r@ == self@,
    {
        match self {
            I18nString::Single(s) => I18nString::Single(s.clone()),
        }
    }
}

/// The texts of a list of strings.
pub open spec fn texts(v: Seq<String>) -> Seq<Seq<char>> {
    texts_of(v)
}

/// The `@type` list of an element, as texts.
pub open spec fn kinds_text(el: ArcadiaElement) -> Seq<Seq<char>> {
    texts(el.kind@)
}

/// A generic MBSE node aligned on Arcadia.
pub struct ArcadiaElement {
    pub handle: SlugString,
    pub name: I18nString,
    /// The `@type` list.
    pub kind: Vec<String>,
    pub xmi_id: Option<String>,
    pub summary: Option<I18nString>,
    pub description: Option<I18nString>,
    pub property_value_ids: Vec<String>,
    /// Every other property, in insertion order.
    pub properties: Vec<(String, JsonValue)>,
}

impl ArcadiaElement {
    /// An element with the given handle, name and types and no other content.
    pub fn with(handle: SlugString, name: I18nString, kind: Vec<String>) -> (r: ArcadiaElement)
        ensures
            r.handle == handle,
            r.name == name,
            r.kind == kind,
            r.properties@.len() == 0,
            r.xmi_id is None,
            r.summary is None,
            r.description is None,
            r.property_value_ids@.len() == 0,
    {
        ArcadiaElement {
            handle,
            name,
            kind,
            xmi_id: None,
            summary: None,
            description: None,
            property_value_ids: Vec::new(),
            properties: Vec::new(),
        }
    }

    /// The properties of the element as a JSON object's content.
    pub open spec fn props(&self) -> JsonView {
        JsonView::Object(jview_entries(self.properties@))
    }

    /// The property under `key`.
    pub fn property(&self, key: &str) -> (r: Option<&JsonValue>)
        ensures
            match r {
                Some(v) => vget(self.props(), key@) == Some(v@),
                None => vget(self.props(), key@) is None,
            },
    {
        match crate::json::find_key(&self.properties, key) {
            Some(i) => {
                proof {
                    lemma_jview_entries(self.properties@);
                }
                Some(&self.properties[i].1)
            },
            None => None,
        }
    }
}

/// Project metadata.
pub struct ProjectMeta {
    pub name: String,
    pub element_count: usize,
}

/// One collection: its name and its elements.
pub type Collection = (String, Vec<ArcadiaElement>);

/// One layer: its name and its collections.
pub type LayerEntry = (String, Vec<Collection>);

/// The "pure graph" model: layer (e.g. "sa") -> collection (e.g. "components") -> elements.
pub struct ProjectModel {
    pub meta: ProjectMeta,
    pub layers: Vec<LayerEntry>,
}

/// Position of the first layer named `l`, or -1.
pub open spec fn layer_pos(ls: Seq<LayerEntry>, l: Seq<char>) -> int
    decreases ls.len(),
{
    if ls.len() == 0 {
        -1
    } else if ls[0].0@ == l {
        0
    } else {
        let r = layer_pos(ls.subrange(1, ls.len() as int), l);
        if r < 0 {
            -1
        } else {
            r + 1
        }
    }
}

/// Position of the first collection named `c`, or -1.
pub open spec fn col_pos(cs: Seq<Collection>, c: Seq<char>) -> int
    decreases cs.len(),
{
    if cs.len() == 0 {
        -1
    } else if cs[0].0@ == c {
        0
    } else {
        let r = col_pos(cs.subrange(1, cs.len() as int), c);
        if r < 0 {
            -1
        } else {
            r + 1
        }
    }
}

/// The elements of collection `c` in layer `l` (empty when either is absent).
pub open spec fn collection_of(ls: Seq<LayerEntry>, l: Seq<char>, c: Seq<char>) -> Seq<
    ArcadiaElement,
> {
    let i = layer_pos(ls, l);
    if 0 <= i < ls.len() {
        let cs = ls[i].1@;
        let j = col_pos(cs, c);
        if 0 <= j < cs.len() {
            cs[j].1@
        } else {
            Seq::empty()
        }
    } else {
        Seq::empty()
    }
}

/// Every element of a list of collections, collection after collection.
pub open spec fn flatten_cols(cs: Seq<Collection>) -> Seq<ArcadiaElement>
    decreases cs.len(),
{
    if cs.len() == 0 {
        Seq::empty()
    } else {
        cs[0].1@ + flatten_cols(cs.subrange(1, cs.len() as int))
    }
}

/// Every element of the model, layer after layer.
pub open spec fn flatten_layers(ls: Seq<LayerEntry>) -> Seq<ArcadiaElement>
    decreases ls.len(),
{
    if ls.len() == 0 {
        Seq::empty()
    } else {
        flatten_cols(ls[0].1@) + flatten_layers(ls.subrange(1, ls.len() as int))
    }
}

/// The properties of `layer_pos`.
pub proof fn lemma_layer_pos(ls: Seq<LayerEntry>, l: Seq<char>)
    ensures
        -1 <= layer_pos(ls, l) < ls.len(),
        layer_pos(ls, l) >= 0 ==> ls[layer_pos(ls, l)].0@ == l,
        forall|j: int| 0 <= j < layer_pos(ls, l) ==> ls[j].0@ != l,
        layer_pos(ls, l) < 0 ==> forall|j: int| 0 <= j < ls.len() ==> ls[j].0@ != l,
    decreases ls.len(),
{
    if ls.len() > 0 && ls[0].0@ != l {
        let t = ls.subrange(1, ls.len() as int);
        lemma_layer_pos(t, l);
        assert forall|j: int| 1 <= j < ls.len() implies ls[j] == t[j - 1] by {}
    }
}

/// `layer_pos` is the unique first match.
pub proof fn lemma_layer_pos_is(ls: Seq<LayerEntry>, l: Seq<char>, i: int)
    requires
        -1 <= i < ls.len(),
        i >= 0 ==> ls[i].0@ == l,
        forall|j: int| 0 <= j < i ==> ls[j].0@ != l,
        i < 0 ==> forall|j: int| 0 <= j < ls.len() ==> ls[j].0@ != l,
    ensures
        layer_pos(ls, l) == i,
{
    lemma_layer_pos(ls, l);
    let p = layer_pos(ls, l);
    if p >= 0 && i >= 0 {
        if p < i {
            assert(ls[p].0@ != l);
        }
        if i < p {
            assert(ls[i].0@ != l);
        }
    }
    if p >= 0 && i < 0 {
        assert(ls[p].0@ != l);
    }
    if p < 0 && i >= 0 {
        assert(ls[i].0@ != l);
    }
}

/// The properties of `col_pos`.
pub proof fn lemma_col_pos(cs: Seq<Collection>, c: Seq<char>)
    ensures
        -1 <= col_pos(cs, c) < cs.len(),
        col_pos(cs, c) >= 0 ==> cs[col_pos(cs, c)].0@ == c,
        forall|j: int| 0 <= j < col_pos(cs, c) ==> cs[j].0@ != c,
        col_pos(cs, c) < 0 ==> forall|j: int| 0 <= j < cs.len() ==> cs[j].0@ != c,
    decreases cs.len(),
{
    if cs.len() > 0 && cs[0].0@ != c {
        let t = cs.subrange(1, cs.len() as int);
        lemma_col_pos(t, c);
        assert forall|j: int| 1 <= j < cs.len() implies cs[j] == t[j - 1] by {}
    }
}

/// `col_pos` is the unique first match.
pub proof fn lemma_col_pos_is(cs: Seq<Collection>, c: Seq<char>, i: int)
    requires
        -1 <= i < cs.len(),
        i >= 0 ==> cs[i].0@ == c,
        forall|j: int| 0 <= j < i ==> cs[j].0@ != c,
        i < 0 ==> forall|j: int| 0 <= j < cs.len() ==> cs[j].0@ != c,
    ensures
        col_pos(cs, c) == i,
{
    lemma_col_pos(cs, c);
    let p = col_pos(cs, c);
    if p >= 0 && i >= 0 {
        if p < i {
            assert(cs[p].0@ != c);
        }
        if i < p {
            assert(cs[i].0@ != c);
        }
    }
    if p >= 0 && i < 0 {
        assert(cs[p].0@ != c);
    }
    if p < 0 && i >= 0 {
        assert(cs[i].0@ != c);
    }
}

/// Flattening distributes over appending a collection.
pub proof fn lemma_flatten_cols_push(cs: Seq<Collection>, c: Collection)
    ensures
        flatten_cols(cs.push(c)) == flatten_cols(cs) + c.1@,
    decreases cs.len(),
{
    if cs.len() == 0 {
        let p = cs.push(c);
        assert(p.subrange(1, 1) =~= Seq::<Collection>::empty());
        assert(flatten_cols(p.subrange(1, 1)) == Seq::<ArcadiaElement>::empty());
        assert(flatten_cols(p) == p[0].1@ + flatten_cols(p.subrange(1, 1)));
        assert(flatten_cols(p) =~= flatten_cols(cs) + c.1@);
    } else {
        let t = cs.subrange(1, cs.len() as int);
        lemma_flatten_cols_push(t, c);
        assert(cs.push(c).subrange(1, cs.len() as int + 1) =~= t.push(c));
        assert(flatten_cols(cs.push(c)) =~= flatten_cols(cs) + c.1@);
    }
}

/// Flattening distributes over appending a layer.
pub proof fn lemma_flatten_layers_push(ls: Seq<LayerEntry>, l: LayerEntry)
    ensures
        flatten_layers(ls.push(l)) == flatten_layers(ls) + flatten_cols(l.1@),
    decreases ls.len(),
{
    if ls.len() == 0 {
        let p = ls.push(l);
        assert(p.subrange(1, 1) =~= Seq::<LayerEntry>::empty());
        assert(flatten_layers(p.subrange(1, 1)) == Seq::<ArcadiaElement>::empty());
        assert(flatten_layers(p) == flatten_cols(p[0].1@) + flatten_layers(p.subrange(1, 1)));
        assert(flatten_layers(p) =~= flatten_layers(ls) + flatten_cols(l.1@));
    } else {
        let t = ls.subrange(1, ls.len() as int);
        lemma_flatten_layers_push(t, l);
        assert(ls.push(l).subrange(1, ls.len() as int + 1) =~= t.push(l));
        assert(flatten_layers(ls.push(l)) =~= flatten_layers(ls) + flatten_cols(l.1@));
    }
}

/// Flattening after replacing one collection's elements.
pub proof fn lemma_flatten_cols_update(cs: Seq<Collection>, j: int, c: Collection)
    requires
        0 <= j < cs.len(),
    ensures
        flatten_cols(cs.update(j, c)).len() == flatten_cols(cs).len() - cs[j].1@.len()
            + c.1@.len(),
        forall|e: ArcadiaElement|
            c.1@.contains(e) ==> #[trigger] flatten_cols(cs.update(j, c)).contains(e),
    decreases cs.len(),
{
    let u = cs.update(j, c);
    let t = cs.subrange(1, cs.len() as int);
    if j == 0 {
        assert(u.subrange(1, u.len() as int) =~= t);
        assert forall|e: ArcadiaElement| c.1@.contains(e) implies #[trigger] flatten_cols(
            u,
        ).contains(e) by {
            let k = choose|k: int| 0 <= k < c.1@.len() && c.1@[k] == e;
            assert(flatten_cols(u)[k] == e);
        }
    } else {
        lemma_flatten_cols_update(t, j - 1, c);
        assert(u.subrange(1, u.len() as int) =~= t.update(j - 1, c));
        assert forall|e: ArcadiaElement| c.1@.contains(e) implies #[trigger] flatten_cols(
            u,
        ).contains(e) by {
            let f = flatten_cols(t.update(j - 1, c));
            assert(f.contains(e));
            let k = choose|k: int| 0 <= k < f.len() && f[k] == e;
            assert(flatten_cols(u)[cs[0].1@.len() + k] == e);
        }
    }
}

/// Flattening after replacing one layer's collections.
pub proof fn lemma_flatten_layers_update(ls: Seq<LayerEntry>, i: int, l: LayerEntry)
    requires
        0 <= i < ls.len(),
    ensures
        flatten_layers(ls.update(i, l)).len() == flatten_layers(ls).len() - flatten_cols(
            ls[i].1@,
        ).len() + flatten_cols(l.1@).len(),
        forall|e: ArcadiaElement|
            flatten_cols(l.1@).contains(e) ==> #[trigger] flatten_layers(ls.update(i, l)).contains(
                e,
            ),
    decreases ls.len(),
{
    let u = ls.update(i, l);
    let t = ls.subrange(1, ls.len() as int);
    if i == 0 {
        assert(u.subrange(1, u.len() as int) =~= t);
        assert forall|e: ArcadiaElement| flatten_cols(l.1@).contains(e) implies #[trigger] flatten_layers(
            u,
        ).contains(e) by {
            let f = flatten_cols(l.1@);
            let k = choose|k: int| 0 <= k < f.len() && f[k] == e;
            assert(flatten_layers(u)[k] == e);
        }
    } else {
        lemma_flatten_layers_update(t, i - 1, l);
        assert(u.subrange(1, u.len() as int) =~= t.update(i - 1, l));
        assert forall|e: ArcadiaElement| flatten_cols(l.1@).contains(e) implies #[trigger] flatten_layers(
            u,
        ).contains(e) by {
            let f = flatten_layers(t.update(i - 1, l));
            assert(f.contains(e));
            let k = choose|k: int| 0 <= k < f.len() && f[k] == e;
            assert(flatten_layers(u)[flatten_cols(ls[0].1@).len() + k] == e);
        }
    }
}

/// Layer positions depend only on the layer names.
pub proof fn lemma_layer_pos_names(a: Seq<LayerEntry>, b: Seq<LayerEntry>)
    requires
        a.len() == b.len(),
        forall|k: int| 0 <= k < a.len() ==> a[k].0@ == b[k].0@,
    ensures
        forall|l: Seq<char>| #[trigger] layer_pos(a, l) == layer_pos(b, l),
{
    assert forall|l: Seq<char>| #[trigger] layer_pos(a, l) == layer_pos(b, l) by {
        lemma_layer_pos(a, l);
        lemma_layer_pos_is(b, l, layer_pos(a, l));
    }
}

/// Collection positions depend only on the collection names.
pub proof fn lemma_col_pos_names(a: Seq<Collection>, b: Seq<Collection>)
    requires
        a.len() == b.len(),
        forall|k: int| 0 <= k < a.len() ==> a[k].0@ == b[k].0@,
    ensures
        forall|c: Seq<char>| #[trigger] col_pos(a, c) == col_pos(b, c),
{
    assert forall|c: Seq<char>| #[trigger] col_pos(a, c) == col_pos(b, c) by {
        lemma_col_pos(a, c);
        lemma_col_pos_is(b, c, col_pos(a, c));
    }
}

/// Appending a layer named `l` that was absent.
pub proof fn lemma_layer_pos_push(ls: Seq<LayerEntry>, e: LayerEntry)
    requires
        layer_pos(ls, e.0@) == -1,
    ensures
        layer_pos(ls.push(e), e.0@) == ls.len(),
        forall|l: Seq<char>| l != e.0@ ==> #[trigger] layer_pos(ls.push(e), l) == layer_pos(ls, l),
{
    let p = ls.push(e);
    lemma_layer_pos(ls, e.0@);
    lemma_layer_pos_is(p, e.0@, ls.len() as int);
    assert forall|l: Seq<char>| l != e.0@ implies #[trigger] layer_pos(p, l) == layer_pos(ls, l) by {
        lemma_layer_pos(ls, l);
        lemma_layer_pos_is(p, l, layer_pos(ls, l));
    }
}

/// Appending a collection named `c` that was absent.
pub proof fn lemma_col_pos_push(cs: Seq<Collection>, e: Collection)
    requires
        col_pos(cs, e.0@) == -1,
    ensures
        col_pos(cs.push(e), e.0@) == cs.len(),
        forall|c: Seq<char>| c != e.0@ ==> #[trigger] col_pos(cs.push(e), c) == col_pos(cs, c),
{
    let p = cs.push(e);
    lemma_col_pos(cs, e.0@);
    lemma_col_pos_is(p, e.0@, cs.len() as int);
    assert forall|c: Seq<char>| c != e.0@ implies #[trigger] col_pos(p, c) == col_pos(cs, c) by {
        lemma_col_pos(cs, c);
        lemma_col_pos_is(p, c, col_pos(cs, c));
    }
}

/// Position of the first layer named `l`.
fn find_layer(ls: &Vec<LayerEntry>, l: &str) -> (r: Option<usize>)
    ensures
        match r {
            Some(i) => i as int == layer_pos(ls@, l@) && i < ls@.len(),
            None => layer_pos(ls@, l@) == -1,
        },
{
    let mut i: usize = 0;
    while i < ls.len()
        invariant
            i <= ls@.len(),
            forall|j: int| 0 <= j < i ==> ls@[j].0@ != l@,
        decreases ls@.len() - i,
    {
        if str_eq(ls[i].0.as_str(), l) {
            proof {
                lemma_layer_pos_is(ls@, l@, i as int);
            }
            return Some(i);
        }
        i = i + 1;
    }
    proof {
        lemma_layer_pos_is(ls@, l@, -1);
    }
    None
}

/// Position of the first collection named `c`.
fn find_col(cs: &Vec<Collection>, c: &str) -> (r: Option<usize>)
    ensures
        match r {
            Some(i) => i as int == col_pos(cs@, c@) && i < cs@.len(),
            None => col_pos(cs@, c@) == -1,
        },
{
    let mut i: usize = 0;
    while i < cs.len()
        invariant
            i <= cs@.len(),
            forall|j: int| 0 <= j < i ==> cs@[j].0@ != c@,
        decreases cs@.len() - i,
    {
        if str_eq(cs[i].0.as_str(), c) {
            proof {
                lemma_col_pos_is(cs@, c@, i as int);
            }
            return Some(i);
        }
        i = i + 1;
    }
    proof {
        lemma_col_pos_is(cs@, c@, -1);
    }
    None
}

impl ProjectModel {
    /// An empty model with empty metadata.
    pub fn new() -> (r: ProjectModel)
        ensures
            r.layers@.len() == 0,
            r.meta.name@.len() == 0,
            r.meta.element_count == 0,
    {
        ProjectModel { meta: ProjectMeta { name: String::new(), element_count: 0 }, layers: Vec::new() }
    }

    /// The elements of collection `collection` of layer `layer` (empty when absent).
    pub fn get_collection(&self, layer: &str, collection: &str) -> (r: &[ArcadiaElement])
        ensures
            r@ == collection_of(self.layers@, layer@, collection@),
    {
        match find_layer(&self.layers, layer) {
            Some(i) => {
                let cols = &self.layers[i].1;
                match find_col(cols, collection) {
                    Some(j) => self.layers[i].1[j].1.as_slice(),
                    None => &[],
                }
            },
            None => &[],
        }
    }
    /// Appends `el` to collection `collection` of layer `layer`, creating the layer
    /// and the collection when they are absent.
    pub fn add_element(&mut self, layer: &str, collection: &str, el: ArcadiaElement)
        ensures
            collection_of(final(self).layers@, layer@, collection@) == collection_of(
                old(self).layers@,
                layer@,
                collection@,
            ).push(el),
            forall|l: Seq<char>, c: Seq<char>|
                (l != layer@ || c != collection@) ==> #[trigger] collection_of(
                    final(self).layers@,
                    l,
                    c,
                ) == collection_of(old(self).layers@, l, c),
            flatten_layers(final(self).layers@).len() == flatten_layers(old(self).layers@).len()
                + 1,
            flatten_layers(final(self).layers@).contains(el),
            final(self).meta == old(self).meta,
    {
        let ghost ls0 = self.layers@;
        match find_layer(&self.layers, layer) {
            Some(i) => {
                let ghost cs0 = ls0[i as int].1@;
                proof {
                    lemma_layer_pos(ls0, layer@);
                }
                match find_col(&self.layers[i].1, collection) {
                    Some(j) => {
                        let ghost old_els = cs0[j as int].1@;
                        proof {
                            lemma_col_pos(cs0, collection@);
                        }
                        self.layers[i].1[j].1.push(el);
                        proof {
                            let ls1 = self.layers@;
                            let cs1 = ls1[i as int].1@;
                            assert(ls1 == ls0.update(i as int, ls1[i as int]));
                            assert(cs1 == cs0.update(j as int, cs1[j as int]));
                            assert(cs1[j as int].1@ == old_els.push(el));
                            lemma_layer_pos_names(ls0, ls1);
                            lemma_col_pos_names(cs0, cs1);
                            lemma_flatten_cols_update(cs0, j as int, cs1[j as int]);
                            lemma_flatten_layers_update(ls0, i as int, ls1[i as int]);
                            assert(old_els.push(el).contains(el)) by {
                                assert(old_els.push(el)[old_els.len() as int] == el);
                            }
                            assert forall|l: Seq<char>, c: Seq<char>|
                                (l != layer@ || c != collection@) implies #[trigger] collection_of(
                                ls1,
                                l,
                                c,
                            ) == collection_of(ls0, l, c) by {
                                lemma_layer_pos(ls0, l);
                                if layer_pos(ls0, l) == i {
                                    lemma_col_pos(cs0, c);
                                }
                            }
                        }
                    },
                    None => {
                        let ghost cs_before = self.layers@[i as int].1@;
                        self.layers[i].1.push((owned(collection), vec![el]));
                        proof {
                            let ls1 = self.layers@;
                            let cs1 = ls1[i as int].1@;
                            assert(ls1 == ls0.update(i as int, ls1[i as int]));
                            let e = cs1[cs0.len() as int];
                            assert(cs1 == cs0.push(e));
                            lemma_layer_pos_names(ls0, ls1);
                            lemma_col_pos_push(cs0, e);
                            lemma_flatten_cols_push(cs0, e);
                            lemma_flatten_layers_update(ls0, i as int, ls1[i as int]);
                            assert(e.1@ == seq![el]);
                            assert(flatten_cols(cs1).contains(el)) by {
                                assert(flatten_cols(cs1)[flatten_cols(cs0).len() as int] == el);
                            }
                            assert forall|l: Seq<char>, c: Seq<char>|
                                (l != layer@ || c != collection@) implies #[trigger] collection_of(
                                ls1,
                                l,
                                c,
                            ) == collection_of(ls0, l, c) by {
                                lemma_layer_pos(ls0, l);
                                if layer_pos(ls0, l) == i {
                                    lemma_col_pos(cs0, c);
                                    if col_pos(cs0, c) >= 0 {
                                        assert(cs1[col_pos(cs0, c)] == cs0[col_pos(cs0, c)]);
                                    }
                                }
                            }
                        }
                    },
                }
            },
            None => {
                let cols: Vec<Collection> = vec![(owned(collection), vec![el])];
                self.layers.push((owned(layer), cols));
                proof {
                    let ls1 = self.layers@;
                    let e = ls1[ls0.len() as int];
                    assert(ls1 == ls0.push(e));
                    lemma_layer_pos_push(ls0, e);
                    lemma_flatten_layers_push(ls0, e);
                    let cs1 = e.1@;
                    lemma_col_pos_is(cs1, collection@, 0);
                    assert(cs1.subrange(1, 1) =~= Seq::<Collection>::empty());
                    assert(flatten_cols(cs1.subrange(1, 1)) == Seq::<ArcadiaElement>::empty());
                    assert(flatten_cols(cs1) =~= seq![el]);
                    assert(flatten_layers(ls1)[flatten_layers(ls0).len() as int] == el);
                    assert forall|l: Seq<char>, c: Seq<char>|
                        (l != layer@ || c != collection@) implies #[trigger] collection_of(
                        ls1,
                        l,
                        c,
                    ) == collection_of(ls0, l, c) by {
                        lemma_layer_pos(ls0, l);
                        if l == layer@ {
                            lemma_col_pos(cs1, c);
                        }
                    }
                }
            },
        }
    }
    /// Every element of the model, layer after layer and collection after collection.
    pub fn all_elements(&self) -> (r: Vec<&ArcadiaElement>)
        ensures
            r@.len() == flatten_layers(self.layers@).len(),
            forall|k: int| 0 <= k < r@.len() ==> *r@[k] == flatten_layers(self.layers@)[k],
    {
        let ghost ls = self.layers@;
        let mut r: Vec<&ArcadiaElement> = Vec::new();
        let mut i: usize = 0;
        while i < self.layers.len()
            invariant
                ls == self.layers@,
                i <= ls.len(),
                r@.len() == flatten_layers(ls.subrange(0, i as int)).len(),
                forall|k: int|
                    0 <= k < r@.len() ==> *r@[k] == flatten_layers(ls.subrange(0, i as int))[k],
            decreases ls.len() - i,
        {
            let cols = &self.layers[i].1;
            let ghost cs = cols@;
            let ghost base = flatten_layers(ls.subrange(0, i as int));
            let mut j: usize = 0;
            while j < cols.len()
                invariant
                    cs == cols@,
                    j <= cs.len(),
                    r@.len() == base.len() + flatten_cols(cs.subrange(0, j as int)).len(),
                    forall|k: int|
                        0 <= k < r@.len() ==> *r@[k] == (base + flatten_cols(
                            cs.subrange(0, j as int),
                        ))[k],
                decreases cs.len() - j,
            {
                let els = &cols[j].1;
                let ghost before = base + flatten_cols(cs.subrange(0, j as int));
                let mut k: usize = 0;
                while k < els.len()
                    invariant
                        j < cs.len(),
                        els@ == cs[j as int].1@,
                        k <= els@.len(),
                        r@.len() == before.len() + k,
                        forall|m: int|
                            0 <= m < r@.len() ==> *r@[m] == (before + els@.subrange(0, k as int))[m],
                    decreases els@.len() - k,
                {
                    r.push(&els[k]);
                    k = k + 1;
                    proof {
                        assert forall|m: int| 0 <= m < r@.len() implies *r@[m] == (before
                            + els@.subrange(0, k as int))[m] by {
                            if m < r@.len() - 1 {
                                assert((before + els@.subrange(0, k as int))[m] == (before
                                    + els@.subrange(0, k - 1))[m]);
                            }
                        }
                    }
                }
                proof {
                    assert(cs.subrange(0, j + 1) =~= cs.subrange(0, j as int).push(cs[j as int]));
                    lemma_flatten_cols_push(cs.subrange(0, j as int), cs[j as int]);
                    assert(els@.subrange(0, k as int) =~= els@);
                    assert(before + els@ =~= base + flatten_cols(cs.subrange(0, j + 1)));
                }
                j = j + 1;
            }
            proof {
                assert(ls.subrange(0, i + 1) =~= ls.subrange(0, i as int).push(ls[i as int]));
                lemma_flatten_layers_push(ls.subrange(0, i as int), ls[i as int]);
                assert(cs.subrange(0, j as int) =~= cs);
                assert(base + flatten_cols(cs) =~= flatten_layers(ls.subrange(0, i + 1)));
            }
            i = i + 1;
        }
        proof {
            assert(ls.subrange(0, i as int) =~= ls);
        }
        r
    }

    /// The first element, in `all_elements` order, whose handle is `handle`.
    pub fn find_element(&self, handle: &str) -> (r: Option<&ArcadiaElement>)
        ensures
            ({
                let all = flatten_layers(self.layers@);
                let p = handle_pos(all, handle@);
                match r {
                    Some(e) => 0 <= p < all.len() && *e == all[p],
                    None => p == -1,
                }
            }),
    {
        let all = self.all_elements();
        let ghost flat = flatten_layers(self.layers@);
        let mut k: usize = 0;
        while k < all.len()
            invariant
                flat == flatten_layers(self.layers@),
                all@.len() == flat.len(),
                forall|m: int| 0 <= m < all@.len() ==> *all@[m] == flat[m],
                k <= all@.len(),
                forall|m: int| 0 <= m < k ==> flat[m].handle@ != handle@,
            decreases all@.len() - k,
        {
            let e: &ArcadiaElement = all[k];
            if str_eq(e.handle.as_str(), handle) {
                proof {
                    lemma_handle_pos_is(flat, handle@, k as int);
                }
                return Some(e);
            }
            k = k + 1;
        }
        proof {
            lemma_handle_pos_is(flat, handle@, -1);
        }
        None
    }
}

/// Position of the first element whose handle is `h`, or -1.
pub open spec fn handle_pos(s: Seq<ArcadiaElement>, h: Seq<char>) -> int
    decreases s.len(),
{
    if s.len() == 0 {
        -1
    } else if s[0].handle@ == h {
        0
    } else {
        let r = handle_pos(s.subrange(1, s.len() as int), h);
        if r < 0 {
            -1
        } else {
            r + 1
        }
    }
}

/// The properties of `handle_pos`.
pub proof fn lemma_handle_pos(s: Seq<ArcadiaElement>, h: Seq<char>)
    ensures
        -1 <= handle_pos(s, h) < s.len(),
        handle_pos(s, h) >= 0 ==> s[handle_pos(s, h)].handle@ == h,
        forall|j: int| 0 <= j < handle_pos(s, h) ==> s[j].handle@ != h,
        handle_pos(s, h) < 0 ==> forall|j: int| 0 <= j < s.len() ==> s[j].handle@ != h,
    decreases s.len(),
{
    if s.len() > 0 && s[0].handle@ != h {
        let t = s.subrange(1, s.len() as int);
        lemma_handle_pos(t, h);
        assert forall|j: int| 1 <= j < s.len() implies s[j] == t[j - 1] by {}
    }
}

/// `handle_pos` is the unique first match.
pub proof fn lemma_handle_pos_is(s: Seq<ArcadiaElement>, h: Seq<char>, i: int)
    requires
        -1 <= i < s.len(),
        i >= 0 ==> s[i].handle@ == h,
        forall|j: int| 0 <= j < i ==> s[j].handle@ != h,
        i < 0 ==> forall|j: int| 0 <= j < s.len() ==> s[j].handle@ != h,
    ensures
        handle_pos(s, h) == i,
{
    lemma_handle_pos(s, h);
    let p = handle_pos(s, h);
    if p >= 0 && i >= 0 {
        if p < i {
            assert(s[p].handle@ != h);
        }
        if i < p {
            assert(s[i].handle@ != h);
        }
    }
    if p >= 0 && i < 0 {
        assert(s[p].handle@ != h);
    }
    if p < 0 && i >= 0 {
        assert(s[i].handle@ != h);
    }
}

// ---------------------------------------------------------------------------
// Elements as JSON documents
// ---------------------------------------------------------------------------

/// A list of texts as a JSON array of strings.
pub open spec fn text_array(ts: Seq<Seq<char>>) -> JsonView {
    JsonView::Array(ts.map_values(|t: Seq<char>| JsonView::Str(t)))
}

/// The fixed members of an element's document: `handle`, `name`, `@type`, then
/// the optional members that are present.
pub open spec fn base_entries(el: ArcadiaElement) -> Seq<(Seq<char>, JsonView)> {
    let a = seq![
        ("handle"@, JsonView::Str(el.handle@)),
        ("name"@, JsonView::Str(el.name@)),
        ("@type"@, text_array(kinds_text(el))),
    ];
    let b = match el.xmi_id {
        Some(x) => a.push(("xmi_id"@, JsonView::Str(x@))),
        None => a,
    };
    let c = match el.summary {
        Some(t) => b.push(("summary"@, JsonView::Str(t@))),
        None => b,
    };
    let d = match el.description {
        Some(t) => c.push(("description"@, JsonView::Str(t@))),
        None => c,
    };
    if el.property_value_ids@.len() > 0 {
        d.push(("property_value_ids"@, text_array(texts(el.property_value_ids@))))
    } else {
        d
    }
}

/// The entries `es` with each property bound in turn.
pub open spec fn with_props(es: Seq<(Seq<char>, JsonView)>, props: Seq<(Seq<char>, JsonView)>) -> Seq<
    (Seq<char>, JsonView),
>
    decreases props.len(),
{
    if props.len() == 0 {
        es
    } else {
        entries_set(with_props(es, props.drop_last()), props.last().0, props.last().1)
    }
}

/// The document of an element: its fixed members, then its properties at the
/// same level.
pub open spec fn element_json(el: ArcadiaElement) -> JsonView {
    JsonView::Object(with_props(base_entries(el), jview_entries(el.properties@)))
}

/// A JSON array of the strings `v`.
pub fn strings_json(v: &Vec<String>) -> (r: JsonValue)
    ensures
        r@ == text_array(texts(v@)),
{
    let mut items: Vec<JsonValue> = Vec::new();
    let mut i: usize = 0;
    while i < v.len()
        invariant
            i <= v@.len(),
            items@.len() == i,
            forall|j: int| 0 <= j < i ==> #[trigger] items@[j]@ == JsonView::Str(v@[j]@),
        decreases v@.len() - i,
    {
        items.push(JsonValue::String(v[i].clone()));
        i = i + 1;
    }
    proof {
        lemma_jview_items(items@);
        let target = texts(v@).map_values(|t: Seq<char>| JsonView::Str(t));
        assert forall|j: int| 0 <= j < items@.len() implies jview_items(items@)[j] == target[j] by {
            assert(texts(v@)[j] == v@[j]@);
            assert(items@[j]@ == JsonView::Str(v@[j]@));
            assert(jview_items(items@)[j] == jview(items@[j]));
        }
        assert(jview_items(items@) =~= target);
    }
    JsonValue::Array(items)
}

/// A copy of an optional name.
fn copy_name(o: &Option<I18nString>) -> (r: Option<I18nString>)
    ensures
        match o {
            Some(t) => r matches Some(u) && u@ == t@,
            None => r is None,
        },
{
    match o {
        Some(t) => Some(t.duplicate()),
        None => None,
    }
}

impl ArcadiaElement {
    /// The document of this element (see `element_json`).
    pub fn to_json(&self) -> (r: JsonValue)
        ensures
            r@ == element_json(*self),
    {
        let mut es: Vec<(String, JsonValue)> = Vec::new();
        es.push((owned("handle"), JsonValue::String(owned(self.handle.as_str()))));
        es.push((owned("name"), JsonValue::String(owned(self.name.as_str()))));
        es.push((owned("@type"), strings_json(&self.kind)));
        match &self.xmi_id {
            Some(x) => es.push((owned("xmi_id"), JsonValue::String(x.clone()))),
            None => {},
        }
        match &self.summary {
            Some(t) => es.push((owned("summary"), JsonValue::String(owned(t.as_str())))),
            None => {},
        }
        match &self.description {
            Some(t) => es.push((owned("description"), JsonValue::String(owned(t.as_str())))),
            None => {},
        }
        if self.property_value_ids.len() > 0 {
            es.push((owned("property_value_ids"), strings_json(&self.property_value_ids)));
        }
        proof {
            lemma_jview_entries(es@);
            assert(jview_entries(es@) =~= base_entries(*self));
        }
        let ghost props = jview_entries(self.properties@);
        proof {
            lemma_jview_entries(self.properties@);
            assert(props.take(0) =~= Seq::<(Seq<char>, JsonView)>::empty());
        }
        let mut i: usize = 0;
        while i < self.properties.len()
            invariant
                i <= self.properties@.len(),
                props == jview_entries(self.properties@),
                props.len() == self.properties@.len(),
                forall|j: int|
                    0 <= j < self.properties@.len() ==> #[trigger] props[j] == (
                        self.properties@[j].0@,
                        self.properties@[j].1@,
                    ),
                jview_entries(es@) == with_props(base_entries(*self), props.take(i as int)),
            decreases self.properties@.len() - i,
        {
            assert(props.take(i as int + 1).drop_last() =~= props.take(i as int));
            assert(props.take(i as int + 1).last() == props[i as int]);
            entries_insert(&mut es, self.properties[i].0.clone(), self.properties[i].1.duplicate());
            i = i + 1;
        }
        assert(props.take(self.properties@.len() as int) =~= props);
        JsonValue::Object(es)
    }
}

} // verus!
