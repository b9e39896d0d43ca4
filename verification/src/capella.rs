//! Capella import: the reading of XMI elements into the model, the layout of
//! diagram nodes read from `.aird` files, and the model metadata.
use vstd::prelude::*;
use crate::json::{JsonValue, JsonView, digits_value, is_digit, jview_entries, lemma_digits_grow,
    lemma_digits_monotone, lemma_jview_entries};
use crate::model::{ArcadiaElement, I18nString, ProjectMeta, ProjectModel, SlugString, flatten_layers,
    collection_of};
use crate::schema::path_components;
use crate::text::{chars_of, contains, has_infix, owned, split_char, split_spec, str_eq, texts_of};
use crate::vocabulary::VocabularyRegistry;
use crate::arcadia::ArcadiaOntology;

verus! {

// ---------------------------------------------------------------------------
// Diagram layouts
// ---------------------------------------------------------------------------

/// The position and size of a diagram node.
#[derive(Clone, Copy, Debug, PartialEq, Eq, Structural)]
pub struct DiagramLayout {
    pub x: i32,
    pub y: i32,
    pub width: i32,
    pub height: i32,
}

/// A start or end tag of an XML document, with the attributes of a start tag
/// in document order.
pub enum XmlEvent {
    Start { name: String, attrs: Vec<(String, String)> },
    End { name: String },
}

/// The content of an XML tag event.
pub enum XmlEventV {
    Start { name: Seq<char>, attrs: Seq<(Seq<char>, Seq<char>)> },
    End { name: Seq<char> },
}

/// The content of attribute pairs.
pub open spec fn attrs_view(a: Seq<(String, String)>) -> Seq<(Seq<char>, Seq<char>)> {
    a.map_values(|p: (String, String)| (p.0@, p.1@))
}

impl View for XmlEvent {
    type V = XmlEventV;

    open spec fn view(&self) -> XmlEventV {
        match self {
            XmlEvent::Start { name, attrs } => XmlEventV::Start { name: name@, attrs: attrs_view(attrs@) },
            XmlEvent::End { name } => XmlEventV::End { name: name@ },
        }
    }
}

/// The length of the sign of a number text (0 or 1).
pub open spec fn sign_len(t: Seq<char>) -> int {
    if t.len() > 0 && (t[0] == '+' || t[0] == '-') {
        1
    } else {
        0
    }
}

/// The digits of a number text, after its sign.
pub open spec fn token_digits(t: Seq<char>) -> Seq<char> {
    t.subrange(sign_len(t), t.len() as int)
}

/// Every character is a decimal digit.
pub open spec fn all_digits(d: Seq<char>) -> bool {
    forall|i: int| 0 <= i < d.len() ==> #[trigger] is_digit(d[i])
}

/// The signed value of a number text.
pub open spec fn token_value(t: Seq<char>) -> int {
    if sign_len(t) == 1 && t[0] == '-' {
        -digits_value(token_digits(t))
    } else {
        digits_value(token_digits(t))
    }
}

/// The `i32` a text denotes (`str::parse::<i32>`): an optional sign, then
/// decimal digits, within range.
pub open spec fn int_token(t: Seq<char>) -> Option<int> {
    if token_digits(t).len() == 0 || !all_digits(token_digits(t)) || token_value(t) < i32::MIN
        || token_value(t) > i32::MAX {
        None
    } else {
        Some(token_value(t))
    }
}

/// Reads an `i32` (see `int_token`).
pub fn parse_i32(t: &str) -> (r: Option<i32>)
    ensures
        match r {
            Some(v) => int_token(t@) == Some(v as int),
            None => int_token(t@) is None,
        },
{
    let cs = chars_of(t);
    let n = cs.len();
    let signed = n > 0 && (cs[0] == '+' || cs[0] == '-');
    let neg = signed && cs[0] == '-';
    let start: usize = if signed { 1 } else { 0 };
    let ghost digits = token_digits(t@);
    assert(start as int == sign_len(t@));
    if start == n {
        return None;
    }
    let mut acc: i64 = 0;
    let mut i: usize = start;
    assert(digits.take(0) =~= Seq::<char>::empty());
    while i < n
        invariant
            cs@ == t@,
            n == cs@.len(),
            start as int == sign_len(t@),
            start <= i <= n,
            start < n,
            digits == token_digits(t@),
            forall|j: int| 0 <= j < i - start ==> #[trigger] is_digit(digits[j]),
            acc as int == digits_value(digits.take(i - start)),
            0 <= acc <= 2147483648,
        decreases n - i,
    {
        let c = cs[i];
        assert(digits[i - start] == c);
        if !('0' <= c && c <= '9') {
            assert(!is_digit(digits[i - start]));
            assert(!all_digits(digits));
            return None;
        }
        proof {
            lemma_digits_grow(digits, i - start);
        }
        let d = (c as u32 - '0' as u32) as i64;
        let next = acc * 10 + d;
        if next > 2147483648 {
            proof {
                assert(digits_value(digits.take(i - start + 1)) == next);
                if all_digits(digits) {
                    lemma_digits_monotone(digits, i - start + 1);
                }
            }
            return None;
        }
        acc = next;
        i = i + 1;
    }
    assert(digits.take(n - start) =~= digits);
    assert(all_digits(digits));
    if neg {
        if acc > 2147483648 {
            return None;
        }
        Some((0 - acc) as i32)
    } else {
        if acc > 2147483647 {
            return None;
        }
        Some(acc as i32)
    }
}

/// The text after the last `#` of a reference.
pub open spec fn fragment_id(val: Seq<char>) -> Seq<char> {
    split_spec(val, '#').last()
}

/// The layout read from the attributes of a layout constraint: `x`, `y`,
/// `width`, `height`, each defaulting (when absent or not a number) to 0, 0,
/// 100, 100; a later attribute of the same name wins.
pub open spec fn layout_of(attrs: Seq<(Seq<char>, Seq<char>)>) -> (int, int, int, int)
    decreases attrs.len(),
{
    if attrs.len() == 0 {
        (0, 0, 100, 100)
    } else {
        let prev = layout_of(attrs.drop_last());
        let k = attrs.last().0;
        let v = attrs.last().1;
        let or = |d: int| match int_token(v) {
            Some(n) => n,
            None => d,
        };
        if k == "x"@ {
            (or(0), prev.1, prev.2, prev.3)
        } else if k == "y"@ {
            (prev.0, or(0), prev.2, prev.3)
        } else if k == "width"@ {
            (prev.0, prev.1, or(100), prev.3)
        } else if k == "height"@ {
            (prev.0, prev.1, prev.2, or(100))
        } else {
            prev
        }
    }
}

/// The current target after reading the attributes of a start tag: an
/// `element` attribute holding `#` designates the element after its last `#`.
pub open spec fn target_after(target: Option<Seq<char>>, attrs: Seq<(Seq<char>, Seq<char>)>) -> Option<
    Seq<char>,
>
    decreases attrs.len(),
{
    if attrs.len() == 0 {
        target
    } else {
        let prev = target_after(target, attrs.drop_last());
        if attrs.last().0 == "element"@ && has_infix(attrs.last().1, "#"@) {
            Some(fragment_id(attrs.last().1))
        } else {
            prev
        }
    }
}

/// The state of the layout reader: the current target, and the layouts found.
pub struct LayoutState {
    pub target: Option<Seq<char>>,
    pub layouts: Map<Seq<char>, (int, int, int, int)>,
}

/// Reading the events in order: start tags may set the target, a
/// `layoutConstraint` start tag records a layout for the current target, and a
/// `children` end tag clears the target.
pub open spec fn layout_fold(events: Seq<XmlEventV>) -> LayoutState
    decreases events.len(),
{
    if events.len() == 0 {
        LayoutState { target: None, layouts: Map::empty() }
    } else {
        let prev = layout_fold(events.drop_last());
        match events.last() {
            XmlEventV::Start { name, attrs } => {
                let t = target_after(prev.target, attrs);
                let layouts = if name == "layoutConstraint"@ && t is Some {
                    prev.layouts.insert(t->0, layout_of(attrs))
                } else {
                    prev.layouts
                };
                LayoutState { target: t, layouts }
            },
            XmlEventV::End { name } => if name == "children"@ {
                LayoutState { target: None, layouts: prev.layouts }
            } else {
                prev
            },
        }
    }
}

/// The reader of diagram layouts.
pub struct AirdParser;

/// The layouts found, by target, as pairs.
pub open spec fn layouts_view(v: Seq<(String, DiagramLayout)>) -> Map<Seq<char>, (int, int, int, int)> {
    crate::assoc::assoc_map(v).map_values(
        |l: DiagramLayout| (l.x as int, l.y as int, l.width as int, l.height as int),
    )
}

/// The last piece of `val` after a `#`.
fn last_fragment(val: &str) -> (r: String)
    ensures
        r@ == fragment_id(val@),
{
    let pieces = split_char(val, '#');
    assert(texts_of(pieces@).len() == pieces@.len());
    assert(split_spec(val@, '#').len() > 0) by {
        crate::text::lemma_split_nonempty(val@, '#');
    }
    let k = pieces.len() - 1;
    assert(texts_of(pieces@)[k as int] == pieces@[k as int]@);
    pieces[k].clone()
}

/// The layout of a constraint's attributes (see `layout_of`).
fn read_layout(attrs: &Vec<(String, String)>) -> (r: DiagramLayout)
    ensures
        (r.x as int, r.y as int, r.width as int, r.height as int) == layout_of(attrs_view(attrs@)),
{
    let ghost av = attrs_view(attrs@);
    let mut x: i32 = 0;
    let mut y: i32 = 0;
    let mut w: i32 = 100;
    let mut h: i32 = 100;
    let mut i: usize = 0;
    assert(av.take(0) =~= Seq::<(Seq<char>, Seq<char>)>::empty());
    while i < attrs.len()
        invariant
            i <= attrs@.len(),
            av == attrs_view(attrs@),
            (x as int, y as int, w as int, h as int) == layout_of(av.take(i as int)),
        decreases attrs@.len() - i,
    {
        assert(av.take(i as int + 1).drop_last() =~= av.take(i as int));
        assert(av.take(i as int + 1).last() == (attrs@[i as int].0@, attrs@[i as int].1@));
        let k = attrs[i].0.as_str();
        let v = attrs[i].1.as_str();
        if str_eq(k, "x") {
            x = match parse_i32(v) { Some(n) => n, None => 0 };
        } else if str_eq(k, "y") {
            y = match parse_i32(v) { Some(n) => n, None => 0 };
        } else if str_eq(k, "width") {
            w = match parse_i32(v) { Some(n) => n, None => 100 };
        } else if str_eq(k, "height") {
            h = match parse_i32(v) { Some(n) => n, None => 100 };
        }
        i = i + 1;
    }
    assert(av.take(attrs@.len() as int) =~= av);
    DiagramLayout { x, y, width: w, height: h }
}

impl AirdParser {
    /// The layout of each diagram target read from the tag events of an `.aird`
    /// file (see `layout_fold`).
    pub fn extract_layout(events: &Vec<XmlEvent>) -> (r: Vec<(String, DiagramLayout)>)
        ensures
            layouts_view(r@) == layout_fold(events@.map_values(|e: XmlEvent| e@)).layouts,
    {
        let ghost ev = events@.map_values(|e: XmlEvent| e@);
        let mut layouts: Vec<(String, DiagramLayout)> = Vec::new();
        let mut target: Option<String> = None;
        let mut i: usize = 0;
        assert(ev.take(0) =~= Seq::<XmlEventV>::empty());
        assert(layouts_view(layouts@) =~= Map::empty());
        while i < events.len()
            invariant
                i <= events@.len(),
                ev == events@.map_values(|e: XmlEvent| e@),
                layouts_view(layouts@) == layout_fold(ev.take(i as int)).layouts,
                crate::vocabulary::opt_text(target) == layout_fold(ev.take(i as int)).target,
            decreases events@.len() - i,
        {
            assert(ev.take(i as int + 1).drop_last() =~= ev.take(i as int));
            assert(ev.take(i as int + 1).last() == events@[i as int]@);
            match &events[i] {
                XmlEvent::Start { name, attrs } => {
                    let ghost av = attrs_view(attrs@);
                    let ghost t0 = crate::vocabulary::opt_text(target);
                    let mut j: usize = 0;
                    assert(av.take(0) =~= Seq::<(Seq<char>, Seq<char>)>::empty());
                    while j < attrs.len()
                        invariant
                            j <= attrs@.len(),
                            av == attrs_view(attrs@),
                            crate::vocabulary::opt_text(target) == target_after(t0, av.take(j as int)),
                        decreases attrs@.len() - j,
                    {
                        assert(av.take(j as int + 1).drop_last() =~= av.take(j as int));
                        assert(av.take(j as int + 1).last() == (attrs@[j as int].0@, attrs@[j as int].1@));
                        if str_eq(attrs[j].0.as_str(), "element") && contains(attrs[j].1.as_str(), "#") {
                            target = Some(last_fragment(attrs[j].1.as_str()));
                        }
                        j = j + 1;
                    }
                    assert(av.take(attrs@.len() as int) =~= av);
                    if str_eq(name.as_str(), "layoutConstraint") {
                        match &target {
                            Some(t) => {
                                let layout = read_layout(attrs);
                                let ghost l0 = layouts_view(layouts@);
                                crate::assoc::assoc_insert(&mut layouts, t.clone(), layout);
                                assert(layouts_view(layouts@) =~= l0.insert(t@, layout_of(av)));
                            },
                            None => {},
                        }
                    }
                },
                XmlEvent::End { name } => {
                    if str_eq(name.as_str(), "children") {
                        target = None;
                    }
                },
            }
            i = i + 1;
        }
        assert(ev.take(events@.len() as int) =~= ev);
        layouts
    }
}

// ---------------------------------------------------------------------------
// Reading Capella models
// ---------------------------------------------------------------------------

/// The file name of a path: its last component, unless that is `..`.
pub open spec fn file_name_spec(path: Seq<char>) -> Option<Seq<char>> {
    let cs = path_components(path);
    if cs.len() > 0 && cs.last() != ".."@ {
        Some(cs.last())
    } else {
        None
    }
}

/// The reader of `.capella` files.
pub struct CapellaReader;

impl CapellaReader {
    /// The number of elements of a model, over all layers and collections.
    pub fn count_elements(model: &ProjectModel) -> (r: usize)
        ensures
            r == flatten_layers(model.layers@).len(),
    {
        model.all_elements().len()
    }

    /// The model read from the file at `path`, with its metadata set: the file
    /// name (or `unknown.capella`) and the number of elements.
    pub fn read_model(parsed: ProjectModel, path: &str) -> (r: ProjectModel)
        ensures
            r.layers == parsed.layers,
            r.meta.name@ == match file_name_spec(path@) {
                Some(n) => n,
                None => "unknown.capella"@,
            },
            r.meta.element_count == flatten_layers(parsed.layers@).len(),
    {
        let mut model = parsed;
        let comps = crate::schema::components_of_path(path);
        let name = if comps.len() > 0 && !str_eq(comps[comps.len() - 1].as_str(), "..") {
            assert(texts_of(comps@)[comps@.len() - 1] == comps@[comps@.len() - 1]@);
            comps[comps.len() - 1].clone()
        } else {
            owned("unknown.capella")
        };
        let count = Self::count_elements(&model);
        model.meta = ProjectMeta { name, element_count: count };
        model
    }
}

/// An element built from the attributes of an XMI tag: it needs a non-empty
/// `id` and `xsi:type`; the name defaults to `Unnamed`; the other attributes
/// become string properties. The last value of a repeated attribute wins.
pub open spec fn xmi_field(attrs: Seq<(Seq<char>, Seq<char>)>, key: Seq<char>) -> Seq<char>
    decreases attrs.len(),
{
    if attrs.len() == 0 {
        Seq::empty()
    } else if attrs.last().0 == key {
        attrs.last().1
    } else {
        xmi_field(attrs.drop_last(), key)
    }
}

/// The attributes that become properties, in order.
pub open spec fn xmi_extra(attrs: Seq<(Seq<char>, Seq<char>)>) -> Seq<(Seq<char>, JsonView)>
    decreases attrs.len(),
{
    if attrs.len() == 0 {
        Seq::empty()
    } else {
        let prev = xmi_extra(attrs.drop_last());
        let k = attrs.last().0;
        if k == "id"@ || k == "name"@ || k == "xsi:type"@ {
            prev
        } else {
            crate::json::entries_set(prev, k, JsonView::Str(attrs.last().1))
        }
    }
}

/// The reader of XMI elements.
pub struct CapellaXmiParser;

impl CapellaXmiParser {
    /// The element an XMI tag declares, with its `xsi:type` (see `xmi_field`).
    pub fn element_from_attributes(attrs: &Vec<(String, String)>) -> (r: Option<(ArcadiaElement, String)>)
        ensures
            ({
                let av = attrs_view(attrs@);
                let id = xmi_field(av, "id"@);
                let name = xmi_field(av, "name"@);
                let t = xmi_field(av, "xsi:type"@);
                if id.len() > 0 && t.len() > 0 {
                    r matches Some(p) && p.0.handle@ == id && p.0.name@ == (if name.len() == 0 {
                        "Unnamed"@
                    } else {
                        name
                    }) && crate::model::kinds_text(p.0) == seq![t] && p.0.props() == JsonView::Object(
                        xmi_extra(av),
                    ) && p.1@ == t
                } else {
                    r is None
                }
            }),
    {
        let ghost av = attrs_view(attrs@);
        let mut id = String::new();
        let mut name = String::new();
        let mut xsi_type = String::new();
        let mut props: Vec<(String, JsonValue)> = Vec::new();
        let mut i: usize = 0;
        assert(av.take(0) =~= Seq::<(Seq<char>, Seq<char>)>::empty());
        proof {
            lemma_jview_entries(props@);
            assert(jview_entries(props@) =~= Seq::<(Seq<char>, JsonView)>::empty());
        }
        while i < attrs.len()
            invariant
                i <= attrs@.len(),
                av == attrs_view(attrs@),
                id@ == xmi_field(av.take(i as int), "id"@),
                name@ == xmi_field(av.take(i as int), "name"@),
                xsi_type@ == xmi_field(av.take(i as int), "xsi:type"@),
                jview_entries(props@) == xmi_extra(av.take(i as int)),
            decreases attrs@.len() - i,
        {
            assert(av.take(i as int + 1).drop_last() =~= av.take(i as int));
            assert(av.take(i as int + 1).last() == (attrs@[i as int].0@, attrs@[i as int].1@));
            proof {
                reveal_strlit("id");
                reveal_strlit("name");
                reveal_strlit("xsi:type");
                assert("id"@[0] != "name"@[0]);
                assert("id"@[0] != "xsi:type"@[0]);
                assert("name"@[0] != "xsi:type"@[0]);
            }
            let k = attrs[i].0.as_str();
            let v = &attrs[i].1;
            if str_eq(k, "id") {
                id = v.clone();
            } else if str_eq(k, "name") {
                name = v.clone();
            } else if str_eq(k, "xsi:type") {
                xsi_type = v.clone();
            } else {
                crate::json::entries_insert(&mut props, owned(k), JsonValue::String(v.clone()));
            }
            i = i + 1;
        }
        assert(av.take(attrs@.len() as int) =~= av);
        if id.as_str().unicode_len() == 0 || xsi_type.as_str().unicode_len() == 0 {
            return None;
        }
        let shown = if name.as_str().unicode_len() == 0 {
            owned("Unnamed")
        } else {
            name
        };
        let mut kind: Vec<String> = Vec::new();
        kind.push(xsi_type.clone());
        assert(crate::model::texts(kind@) =~= seq![xsi_type@]);
        let mut el = ArcadiaElement::with(
            SlugString::from_text(id.as_str()),
            I18nString::Single(shown),
            kind,
        );
        el.properties = props;
        Some((el, xsi_type))
    }
}

/// Where an XMI element goes, by its `xsi:type`: its layer, its collection,
/// and the ontology prefix and class its type is resolved with (none for
/// unmapped types, which keep their type).
pub open spec fn xmi_route(t: Seq<char>) -> (Seq<char>, Seq<char>, Option<(Seq<char>, Seq<char>)>) {
    if has_infix(t, "oa:OperationalActor"@) {
        ("oa"@, "actors"@, Some(("oa"@, "OperationalActor"@)))
    } else if has_infix(t, "oa:OperationalActivity"@) {
        ("oa"@, "activities"@, Some(("oa"@, "OperationalActivity"@)))
    } else if has_infix(t, "oa:Entity"@) || has_infix(t, "oa:OperationalEntity"@) {
        ("oa"@, "entities"@, Some(("oa"@, "OperationalEntity"@)))
    } else if has_infix(t, "ctx:SystemFunction"@) {
        ("sa"@, "functions"@, Some(("sa"@, "SystemFunction"@)))
    } else if has_infix(t, "ctx:SystemComponent"@) || has_infix(t, "ctx:System"@) {
        ("sa"@, "components"@, Some(("sa"@, "SystemComponent"@)))
    } else if has_infix(t, "la:LogicalFunction"@) {
        ("la"@, "functions"@, Some(("la"@, "LogicalFunction"@)))
    } else if has_infix(t, "la:LogicalComponent"@) {
        ("la"@, "components"@, Some(("la"@, "LogicalComponent"@)))
    } else if has_infix(t, "pa:PhysicalComponent"@) {
        ("pa"@, "components"@, Some(("pa"@, "PhysicalComponent"@)))
    } else {
        ("unmapped"@, "elements"@, None)
    }
}

/// A text holding `p` holds every beginning of `p`.
proof fn lemma_infix_beginning(t: Seq<char>, p: Seq<char>, q: Seq<char>)
    requires
        has_infix(t, p),
        q.len() <= p.len(),
        p.subrange(0, q.len() as int) == q,
    ensures
        has_infix(t, q),
{
    let i = choose|i: int| crate::text::occurs_at(t, p, i);
    assert(t.subrange(i, i + q.len()) =~= t.subrange(i, i + p.len()).subrange(0, q.len() as int));
    assert(crate::text::occurs_at(t, q, i));
}

/// A text without `q` holds no text that begins with `q`.
proof fn lemma_no_longer_infix(t: Seq<char>, q: Seq<char>, p: Seq<char>)
    requires
        !has_infix(t, q),
        q.len() <= p.len(),
        p.subrange(0, q.len() as int) =~= q,
    ensures
        !has_infix(t, p),
{
    if has_infix(t, p) {
        lemma_infix_beginning(t, p, q);
    }
}

/// The type names of the routing table, as characters.
proof fn lemma_route_names()
    ensures
        "oa:OperationalActor"@.subrange(0, 3) =~= "oa:"@,
        "oa:OperationalActivity"@.subrange(0, 3) =~= "oa:"@,
        "oa:Entity"@.subrange(0, 3) =~= "oa:"@,
        "oa:OperationalEntity"@.subrange(0, 3) =~= "oa:"@,
        "oa:OperationalActivity"@.subrange(0, 17) =~= "oa:OperationalAct"@,
        "oa:OperationalActor"@.subrange(0, 17) =~= "oa:OperationalAct"@,
        "ctx:SystemFunction"@.subrange(0, 4) =~= "ctx:"@,
        "ctx:SystemComponent"@.subrange(0, 4) =~= "ctx:"@,
        "ctx:System"@.subrange(0, 4) =~= "ctx:"@,
        "la:LogicalFunction"@.subrange(0, 10) =~= "la:Logical"@,
        "la:LogicalComponent"@.subrange(0, 10) =~= "la:Logical"@,
        "oa:"@.len() == 3,
        "oa:OperationalAct"@.len() == 17,
        "ctx:"@.len() == 4,
        "la:Logical"@.len() == 10,
        "oa:OperationalActor"@.len() >= 17,
        "oa:OperationalActivity"@.len() >= 17,
        "oa:Entity"@.len() >= 3,
        "oa:OperationalEntity"@.len() >= 3,
        "ctx:SystemFunction"@.len() >= 4,
        "ctx:SystemComponent"@.len() >= 4,
        "ctx:System"@.len() >= 4,
        "la:LogicalFunction"@.len() >= 10,
        "la:LogicalComponent"@.len() >= 10,
{
    reveal_strlit("oa:OperationalActor");
    reveal_strlit("oa:OperationalActivity");
    reveal_strlit("oa:Entity");
    reveal_strlit("oa:OperationalEntity");
    reveal_strlit("oa:OperationalAct");
    reveal_strlit("oa:");
    reveal_strlit("ctx:SystemFunction");
    reveal_strlit("ctx:SystemComponent");
    reveal_strlit("ctx:System");
    reveal_strlit("ctx:");
    reveal_strlit("la:LogicalFunction");
    reveal_strlit("la:LogicalComponent");
    reveal_strlit("la:Logical");
}

/// Operational types other than the one given: none.
proof fn lemma_no_operational(t: Seq<char>)
    requires
        !has_infix(t, "oa:"@),
    ensures
        !has_infix(t, "oa:OperationalActor"@),
        !has_infix(t, "oa:OperationalActivity"@),
        !has_infix(t, "oa:Entity"@),
        !has_infix(t, "oa:OperationalEntity"@),
{
    lemma_route_names();
    lemma_no_longer_infix(t, "oa:"@, "oa:OperationalActor"@);
    lemma_no_longer_infix(t, "oa:"@, "oa:OperationalActivity"@);
    lemma_no_longer_infix(t, "oa:"@, "oa:Entity"@);
    lemma_no_longer_infix(t, "oa:"@, "oa:OperationalEntity"@);
}

/// Law: an operational actor goes to `oa`/`actors` as `OperationalActor`; an
/// operational activity (no actor type present) to `oa`/`activities` as
/// `OperationalActivity`; an operational entity (neither of those present) to
/// `oa`/`entities` as `OperationalEntity`.
pub proof fn law_operational_routes(t: Seq<char>)
    ensures
        has_infix(t, "oa:OperationalActor"@) ==> xmi_route(t) == ("oa"@, "actors"@, Some(("oa"@, "OperationalActor"@))),
        has_infix(t, "oa:OperationalActivity"@) && !has_infix(t, "oa:OperationalActor"@) ==> xmi_route(t) == (
            "oa"@,
            "activities"@,
            Some(("oa"@, "OperationalActivity"@)),
        ),
        (has_infix(t, "oa:OperationalEntity"@) || has_infix(t, "oa:Entity"@)) && !has_infix(t, "oa:OperationalAct"@)
            ==> xmi_route(t) == ("oa"@, "entities"@, Some(("oa"@, "OperationalEntity"@))),
{
    lemma_route_names();
    if !has_infix(t, "oa:OperationalAct"@) {
        lemma_no_longer_infix(t, "oa:OperationalAct"@, "oa:OperationalActor"@);
        lemma_no_longer_infix(t, "oa:OperationalAct"@, "oa:OperationalActivity"@);
    }
}

/// Law: with no operational type present, a system function goes to
/// `sa`/`functions` as `SystemFunction`, and a system component (no system
/// function type present) to `sa`/`components` as `SystemComponent`.
pub proof fn law_system_routes(t: Seq<char>)
    requires
        !has_infix(t, "oa:"@),
    ensures
        has_infix(t, "ctx:SystemFunction"@) ==> xmi_route(t) == ("sa"@, "functions"@, Some(("sa"@, "SystemFunction"@))),
        has_infix(t, "ctx:SystemComponent"@) && !has_infix(t, "ctx:SystemFunction"@) ==> xmi_route(t) == (
            "sa"@,
            "components"@,
            Some(("sa"@, "SystemComponent"@)),
        ),
{
    lemma_no_operational(t);
}

/// Law: with no operational or system type present, a logical function goes to
/// `la`/`functions` as `LogicalFunction`, a logical component (no logical
/// function type present) to `la`/`components` as `LogicalComponent`, and,
/// with no logical type present either, a physical component to
/// `pa`/`components` as `PhysicalComponent`.
pub proof fn law_logical_and_physical_routes(t: Seq<char>)
    requires
        !has_infix(t, "oa:"@),
        !has_infix(t, "ctx:"@),
    ensures
        has_infix(t, "la:LogicalFunction"@) ==> xmi_route(t) == ("la"@, "functions"@, Some(("la"@, "LogicalFunction"@))),
        has_infix(t, "la:LogicalComponent"@) && !has_infix(t, "la:LogicalFunction"@) ==> xmi_route(t) == (
            "la"@,
            "components"@,
            Some(("la"@, "LogicalComponent"@)),
        ),
        has_infix(t, "pa:PhysicalComponent"@) && !has_infix(t, "la:Logical"@) ==> xmi_route(t) == (
            "pa"@,
            "components"@,
            Some(("pa"@, "PhysicalComponent"@)),
        ),
{
    lemma_no_operational(t);
    lemma_route_names();
    lemma_no_longer_infix(t, "ctx:"@, "ctx:SystemFunction"@);
    lemma_no_longer_infix(t, "ctx:"@, "ctx:SystemComponent"@);
    lemma_no_longer_infix(t, "ctx:"@, "ctx:System"@);
    if !has_infix(t, "la:Logical"@) {
        lemma_no_longer_infix(t, "la:Logical"@, "la:LogicalFunction"@);
        lemma_no_longer_infix(t, "la:Logical"@, "la:LogicalComponent"@);
    }
}

/// Law: a routed element goes to the layer of its class.
pub proof fn law_route_layer_is_class_layer(t: Seq<char>)
    ensures
        xmi_route(t).2 matches Some(pc) ==> xmi_route(t).0 == pc.0,
        xmi_route(t).2 is None ==> xmi_route(t).0 == "unmapped"@ && xmi_route(t).1 == "elements"@,
{
}

/// The types of a dispatched element: the URI of its class when the prefix
/// context knows the prefix, else its `xsi:type`; unmapped elements keep theirs.
pub open spec fn routed_kinds(
    dc: Map<Seq<char>, Seq<char>>,
    t: Seq<char>,
    kinds: Seq<Seq<char>>,
) -> Seq<Seq<char>> {
    match xmi_route(t).2 {
        Some(pc) => if dc.contains_key(pc.0) {
            seq![dc[pc.0] + pc.1]
        } else {
            seq![t]
        },
        None => kinds,
    }
}

impl CapellaXmiParser {
    /// Adds an XMI element to the collection its `xsi:type` routes it to (see
    /// `xmi_route`), with its type resolved through the ontology.
    pub fn dispatch(model: &mut ProjectModel, element: ArcadiaElement, xsi_type: &str, reg: &VocabularyRegistry)
        ensures
            ({
                let route = xmi_route(xsi_type@);
                let before = collection_of(old(model).layers@, route.0, route.1);
                let after = collection_of(final(model).layers@, route.0, route.1);
                &&& after.len() == before.len() + 1
                &&& after.drop_last() == before
                &&& after.last().handle == element.handle
                &&& after.last().name == element.name
                &&& after.last().properties == element.properties
                &&& crate::model::kinds_text(after.last()) == routed_kinds(
                    reg.current()@.default_context,
                    xsi_type@,
                    crate::model::kinds_text(element),
                )
                &&& forall|l: Seq<char>, c: Seq<char>|
                    (l != route.0 || c != route.1) ==> #[trigger] collection_of(final(model).layers@, l, c)
                        == collection_of(old(model).layers@, l, c)
            }),
    {
        let mut element = element;
        let t = xsi_type;
        let (layer, collection, class): (&str, &str, Option<(&str, &str)>) = if contains(t, "oa:OperationalActor") {
            ("oa", "actors", Some(("oa", "OperationalActor")))
        } else if contains(t, "oa:OperationalActivity") {
            ("oa", "activities", Some(("oa", "OperationalActivity")))
        } else if contains(t, "oa:Entity") || contains(t, "oa:OperationalEntity") {
            ("oa", "entities", Some(("oa", "OperationalEntity")))
        } else if contains(t, "ctx:SystemFunction") {
            ("sa", "functions", Some(("sa", "SystemFunction")))
        } else if contains(t, "ctx:SystemComponent") || contains(t, "ctx:System") {
            ("sa", "components", Some(("sa", "SystemComponent")))
        } else if contains(t, "la:LogicalFunction") {
            ("la", "functions", Some(("la", "LogicalFunction")))
        } else if contains(t, "la:LogicalComponent") {
            ("la", "components", Some(("la", "LogicalComponent")))
        } else if contains(t, "pa:PhysicalComponent") {
            ("pa", "components", Some(("pa", "PhysicalComponent")))
        } else {
            ("unmapped", "elements", None)
        };
        assert(layer@ == xmi_route(t@).0 && collection@ == xmi_route(t@).1);
        let ghost k0 = crate::model::kinds_text(element);
        match class {
            Some(pc) => {
                let uri = match ArcadiaOntology::get_uri(reg, pc.0, pc.1) {
                    Some(u) => u,
                    None => owned(t),
                };
                let mut kind: Vec<String> = Vec::new();
                kind.push(uri);
                element.kind = kind;
                assert(crate::model::kinds_text(element) =~= routed_kinds(reg.current()@.default_context, t@, k0));
            },
            None => {},
        }
        let ghost el = element;
        model.add_element(layer, collection, element);
        proof {
            let route = xmi_route(xsi_type@);
            let after = collection_of(model.layers@, route.0, route.1);
            assert(after.last() == el);
            assert(after.drop_last() =~= collection_of(old(model).layers@, route.0, route.1));
        }
    }
}

} // verus!
