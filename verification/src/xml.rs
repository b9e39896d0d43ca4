//! XML documents read with quick-xml, event by event, and the importers that
//! read Capella models, diagram layouts and EUR-Lex directives from them.
use vstd::prelude::*;
use quick_xml::events::BytesStart;
use quick_xml::events::Event::{Empty, End, Eof, Start, Text};
use self::XmlStep::{Error, Other, Tag};
use quick_xml::reader::Reader;
use crate::capella::{AirdParser, CapellaReader, CapellaXmiParser, DiagramLayout, XmlEvent, XmlEventV,
    attrs_view, layout_fold, layouts_view, routed_kinds, xmi_extra, xmi_field, xmi_route};
use crate::json::JsonView;
use crate::model::{ArcadiaElement, ProjectModel, collection_of, flatten_layers, kinds_text};
use crate::transform::{EurlexParsedData, EurlexParser, eurlex_fold};
use crate::vocabulary::VocabularyRegistry;
use crate::capella::file_name_spec;
use crate::text::texts_of;

verus! {

#[verifier::external_type_specification]
#[verifier::external_body]
#[verifier::reject_recursive_types(R)]
pub struct ExXmlReader<R>(quick_xml::reader::Reader<R>);

/// One step of reading an XML document.
pub enum XmlStep {
    /// A start tag, or an empty-element tag when `empty`.
    Tag { name: String, attrs: Vec<(String, String)>, empty: bool },
    End(String),
    Text(String),
    /// A declaration, comment, processing instruction, CDATA or doctype.
    Other,
    Eof,
    /// The document is not well-formed at this point.
    Error,
}

/// The content of a reading step.
pub enum XmlStepV {
    Tag { name: Seq<char>, attrs: Seq<(Seq<char>, Seq<char>)>, empty: bool },
    End(Seq<char>),
    Text(Seq<char>),
    Other,
    Eof,
    Error,
}

impl View for XmlStep {
    type V = XmlStepV;

    open spec fn view(&self) -> XmlStepV {
        match self {
            XmlStep::Tag { name, attrs, empty } => XmlStepV::Tag { name: name@, attrs: attrs_view(attrs@), empty: *empty },
            XmlStep::End(name) => XmlStepV::End(name@),
            XmlStep::Text(t) => XmlStepV::Text(t@),
            XmlStep::Other => XmlStepV::Other,
            XmlStep::Eof => XmlStepV::Eof,
            XmlStep::Error => XmlStepV::Error,
        }
    }
}

/// What quick-xml's `read_event`, on a reader of `bytes` that trims text,
/// gives after `k` earlier events: a function of the bytes and of `k`.
pub uninterp spec fn xml_step_at(bytes: Seq<u8>, k: int) -> XmlStepV;

/// Why an XML document could not be read.
#[derive(Clone, Copy, Debug, PartialEq, Eq, Structural)]
pub enum XmlError {
    /// The document is not well-formed.
    Parse,
    /// The reader reported more events than the document has bytes without
    /// reaching its end (quick-xml reads at least one byte for each event
    /// before the end, so this is not met).
    Unterminated,
}

/// A quick-xml reader over a byte slice, with the number of events read.
pub struct XmlCursor<'a> {
    reader: Reader<&'a [u8]>,
    bytes: &'a [u8],
    count: usize,
}

impl<'a> XmlCursor<'a> {
    /// The bytes read.
    pub closed spec fn source(&self) -> Seq<u8> {
        self.bytes@
    }

    /// The number of events read.
    pub closed spec fn read_count(&self) -> nat {
        self.count as nat
    }
}

/// Calls `quick_xml::reader::Reader::from_reader` on the bytes and sets
/// `trim_text(true)`; no event has been read.
#[verifier::external_body]
fn open_xml<'a>(bytes: &'a [u8]) -> (r: XmlCursor<'a>)
    ensures
        r.source() == bytes@,
        r.read_count() == 0,
{
    let mut reader = Reader::from_reader(bytes);
    reader.config_mut().trim_text(true);
    XmlCursor { reader, bytes, count: 0 }
}

/// Calls `Reader::read_event` once and converts the event: tag names and
/// attribute keys and values as lossy UTF-8 (attributes that fail to parse are
/// skipped), text as lossy UTF-8 of its raw bytes. The step is named by
/// `xml_step_at`.
#[verifier::external_body]
fn next_xml_step<'a>(c: &mut XmlCursor<'a>) -> (r: XmlStep)
    ensures
        r@ == xml_step_at(old(c).source(), old(c).read_count() as int),
        final(c).source() == old(c).source(),
        final(c).read_count() == old(c).read_count(),
{
    let s = |b: &[u8]| String::from_utf8_lossy(b).into_owned();
    let tag = |e: BytesStart, empty| Tag {
        attrs: e.attributes().flatten().map(|a| (s(a.key.0), s(&a.value))).collect(),
        name: s(e.name().0),
        empty,
    };
    match c.reader.read_event() {
        Ok(Start(e)) => tag(e, false),
        Ok(Empty(e)) => tag(e, true),
        Ok(End(e)) => XmlStep::End(s(e.name().0)),
        Ok(Text(e)) => XmlStep::Text(s(&e)),
        Ok(Eof) => XmlStep::Eof,
        Ok(_) => Other,
        Err(_) => Error,
    }
}

/// The next step of the document, counted as read.
fn read_step<'a>(c: &mut XmlCursor<'a>) -> (r: XmlStep)
    requires
        old(c).read_count() < usize::MAX,
    ensures
        r@ == xml_step_at(old(c).source(), old(c).read_count() as int),
        final(c).source() == old(c).source(),
        final(c).read_count() == old(c).read_count() + 1,
{
    let r = next_xml_step(c);
    c.count = c.count + 1;
    r
}

/// The steps of `bytes` from step `k` on, before the end of the document: the
/// error step ends them too when `stop_on_error`; `None` when neither comes
/// within `fuel` steps.
pub open spec fn xml_steps_from(bytes: Seq<u8>, k: int, fuel: nat, stop_on_error: bool) -> Option<Seq<XmlStepV>>
    decreases fuel,
{
    if fuel == 0 {
        None
    } else {
        let s = xml_step_at(bytes, k);
        if s is Eof {
            Some(Seq::empty())
        } else if s is Error && stop_on_error {
            Some(seq![s])
        } else {
            match xml_steps_from(bytes, k + 1, (fuel - 1) as nat, stop_on_error) {
                Some(rest) => Some(seq![s] + rest),
                None => None,
            }
        }
    }
}

/// The steps of a document (see `xml_steps_from`), within one more step than
/// it has bytes.
pub open spec fn xml_steps_of(bytes: Seq<u8>, stop_on_error: bool) -> Option<Seq<XmlStepV>> {
    xml_steps_from(bytes, 0, (bytes.len() + 1) as nat, stop_on_error)
}

/// The steps as read.
pub open spec fn steps_view(v: Seq<XmlStep>) -> Seq<XmlStepV> {
    v.map_values(|s: XmlStep| s@)
}

/// The steps of a document, read with quick-xml (see `xml_steps_of`).
pub fn read_xml_steps(bytes: &[u8], stop_on_error: bool) -> (r: Result<Vec<XmlStep>, XmlError>)
    requires
        bytes@.len() < usize::MAX,
    ensures
        match r {
            Ok(v) => xml_steps_of(bytes@, stop_on_error) == Some(steps_view(v@)),
            Err(e) => e == XmlError::Unterminated && xml_steps_of(bytes@, stop_on_error) is None,
        },
{
    let mut cursor = open_xml(bytes);
    let limit = bytes.len();
    let mut out: Vec<XmlStep> = Vec::new();
    let mut k: usize = 0;
    assert(steps_view(out@) =~= Seq::<XmlStepV>::empty());
    while k <= limit
        invariant
            limit == bytes@.len(),
            limit < usize::MAX,
            k <= limit + 1,
            cursor.source() == bytes@,
            cursor.read_count() == k,
            xml_steps_of(bytes@, stop_on_error) == match xml_steps_from(bytes@, k as int, (limit + 1 - k) as nat, stop_on_error) {
                Some(rest) => Some(steps_view(out@) + rest),
                None => None::<Seq<XmlStepV>>,
            },
        decreases limit + 1 - k,
    {
        let s = read_step(&mut cursor);
        let ghost sv = s@;
        let ghost before = out@;
        match s {
            XmlStep::Eof => {
                assert(steps_view(out@) + Seq::<XmlStepV>::empty() =~= steps_view(out@));
                return Ok(out);
            },
            XmlStep::Error => {
                if stop_on_error {
                    out.push(XmlStep::Error);
                    assert(steps_view(out@) =~= steps_view(before) + seq![sv]);
                    return Ok(out);
                }
                out.push(XmlStep::Error);
            },
            other => {
                out.push(other);
            },
        }
        proof {
            assert(steps_view(out@) =~= steps_view(before).push(sv));
            match xml_steps_from(bytes@, k + 1, (limit - k) as nat, stop_on_error) {
                Some(rest) => {
                    assert(steps_view(before) + (seq![sv] + rest) =~= steps_view(out@) + rest);
                },
                None => {},
            }
        }
        k = k + 1;
    }
    Err(XmlError::Unterminated)
}

/// Whether the steps end with the document found not well-formed.
pub open spec fn ends_in_error(steps: Seq<XmlStepV>) -> bool {
    steps.len() > 0 && steps.last() is Error
}

/// The texts of the steps, in order.
pub open spec fn step_texts(steps: Seq<XmlStepV>) -> Seq<Seq<char>>
    decreases steps.len(),
{
    if steps.len() == 0 {
        Seq::empty()
    } else {
        let p = step_texts(steps.drop_last());
        match steps.last() {
            XmlStepV::Text(t) => p.push(t),
            _ => p,
        }
    }
}

/// The start and end tags of the steps, in order (empty tags are not among
/// them).
pub open spec fn tag_events(steps: Seq<XmlStepV>) -> Seq<XmlEventV>
    decreases steps.len(),
{
    if steps.len() == 0 {
        Seq::empty()
    } else {
        let p = tag_events(steps.drop_last());
        match steps.last() {
            XmlStepV::Tag { name, attrs, empty: false } => p.push(XmlEventV::Start { name, attrs }),
            XmlStepV::End(name) => p.push(XmlEventV::End { name }),
            _ => p,
        }
    }
}

/// The thresholds of an EUR-Lex directive read from its XML bytes: its text
/// nodes folded as `eurlex_fold` says; `Parse` when the document is not
/// well-formed.
pub fn parse_eurlex_bytes(bytes: &[u8]) -> (r: Result<EurlexParsedData, XmlError>)
    requires
        bytes@.len() < usize::MAX,
    ensures
        match r {
            Ok(d) => xml_steps_of(bytes@, true) matches Some(st) && !ends_in_error(st) && ({
                let v = eurlex_fold(step_texts(st));
                &&& d.raw_text@ == v.raw_text
                &&& d.extra_n_limit == v.extra_n_limit
                &&& d.max_cu == v.max_cu
                &&& d.max_zn == v.max_zn
            }),
            Err(e) => match xml_steps_of(bytes@, true) {
                Some(st) => ends_in_error(st) && e == XmlError::Parse,
                None => e == XmlError::Unterminated,
            },
        },
{
    let steps = match read_xml_steps(bytes, true) {
        Ok(v) => v,
        Err(e) => {
            return Err(e);
        },
    };
    let ghost sv = steps_view(steps@);
    if steps.len() > 0 {
        if let XmlStep::Error = &steps[steps.len() - 1] {
            return Err(XmlError::Parse);
        }
    }
    let mut texts: Vec<String> = Vec::new();
    let mut i: usize = 0;
    assert(texts_of(texts@) =~= step_texts(sv.take(0)));
    while i < steps.len()
        invariant
            i <= steps@.len(),
            sv == steps_view(steps@),
            texts_of(texts@) == step_texts(sv.take(i as int)),
        decreases steps@.len() - i,
    {
        assert(sv.take(i as int + 1).drop_last() =~= sv.take(i as int));
        assert(sv.take(i as int + 1).last() == steps@[i as int]@);
        let ghost before = texts@;
        match &steps[i] {
            XmlStep::Text(t) => {
                texts.push(t.clone());
                assert(texts_of(texts@) =~= texts_of(before).push(t@));
            },
            _ => {},
        }
        i = i + 1;
    }
    assert(sv.take(steps@.len() as int) =~= sv);
    Ok(EurlexParser::parse_texts(&texts))
}

/// The diagram layouts of an `.aird` document read from its bytes: its start
/// and end tags folded as `layout_fold` says, steps where the document is not
/// well-formed being passed over.
pub fn read_aird_bytes(bytes: &[u8]) -> (r: Result<Vec<(String, DiagramLayout)>, XmlError>)
    requires
        bytes@.len() < usize::MAX,
    ensures
        match r {
            Ok(v) => xml_steps_of(bytes@, false) matches Some(st) && layouts_view(v@) == layout_fold(tag_events(st)).layouts,
            Err(e) => e == XmlError::Unterminated && xml_steps_of(bytes@, false) is None,
        },
{
    let steps = match read_xml_steps(bytes, false) {
        Ok(v) => v,
        Err(e) => {
            return Err(e);
        },
    };
    let ghost sv = steps_view(steps@);
    let mut events: Vec<XmlEvent> = Vec::new();
    let mut i: usize = 0;
    assert(events@.map_values(|e: XmlEvent| e@) =~= tag_events(sv.take(0)));
    while i < steps.len()
        invariant
            i <= steps@.len(),
            sv == steps_view(steps@),
            events@.map_values(|e: XmlEvent| e@) == tag_events(sv.take(i as int)),
        decreases steps@.len() - i,
    {
        assert(sv.take(i as int + 1).drop_last() =~= sv.take(i as int));
        assert(sv.take(i as int + 1).last() == steps@[i as int]@);
        let ghost before = events@;
        match &steps[i] {
            XmlStep::Tag { name, attrs, empty: false } => {
                events.push(XmlEvent::Start { name: name.clone(), attrs: copy_attrs(attrs) });
                assert(events@.map_values(|e: XmlEvent| e@) =~= before.map_values(|e: XmlEvent| e@).push(XmlEventV::Start { name: name@, attrs: attrs_view(attrs@) }));
            },
            XmlStep::End(name) => {
                events.push(XmlEvent::End { name: name.clone() });
                assert(events@.map_values(|e: XmlEvent| e@) =~= before.map_values(|e: XmlEvent| e@).push(XmlEventV::End { name: name@ }));
            },
            _ => {},
        }
        i = i + 1;
    }
    assert(sv.take(steps@.len() as int) =~= sv);
    Ok(AirdParser::extract_layout(&events))
}

/// Copies of attribute pairs.
fn copy_attrs(a: &Vec<(String, String)>) -> (r: Vec<(String, String)>)
    ensures
        attrs_view(r@) == attrs_view(a@),
{
    let mut out: Vec<(String, String)> = Vec::new();
    let mut i: usize = 0;
    while i < a.len()
        invariant
            i <= a@.len(),
            out@.len() == i,
            forall|k: int| 0 <= k < i ==> (#[trigger] out@[k]).0@ == a@[k].0@ && out@[k].1@ == a@[k].1@,
        decreases a@.len() - i,
    {
        out.push((a[i].0.clone(), a[i].1.clone()));
        i = i + 1;
    }
    assert(attrs_view(out@) =~= attrs_view(a@));
    out
}

/// The handle, name, types and properties of an element.
pub open spec fn element_row(e: ArcadiaElement) -> (Seq<char>, Seq<char>, Seq<Seq<char>>, JsonView) {
    (e.handle@, e.name@, kinds_text(e), e.props())
}

/// The rows of the elements.
pub open spec fn rows_of(els: Seq<ArcadiaElement>) -> Seq<(Seq<char>, Seq<char>, Seq<Seq<char>>, JsonView)> {
    els.map_values(|e: ArcadiaElement| element_row(e))
}

/// The row of the element that an XMI tag with attributes `av` declares, with
/// the collection it goes to; none when it lacks an `id` or an `xsi:type`.
pub open spec fn xmi_row(av: Seq<(Seq<char>, Seq<char>)>, dc: Map<Seq<char>, Seq<char>>) -> Option<
    (Seq<char>, Seq<char>, (Seq<char>, Seq<char>, Seq<Seq<char>>, JsonView)),
> {
    let id = xmi_field(av, "id"@);
    let name = xmi_field(av, "name"@);
    let t = xmi_field(av, "xsi:type"@);
    if id.len() > 0 && t.len() > 0 {
        Some((xmi_route(t).0, xmi_route(t).1, (
            id,
            if name.len() == 0 { "Unnamed"@ } else { name },
            routed_kinds(dc, t, seq![t]),
            JsonView::Object(xmi_extra(av)),
        )))
    } else {
        None
    }
}

/// The attributes of a start or empty tag.
pub open spec fn tag_attrs(s: XmlStepV) -> Option<Seq<(Seq<char>, Seq<char>)>> {
    match s {
        XmlStepV::Tag { attrs, .. } => Some(attrs),
        _ => None,
    }
}

/// The rows of the elements that the tags of the steps put in collection `c`
/// of layer `l`, in order, types resolved through the prefix context `dc`.
pub open spec fn xmi_rows(steps: Seq<XmlStepV>, dc: Map<Seq<char>, Seq<char>>, l: Seq<char>, c: Seq<char>) -> Seq<
    (Seq<char>, Seq<char>, Seq<Seq<char>>, JsonView),
>
    decreases steps.len(),
{
    if steps.len() == 0 {
        Seq::empty()
    } else {
        let p = xmi_rows(steps.drop_last(), dc, l, c);
        match tag_attrs(steps.last()) {
            Some(av) => match xmi_row(av, dc) {
                Some(x) => if x.0 == l && x.1 == c {
                    p.push(x.2)
                } else {
                    p
                },
                None => p,
            },
            None => p,
        }
    }
}

/// Adds the element of an XMI tag, when it declares one, to the model.
fn add_xmi_tag(model: &mut ProjectModel, attrs: &Vec<(String, String)>, reg: &VocabularyRegistry)
    ensures
        forall|l: Seq<char>, c: Seq<char>| #[trigger] rows_of(collection_of(final(model).layers@, l, c)) == match xmi_row(
            attrs_view(attrs@),
            reg.current()@.default_context,
        ) {
            Some(x) => if x.0 == l && x.1 == c {
                rows_of(collection_of(old(model).layers@, l, c)).push(x.2)
            } else {
                rows_of(collection_of(old(model).layers@, l, c))
            },
            None => rows_of(collection_of(old(model).layers@, l, c)),
        },
{
    match CapellaXmiParser::element_from_attributes(attrs) {
        Some((element, t)) => {
            let ghost el = element;
            CapellaXmiParser::dispatch(model, element, t.as_str(), reg);
            proof {
                let route = xmi_route(t@);
                let before = collection_of(old(model).layers@, route.0, route.1);
                let after = collection_of(model.layers@, route.0, route.1);
                assert(rows_of(after) =~= rows_of(before).push(element_row(after.last())));
            }
        },
        None => {},
    }
}

/// A Capella model read from the XMI bytes of the file at `path`: every tag
/// with an `id` and an `xsi:type` adds its element to the collection that the
/// type routes it to (see `xmi_rows`), and the model gets its metadata (see
/// `CapellaReader::read_model`); `Parse` when the document is not well-formed.
pub fn read_capella_bytes(bytes: &[u8], path: &str, reg: &VocabularyRegistry) -> (r: Result<ProjectModel, XmlError>)
    requires
        bytes@.len() < usize::MAX,
    ensures
        match r {
            Ok(m) => xml_steps_of(bytes@, true) matches Some(st) && !ends_in_error(st)
                && (forall|l: Seq<char>, c: Seq<char>| #[trigger] rows_of(collection_of(m.layers@, l, c))
                    == xmi_rows(st, reg.current()@.default_context, l, c))
                && m.meta.name@ == match file_name_spec(path@) {
                    Some(n) => n,
                    None => "unknown.capella"@,
                }
                && m.meta.element_count == flatten_layers(m.layers@).len(),
            Err(e) => match xml_steps_of(bytes@, true) {
                Some(st) => ends_in_error(st) && e == XmlError::Parse,
                None => e == XmlError::Unterminated,
            },
        },
{
    let steps = match read_xml_steps(bytes, true) {
        Ok(v) => v,
        Err(e) => {
            return Err(e);
        },
    };
    let ghost sv = steps_view(steps@);
    let ghost dc = reg.current()@.default_context;
    if steps.len() > 0 {
        if let XmlStep::Error = &steps[steps.len() - 1] {
            return Err(XmlError::Parse);
        }
    }
    let mut model = ProjectModel::new();
    proof {
        assert forall|l: Seq<char>, c: Seq<char>| #[trigger] rows_of(collection_of(model.layers@, l, c))
            == xmi_rows(sv.take(0), dc, l, c) by {
            assert(sv.take(0).len() == 0);
            assert(rows_of(collection_of(model.layers@, l, c)) =~= Seq::empty());
        }
    }
    let mut i: usize = 0;
    while i < steps.len()
        invariant
            i <= steps@.len(),
            sv == steps_view(steps@),
            dc == reg.current()@.default_context,
            forall|l: Seq<char>, c: Seq<char>| #[trigger] rows_of(collection_of(model.layers@, l, c))
                == xmi_rows(sv.take(i as int), dc, l, c),
        decreases steps@.len() - i,
    {
        assert(sv.take(i as int + 1).drop_last() =~= sv.take(i as int));
        assert(sv.take(i as int + 1).last() == steps@[i as int]@);
        match &steps[i] {
            XmlStep::Tag { attrs, .. } => add_xmi_tag(&mut model, attrs, reg),
            _ => {},
        }
        i = i + 1;
    }
    assert(sv.take(steps@.len() as int) =~= sv);
    Ok(CapellaReader::read_model(model, path))
}

} // verus!
