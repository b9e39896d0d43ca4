//! Model transformers: a configurable projection of elements and their related
//! elements into domain documents, and the translation of a parsed EUR-Lex
//! directive into Arcadia requirements and constraints.
use vstd::prelude::*;
use crate::json::{
    JsonValue, JsonView, entries_get, jview, jview_entries, jview_items, key_pos,
    lemma_jview_entries, lemma_jview_items, member_items, member_str, vget,
};
use crate::model::{
    ArcadiaElement, I18nString, ProjectModel, SlugString, collection_of, handle_pos, kinds_text,
    strings_json, text_array, texts,
};
use crate::arcadia::ArcadiaOntology;
use crate::rules::{lower_text, to_lower, to_upper, upper_text};
use crate::text::{concat2, concat3, contains, has_infix, owned, replace_all, replace_spec, str_eq};
use crate::vocabulary::VocabularyRegistry;

verus! {

/// What a transformer projects: the domain name, the property holding the
/// relations, and the layer and collection where related elements are found.
pub struct TransformerConfig {
    pub domain: String,
    pub relation_key: String,
    pub target_layer: String,
    pub target_col: String,
}

/// Why a transformation failed.
#[derive(Clone, Debug)]
pub enum TransformError {
    /// The input lacks data the transformation needs.
    MissingData(String),
}

/// A transformer of elements into domain documents.
pub trait ModelTransformer {
    /// The document of a raw element.
    fn transform(&self, element: &JsonValue) -> Result<JsonValue, TransformError>;

    /// The document of an element of a model, with its related elements.
    fn transform_with_context(&self, element: &ArcadiaElement, model: &ProjectModel) -> Result<
        JsonValue,
        TransformError,
    >;
}

/// Decimal digits only.
pub open spec fn all_digits(s: Seq<char>) -> bool {
    forall|i: int| 0 <= i < s.len() ==> '0' <= #[trigger] s[i] && s[i] <= '9'
}

/// Two decimal digits.
pub open spec fn two_digits(s: Seq<char>) -> bool {
    s.len() == 2 && all_digits(s)
}

/// A year as RFC 3339 text holds it: four digits, or a sign and at least
/// four digits for a year out of `0..=9999`.
pub open spec fn year_text(y: Seq<char>) -> bool {
    ||| y.len() == 4 && all_digits(y)
    ||| y.len() >= 5 && (y[0] == '+' || y[0] == '-') && all_digits(y.subrange(1, y.len() as int))
}

/// Fractional seconds: none, or a point and three, six or nine digits.
pub open spec fn fraction_text(f: Seq<char>) -> bool {
    ||| f.len() == 0
    ||| f.len() > 0 && f[0] == '.' && (f.len() == 4 || f.len() == 7 || f.len() == 10) && all_digits(
        f.subrange(1, f.len() as int),
    )
}

/// An RFC 3339 timestamp in UTC: a year, `-`, month, `-`, day, `T`, hours,
/// `:`, minutes, `:`, seconds, the fraction of a second if any, and `+00:00`.
pub open spec fn rfc3339_utc_text(t: Seq<char>) -> bool {
    exists|y: Seq<char>, f: Seq<char>|
        #![trigger year_text(y), fraction_text(f)]
        year_text(y) && fraction_text(f) && t.len() == y.len() + f.len() + 21 && {
            let b = y.len() as int;
            let e = b + 15 + f.len();
            &&& t.subrange(0, b) == y
            &&& t[b] == '-' && two_digits(t.subrange(b + 1, b + 3))
            &&& t[b + 3] == '-' && two_digits(t.subrange(b + 4, b + 6))
            &&& t[b + 6] == 'T' && two_digits(t.subrange(b + 7, b + 9))
            &&& t[b + 9] == ':' && two_digits(t.subrange(b + 10, b + 12))
            &&& t[b + 12] == ':' && two_digits(t.subrange(b + 13, b + 15))
            &&& t.subrange(b + 15, e) == f
            &&& t.subrange(e, e + 6) == seq!['+', '0', '0', ':', '0', '0']
        }
}

/// Calls `chrono::Utc::now` and formats the instant with `to_rfc3339`, which
/// writes the UTC offset as `+00:00` and the fraction of a second, when there
/// is one, with three, six or nine digits. The shape of the text is claimed;
/// which instant it names is the current time.
#[verifier::external_body]
pub(crate) fn now_rfc3339() -> (r: String)
    ensures
        rfc3339_utc_text(r@),
{
    chrono::Utc::now().to_rfc3339()
}

/// The related element documents: for each relation item with a string `id`,
/// in order, the first target with that handle, as `{name, kind, id}`.
pub open spec fn related_docs(links: Seq<JsonView>, targets: Seq<ArcadiaElement>) -> Seq<JsonView>
    decreases links.len(),
{
    if links.len() == 0 {
        Seq::empty()
    } else {
        let prev = related_docs(links.drop_last(), targets);
        match member_str(links.last(), "id"@) {
            Some(id) => {
                let p = handle_pos(targets, id);
                if 0 <= p < targets.len() {
                    prev.push(
                        JsonView::Object(
                            seq![
                                ("name"@, JsonView::Str(targets[p].name@)),
                                ("kind"@, text_array(kinds_text(targets[p]))),
                                ("id"@, JsonView::Str(targets[p].handle@)),
                            ],
                        ),
                    )
                } else {
                    prev
                }
            },
            None => prev,
        }
    }
}

/// The relation items of an element: its `relation_key` property when it is an
/// array.
pub open spec fn relation_items(el: ArcadiaElement, key: Seq<char>) -> Seq<JsonView> {
    match member_items(el.props(), key) {
        Some(items) => items,
        None => Seq::empty(),
    }
}

/// A transformer driven by a configuration.
pub struct UniversalTransformer {
    config: TransformerConfig,
}

impl UniversalTransformer {
    /// The domain name.
    pub closed spec fn domain(&self) -> Seq<char> {
        self.config.domain@
    }

    /// The property holding the relations.
    pub closed spec fn relation_key(&self) -> Seq<char> {
        self.config.relation_key@
    }

    /// The layer of related elements.
    pub closed spec fn target_layer(&self) -> Seq<char> {
        self.config.target_layer@
    }

    /// The collection of related elements.
    pub closed spec fn target_col(&self) -> Seq<char> {
        self.config.target_col@
    }

    pub fn new(config: TransformerConfig) -> (r: UniversalTransformer)
        ensures
            r.domain() == config.domain@,
            r.relation_key() == config.relation_key@,
            r.target_layer() == config.target_layer@,
            r.target_col() == config.target_col@,
    {
        UniversalTransformer { config }
    }

    /// The document of `element` in the model, stamped with the instant `now`:
    /// `{domain, entity: {name, kind, relations}, generated_at}`.
    pub fn transform_with_context_at(
        &self,
        element: &ArcadiaElement,
        model: &ProjectModel,
        now: String,
    ) -> (r: JsonValue)
        ensures
            r@ == JsonView::Object(
                seq![
                    ("domain"@, JsonView::Str(self.domain())),
                    (
                        "entity"@,
                        JsonView::Object(
                            seq![
                                ("name"@, JsonView::Str(element.name@)),
                                ("kind"@, text_array(kinds_text(*element))),
                                (
                                    "relations"@,
                                    JsonView::Array(
                                        related_docs(
                                            relation_items(*element, self.relation_key()),
                                            collection_of(
                                                model.layers@,
                                                self.target_layer(),
                                                self.target_col(),
                                            ),
                                        ),
                                    ),
                                ),
                            ],
                        ),
                    ),
                    ("generated_at"@, JsonView::Str(now@)),
                ],
            ),
    {
        let targets = model.get_collection(self.config.target_layer.as_str(), self.config.target_col.as_str());
        let ghost tv = targets@;
        let mut related: Vec<JsonValue> = Vec::new();
        let empty: Vec<JsonValue> = Vec::new();
        let links: &Vec<JsonValue> = match element.property(self.config.relation_key.as_str()) {
            Some(v) => match v.as_array() {
                Some(a) => a,
                None => &empty,
            },
            None => &empty,
        };
        proof {
            lemma_jview_items(links@);
            lemma_jview_items(empty@);
            assert(jview_items(empty@) =~= Seq::<JsonView>::empty());
        }
        let ghost lv = jview_items(links@);
        assert(lv == relation_items(*element, self.relation_key()));
        assert(lv.take(0) =~= Seq::<JsonView>::empty());
        proof {
            lemma_jview_items(related@);
        }
        let mut i: usize = 0;
        while i < links.len()
            invariant
                i <= links@.len(),
                lv == jview_items(links@),
                lv.len() == links@.len(),
                forall|j: int| 0 <= j < links@.len() ==> #[trigger] lv[j] == links@[j]@,
                tv == targets@,
                jview_items(related@) == related_docs(lv.take(i as int), tv),
            decreases links@.len() - i,
        {
            assert(lv.take(i as int + 1).drop_last() =~= lv.take(i as int));
            assert(lv.take(i as int + 1).last() == links@[i as int]@);
            match links[i].get("id") {
                Some(idv) => match idv.as_str() {
                    Some(id) => {
                        match find_handle(targets, id) {
                            Some(p) => {
                                let found = &targets[p];
                                let mut es: Vec<(String, JsonValue)> = Vec::new();
                                es.push((owned("name"), JsonValue::String(owned(found.name.as_str()))));
                                es.push((owned("kind"), strings_json(&found.kind)));
                                es.push((owned("id"), JsonValue::String(owned(found.handle.as_str()))));
                                proof {
                                    lemma_jview_entries(es@);
                                    assert(jview_entries(es@) =~= seq![
                                        ("name"@, JsonView::Str(tv[p as int].name@)),
                                        ("kind"@, text_array(kinds_text(tv[p as int]))),
                                        ("id"@, JsonView::Str(tv[p as int].handle@)),
                                    ]);
                                }
                                let ghost before = jview_items(related@);
                                let ghost r0 = related@;
                                related.push(JsonValue::Object(es));
                                proof {
                                    lemma_jview_items(r0);
                                    lemma_jview_items(related@);
                                    assert(jview_items(related@) =~= before.push(related@[related@.len() - 1]@));
                                }
                            },
                            None => {},
                        }
                    },
                    None => {},
                },
                None => {},
            }
            i = i + 1;
        }
        assert(lv.take(links@.len() as int) =~= lv);
        let ghost rel_v = jview_items(related@);
        assert(rel_v == related_docs(
            relation_items(*element, self.relation_key()),
            collection_of(model.layers@, self.target_layer(), self.target_col()),
        ));
        let mut entity: Vec<(String, JsonValue)> = Vec::new();
        entity.push((owned("name"), JsonValue::String(owned(element.name.as_str()))));
        entity.push((owned("kind"), strings_json(&element.kind)));
        entity.push((owned("relations"), JsonValue::Array(related)));
        let mut doc: Vec<(String, JsonValue)> = Vec::new();
        doc.push((owned("domain"), JsonValue::String(self.config.domain.clone())));
        doc.push((owned("entity"), JsonValue::Object(entity)));
        doc.push((owned("generated_at"), JsonValue::String(now)));
        proof {
            lemma_jview_entries(entity@);
            lemma_jview_entries(doc@);
            assert(entity@[2].1@ == JsonView::Array(rel_v));
            assert(jview_entries(entity@) =~= seq![
                ("name"@, JsonView::Str(element.name@)),
                ("kind"@, text_array(kinds_text(*element))),
                ("relations"@, JsonView::Array(rel_v)),
            ]);
            assert(jview_entries(doc@) =~= seq![
                ("domain"@, JsonView::Str(self.domain())),
                ("entity"@, doc@[1].1@),
                ("generated_at"@, doc@[2].1@),
            ]);
        }
        JsonValue::Object(doc)
    }
}

/// The position of the first element with handle `h`.
fn find_handle(s: &[ArcadiaElement], h: &str) -> (r: Option<usize>)
    ensures
        match r {
            Some(p) => p < s@.len() && p as int == handle_pos(s@, h@),
            None => handle_pos(s@, h@) == -1,
        },
{
    let mut i: usize = 0;
    while i < s.len()
        invariant
            i <= s@.len(),
            forall|j: int| 0 <= j < i ==> s@[j].handle@ != h@,
        decreases s@.len() - i,
    {
        if str_eq(s[i].handle.as_str(), h) {
            proof {
                crate::model::lemma_handle_pos_is(s@, h@, i as int);
            }
            return Some(i);
        }
        i = i + 1;
    }
    proof {
        crate::model::lemma_handle_pos_is(s@, h@, -1);
    }
    None
}

impl ModelTransformer for UniversalTransformer {
    fn transform(&self, element: &JsonValue) -> (r: Result<JsonValue, TransformError>)
        ensures
            r matches Ok(d) && d@ == JsonView::Object(
                seq![("domain"@, JsonView::Str(self.domain())), ("entity"@, element@)],
            ),
    {
        let mut doc: Vec<(String, JsonValue)> = Vec::new();
        doc.push((owned("domain"), JsonValue::String(self.config.domain.clone())));
        doc.push((owned("entity"), element.duplicate()));
        proof {
            lemma_jview_entries(doc@);
            assert(jview_entries(doc@) =~= seq![
                ("domain"@, JsonView::Str(self.domain())),
                ("entity"@, element@),
            ]);
        }
        Ok(JsonValue::Object(doc))
    }

    /// The document of the element, stamped with the current time (see
    /// `transform_with_context_at`); the stamp is whatever the clock gave.
    fn transform_with_context(&self, element: &ArcadiaElement, model: &ProjectModel) -> (r: Result<
        JsonValue,
        TransformError,
    >)
        ensures
            r matches Ok(d) && exists|now: Seq<char>|
                rfc3339_utc_text(now) && d@ == JsonView::Object(
                    seq![
                        ("domain"@, JsonView::Str(self.domain())),
                        (
                            "entity"@,
                            JsonView::Object(
                                seq![
                                    ("name"@, JsonView::Str(element.name@)),
                                    ("kind"@, text_array(kinds_text(*element))),
                                    (
                                        "relations"@,
                                        JsonView::Array(
                                            related_docs(
                                                relation_items(*element, self.relation_key()),
                                                collection_of(
                                                    model.layers@,
                                                    self.target_layer(),
                                                    self.target_col(),
                                                ),
                                            ),
                                        ),
                                    ),
                                ],
                            ),
                        ),
                        ("generated_at"@, JsonView::Str(now)),
                    ],
                ),
    {
        let now = now_rfc3339();
        let ghost stamp = now@;
        let d = self.transform_with_context_at(element, model, now);
        Ok(d)
    }
}

/// The domains a transformer can be built for.
#[derive(PartialEq, Eq, Structural, Clone, Copy, Debug)]
pub enum TransformationDomain {
    Software,
    Hardware,
    System,
}

/// The configuration of each domain: (domain, relation key, layer, collection).
pub open spec fn domain_config(d: TransformationDomain) -> (Seq<char>, Seq<char>, Seq<char>, Seq<char>) {
    match d {
        TransformationDomain::Software => ("software"@, "ownedFunctionalAllocation"@, "la"@, "functions"@),
        TransformationDomain::Hardware => ("hardware"@, "ownedPhysicalPorts"@, "pa"@, "links"@),
        TransformationDomain::System => ("system"@, "parts"@, "oa"@, "entities"@),
    }
}

/// The transformer of a domain (see `domain_config`).
pub fn get_transformer(domain: TransformationDomain) -> (r: UniversalTransformer)
    ensures
        (r.domain(), r.relation_key(), r.target_layer(), r.target_col()) == domain_config(domain),
{
    let config = match domain {
        TransformationDomain::Software => TransformerConfig {
            domain: owned("software"),
            relation_key: owned("ownedFunctionalAllocation"),
            target_layer: owned("la"),
            target_col: owned("functions"),
        },
        TransformationDomain::Hardware => TransformerConfig {
            domain: owned("hardware"),
            relation_key: owned("ownedPhysicalPorts"),
            target_layer: owned("pa"),
            target_col: owned("links"),
        },
        TransformationDomain::System => TransformerConfig {
            domain: owned("system"),
            relation_key: owned("parts"),
            target_layer: owned("oa"),
            target_col: owned("entities"),
        },
    };
    UniversalTransformer::new(config)
}

/// The domain named by a lower-case target: code targets are software,
/// circuit targets hardware, overview targets the system.
pub open spec fn domain_of_name(t: Seq<char>) -> Option<TransformationDomain> {
    if t == "software"@ || t == "code"@ || t == "rust"@ || t == "cpp"@ {
        Some(TransformationDomain::Software)
    } else if t == "hardware"@ || t == "vhdl"@ || t == "fpga"@ || t == "verilog"@ {
        Some(TransformationDomain::Hardware)
    } else if t == "system"@ || t == "overview"@ || t == "doc"@ || t == "architecture"@ {
        Some(TransformationDomain::System)
    } else {
        None
    }
}

/// The domain that a code-generation target names, whatever its case (see
/// `domain_of_name`); `None` for a target that no domain supports.
pub fn parse_target_domain(target_domain_str: &str) -> (r: Option<TransformationDomain>)
    ensures
        r == domain_of_name(lower_text(target_domain_str@)),
{
    let t = to_lower(target_domain_str);
    let ts = t.as_str();
    if str_eq(ts, "software") || str_eq(ts, "code") || str_eq(ts, "rust") || str_eq(ts, "cpp") {
        Some(TransformationDomain::Software)
    } else if str_eq(ts, "hardware") || str_eq(ts, "vhdl") || str_eq(ts, "fpga") || str_eq(ts, "verilog") {
        Some(TransformationDomain::Hardware)
    } else if str_eq(ts, "system") || str_eq(ts, "overview") || str_eq(ts, "doc") || str_eq(ts, "architecture") {
        Some(TransformationDomain::System)
    } else {
        None
    }
}

// ---------------------------------------------------------------------------
// EUR-Lex
// ---------------------------------------------------------------------------

/// What is read from an EUR-Lex directive: its relevant text and its thresholds.
#[derive(Debug, Clone, PartialEq, Eq)]
pub struct EurlexParsedData {
    pub raw_text: String,
    pub extra_n_limit: Option<u32>,
    pub max_cu: Option<u32>,
    pub max_zn: Option<u32>,
}

/// The content of parsed directive data.
pub struct EurlexV {
    pub raw_text: Seq<char>,
    pub extra_n_limit: Option<u32>,
    pub max_cu: Option<u32>,
    pub max_zn: Option<u32>,
    pub inside: bool,
}

/// Reading one text node of the directive: a node mentioning RENURE or
/// fertilising materials opens the relevant section and is kept (with a space);
/// inside the section, the thresholds are recognised by their wording.
pub open spec fn eurlex_step(acc: EurlexV, text: Seq<char>) -> EurlexV {
    let opens = has_infix(text, "RENURE"@) || has_infix(text, "matières fertilisantes"@);
    let inside = acc.inside || opens;
    let raw = if opens {
        acc.raw_text + text + " "@
    } else {
        acc.raw_text
    };
    let n = if inside && (has_infix(text, "établie à 80 kg"@) || has_infix(text, "établie à 80 kilogrammes"@)) {
        Some(80u32)
    } else {
        acc.extra_n_limit
    };
    let cu = if inside && has_infix(text, "cuivre (Cu):"@) && has_infix(text, "300"@) {
        Some(300u32)
    } else {
        acc.max_cu
    };
    let zn = if inside && has_infix(text, "zinc (Zn):"@) && has_infix(text, "800"@) {
        Some(800u32)
    } else {
        acc.max_zn
    };
    EurlexV { raw_text: raw, extra_n_limit: n, max_cu: cu, max_zn: zn, inside }
}

/// Reading the text nodes in order, from nothing.
pub open spec fn eurlex_fold(texts: Seq<Seq<char>>) -> EurlexV
    decreases texts.len(),
{
    if texts.len() == 0 {
        EurlexV { raw_text: Seq::empty(), extra_n_limit: None, max_cu: None, max_zn: None, inside: false }
    } else {
        eurlex_step(eurlex_fold(texts.drop_last()), texts.last())
    }
}

/// The reader of EUR-Lex directives.
pub struct EurlexParser;

impl EurlexParser {
    /// The data of a directive, from its text nodes in document order (see
    /// `eurlex_fold`).
    pub fn parse_texts(text_nodes: &Vec<String>) -> (r: EurlexParsedData)
        ensures
            ({
                let v = eurlex_fold(texts(text_nodes@));
                &&& r.raw_text@ == v.raw_text
                &&& r.extra_n_limit == v.extra_n_limit
                &&& r.max_cu == v.max_cu
                &&& r.max_zn == v.max_zn
            }),
    {
        let ghost ts = texts(text_nodes@);
        let mut raw = String::new();
        let mut n: Option<u32> = None;
        let mut cu: Option<u32> = None;
        let mut zn: Option<u32> = None;
        let mut inside = false;
        let mut i: usize = 0;
        assert(ts.take(0) =~= Seq::<Seq<char>>::empty());
        while i < text_nodes.len()
            invariant
                i <= text_nodes@.len(),
                ts == texts(text_nodes@),
                ({
                    let v = eurlex_fold(ts.take(i as int));
                    raw@ == v.raw_text && n == v.extra_n_limit && cu == v.max_cu && zn == v.max_zn
                        && inside == v.inside
                }),
            decreases text_nodes@.len() - i,
        {
            assert(ts.take(i as int + 1).drop_last() =~= ts.take(i as int));
            assert(ts.take(i as int + 1).last() == text_nodes@[i as int]@);
            let text = text_nodes[i].as_str();
            let opens = contains(text, "RENURE") || contains(text, "matières fertilisantes");
            if opens {
                inside = true;
                let with_text = crate::text::concat2(raw.as_str(), text);
                raw = crate::text::concat2(with_text.as_str(), " ");
            }
            if inside {
                if contains(text, "établie à 80 kg") || contains(text, "établie à 80 kilogrammes") {
                    n = Some(80);
                }
                if contains(text, "cuivre (Cu):") && contains(text, "300") {
                    cu = Some(300);
                }
                if contains(text, "zinc (Zn):") && contains(text, "800") {
                    zn = Some(800);
                }
            }
            i = i + 1;
        }
        assert(ts.take(text_nodes@.len() as int) =~= ts);
        EurlexParsedData { raw_text: raw, extra_n_limit: n, max_cu: cu, max_zn: zn }
    }
}

/// The translation of directives into Arcadia models.
pub struct EurlexToModelTransformer;

impl EurlexToModelTransformer {
    /// The model of a directive: a transverse requirement holding its text, and
    /// a transverse constraint holding its thresholds (the nitrogen limit is the
    /// regulatory base of 170 plus the extra limit, when there is one).
    pub fn transform_to_model(parsed_data: &EurlexParsedData) -> (r: Result<ProjectModel, TransformError>)
        ensures
            r matches Ok(m) && ({
                let reqs = collection_of(m.layers@, "transverse"@, "requirements"@);
                let cons = collection_of(m.layers@, "transverse"@, "constraints"@);
                &&& reqs.len() == 1
                &&& reqs[0].handle@ == "REQ_DIR_2026_288_RENURE"@
                &&& reqs[0].name@ == "Dérogation Fertilisants RENURE"@
                &&& kinds_text(reqs[0]) == seq!["https://raise.io/transverse#Requirement"@]
                &&& reqs[0].props() == JsonView::Object(
                    seq![
                        ("description"@, JsonView::Str(parsed_data.raw_text@)),
                        ("source"@, JsonView::Str("Directive 2026/288/RENURE"@)),
                        ("priority"@, JsonView::Str("Mandatory"@)),
                    ],
                )
                &&& cons.len() == 1
                &&& cons[0].handle@ == "CSTR_RENURE_LIMITS"@
                &&& cons[0].name@ == "Seuils de Tolérance RENURE"@
                &&& kinds_text(cons[0]) == seq!["https://raise.io/transverse#Constraint"@]
                &&& cons[0].props() == JsonView::Object(constraint_entries(*parsed_data))
            }),
    {
        let mut model = ProjectModel::new();
        let mut req_props: Vec<(String, JsonValue)> = Vec::new();
        req_props.push((owned("description"), JsonValue::String(parsed_data.raw_text.clone())));
        req_props.push((owned("source"), JsonValue::String(owned("Directive 2026/288/RENURE"))));
        req_props.push((owned("priority"), JsonValue::String(owned("Mandatory"))));
        let mut req_kind: Vec<String> = Vec::new();
        req_kind.push(owned("https://raise.io/transverse#Requirement"));
        let mut requirement = ArcadiaElement::with(
            SlugString::from_text("REQ_DIR_2026_288_RENURE"),
            I18nString::Single(owned("Dérogation Fertilisants RENURE")),
            req_kind,
        );
        requirement.properties = req_props;
        proof {
            lemma_jview_entries(requirement.properties@);
            assert(jview_entries(requirement.properties@) =~= seq![
                ("description"@, JsonView::Str(parsed_data.raw_text@)),
                ("source"@, JsonView::Str("Directive 2026/288/RENURE"@)),
                ("priority"@, JsonView::Str("Mandatory"@)),
            ]);
            assert(texts(requirement.kind@) =~= seq!["https://raise.io/transverse#Requirement"@]);
        }
        let ghost req_v = requirement;
        model.add_element("transverse", "requirements", requirement);
        let extra: u32 = match parsed_data.extra_n_limit {
            Some(v) => v,
            None => 0,
        };
        let total: i64 = 170 + extra as i64;
        let mut c_props: Vec<(String, JsonValue)> = Vec::new();
        c_props.push((owned("max_n_limit"), JsonValue::Number(total)));
        match parsed_data.max_cu {
            Some(cu) => c_props.push((owned("max_cu_mg_kg"), JsonValue::Number(cu as i64))),
            None => {},
        }
        match parsed_data.max_zn {
            Some(zn) => c_props.push((owned("max_zn_mg_kg"), JsonValue::Number(zn as i64))),
            None => {},
        }
        let mut c_kind: Vec<String> = Vec::new();
        c_kind.push(owned("https://raise.io/transverse#Constraint"));
        let mut constraint = ArcadiaElement::with(
            SlugString::from_text("CSTR_RENURE_LIMITS"),
            I18nString::Single(owned("Seuils de Tolérance RENURE")),
            c_kind,
        );
        constraint.properties = c_props;
        proof {
            lemma_jview_entries(constraint.properties@);
            assert(jview_entries(constraint.properties@) =~= constraint_entries(*parsed_data));
            assert(texts(constraint.kind@) =~= seq!["https://raise.io/transverse#Constraint"@]);
        }
        let ghost m1 = model.layers@;
        model.add_element("transverse", "constraints", constraint);
        proof {
            assert(collection_of(m1, "transverse"@, "constraints"@).len() == 0) by {
                reveal_strlit("requirements");
                reveal_strlit("constraints");
                assert("requirements"@[0] != "constraints"@[0]);
            }
        }
        Ok(model)
    }
}

/// The entries of the constraint: the nitrogen limit, then the copper and zinc
/// thresholds that are present.
pub open spec fn constraint_entries(d: EurlexParsedData) -> Seq<(Seq<char>, JsonView)> {
    let n = match d.extra_n_limit {
        Some(v) => v as int,
        None => 0,
    };
    let a = seq![("max_n_limit"@, JsonView::Number(170 + n))];
    let b = match d.max_cu {
        Some(cu) => a.push(("max_cu_mg_kg"@, JsonView::Number(cu as int))),
        None => a,
    };
    match d.max_zn {
        Some(zn) => b.push(("max_zn_mg_kg"@, JsonView::Number(zn as int))),
        None => b,
    }
}


// ---------------------------------------------------------------------------
// Elements from dialogue intents
// ---------------------------------------------------------------------------

/// The text under `k`, or `d` when it is missing or not a string.
pub open spec fn text_or(j: JsonView, k: Seq<char>, d: Seq<char>) -> Seq<char> {
    match vget(j, k) {
        Some(JsonView::Str(s)) => s,
        _ => d,
    }
}

/// The type an intent names: its `type`, else its `element_type`, else `Unknown`.
pub open spec fn intent_type(intent: JsonView) -> Seq<char> {
    match vget(intent, "type"@) {
        Some(JsonView::Str(s)) => s,
        Some(_) => "Unknown"@,
        None => text_or(intent, "element_type"@, "Unknown"@),
    }
}

/// The object under `k`, when there is one.
pub open spec fn object_at(j: JsonView, k: Seq<char>) -> Option<JsonView> {
    match vget(j, k) {
        Some(JsonView::Object(es)) => Some(JsonView::Object(es)),
        _ => None,
    }
}

/// The class URI that the dialogue mappings give for a type in a layer:
/// `dialogue_mappings.<layer>.prefix` and `dialogue_mappings.<layer>.<type>`,
/// resolved through the prefix context.
pub open spec fn mapped_uri(dc: Map<Seq<char>, Seq<char>>, mapping: JsonView, layer: Seq<char>, ty: Seq<char>) -> Option<Seq<char>> {
    match object_at(mapping, "dialogue_mappings"@) {
        Some(dm) => match object_at(dm, layer) {
            Some(lm) => match (vget(lm, "prefix"@), vget(lm, ty)) {
                (Some(JsonView::Str(prefix)), Some(JsonView::Str(class))) => if dc.contains_key(prefix) {
                    Some(dc[prefix] + class)
                } else {
                    None
                },
                _ => None,
            },
            None => None,
        },
        None => None,
    }
}

/// The layer prefix of an upper-cased layer name; `sa` by default.
pub open spec fn layer_prefix(upper: Seq<char>) -> Seq<char> {
    if upper == "OA"@ {
        "oa"@
    } else if upper == "SA"@ {
        "sa"@
    } else if upper == "LA"@ {
        "la"@
    } else if upper == "PA"@ {
        "pa"@
    } else if upper == "TRANSVERSE"@ {
        "transverse"@
    } else {
        "sa"@
    }
}

/// The class URI of an intent: the mapped one, else the class in the layer's
/// prefix context, else the standard RAISE URI of the layer.
pub open spec fn intent_uri(dc: Map<Seq<char>, Seq<char>>, mapping: JsonView, intent: JsonView) -> Seq<char> {
    let layer = text_or(intent, "layer"@, "Unknown"@);
    let ty = intent_type(intent);
    match mapped_uri(dc, mapping, layer, ty) {
        Some(u) => u,
        None => {
            let prefix = layer_prefix(upper_text(layer));
            if dc.contains_key(prefix) {
                dc[prefix] + ty
            } else {
                "https://raise.io/"@ + prefix + "#"@ + ty
            }
        },
    }
}

/// The members of an intent that are not its structure (`name`, `type`,
/// `element_type`, `layer`), bound in order.
pub open spec fn intent_props(es: Seq<(Seq<char>, JsonView)>) -> Seq<(Seq<char>, JsonView)>
    decreases es.len(),
{
    if es.len() == 0 {
        Seq::empty()
    } else {
        let prev = intent_props(es.drop_last());
        let k = es.last().0;
        if k == "name"@ || k == "type"@ || k == "element_type"@ || k == "layer"@ {
            prev
        } else {
            crate::json::entries_set(prev, k, es.last().1)
        }
    }
}

/// The transformer of dialogue intents into model elements.
pub struct DialogueToModelTransformer;

impl DialogueToModelTransformer {
    /// The element an intent describes, given the ontological mapping document
    /// (`{}` when there is none): its handle is the lower-cased name with spaces
    /// turned to `_`, its type the intent's class URI (see `intent_uri`), and
    /// its properties the other members of the intent.
    pub fn create_element_from_intent(intent: &JsonValue, mapping_doc: &JsonValue, reg: &VocabularyRegistry) -> (r: ArcadiaElement)
        ensures
            r.handle@ == replace_spec(lower_text(text_or(intent@, "name"@, "unnamed"@)), " "@, "_"@),
            r.name@ == text_or(intent@, "name"@, "Unnamed"@),
            kinds_text(r) == seq![intent_uri(reg.current()@.default_context, mapping_doc@, intent@)],
            r.props() == JsonView::Object(
                match intent@ {
                    JsonView::Object(es) => intent_props(es),
                    _ => Seq::empty(),
                },
            ),
            r.xmi_id is None,
            r.summary is None,
            r.description is None,
            r.property_value_ids@.len() == 0,
    {
        let name_str = text_member(intent, "name", "Unnamed");
        let type_str: &str = match intent.get("type") {
            Some(v) => match v {
                JsonValue::String(s) => s.as_str(),
                _ => "Unknown",
            },
            None => text_member(intent, "element_type", "Unknown"),
        };
        let layer_str = text_member(intent, "layer", "Unknown");
        let lowered = to_lower(text_member(intent, "name", "unnamed"));
        proof {
            reveal_strlit(" ");
        }
        let handle_str = replace_all(lowered.as_str(), " ", "_");
        let mapped = Self::mapped_class_uri(mapping_doc, layer_str, type_str, reg);
        let final_uri = match mapped {
            Some(u) => u,
            None => {
                let upper = to_upper(layer_str);
                let prefix = Self::prefix_of_layer(upper.as_str());
                match ArcadiaOntology::get_uri(reg, prefix, type_str) {
                    Some(u) => u,
                    None => {
                        let head = concat3("https://raise.io/", prefix, "#");
                        concat2(head.as_str(), type_str)
                    },
                }
            },
        };
        let mut properties: Vec<(String, JsonValue)> = Vec::new();
        match intent {
            JsonValue::Object(es) => {
                proof {
                    lemma_jview_entries(es@);
                }
                let ghost ve = jview_entries(es@);
                let mut i: usize = 0;
                assert(ve.take(0) =~= Seq::<(Seq<char>, JsonView)>::empty());
                while i < es.len()
                    invariant
                        i <= es@.len(),
                        ve == jview_entries(es@),
                        ve.len() == es@.len(),
                        forall|j: int| 0 <= j < es@.len() ==> #[trigger] ve[j] == (es@[j].0@, jview(es@[j].1)),
                        jview_entries(properties@) == intent_props(ve.take(i as int)),
                    decreases es@.len() - i,
                {
                    assert(ve.take(i as int + 1).drop_last() =~= ve.take(i as int));
                    let k = es[i].0.as_str();
                    if !(str_eq(k, "name") || str_eq(k, "type") || str_eq(k, "element_type") || str_eq(k, "layer")) {
                        crate::json::entries_insert(&mut properties, es[i].0.clone(), es[i].1.duplicate());
                    }
                    i = i + 1;
                }
                assert(ve.take(es@.len() as int) =~= ve);
            },
            _ => {
                assert(jview_entries(properties@) =~= Seq::<(Seq<char>, JsonView)>::empty());
            },
        }
        let mut kind: Vec<String> = Vec::new();
        kind.push(final_uri);
        proof {
            assert(texts(kind@) =~= seq![kind@[0]@]);
        }
        let mut el = ArcadiaElement::with(SlugString::from_text(handle_str.as_str()), I18nString::Single(owned(name_str)), kind);
        el.properties = properties;
        el
    }

    /// The class URI from the dialogue mappings (see `mapped_uri`).
    fn mapped_class_uri(mapping_doc: &JsonValue, layer: &str, ty: &str, reg: &VocabularyRegistry) -> (r: Option<String>)
        ensures
            match r {
                Some(u) => mapped_uri(reg.current()@.default_context, mapping_doc@, layer@, ty@) == Some(u@),
                None => mapped_uri(reg.current()@.default_context, mapping_doc@, layer@, ty@) is None,
            },
    {
        let dm = match mapping_doc.get("dialogue_mappings") {
            Some(v) => match v {
                JsonValue::Object(_) => v,
                _ => {
                    return None;
                },
            },
            None => {
                return None;
            },
        };
        let lm = match dm.get(layer) {
            Some(v) => match v {
                JsonValue::Object(_) => v,
                _ => {
                    return None;
                },
            },
            None => {
                return None;
            },
        };
        let prefix = match lm.get("prefix") {
            Some(JsonValue::String(p)) => p.as_str(),
            _ => {
                return None;
            },
        };
        let class = match lm.get(ty) {
            Some(JsonValue::String(c)) => c.as_str(),
            _ => {
                return None;
            },
        };
        ArcadiaOntology::get_uri(reg, prefix, class)
    }

    /// The prefix of an upper-cased layer name (see `layer_prefix`).
    fn prefix_of_layer(upper: &str) -> (r: &'static str)
        ensures
            r@ == layer_prefix(upper@),
    {
        if str_eq(upper, "OA") {
            "oa"
        } else if str_eq(upper, "SA") {
            "sa"
        } else if str_eq(upper, "LA") {
            "la"
        } else if str_eq(upper, "PA") {
            "pa"
        } else if str_eq(upper, "TRANSVERSE") {
            "transverse"
        } else {
            "sa"
        }
    }
}

/// The text under `k` (see `text_or`).
fn text_member<'a>(j: &'a JsonValue, k: &str, d: &'a str) -> (r: &'a str)
    ensures
        r@ == text_or(j@, k@, d@),
{
    match j.get(k) {
        Some(v) => match v {
            JsonValue::String(s) => s.as_str(),
            _ => d,
        },
        None => d,
    }
}

} // verus!
