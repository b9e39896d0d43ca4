//! Model validators: data quality of elements, ontology membership of their
//! types, and the local consistency of their properties with the ontology.
use vstd::prelude::*;
use crate::json::{JsonView, jview, jview_entries, lemma_jview_entries, vget};
use crate::model::{ArcadiaElement, ProjectModel, flatten_layers, handle_pos, kinds_text};
use crate::traceability::link_targets;
use crate::vocabulary::RegistryState;
use crate::text::{
    chars_of, concat3, has_prefix, is_blank, join_strings, join_with, owned, starts_with, str_eq,
    texts_of, trim, trim_spec,
};
use crate::vocabulary::{VocabularyRegistry, subtype_holds};

verus! {

/// How serious an issue is.
#[derive(PartialEq, Eq, Structural, Clone, Copy, Debug)]
pub enum Severity {
    Error,
    Warning,
    Info,
}

/// A problem found on an element.
#[derive(Clone, Debug)]
pub struct ValidationIssue {
    pub severity: Severity,
    pub rule_id: String,
    pub element_id: String,
    pub message: String,
}

/// The content of an issue.
pub struct IssueV {
    pub severity: Severity,
    pub rule_id: Seq<char>,
    pub element_id: Seq<char>,
    pub message: Seq<char>,
}

impl View for ValidationIssue {
    type V = IssueV;

    open spec fn view(&self) -> IssueV {
        IssueV {
            severity: self.severity,
            rule_id: self.rule_id@,
            element_id: self.element_id@,
            message: self.message@,
        }
    }
}

/// The contents of a list of issues.
pub open spec fn issues_view(v: Seq<ValidationIssue>) -> Seq<IssueV> {
    v.map_values(|i: ValidationIssue| i@)
}

/// An issue built from its parts.
fn issue(severity: Severity, rule_id: &str, element_id: &str, message: String) -> (r: ValidationIssue)
    ensures
        r@ == (IssueV { severity, rule_id: rule_id@, element_id: element_id@, message: message@ }),
{
    ValidationIssue { severity, rule_id: owned(rule_id), element_id: owned(element_id), message }
}

// ---------------------------------------------------------------------------
// Data quality
// ---------------------------------------------------------------------------

/// A generic or empty name (after trimming).
pub open spec fn generic_name(name: Seq<char>) -> bool {
    name.len() == 0 || name == "Unnamed"@ || name == "Sans nom"@ || has_prefix(name, "Copy of"@)
}

/// The element's properties hold a non-blank `description` string.
pub open spec fn has_description(props: JsonView) -> bool {
    match vget(props, "description"@) {
        Some(JsonView::Str(d)) => trim_spec(d).len() > 0,
        _ => false,
    }
}

/// The quality issues of an element: a naming warning for a generic or empty
/// name, then a documentation note when the description is missing or blank.
pub open spec fn quality_issues(handle: Seq<char>, name: Seq<char>, props: JsonView) -> Seq<IssueV> {
    let n = trim_spec(name);
    let naming: Seq<IssueV> = if generic_name(n) {
        seq![
            IssueV {
                severity: Severity::Warning,
                rule_id: "RULE_NAMING"@,
                element_id: handle,
                message: "L'élément possède un nom générique ou vide : '"@ + n + "'."@,
            },
        ]
    } else {
        Seq::empty()
    };
    let doc: Seq<IssueV> = if !has_description(props) {
        seq![
            IssueV {
                severity: Severity::Info,
                rule_id: "RULE_DOC"@,
                element_id: handle,
                message: "Documentation manquante pour l'élément '"@ + n + "'."@,
            },
        ]
    } else {
        Seq::empty()
    };
    naming + doc
}

/// The methodological best-practice validator.
pub struct ComplianceValidator;

impl ComplianceValidator {
    pub fn new() -> (r: ComplianceValidator) {
        ComplianceValidator
    }

    /// The quality issues of one element (see `quality_issues`).
    pub fn check_quality(&self, element: &ArcadiaElement) -> (r: Vec<ValidationIssue>)
        ensures
            issues_view(r@) == quality_issues(element.handle@, element.name@, element.props()),
    {
        let mut issues: Vec<ValidationIssue> = Vec::new();
        let name = trim(element.name.as_str());
        let handle = element.handle.as_str();
        let generic = name.unicode_len() == 0 || str_eq(name.as_str(), "Unnamed") || str_eq(
            name.as_str(),
            "Sans nom",
        ) || starts_with(name.as_str(), "Copy of");
        if generic {
            let message = concat3("L'élément possède un nom générique ou vide : '", name.as_str(), "'.");
            issues.push(issue(Severity::Warning, "RULE_NAMING", handle, message));
        }
        let ghost after_naming = issues_view(issues@);
        let documented = match element.property("description") {
            Some(d) => match d.as_str() {
                Some(text) => !is_blank(text),
                None => false,
            },
            None => false,
        };
        if !documented {
            let message = concat3("Documentation manquante pour l'élément '", name.as_str(), "'.");
            issues.push(issue(Severity::Info, "RULE_DOC", handle, message));
        }
        proof {
            let n = trim_spec(element.name@);
            assert(name@ == n);
            assert(generic == generic_name(n));
            assert(documented == has_description(element.props()));
            assert(issues_view(issues@) =~= quality_issues(element.handle@, element.name@, element.props()));
        }
        issues
    }
}

// ---------------------------------------------------------------------------
// Ontology membership
// ---------------------------------------------------------------------------

/// The ontology issues of an element: one warning for each declared type, in
/// order, that is neither `Unknown` nor a class of the ontology.
pub open spec fn semantic_issues(
    handle: Seq<char>,
    kinds: Seq<Seq<char>>,
    classes: Set<Seq<char>>,
) -> Seq<IssueV>
    decreases kinds.len(),
{
    if kinds.len() == 0 {
        Seq::empty()
    } else {
        let prev = semantic_issues(handle, kinds.drop_last(), classes);
        let k = kinds.last();
        if k != "Unknown"@ && !classes.contains(k) {
            prev.push(
                IssueV {
                    severity: Severity::Warning,
                    rule_id: "ONTO-001"@,
                    element_id: handle,
                    message: "Sémantique inconnue ou non-mappée dans l'ontologie : '"@ + k + "'"@,
                },
            )
        } else {
            prev
        }
    }
}

/// The validator of types against the loaded ontologies.
pub struct OntologicalValidator;

impl OntologicalValidator {
    pub fn new() -> (r: OntologicalValidator) {
        OntologicalValidator
    }

    /// The ontology issues of one element (see `semantic_issues`).
    pub fn check_semantics(&self, reg: &VocabularyRegistry, element: &ArcadiaElement) -> (r: Vec<
        ValidationIssue,
    >)
        ensures
            issues_view(r@) == semantic_issues(
                element.handle@,
                kinds_text(*element),
                reg.current()@.classes.dom(),
            ),
    {
        let ghost kinds = kinds_text(*element);
        let ghost classes = reg.current()@.classes.dom();
        let handle = element.handle.as_str();
        let mut issues: Vec<ValidationIssue> = Vec::new();
        let mut i: usize = 0;
        assert(kinds.take(0) =~= Seq::<Seq<char>>::empty());
        while i < element.kind.len()
            invariant
                i <= element.kind@.len(),
                kinds == kinds_text(*element),
                kinds.len() == element.kind@.len(),
                classes == reg.current()@.classes.dom(),
                handle@ == element.handle@,
                issues_view(issues@) == semantic_issues(element.handle@, kinds.take(i as int), classes),
            decreases element.kind@.len() - i,
        {
            assert(kinds.take(i as int + 1).drop_last() =~= kinds.take(i as int));
            assert(kinds.take(i as int + 1).last() == element.kind@[i as int]@);
            let k = element.kind[i].as_str();
            if !str_eq(k, "Unknown") && !reg.has_class(k) {
                let message = concat3(
                    "Sémantique inconnue ou non-mappée dans l'ontologie : '",
                    k,
                    "'",
                );
                let ghost before = issues_view(issues@);
                issues.push(issue(Severity::Warning, "ONTO-001", handle, message));
                assert(issues_view(issues@) =~= before.push(issues@[issues@.len() - 1]@));
            }
            i = i + 1;
        }
        assert(kinds.take(element.kind@.len() as int) =~= kinds);
        issues
    }
}

// ---------------------------------------------------------------------------
// Local consistency
// ---------------------------------------------------------------------------

/// The issue about the element's identifier, when it is blank.
pub open spec fn identity_issues(handle: Seq<char>, name: Seq<char>) -> Seq<IssueV> {
    if trim_spec(handle).len() == 0 {
        seq![
            IssueV {
                severity: Severity::Error,
                rule_id: "SYS_001"@,
                element_id: "unknown"@,
                message: "L'élément '"@ + name + "' n'a pas d'identifiant unique (UUID)."@,
            },
        ]
    } else {
        Seq::empty()
    }
}

/// The issue about the element's name, when it is blank or the default name.
pub open spec fn naming_issues(handle: Seq<char>, name: Seq<char>) -> Seq<IssueV> {
    if trim_spec(name).len() == 0 || name == "Sans nom"@ {
        seq![
            IssueV {
                severity: Severity::Warning,
                rule_id: "SYS_002"@,
                element_id: handle,
                message: "L'élément n'a pas de nom descriptif."@,
            },
        ]
    } else {
        Seq::empty()
    }
}

/// Some type of the element is `parent` or one of its subclasses.
pub open spec fn some_kind_within(st: crate::vocabulary::RegistryState, kinds: Seq<Seq<char>>, parent: Seq<char>) -> bool {
    exists|i: int| 0 <= i < kinds.len() && #[trigger] subtype_holds(st, kinds[i], parent)
}

/// The domain violations among the first properties of an element: one error
/// for each known property, in order, whose declared domain none of the
/// element's types falls within.
pub open spec fn domain_issues(
    st: crate::vocabulary::RegistryState,
    handle: Seq<char>,
    kinds: Seq<Seq<char>>,
    keys: Seq<Seq<char>>,
) -> Seq<IssueV>
    decreases keys.len(),
{
    if keys.len() == 0 {
        Seq::empty()
    } else {
        let prev = domain_issues(st, handle, kinds, keys.drop_last());
        let key = keys.last();
        let props = st@.properties;
        if props.contains_key(key) && props[key].domain is Some && !some_kind_within(
            st,
            kinds,
            props[key].domain->0,
        ) {
            prev.push(
                IssueV {
                    severity: Severity::Error,
                    rule_id: "SEM_001"@,
                    element_id: handle,
                    message: "Violation de domaine : '"@ + props[key].label + "' ne peut pas s'appliquer à un '"@
                        + join_with(kinds, ", "@) + "' (Attendu: "@ + props[key].domain->0 + ")."@,
                },
            )
        } else {
            prev
        }
    }
}

/// The keys of the element's properties, in order.
pub open spec fn property_keys(el: ArcadiaElement) -> Seq<Seq<char>> {
    el.properties@.map_values(|e: (String, crate::json::JsonValue)| e.0@)
}

/// The checker of local consistency against the ontology.
pub struct ConsistencyChecker;

impl ConsistencyChecker {
    pub fn new() -> (r: ConsistencyChecker) {
        ConsistencyChecker
    }

    /// The local issues of one element: a blank identifier, a missing name, then
    /// the domain violations of its properties (see `domain_issues`).
    pub fn check_local_logic(&self, reg: &VocabularyRegistry, element: &ArcadiaElement) -> (r: Vec<
        ValidationIssue,
    >)
        ensures
            issues_view(r@) == identity_issues(element.handle@, element.name@) + naming_issues(
                element.handle@,
                element.name@,
            ) + domain_issues(
                reg.current(),
                element.handle@,
                kinds_text(*element),
                property_keys(*element),
            ),
    {
        let mut issues: Vec<ValidationIssue> = Vec::new();
        let name = element.name.as_str();
        let handle = element.handle.as_str();
        if is_blank(handle) {
            let message = concat3("L'élément '", name, "' n'a pas d'identifiant unique (UUID).");
            issues.push(issue(Severity::Error, "SYS_001", "unknown", message));
        }
        if is_blank(name) || str_eq(name, "Sans nom") {
            issues.push(
                issue(Severity::Warning, "SYS_002", handle, owned("L'élément n'a pas de nom descriptif.")),
            );
        }
        let ghost front = issues_view(issues@);
        assert(front =~= identity_issues(element.handle@, element.name@) + naming_issues(
            element.handle@,
            element.name@,
        ));
        let ghost kinds = kinds_text(*element);
        let ghost keys = property_keys(*element);
        let kind_list = join_strings(&element.kind, ", ");
        assert(keys.take(0) =~= Seq::<Seq<char>>::empty());
        assert(front + Seq::<IssueV>::empty() =~= front);
        let mut i: usize = 0;
        while i < element.properties.len()
            invariant
                i <= element.properties@.len(),
                keys == property_keys(*element),
                keys.len() == element.properties@.len(),
                kinds == kinds_text(*element),
                kinds == texts_of(element.kind@),
                kind_list@ == join_with(kinds, ", "@),
                handle@ == element.handle@,
                issues_view(issues@) == front + domain_issues(reg.current(), element.handle@, kinds, keys.take(i as int)),
            decreases element.properties@.len() - i,
        {
            assert(keys.take(i as int + 1).drop_last() =~= keys.take(i as int));
            assert(keys.take(i as int + 1).last() == element.properties@[i as int].0@);
            let key = element.properties[i].0.as_str();
            let ghost prev = domain_issues(reg.current(), element.handle@, kinds, keys.take(i as int));
            let ghost before = issues_view(issues@);
            match reg.get_property(key) {
                Some(def) => {
                    match &def.domain {
                        Some(domain) => {
                            let within = reg.is_subtype_of(element.kind.as_slice(), domain.as_str());
                            proof {
                                assert(within == some_kind_within(reg.current(), kinds, domain@)) by {
                                    assert forall|j: int| 0 <= j < kinds.len() implies kinds[j]
                                        == element.kind@[j]@ by {}
                                    if within {
                                        let j = choose|j: int|
                                            0 <= j < element.kind@.len() && #[trigger] subtype_holds(
                                                reg.current(),
                                                element.kind@[j]@,
                                                domain@,
                                            );
                                        assert(subtype_holds(reg.current(), kinds[j], domain@));
                                    }
                                    if some_kind_within(reg.current(), kinds, domain@) {
                                        let j = choose|j: int|
                                            0 <= j < kinds.len() && #[trigger] subtype_holds(
                                                reg.current(),
                                                kinds[j],
                                                domain@,
                                            );
                                        assert(subtype_holds(reg.current(), element.kind@[j]@, domain@));
                                    }
                                }
                            }
                            if !within {
                                let m1 = concat3(
                                    "Violation de domaine : '",
                                    def.label.as_str(),
                                    "' ne peut pas s'appliquer à un '",
                                );
                                let m2 = concat3(m1.as_str(), kind_list.as_str(), "' (Attendu: ");
                                let message = concat3(m2.as_str(), domain.as_str(), ").");
                                issues.push(issue(Severity::Error, "SEM_001", handle, message));
                                proof {
                                    let cur = domain_issues(
                                        reg.current(),
                                        element.handle@,
                                        kinds,
                                        keys.take(i as int + 1),
                                    );
                                    assert(cur == prev.push(issues@[issues@.len() - 1]@));
                                    assert(issues_view(issues@) =~= before.push(issues@[issues@.len() - 1]@));
                                    assert(issues_view(issues@) =~= front + cur);
                                }
                            } else {
                                assert(domain_issues(reg.current(), element.handle@, kinds, keys.take(i as int + 1)) == prev);
                            }
                        },
                        None => {
                            assert(domain_issues(reg.current(), element.handle@, kinds, keys.take(i as int + 1)) == prev);
                        },
                    }
                },
                None => {
                    assert(domain_issues(reg.current(), element.handle@, kinds, keys.take(i as int + 1)) == prev);
                },
            }
            i = i + 1;
        }
        assert(keys.take(element.properties@.len() as int) =~= keys);
        issues
    }
}


// ---------------------------------------------------------------------------
// Relations between elements
// ---------------------------------------------------------------------------

/// The number of bytes of a character in UTF-8.
pub open spec fn utf8_width(c: char) -> int {
    let n = c as u32;
    if n < 0x80 {
        1
    } else if n < 0x800 {
        2
    } else if n < 0x10000 {
        3
    } else {
        4
    }
}

/// The number of bytes of a text in UTF-8 (`str::len`).
pub open spec fn utf8_len(s: Seq<char>) -> int
    decreases s.len(),
{
    if s.len() == 0 {
        0
    } else {
        utf8_len(s.drop_last()) + utf8_width(s.last())
    }
}

/// A relation target that is checked: a URI (`http...`) or an identifier of
/// more than 20 bytes.
pub open spec fn checked_target(t: Seq<char>) -> bool {
    has_prefix(t, "http"@) || utf8_len(t) > 20
}

/// The issue about one relation target: a checked target found among the
/// elements whose types all fall outside the property's range.
pub open spec fn target_issue(
    st: RegistryState,
    els: Seq<ArcadiaElement>,
    handle: Seq<char>,
    t: Seq<char>,
    range: Seq<char>,
    label: Seq<char>,
) -> Seq<IssueV> {
    let p = handle_pos(els, t);
    if checked_target(t) && 0 <= p < els.len() && !some_kind_within(st, kinds_text(els[p]), range) {
        seq![
            IssueV {
                severity: Severity::Warning,
                rule_id: "SEM_002"@,
                element_id: handle,
                message: "Relation invalide : La cible '"@ + els[p].name@ + "' est de type '"@
                    + join_with(kinds_text(els[p]), ", "@) + "', attendu '"@ + range
                    + "' pour la propriété '"@ + label + "'."@,
            },
        ]
    } else {
        Seq::empty()
    }
}

/// The issues about the targets of one property, in order.
pub open spec fn targets_issues(
    st: RegistryState,
    els: Seq<ArcadiaElement>,
    handle: Seq<char>,
    targets: Seq<Seq<char>>,
    range: Seq<char>,
    label: Seq<char>,
) -> Seq<IssueV>
    decreases targets.len(),
{
    if targets.len() == 0 {
        Seq::empty()
    } else {
        targets_issues(st, els, handle, targets.drop_last(), range, label) + target_issue(
            st,
            els,
            handle,
            targets.last(),
            range,
            label,
        )
    }
}

/// The relation issues of an element's properties, in order: for each property
/// of the ontology with a range, the issues about its targets.
pub open spec fn relationship_issues(
    st: RegistryState,
    els: Seq<ArcadiaElement>,
    handle: Seq<char>,
    props: Seq<(Seq<char>, JsonView)>,
) -> Seq<IssueV>
    decreases props.len(),
{
    if props.len() == 0 {
        Seq::empty()
    } else {
        let prev = relationship_issues(st, els, handle, props.drop_last());
        let key = props.last().0;
        let ps = st@.properties;
        if ps.contains_key(key) && ps[key].range is Some {
            prev + targets_issues(st, els, handle, link_targets(props.last().1), ps[key].range->0, ps[key].label)
        } else {
            prev
        }
    }
}

/// The UTF-8 length of a prefix is at most that of the whole text.
proof fn lemma_utf8_len_prefix(s: Seq<char>, i: int)
    requires
        0 <= i <= s.len(),
    ensures
        utf8_len(s.take(i)) <= utf8_len(s),
    decreases s.len() - i,
{
    if i < s.len() {
        lemma_utf8_len_prefix(s, i + 1);
        assert(s.take(i + 1).drop_last() =~= s.take(i));
    } else {
        assert(s.take(i) =~= s);
    }
}

/// Whether a text takes more than 20 bytes in UTF-8.
fn longer_than_20_bytes(t: &str) -> (b: bool)
    ensures
        b == (utf8_len(t@) > 20),
{
    let cs = chars_of(t);
    let mut acc: u32 = 0;
    let mut i: usize = 0;
    while i < cs.len()
        invariant
            i <= cs@.len(),
            cs@ == t@,
            acc as int == utf8_len(cs@.take(i as int)),
            acc <= 20,
        decreases cs@.len() - i,
    {
        assert(cs@.take(i as int + 1).drop_last() =~= cs@.take(i as int));
        let n: u32 = #[verifier::truncate] (cs[i] as u32);
        let w: u32 = if n < 0x80 {
            1
        } else if n < 0x800 {
            2
        } else if n < 0x10000 {
            3
        } else {
            4
        };
        acc = acc + w;
        i = i + 1;
        assert(acc as int == utf8_len(cs@.take(i as int)));
        if acc > 20 {
            proof {
                lemma_utf8_len_prefix(cs@, i as int);
            }
            return true;
        }
    }
    assert(cs@.take(cs@.len() as int) =~= cs@);
    false
}

impl ConsistencyChecker {
    /// The relation issues of an element (see `relationship_issues`), targets
    /// being looked up by handle among the elements of the model.
    pub fn check_relationships(&self, reg: &VocabularyRegistry, element: &ArcadiaElement, model: &ProjectModel) -> (r: Vec<ValidationIssue>)
        ensures
            issues_view(r@) == relationship_issues(
                reg.current(),
                flatten_layers(model.layers@),
                element.handle@,
                jview_entries(element.properties@),
            ),
    {
        let ghost st = reg.current();
        let ghost els = flatten_layers(model.layers@);
        let ghost es = jview_entries(element.properties@);
        proof {
            lemma_jview_entries(element.properties@);
        }
        let handle = element.handle.as_str();
        let mut issues: Vec<ValidationIssue> = Vec::new();
        let mut i: usize = 0;
        assert(es.take(0) =~= Seq::<(Seq<char>, JsonView)>::empty());
        assert(issues_view(issues@) =~= Seq::<IssueV>::empty());
        while i < element.properties.len()
            invariant
                i <= element.properties@.len(),
                st == reg.current(),
                els == flatten_layers(model.layers@),
                es == jview_entries(element.properties@),
                es.len() == element.properties@.len(),
                forall|j: int|
                    0 <= j < element.properties@.len() ==> #[trigger] es[j] == (
                        element.properties@[j].0@,
                        jview(element.properties@[j].1),
                    ),
                handle@ == element.handle@,
                issues_view(issues@) == relationship_issues(st, els, handle@, es.take(i as int)),
            decreases element.properties@.len() - i,
        {
            assert(es.take(i as int + 1).drop_last() =~= es.take(i as int));
            let key = element.properties[i].0.as_str();
            match reg.get_property(key) {
                Some(pd) => match &pd.range {
                    Some(range) => {
                        let targets = crate::traceability::collect_targets(&element.properties[i].1);
                        let ghost tv = texts_of(targets@);
                        let ghost base = issues_view(issues@);
                        let mut k: usize = 0;
                        assert(tv.take(0) =~= Seq::<Seq<char>>::empty());
                        assert(base + Seq::<IssueV>::empty() =~= base);
                        while k < targets.len()
                            invariant
                                k <= targets@.len(),
                                st == reg.current(),
                                els == flatten_layers(model.layers@),
                                tv == texts_of(targets@),
                                tv.len() == targets@.len(),
                                handle@ == element.handle@,
                                issues_view(issues@) == base + targets_issues(
                                    st,
                                    els,
                                    handle@,
                                    tv.take(k as int),
                                    range@,
                                    pd.label@,
                                ),
                            decreases targets@.len() - k,
                        {
                            assert(tv.take(k as int + 1).drop_last() =~= tv.take(k as int));
                            assert(tv.take(k as int + 1).last() == targets@[k as int]@);
                            let ghost before = issues_view(issues@);
                            let t = targets[k].as_str();
                            let ghost p = handle_pos(els, t@);
                            proof {
                                reveal_strlit("http");
                            }
                            if starts_with(t, "http") || longer_than_20_bytes(t) {
                                match model.find_element(t) {
                                    Some(target) => {
                                        let within = reg.is_subtype_of(target.kind.as_slice(), range.as_str());
                                        proof {
                                            let kinds = kinds_text(*target);
                                            assert(within == some_kind_within(st, kinds, range@)) by {
                                                assert forall|j: int| 0 <= j < kinds.len() implies kinds[j]
                                                    == target.kind@[j]@ by {}
                                                if within {
                                                    let j = choose|j: int|
                                                        0 <= j < target.kind@.len() && #[trigger] subtype_holds(
                                                            st,
                                                            target.kind@[j]@,
                                                            range@,
                                                        );
                                                    assert(subtype_holds(st, kinds[j], range@));
                                                }
                                                if some_kind_within(st, kinds, range@) {
                                                    let j = choose|j: int|
                                                        0 <= j < kinds.len() && #[trigger] subtype_holds(st, kinds[j], range@);
                                                    assert(subtype_holds(st, target.kind@[j]@, range@));
                                                }
                                            }
                                        }
                                        if !within {
                                            let kind_list = join_strings(&target.kind, ", ");
                                            let m1 = concat3("Relation invalide : La cible '", target.name.as_str(), "' est de type '");
                                            let m2 = concat3(m1.as_str(), kind_list.as_str(), "', attendu '");
                                            let m3 = concat3(m2.as_str(), range.as_str(), "' pour la propriété '");
                                            let message = concat3(m3.as_str(), pd.label.as_str(), "'.");
                                            issues.push(issue(Severity::Warning, "SEM_002", handle, message));
                                            proof {
                                                assert(issues_view(issues@) =~= before.push(issues@[issues@.len() - 1]@));
                                            }
                                        }
                                    },
                                    None => {},
                                }
                            }
                            k = k + 1;
                        }
                        assert(tv.take(targets@.len() as int) =~= tv);
                    },
                    None => {},
                },
                None => {},
            }
            i = i + 1;
        }
        assert(es.take(element.properties@.len() as int) =~= es);
        issues
    }
}

// ---------------------------------------------------------------------------
// Validators over a model
// ---------------------------------------------------------------------------

/// A validator of model elements, given the whole model and the vocabulary.
pub trait ModelValidator {
    /// The issues of one element.
    fn validate_element(&self, element: &ArcadiaElement, model: &ProjectModel, reg: &VocabularyRegistry) -> Vec<ValidationIssue>;

    /// The issues of the whole model; none unless the validator scans models.
    fn validate_full(&self, model: &ProjectModel, reg: &VocabularyRegistry) -> (r: Vec<ValidationIssue>)
        default_ensures
            r@.len() == 0,
    {
        Vec::new()
    }
}

/// The quality issues of the elements, in order.
pub open spec fn quality_scan(els: Seq<ArcadiaElement>) -> Seq<IssueV>
    decreases els.len(),
{
    if els.len() == 0 {
        Seq::empty()
    } else {
        quality_scan(els.drop_last()) + quality_issues(els.last().handle@, els.last().name@, els.last().props())
    }
}

/// The consistency issues of one element within a model.
pub open spec fn consistency_issues(st: RegistryState, els: Seq<ArcadiaElement>, el: ArcadiaElement) -> Seq<IssueV> {
    identity_issues(el.handle@, el.name@) + naming_issues(el.handle@, el.name@) + domain_issues(
        st,
        el.handle@,
        kinds_text(el),
        property_keys(el),
    ) + if el.properties@.len() > 0 {
        relationship_issues(st, els, el.handle@, jview_entries(el.properties@))
    } else {
        Seq::empty()
    }
}

/// The consistency issues of the elements, in order.
pub open spec fn consistency_scan(st: RegistryState, all: Seq<ArcadiaElement>, els: Seq<ArcadiaElement>) -> Seq<IssueV>
    decreases els.len(),
{
    if els.len() == 0 {
        Seq::empty()
    } else {
        consistency_scan(st, all, els.drop_last()) + consistency_issues(st, all, els.last())
    }
}

/// Appends issues to a list.
fn extend_issues(all: &mut Vec<ValidationIssue>, more: Vec<ValidationIssue>)
    ensures
        issues_view(final(all)@) == issues_view(old(all)@) + issues_view(more@),
{
    let mut more = more;
    let ghost a0 = all@;
    let ghost m0 = more@;
    all.append(&mut more);
    assert(issues_view(all@) =~= issues_view(a0) + issues_view(m0));
}

impl ModelValidator for ComplianceValidator {
    fn validate_element(&self, element: &ArcadiaElement, model: &ProjectModel, reg: &VocabularyRegistry) -> (r: Vec<ValidationIssue>)
        ensures
            issues_view(r@) == quality_issues(element.handle@, element.name@, element.props()),
    {
        self.check_quality(element)
    }

    fn validate_full(&self, model: &ProjectModel, reg: &VocabularyRegistry) -> (r: Vec<ValidationIssue>)
        ensures
            issues_view(r@) == quality_scan(flatten_layers(model.layers@)),
    {
        let all = model.all_elements();
        let ghost els = flatten_layers(model.layers@);
        let mut issues: Vec<ValidationIssue> = Vec::new();
        let mut i: usize = 0;
        assert(els.take(0) =~= Seq::<ArcadiaElement>::empty());
        assert(issues_view(issues@) =~= Seq::<IssueV>::empty());
        while i < all.len()
            invariant
                i <= all@.len(),
                els == flatten_layers(model.layers@),
                all@.len() == els.len(),
                forall|k: int| 0 <= k < all@.len() ==> *all@[k] == els[k],
                issues_view(issues@) == quality_scan(els.take(i as int)),
            decreases all@.len() - i,
        {
            assert(els.take(i as int + 1).drop_last() =~= els.take(i as int));
            let found = self.check_quality(all[i]);
            extend_issues(&mut issues, found);
            i = i + 1;
        }
        assert(els.take(all@.len() as int) =~= els);
        issues
    }
}

impl ModelValidator for OntologicalValidator {
    fn validate_element(&self, element: &ArcadiaElement, model: &ProjectModel, reg: &VocabularyRegistry) -> (r: Vec<ValidationIssue>)
        ensures
            issues_view(r@) == semantic_issues(
                element.handle@,
                kinds_text(*element),
                reg.current()@.classes.dom(),
            ),
    {
        self.check_semantics(reg, element)
    }
}

impl ModelValidator for ConsistencyChecker {
    fn validate_element(&self, element: &ArcadiaElement, model: &ProjectModel, reg: &VocabularyRegistry) -> (r: Vec<ValidationIssue>)
        ensures
            issues_view(r@) == consistency_issues(reg.current(), flatten_layers(model.layers@), *element),
    {
        let mut issues = self.check_local_logic(reg, element);
        if element.properties.len() > 0 {
            let rel = self.check_relationships(reg, element, model);
            extend_issues(&mut issues, rel);
        } else {
            assert(issues_view(issues@) + Seq::<IssueV>::empty() =~= issues_view(issues@));
        }
        issues
    }

    fn validate_full(&self, model: &ProjectModel, reg: &VocabularyRegistry) -> (r: Vec<ValidationIssue>)
        ensures
            issues_view(r@) == consistency_scan(reg.current(), flatten_layers(model.layers@), flatten_layers(model.layers@)),
    {
        let all = model.all_elements();
        let ghost els = flatten_layers(model.layers@);
        let mut issues: Vec<ValidationIssue> = Vec::new();
        let mut i: usize = 0;
        assert(els.take(0) =~= Seq::<ArcadiaElement>::empty());
        assert(issues_view(issues@) =~= Seq::<IssueV>::empty());
        while i < all.len()
            invariant
                i <= all@.len(),
                els == flatten_layers(model.layers@),
                all@.len() == els.len(),
                forall|k: int| 0 <= k < all@.len() ==> *all@[k] == els[k],
                issues_view(issues@) == consistency_scan(reg.current(), els, els.take(i as int)),
            decreases all@.len() - i,
        {
            assert(els.take(i as int + 1).drop_last() =~= els.take(i as int));
            let found = self.validate_element(all[i], model, reg);
            extend_issues(&mut issues, found);
            i = i + 1;
        }
        assert(els.take(all@.len() as int) =~= els);
        issues
    }
}

} // verus!
