//! Arcadia semantics of model elements: the layer and the functional category
//! that an element's `@type` list denotes, and access to the loaded ontologies.
use vstd::prelude::*;
use crate::model::ArcadiaElement;
use crate::text::{contains, ends_with, has_infix, has_prefix, has_suffix, starts_with, concat2};
use crate::assoc::assoc_lookup;
use crate::vocabulary::VocabularyRegistry;

verus! {

/// Key of the name property.
pub const PROP_NAME: &'static str = "name";

/// Key of the identifier property.
pub const PROP_ID: &'static str = "id";

/// Key of the description property.
pub const PROP_DESCRIPTION: &'static str = "description";

/// Key of the functions allocated to a component.
pub const PROP_ALLOCATED_FUNCTIONS: &'static str = "allocatedFunctions";

/// Key of the logical components owned by a component.
pub const PROP_OWNED_LOGICAL_COMPONENTS: &'static str = "ownedLogicalComponents";

/// Key of the system components owned by a component.
pub const PROP_OWNED_SYSTEM_COMPONENTS: &'static str = "ownedSystemComponents";

/// Key of the incoming functional exchanges.
pub const PROP_INCOMING_EXCHANGES: &'static str = "incomingFunctionalExchanges";

/// Key of the outgoing functional exchanges.
pub const PROP_OUTGOING_EXCHANGES: &'static str = "outgoingFunctionalExchanges";

/// The Arcadia layers, with data and transverse elements.
#[derive(PartialEq, Eq, Structural, Clone, Copy, Debug)]
pub enum Layer {
    OperationalAnalysis,
    SystemAnalysis,
    LogicalArchitecture,
    PhysicalArchitecture,
    EPBS,
    Data,
    Transverse,
    Unknown,
}

/// The functional categories of elements.
#[derive(PartialEq, Eq, Structural, Clone, Copy, Debug)]
pub enum ElementCategory {
    Component,
    Function,
    Actor,
    Exchange,
    Interface,
    Data,
    Capability,
    Other,
}

/// The position of a layer in the declaration order.
pub open spec fn layer_index(l: Layer) -> int {
    match l {
        Layer::OperationalAnalysis => 0,
        Layer::SystemAnalysis => 1,
        Layer::LogicalArchitecture => 2,
        Layer::PhysicalArchitecture => 3,
        Layer::EPBS => 4,
        Layer::Data => 5,
        Layer::Transverse => 6,
        Layer::Unknown => 7,
    }
}

/// The position of a category in the declaration order.
pub open spec fn category_index(c: ElementCategory) -> int {
    match c {
        ElementCategory::Component => 0,
        ElementCategory::Function => 1,
        ElementCategory::Actor => 2,
        ElementCategory::Exchange => 3,
        ElementCategory::Interface => 4,
        ElementCategory::Data => 5,
        ElementCategory::Capability => 6,
        ElementCategory::Other => 7,
    }
}

impl Layer {
    /// The number of layers.
    pub const COUNT: usize = 8;

    /// The position of the layer in the declaration order.
    pub fn index(&self) -> (r: usize)
        ensures
            r as int == layer_index(*self),
            r < Self::COUNT,
    {
        match self {
            Layer::OperationalAnalysis => 0,
            Layer::SystemAnalysis => 1,
            Layer::LogicalArchitecture => 2,
            Layer::PhysicalArchitecture => 3,
            Layer::EPBS => 4,
            Layer::Data => 5,
            Layer::Transverse => 6,
            Layer::Unknown => 7,
        }
    }
}

impl ElementCategory {
    /// The number of categories.
    pub const COUNT: usize = 8;

    /// The position of the category in the declaration order.
    pub fn index(&self) -> (r: usize)
        ensures
            r as int == category_index(*self),
            r < Self::COUNT,
    {
        match self {
            ElementCategory::Component => 0,
            ElementCategory::Function => 1,
            ElementCategory::Actor => 2,
            ElementCategory::Exchange => 3,
            ElementCategory::Interface => 4,
            ElementCategory::Data => 5,
            ElementCategory::Capability => 6,
            ElementCategory::Other => 7,
        }
    }
}

/// Some type contains `p`.
pub open spec fn any_infix(k: Seq<Seq<char>>, p: Seq<char>) -> bool {
    exists|i: int| 0 <= i < k.len() && #[trigger] has_infix(k[i], p)
}

/// Some type starts with `p`.
pub open spec fn any_prefix(k: Seq<Seq<char>>, p: Seq<char>) -> bool {
    exists|i: int| 0 <= i < k.len() && #[trigger] has_prefix(k[i], p)
}

/// Some type ends with `p`.
pub open spec fn any_suffix(k: Seq<Seq<char>>, p: Seq<char>) -> bool {
    exists|i: int| 0 <= i < k.len() && #[trigger] has_suffix(k[i], p)
}

/// Some type names the layer by its URI segment (`/oa#`) or its prefix (`oa:`).
pub open spec fn marks_layer(k: Seq<Seq<char>>, segment: Seq<char>, prefix: Seq<char>) -> bool {
    any_infix(k, segment) || any_prefix(k, prefix)
}

/// The layer that a list of types denotes: the first layer, in Arcadia order,
/// that one of the types names.
pub open spec fn layer_of(k: Seq<Seq<char>>) -> Layer {
    if marks_layer(k, "/oa#"@, "oa:"@) {
        Layer::OperationalAnalysis
    } else if marks_layer(k, "/sa#"@, "sa:"@) {
        Layer::SystemAnalysis
    } else if marks_layer(k, "/la#"@, "la:"@) {
        Layer::LogicalArchitecture
    } else if marks_layer(k, "/pa#"@, "pa:"@) {
        Layer::PhysicalArchitecture
    } else if marks_layer(k, "/epbs#"@, "epbs:"@) {
        Layer::EPBS
    } else if marks_layer(k, "/data#"@, "data:"@) {
        Layer::Data
    } else if any_infix(k, "/transverse"@) || any_infix(k, "/common"@) || any_infix(k, "/libraries"@)
        || any_prefix(k, "transverse:"@) {
        Layer::Transverse
    } else {
        Layer::Unknown
    }
}

/// The category that a list of types denotes, by the suffix of one of the types.
pub open spec fn category_of(k: Seq<Seq<char>>) -> ElementCategory {
    if any_suffix(k, "Component"@) || any_suffix(k, "System"@) || any_suffix(k, "ConfigurationItem"@) {
        ElementCategory::Component
    } else if any_suffix(k, "Function"@) || any_suffix(k, "Activity"@) {
        ElementCategory::Function
    } else if any_suffix(k, "Actor"@) {
        ElementCategory::Actor
    } else if any_suffix(k, "Exchange"@) || any_suffix(k, "Flow"@) || any_suffix(k, "Link"@) {
        ElementCategory::Exchange
    } else if any_suffix(k, "Interface"@) || any_suffix(k, "Port"@) {
        ElementCategory::Interface
    } else if any_suffix(k, "Class"@) || any_suffix(k, "DataType"@) || any_suffix(k, "ExchangeItem"@) {
        ElementCategory::Data
    } else if any_suffix(k, "Capability"@) || any_suffix(k, "Scenario"@) {
        ElementCategory::Capability
    } else {
        ElementCategory::Other
    }
}

/// Behavioural categories: functions, exchanges, capabilities.
pub open spec fn is_behavioral_category(c: ElementCategory) -> bool {
    c == ElementCategory::Function || c == ElementCategory::Exchange || c
        == ElementCategory::Capability
}

/// Structural categories: components, interfaces, actors.
pub open spec fn is_structural_category(c: ElementCategory) -> bool {
    c == ElementCategory::Component || c == ElementCategory::Interface || c
        == ElementCategory::Actor
}

/// The types of an element, as texts.
pub open spec fn kinds_of(el: ArcadiaElement) -> Seq<Seq<char>> {
    el.kind@.map_values(|s: String| s@)
}

/// Whether some type in `kind` contains `p`.
fn kinds_contain(kind: &Vec<String>, p: &str) -> (b: bool)
    ensures
        b == any_infix(kind@.map_values(|s: String| s@), p@),
{
    let ghost k = kind@.map_values(|s: String| s@);
    let mut i: usize = 0;
    while i < kind.len()
        invariant
            i <= kind@.len(),
            k == kind@.map_values(|s: String| s@),
            forall|j: int| 0 <= j < i ==> !has_infix(#[trigger] k[j], p@),
        decreases kind@.len() - i,
    {
        if contains(kind[i].as_str(), p) {
            assert(has_infix(k[i as int], p@));
            return true;
        }
        i = i + 1;
    }
    false
}

/// Whether some type in `kind` starts with `p`.
fn kinds_start(kind: &Vec<String>, p: &str) -> (b: bool)
    ensures
        b == any_prefix(kind@.map_values(|s: String| s@), p@),
{
    let ghost k = kind@.map_values(|s: String| s@);
    let mut i: usize = 0;
    while i < kind.len()
        invariant
            i <= kind@.len(),
            k == kind@.map_values(|s: String| s@),
            forall|j: int| 0 <= j < i ==> !has_prefix(#[trigger] k[j], p@),
        decreases kind@.len() - i,
    {
        if starts_with(kind[i].as_str(), p) {
            assert(has_prefix(k[i as int], p@));
            return true;
        }
        i = i + 1;
    }
    false
}

/// Whether some type in `kind` ends with `p`.
fn kinds_end(kind: &Vec<String>, p: &str) -> (b: bool)
    ensures
        b == any_suffix(kind@.map_values(|s: String| s@), p@),
{
    let ghost k = kind@.map_values(|s: String| s@);
    let mut i: usize = 0;
    while i < kind.len()
        invariant
            i <= kind@.len(),
            k == kind@.map_values(|s: String| s@),
            forall|j: int| 0 <= j < i ==> !has_suffix(#[trigger] k[j], p@),
        decreases kind@.len() - i,
    {
        if ends_with(kind[i].as_str(), p) {
            assert(has_suffix(k[i as int], p@));
            return true;
        }
        i = i + 1;
    }
    false
}

/// Whether some type names the layer by `segment` or `prefix`.
fn kinds_mark(kind: &Vec<String>, segment: &str, prefix: &str) -> (b: bool)
    ensures
        b == marks_layer(kind@.map_values(|s: String| s@), segment@, prefix@),
{
    kinds_contain(kind, segment) || kinds_start(kind, prefix)
}

/// The semantic reading of an element's types.
pub trait ArcadiaSemantics {
    /// The layer the element belongs to.
    fn get_layer(&self) -> Layer;

    /// The functional category of the element.
    fn get_category(&self) -> ElementCategory;

    /// Whether the element describes behaviour.
    fn is_behavioral(&self) -> bool;

    /// Whether the element describes structure.
    fn is_structural(&self) -> bool;
}

impl ArcadiaSemantics for ArcadiaElement {
    fn get_layer(&self) -> (r: Layer)
        ensures
            r == layer_of(kinds_of(*self)),
    {
        let k = &self.kind;
        if kinds_mark(k, "/oa#", "oa:") {
            Layer::OperationalAnalysis
        } else if kinds_mark(k, "/sa#", "sa:") {
            Layer::SystemAnalysis
        } else if kinds_mark(k, "/la#", "la:") {
            Layer::LogicalArchitecture
        } else if kinds_mark(k, "/pa#", "pa:") {
            Layer::PhysicalArchitecture
        } else if kinds_mark(k, "/epbs#", "epbs:") {
            Layer::EPBS
        } else if kinds_mark(k, "/data#", "data:") {
            Layer::Data
        } else if kinds_contain(k, "/transverse") || kinds_contain(k, "/common") || kinds_contain(
            k,
            "/libraries",
        ) || kinds_start(k, "transverse:") {
            Layer::Transverse
        } else {
            Layer::Unknown
        }
    }

    fn get_category(&self) -> (r: ElementCategory)
        ensures
            r == category_of(kinds_of(*self)),
    {
        let k = &self.kind;
        if kinds_end(k, "Component") || kinds_end(k, "System") || kinds_end(k, "ConfigurationItem") {
            ElementCategory::Component
        } else if kinds_end(k, "Function") || kinds_end(k, "Activity") {
            ElementCategory::Function
        } else if kinds_end(k, "Actor") {
            ElementCategory::Actor
        } else if kinds_end(k, "Exchange") || kinds_end(k, "Flow") || kinds_end(k, "Link") {
            ElementCategory::Exchange
        } else if kinds_end(k, "Interface") || kinds_end(k, "Port") {
            ElementCategory::Interface
        } else if kinds_end(k, "Class") || kinds_end(k, "DataType") || kinds_end(k, "ExchangeItem") {
            ElementCategory::Data
        } else if kinds_end(k, "Capability") || kinds_end(k, "Scenario") {
            ElementCategory::Capability
        } else {
            ElementCategory::Other
        }
    }

    fn is_behavioral(&self) -> (b: bool)
        ensures
            b == is_behavioral_category(category_of(kinds_of(*self))),
    {
        match self.get_category() {
            ElementCategory::Function | ElementCategory::Exchange | ElementCategory::Capability => true,
            _ => false,
        }
    }

    fn is_structural(&self) -> (b: bool)
        ensures
            b == is_structural_category(category_of(kinds_of(*self))),
    {
        match self.get_category() {
            ElementCategory::Component | ElementCategory::Interface | ElementCategory::Actor => true,
            _ => false,
        }
    }
}

/// Law: no element is both behavioural and structural.
pub proof fn law_behavioral_excludes_structural(k: Seq<Seq<char>>)
    ensures
        !(is_behavioral_category(category_of(k)) && is_structural_category(category_of(k))),
{
}

/// Access to the loaded ontologies.
pub struct ArcadiaOntology;

impl ArcadiaOntology {
    /// The full URI of `class_name` in the layer whose prefix is `layer_prefix`,
    /// when the prefix context knows that prefix.
    pub fn get_uri(reg: &VocabularyRegistry, layer_prefix: &str, class_name: &str) -> (r: Option<String>)
        ensures
            r is Some <==> reg.current()@.default_context.contains_key(layer_prefix@),
            r matches Some(u) ==> u@ == reg.current()@.default_context[layer_prefix@] + class_name@,
    {
        let ctx = reg.get_default_context();
        match assoc_lookup(ctx, layer_prefix) {
            Some(ns) => Some(concat2(ns.as_str(), class_name)),
            None => None,
        }
    }

    /// Whether the loaded ontologies declare a class under `uri`.
    pub fn is_known_type(reg: &VocabularyRegistry, uri: &str) -> (b: bool)
        ensures
            b == reg.current()@.classes.contains_key(uri@),
    {
        reg.has_class(uri)
    }
}

} // verus!
