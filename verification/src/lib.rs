use vstd::prelude::*;

pub mod text;
pub mod json;
pub mod json_eq;
pub mod json_text;
pub mod assoc;
pub mod pattern;
pub mod model;
pub mod vocabulary;
pub mod schema;
pub mod arcadia;
pub mod validators;
pub mod traceability;
pub mod collections;
pub mod kernel;
pub mod transform;
pub mod capella;
pub mod rules;
pub mod evaluator;
pub mod loading;
pub mod genetics;
pub mod services;
pub mod references;
pub mod system_index;
pub mod xml;

verus! {

} // verus!
