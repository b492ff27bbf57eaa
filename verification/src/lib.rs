//! lattice-bridge: cross-ontology bridge axiom generator for BFO-grounded ontologies.
//!
//! Given two OWL ontologies that both anchor to BFO upper categories, computes
//! candidate class mappings pruned by BFO category, scored by lexical + structural
//! similarity, and serialized as OWL bridge axioms or review proposals.

pub mod anchor;
pub mod classes;
pub mod error;
pub mod header;
pub mod hierarchy;
pub mod lexical;
pub mod markup;
pub mod matcher;
pub mod output;
pub mod owl;
pub mod text;
pub mod vocab;

pub use anchor::{preprocess_owl_xml, BfoAnchor, BfoCategory, OntologyMeta};
pub use error::BridgeError;
pub use matcher::MappingKind;
