//! Interchange of a small property-graph model among JSON-LD documents,
//! RDF quads and spreadsheet tables.
//!
//! Every codec reads a whole external representation into a sorted list of
//! [`model::Node`] values and writes such a list back out.

pub mod error;
pub mod fold;
pub mod order;
pub mod text;
pub mod model;
pub mod nodes;
pub mod pairs;
pub mod json;
pub mod rows;
pub mod flatten;
pub mod excel_read;
pub mod rdf;
pub mod jsonld;
pub mod roundtrip;
pub mod rdf_roundtrip;
pub mod jsonld_roundtrip;
pub mod sync;
