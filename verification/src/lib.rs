//! Schema inference over JSON documents.
//!
//! Given a sample of JSON objects, the library classifies every value into a
//! shape, aggregates the shapes observed for each field into a set of type
//! variants, and renders the resulting schema back into a plain document.

pub mod json;
pub mod shape;
pub mod schema;
pub mod agg;
pub mod render;
pub mod laws;
pub mod typed;
