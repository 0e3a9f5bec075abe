//! A value interchange layer: one canonical in-memory representation of
//! structured data (`Value`) together with lossless, bidirectional codecs
//! between that representation and three external encodings: a compact
//! self-describing binary format, JSON text, and the query language's
//! literal syntax. Narrow validation entry points type-check textual
//! fragments against the external grammar engine without materializing a
//! document.

pub mod binary;
mod chars;
pub mod errors;
pub mod grammar;
pub mod json;
mod render;
pub mod text;
pub mod value;

pub use value::Value;
