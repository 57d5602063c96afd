//! A verified engine for ingesting and indexing JSON-per-line trace logs.
//!
//! Raw lines are parsed into structured records, resolved into a
//! deduplicated span tree, and rendered on demand through a single-slot
//! query cache. String interning makes the structural deduplication cheap.

pub mod intern;
pub mod json;
pub mod render;
pub mod store;
pub mod text;
pub mod value;
pub mod worker;
