//! An embedded, append-oriented persistence core for timestamped key/value
//! facts about entities and for immutable binary resources, backed by SQLite.
//!
//! The store owns one lazily opened connection, guarantees the schema is
//! present before any operation, performs atomic batched writes, batched
//! keyed reads, and deterministic root-entity resolution.

pub mod errors;
pub mod ids;
pub mod root;
pub mod rows;
pub mod store;
pub mod text;
pub mod timestamp;
pub mod value;
