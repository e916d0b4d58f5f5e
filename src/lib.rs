//! A hierarchical item store kept in a collaborative (CRDT) document, with an
//! in-memory index that mirrors it.
pub mod decode;
pub mod diff;
pub mod doc;
pub mod engine;
pub mod error;
pub mod item;
pub mod summary;
