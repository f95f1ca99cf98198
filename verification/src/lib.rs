//! A verified vector-store core for retrieving transcribed speech segments by
//! semantic similarity.
//!
//! The library owns the logic of the store: deterministic key derivation for
//! segments, the metadata table, the adapter over the approximate
//! nearest-neighbor index, and the orchestration that keeps the index and the
//! table in agreement. Network access, file handling and rendering live in the
//! surrounding application, which hands the library plain values.

pub mod ids;
pub mod index;
pub mod keys;
pub mod laws;
pub mod segment;
pub mod sort;
pub mod store;
pub mod table;
pub mod url;
