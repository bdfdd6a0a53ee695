//! Interface monitor core: collects per-interface measurements into records,
//! merges them into a shared state store that preserves anomaly labels across
//! refreshes, diffs address sets to supervise per-interface worker processes,
//! and ingests newline-delimited classification events from those workers.

pub mod clock;
pub mod helpers;
pub mod ingest;
pub mod json;
pub mod networks;
pub mod resolver;
pub mod store;
pub mod structures;
pub mod supervisor;
