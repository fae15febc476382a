//! A streaming file-hash engine: chunked reading plans, an incremental
//! SHA-256 accumulator, a progress tracker, a per-file pipeline state machine
//! and a multi-file registry, each with a verified contract.
pub mod digest;
pub mod chunking;
pub mod progress;
pub mod pipeline;
pub mod registry;
