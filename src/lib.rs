//! A recursive site crawler's engine: URL normalization and deduplication, a
//! shared rate gate, the fan-out policy, link extraction and the mirrored
//! path of a persisted page.
pub mod text;
pub mod urls;
pub mod frontier;
pub mod content;
pub mod links;
pub mod mirror;
pub mod gate;
pub mod task;
pub mod queue;
