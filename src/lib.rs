//! Chained hash tables for a proof-of-space style plot: generation in batches,
//! fixed-width record encoding, external sorting by hash and backward collation.

pub mod codec;
pub mod collate;
pub mod forward;
pub mod matching;
pub mod plan;
pub mod record;
pub mod sort_stage;
