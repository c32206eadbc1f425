//! Pairwise similarity statistics over collections of weighted-key samples.
//!
//! Each sample is a table of `key -> weight` counts produced by an external
//! counting tool.  The library parses such tables, deduplicates the input
//! manifest, stores the loaded samples in a shared store, enumerates all
//! unordered sample pairs, and computes for every pair the two directional
//! shared-weight sums.

pub mod compare;
pub mod error;
pub mod parse;
pub mod pipeline;
pub mod queue;
pub mod record;
pub mod results;
pub mod store;
