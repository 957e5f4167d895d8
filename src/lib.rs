//! Directory summaries: a streaming grouper that folds a depth-first walk into
//! per-directory statistics, and an offline rollup that re-buckets recorded
//! statistics by every ancestor prefix up to a requested depth.
//!
//! - `timestamp`: instants and their optional maximum.
//! - `path`: paths as component sequences, group keys, and path order.
//! - `directory_stat`: the mergeable summary and its merge laws.
//! - `state`: the streaming grouper and what a whole stream yields.
//! - `rollup`: ancestor bucketing, stable ranking and limits.
//! - `render`: the text of a rollup row.
//! - `progress`, `walker`, `args`: what the walk and the command line decide.
use vstd::prelude::*;

pub mod args;
pub mod directory_stat;
pub mod path;
pub mod progress;
pub mod render;
pub mod rollup;
pub mod state;
pub mod timestamp;
pub mod walker;

verus! {

} // verus!
