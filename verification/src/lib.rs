//! Trigger-score analysis of a build dependency graph.
//!
//! Given an immutable dependency graph of build targets and an immutable
//! change history mapping source files to the change identifiers that
//! touched them, the engine computes, per target, how many distinct
//! historical changes would force it to rebuild and how many edge
//! traversals reference it, and derives a composite trigger score.

pub mod errors;
pub mod labels;
pub mod model;
pub mod graph;
pub mod engine;
pub mod laws;
