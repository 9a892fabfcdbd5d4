//! The failures that abort a scoring run.

use vstd::prelude::*;

verus! {

/// Any of these aborts the whole scoring run; the engine never partially
/// recovers from them.
#[derive(Debug)]
pub enum ScoreError {
    /// A root, or a dependency reached during traversal, has no rule in the
    /// dependency graph.  Carries the offending label.
    TargetNotFound(String),
    /// A source-file label cannot be parsed into the `//<package>:<file>`
    /// form.  Carries the offending label.
    MalformedLabel(String),
    /// Traversal revisited a target already in progress on the current
    /// path.  Carries a target on the offending cycle.
    CycleDetected(String),
}

} // verus!
