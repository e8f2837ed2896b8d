use vstd::prelude::*;

verus! {

/// The failure modes of the planner.
#[derive(Clone, Copy, PartialEq, Eq, Structural, Debug)]
pub enum PlanError {
    /// A layer range `[i, j)` with `i >= j` or `j` beyond the layer sequence.
    InvalidRange,
    /// No profiling data is available for the requested model and tag.
    ProfileNotFound,
    /// The layer sequence is empty, so there is nothing to partition.
    EmptyModel,
    /// No partition into the requested number of stages fits the capacity.
    Infeasible,
    /// A template was requested for a node count the search has not covered.
    NotSolved,
}

} // verus!
