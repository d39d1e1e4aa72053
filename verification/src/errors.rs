use vstd::prelude::*;

verus! {

/// The recoverable failure conditions of the grid model and the engine.
///
/// None of these is fatal: each is returned to the caller, who may correct
/// the input and try again.  A search that terminates without finding a path
/// is *not* an error; it is the `Failed` engine state.
#[derive(Clone, Copy, Debug, PartialEq, Eq, Structural)]
pub enum SearchError {
    /// A cell coordinate lies outside the grid.
    OutOfBounds,
    /// A grid was given zero rows or columns, or a side beyond the supported
    /// maximum.
    InvalidDimensions,
    /// A role conflict: turning the start or end cell into an obstacle, or
    /// placing one role on top of the other.
    IllegalStateChange,
    /// A search was started without both a start and an end cell.
    MissingEndpoints,
    /// The grid was edited, or a new search requested, while a run was active.
    RunInProgress,
    /// The frontier was popped while empty; surfaces only inside the library,
    /// never past the engine, which turns it into the `Failed` state.
    Empty,
    /// A closed cell would have to be re-opened: the chosen heuristic is not
    /// consistent with the edge costs in force.
    HeuristicInconsistency,
    /// The queried role (start or end) has not been placed yet.
    NotConfigured,
}

} // verus!
