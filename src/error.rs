//! What can go wrong in a search or in reading a configuration.
use vstd::prelude::*;

verus! {

/// A failure of a search.
#[derive(Debug, Clone, Copy, PartialEq, Eq, Structural)]
pub enum SearchError {
    /// The arena has no room for the children of a node.
    OutOfArena,
    /// The node to expand already has children.
    AlreadyExpanded,
    /// The game gave no moves in a position that is not over.
    IllegalState,
    /// The configuration cannot be run.
    ConfigError,
}

} // verus!
