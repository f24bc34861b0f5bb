//! An indentation-structured text document rendered as a collapsible tree.
//!
//! The core is a flattened pre-order tree store (`vectree`) supporting
//! constant-time structural navigation and subtree collapse, together with
//! a scrolling viewport (`interact`) that maps the tree state to a
//! fixed-height terminal window.

use vstd::prelude::*;

pub mod interact;
pub mod laws;
pub mod parse;
pub mod vectree;

verus! {

/// Parse-time failure: the input's depth jumped by more than one level
/// between consecutive lines, so the nesting is ambiguous.
#[derive(Debug, PartialEq, Eq, Structural, Clone, Copy)]
pub struct MalformedInputError {
    pub line_number: usize,
}

/// A navigation request fell off an edge of the tree, or asked for a
/// sibling that does not exist. Recoverable: the cursor does not move.
#[derive(Debug, PartialEq, Eq, Structural, Clone, Copy)]
pub struct NavigationBoundaryError;

} // verus!
