//! Addressing values: a `(column, row)` cursor position and the direction of
//! a substring search.

use vstd::prelude::*;

verus! {

/// A position in a document: `x` is the column (character offset within a
/// row), `y` is the row index. Both are 0-based. A value of this type does
/// not own anything; it only addresses.
#[derive(Default, Clone, Copy, PartialEq, Eq, Structural, Debug)]
pub struct Position {
    pub x: usize,
    pub y: usize,
}

/// Scan order for a substring search: toward the end of the document or
/// toward its start.
#[derive(PartialEq, Eq, Structural, Copy, Clone, Debug)]
pub enum SearchDirection {
    Forward,
    Backward,
}

} // verus!
