//! Positional information of syntax tree nodes.

use vstd::prelude::*;

verus! {

/// One place in a source file.
#[derive(Clone, Copy, Debug, PartialEq, Eq, Structural)]
pub struct Point {
    /// 1-indexed line number.
    pub line: usize,
    /// 1-indexed column number.
    pub column: usize,
    /// 0-indexed byte offset.
    pub offset: usize,
}

/// Location of a node in a source file.
#[derive(Clone, Copy, Debug, PartialEq, Eq, Structural)]
pub struct Position {
    /// Place of the first byte.
    pub start: Point,
    /// Place after the last byte.
    pub end: Point,
}

} // verus!
