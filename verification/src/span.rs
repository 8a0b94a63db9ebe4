//! Source positions.

use vstd::prelude::*;
use crate::ids::FileId;

verus! {

/// A line and column in a file.
#[derive(Debug, Clone, Copy, PartialEq, Eq, Hash, Structural)]
pub struct Span {
    pub file: FileId,
    pub line: u32,
    pub col: u32,
}

impl Span {
    pub fn new(file: FileId, line: u32, col: u32) -> (r: Span)
        ensures
            r == (Span { file, line, col }),
    {
        Span { file, line, col }
    }
}

} // verus!
