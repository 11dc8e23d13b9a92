use vstd::prelude::*;

verus! {

/// A single position in a source file.
#[derive(Debug, Clone, Copy, PartialEq, Eq, Structural)]
pub struct SourceLocation {
    pub file_id: usize,
    pub offset: usize,
}

/// Denotes a slice of characters from a source file.
/// Both start and end are inclusive.
#[derive(Debug, Clone, Copy, PartialEq, Eq, Structural)]
pub struct Span {
    pub file_id: usize,
    /// Offset of first char in span (inclusive).
    pub start: usize,
    /// Offset of last char in span (inclusive).
    pub end: usize,
}

} // verus!
