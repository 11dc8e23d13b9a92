use vstd::prelude::*;

use crate::source::location::SourceLocation;
use crate::source::location::Span;

verus! {

/// Failures of the source bookkeeping.
#[derive(Debug, Clone, Copy, PartialEq, Eq, Structural)]
pub enum Error {
    SpanOutOfBounds(Span),
    LocationOutOfBounds(SourceLocation),
    OffsetOutOfBounds(usize),
    SourceManagerFileIndexNotFound(usize),
}

} // verus!
