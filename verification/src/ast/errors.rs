use vstd::prelude::*;

verus! {

/// Failures of the syntax tree operations.
#[derive(Debug, Clone, Copy, PartialEq, Eq, Structural)]
pub enum Error {
    NotImplementedYet,
    /// The source text behind a token could not be resolved.
    SourceError(crate::source::errors::Error),
    ParserTokenOutOfBounds,
    ParserCouldNotParseProgram,
    ParserTreeHasNoRootNode,
    ParserTreeNodeOutOfBounds,
    ParserLexemeNodeMissingToken,
    ParserSerializedBeforeBuilding,
    ParserExpectedPlaceholder,
    ParserReceivedPlaceholder,
    ParserHeadPastLastToken,
}

} // verus!
