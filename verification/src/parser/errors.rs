use vstd::prelude::*;

use crate::grammar::Symbol;
use crate::source::location::SourceLocation;
use crate::source::token::Token;

verus! {

/// Failures of the tokenizer and of the parser.
#[derive(Debug, Clone, Copy, PartialEq, Eq, Structural)]
pub enum Error {
    NotImplementedYet,
    /// The source text behind a token could not be resolved.
    SourceError(crate::source::errors::Error),
    /// An operation on the syntax tree failed.
    AstError(crate::ast::errors::Error),
    /// No pattern of the lexer matches at this place.
    LexerCouldNotCreateToken(SourceLocation),
    /// A pattern of the lexer is no regular expression; its position among
    /// the patterns is given.
    LexerInvalidPattern(usize),
    ParserTokenOutOfBounds,
    /// The entry rule matched, but not up to this token.
    ParserUnexpectedToken(Token),
    ParserCouldNotParseProgram,
    ParserTreeHasNoRootNode,
    ParserTreeNodeOutOfBounds,
    ParserLexemeNodeMissingToken,
    ParserSerializedBeforeBuilding,
    ParserExpectedPlaceholder,
    ParserReceivedPlaceholder,
    /// The grammar names a symbol for which it has no rule.
    ParserTriedToBuildSymbolWithNoRule(Symbol),
    ParserHeadPastLastToken,
    /// Rules were entered one within the other more often than a grammar
    /// without left recursion can on this input.
    ParserRecursionLimit,
}

} // verus!
