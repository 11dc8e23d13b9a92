use vstd::prelude::*;
use vstd::string::StringExecFns;

use crate::grammar::Lexeme;
use crate::source::errors::Error;
use crate::source::location::Span;
use crate::source::source_manager::span_text;
use crate::source::source_manager::SourceManager;

verus! {

/// What `std` writes for the string `text` under the format `{:?}`: the
/// text in double quotes, with the characters that need it escaped.
pub uninterp spec fn debug_quoted(text: Seq<char>) -> Seq<char>;

/// `std`'s `Debug` rendering of a string slice, made by `format!` with
/// `{:?}`. The rendering depends on the characters alone; the contract only
/// gives it its name.
#[verifier::external_body]
pub(crate) fn quote(text: &str) -> (r: String)
    ensures
        r@ == debug_quoted(text@),
{
    format!("{:?}", text)
}

/// One terminal occurrence: its kind and where it stands in the source.
#[derive(Clone, Copy, Debug, PartialEq, Eq, Structural)]
pub struct Token {
    pub lexeme: Lexeme,
    pub location: Span,
}

/// The line that shows a token: its kind, a colon and a space, and its text
/// in quotes.
pub open spec fn token_line(lexeme: Lexeme, text: Seq<char>) -> Seq<char> {
    lexeme.name_chars() + ": "@ + debug_quoted(text)
}

impl Token {
    /// The kind of the token and its text, for display.
    pub fn to_string(&self, source_manager: &SourceManager) -> (r: Result<String, Error>)
        ensures
            match r {
                Ok(line) => span_text(source_manager.files@, self.location) matches Ok(text)
                    && line@ == token_line(self.lexeme, text),
                Err(e) => span_text(source_manager.files@, self.location) == Err::<
                    Seq<char>,
                    Error,
                >(e),
            },
    {
        match self.get_contents(source_manager) {
            Ok(contents) => {
                let mut line = self.lexeme.name().to_owned();
                line.append(": ");
                let quoted = quote(contents.as_str());
                line.append(quoted.as_str());
                Ok(line)
            },
            Err(e) => Err(e),
        }
    }

    /// The text of the token.
    pub fn get_contents(&self, source_manager: &SourceManager) -> (r: Result<String, Error>)
        ensures
            match r {
                Ok(text) => span_text(source_manager.files@, self.location) == Ok::<
                    Seq<char>,
                    Error,
                >(text@),
                Err(e) => span_text(source_manager.files@, self.location) == Err::<
                    Seq<char>,
                    Error,
                >(e),
            },
    {
        source_manager.get_text(&self.location)
    }
}

} // verus!
