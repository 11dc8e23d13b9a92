use vstd::prelude::*;
use vstd::string::StringExecFns;

use crate::grammar::Lexeme;
use crate::parser::lexer_util::Lexer;

verus! {

/// A semicolon ends a line.
pub const SEMICOLON: &'static str = ";";

/// A line break ends a line.
pub const END_LINE: &'static str = "\n";

/// The pipe operator.
pub const PIPE: &'static str = r"\|";

/// The operator that redirects output.
pub const REDIRECT: &'static str = r#">"#;

/// The operator that appends output.
pub const REDIRECTAPPEND: &'static str = r">>";

/// A character that needs no quotes, or an escaped blank or quote.
pub const UNQUOTEDLITERALPART: &'static str = r#"([^\s\\'"`]|(\\((\\){2})*[\s"'`]))"#;

/// Text in double quotes; a quote after an odd number of backslashes
/// does not end it.
pub const DOUBLEQUOTEDLITERAL: &'static str = r#""((\\{2})*|((.|\n)*?[^\\](\\{2})*))""#;

/// Text in single quotes.
pub const SINGLEQUOTEDLITERAL: &'static str = r#"'((\\{2})*|((.|\n)*?[^\\](\\{2})*))'"#;

/// Text in back quotes.
pub const BACKQUOTEDLITERAL: &'static str = r#"`((\\{2})*|((.|\n)*?[^\\](\\{2})*))`"#;

/// The pattern of a literal: one or more parts, each unquoted or in
/// double, single or back quotes.
pub open spec fn literal_pattern() -> Seq<char> {
    "("@ + UNQUOTEDLITERALPART@ + "|"@ + DOUBLEQUOTEDLITERAL@ + "|"@ + SINGLEQUOTEDLITERAL@ + "|"@
        + BACKQUOTEDLITERAL@ + ")+"@
}

/// The kinds of token of the language with their patterns, in the order in
/// which they are tried.
pub open spec fn language_patterns() -> Seq<(Lexeme, Seq<char>)> {
    seq![
        (Lexeme::LineEnd, SEMICOLON@),
        (Lexeme::LineEnd, END_LINE@),
        (Lexeme::Pipe, PIPE@),
        (Lexeme::Redirect, REDIRECT@),
        (Lexeme::RedirectAppend, REDIRECTAPPEND@),
        (Lexeme::Literal, literal_pattern()),
    ]
}

impl Lexer {
    /// The lexer of the language.
    pub fn new() -> (r: Self)
        ensures
            crate::parser::lexer_util::pattern_list(r.patterns@) == language_patterns(),
    {
        let mut literal = "(".to_owned();
        literal.append(UNQUOTEDLITERALPART);
        literal.append("|");
        literal.append(DOUBLEQUOTEDLITERAL);
        literal.append("|");
        literal.append(SINGLEQUOTEDLITERAL);
        literal.append("|");
        literal.append(BACKQUOTEDLITERAL);
        literal.append(")+");
        let mut patterns: Vec<(Lexeme, String)> = Vec::new();
        patterns.push((Lexeme::LineEnd, SEMICOLON.to_owned()));
        patterns.push((Lexeme::LineEnd, END_LINE.to_owned()));
        patterns.push((Lexeme::Pipe, PIPE.to_owned()));
        patterns.push((Lexeme::Redirect, REDIRECT.to_owned()));
        patterns.push((Lexeme::RedirectAppend, REDIRECTAPPEND.to_owned()));
        patterns.push((Lexeme::Literal, literal));
        let r = Lexer { patterns };
        assert(crate::parser::lexer_util::pattern_list(r.patterns@) =~= language_patterns());
        r
    }
}

impl Default for Lexer {
    fn default() -> (r: Self)
        ensures
            crate::parser::lexer_util::pattern_list(r.patterns@) == language_patterns(),
    {
        Self::new()
    }
}

} // verus!
