use vstd::prelude::*;

verus! {

/// Lexical category of a token.
#[derive(Debug, Copy, Clone, PartialEq, Eq, Structural)]
pub enum Lexeme {
    Literal,
    Pipe,
    Redirect,
    RedirectAppend,
    LineEnd,
}

/// Syntax category of a tree node.
///
/// `_Placeholder` tags a subtree that is still being assembled; every other
/// variant names a finished node.
#[derive(Debug, Copy, Clone, PartialEq, Eq, Hash, Structural)]
pub enum Symbol {
    Program,
    ExecChain,
    Exec,
    PipeExec,
    RedirectExec,
    RedirectTarget,
    Lexeme,
    _Placeholder,
}

impl Lexeme {
    /// The name of the category, as it is written in the source of this
    /// library and shown in diagnostics.
    pub open spec fn name_chars(self) -> Seq<char> {
        match self {
            Lexeme::Literal => "Literal"@,
            Lexeme::Pipe => "Pipe"@,
            Lexeme::Redirect => "Redirect"@,
            Lexeme::RedirectAppend => "RedirectAppend"@,
            Lexeme::LineEnd => "LineEnd"@,
        }
    }

    /// The name of the category.
    pub fn name(&self) -> (r: &'static str)
        ensures
            r@ == self.name_chars(),
    {
        match self {
            Lexeme::Literal => "Literal",
            Lexeme::Pipe => "Pipe",
            Lexeme::Redirect => "Redirect",
            Lexeme::RedirectAppend => "RedirectAppend",
            Lexeme::LineEnd => "LineEnd",
        }
    }
}

impl Symbol {
    /// The name of the category, as it is written in the source of this
    /// library and shown in diagnostics.
    pub open spec fn name_chars(self) -> Seq<char> {
        match self {
            Symbol::Program => "Program"@,
            Symbol::ExecChain => "ExecChain"@,
            Symbol::Exec => "Exec"@,
            Symbol::PipeExec => "PipeExec"@,
            Symbol::RedirectExec => "RedirectExec"@,
            Symbol::RedirectTarget => "RedirectTarget"@,
            Symbol::Lexeme => "Lexeme"@,
            Symbol::_Placeholder => "_Placeholder"@,
        }
    }

    /// The name of the category.
    pub fn name(&self) -> (r: &'static str)
        ensures
            r@ == self.name_chars(),
    {
        match self {
            Symbol::Program => "Program",
            Symbol::ExecChain => "ExecChain",
            Symbol::Exec => "Exec",
            Symbol::PipeExec => "PipeExec",
            Symbol::RedirectExec => "RedirectExec",
            Symbol::RedirectTarget => "RedirectTarget",
            Symbol::Lexeme => "Lexeme",
            Symbol::_Placeholder => "_Placeholder",
        }
    }
}

} // verus!
