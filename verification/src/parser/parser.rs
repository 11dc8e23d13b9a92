use vstd::prelude::*;

use crate::grammar::Lexeme;
use crate::grammar::Symbol;
use crate::parser::meta_parse_rule::Pattern;
use crate::parser::meta_parse_rule::Rule;

verus! {

/// What ends a chain of executions: one more execution that takes the
/// output, a redirection of it, or the end of the line, which is not kept.
pub open spec fn chain_end_pattern() -> Pattern {
    Pattern::Any(
        seq![
            Pattern::Symbol(Symbol::PipeExec),
            Pattern::Symbol(Symbol::RedirectExec),
            Pattern::Discard(
                Box::new(Pattern::Plus(Box::new(Pattern::Token(Lexeme::LineEnd)))),
            ),
        ],
    )
}

/// program := exec_chain*
pub open spec fn program_pattern() -> Pattern {
    Pattern::Star(Box::new(Pattern::Symbol(Symbol::ExecChain)))
}

/// exec_chain := exec (pipe_exec | redirect_exec | LineEnd+)
pub open spec fn exec_chain_pattern() -> Pattern {
    Pattern::Sequence(seq![Pattern::Symbol(Symbol::Exec), chain_end_pattern()])
}

/// exec := LITERAL+
pub open spec fn exec_pattern() -> Pattern {
    Pattern::Plus(Box::new(Pattern::Token(Lexeme::Literal)))
}

/// pipe_exec := PIPE exec_chain
pub open spec fn pipe_exec_pattern() -> Pattern {
    Pattern::Sequence(seq![Pattern::Token(Lexeme::Pipe), Pattern::Symbol(Symbol::ExecChain)])
}

/// redirect_exec := (REDIRECT | REDIRECT_APPEND) redirect_target
pub open spec fn redirect_exec_pattern() -> Pattern {
    Pattern::Sequence(
        seq![
            Pattern::Any(
                seq![Pattern::Token(Lexeme::Redirect), Pattern::Token(Lexeme::RedirectAppend)],
            ),
            Pattern::Symbol(Symbol::RedirectTarget),
        ],
    )
}

/// redirect_target := LITERAL (pipe_exec | redirect_exec | LineEnd+)
pub open spec fn redirect_target_pattern() -> Pattern {
    Pattern::Sequence(seq![Pattern::Token(Lexeme::Literal), chain_end_pattern()])
}

/// The grammar of the language.
pub open spec fn language() -> Seq<(Symbol, Pattern)> {
    seq![
        (Symbol::Program, program_pattern()),
        (Symbol::ExecChain, exec_chain_pattern()),
        (Symbol::Exec, exec_pattern()),
        (Symbol::PipeExec, pipe_exec_pattern()),
        (Symbol::RedirectExec, redirect_exec_pattern()),
        (Symbol::RedirectTarget, redirect_target_pattern()),
    ]
}

/// What may follow an execution or a redirect target.
fn chain_end() -> (r: Rule)
    ensures
        r.well_formed(),
        r@ == chain_end_pattern(),
{
    let line_end = Rule::from_tok(Lexeme::LineEnd).plus().discard();
    let r = Rule::from_sym(Symbol::PipeExec).or_sym(Symbol::RedirectExec).or(line_end);
    assert(seq![Pattern::Symbol(Symbol::PipeExec), Pattern::Symbol(Symbol::RedirectExec)].push(
        line_end@,
    ) =~= chain_end_pattern()->Any_0);
    r
}

/// Grammar Rule for program.
/// program := exec_chain*
pub(crate) fn program() -> (r: Rule)
    ensures
        r.well_formed(),
        r@ == program_pattern(),
{
    Rule::from_sym(Symbol::ExecChain).star()
}

/// Grammar Rule for exec_chain.
/// exec_chain := exec (pipe_exec | redirect_exec | LineEnd+)
pub(crate) fn exec_chain() -> (r: Rule)
    ensures
        r.well_formed(),
        r@ == exec_chain_pattern(),
{
    Rule::from_sym(Symbol::Exec).join(chain_end(), false)
}

/// Grammar Rule for exec.
/// exec := LITERAL+
pub(crate) fn exec() -> (r: Rule)
    ensures
        r.well_formed(),
        r@ == exec_pattern(),
{
    Rule::from_tok(Lexeme::Literal).plus()
}

/// Grammar Rule for pipe_exec.
/// pipe_exec := PIPE exec_chain
pub(crate) fn pipe_exec() -> (r: Rule)
    ensures
        r.well_formed(),
        r@ == pipe_exec_pattern(),
{
    Rule::from_tok(Lexeme::Pipe).then_sym(Symbol::ExecChain)
}

/// Grammar Rule for redirect_exec.
/// redirect_exec := (REDIRECT | REDIRECT_APPEND) redirect_target
pub(crate) fn redirect_exec() -> (r: Rule)
    ensures
        r.well_formed(),
        r@ == redirect_exec_pattern(),
{
    let r = Rule::from_tok(Lexeme::Redirect).or_tok(Lexeme::RedirectAppend).then_sym(
        Symbol::RedirectTarget,
    );
    r
}

/// Grammar Rule for redirect_target.
/// redirect_target := LITERAL (pipe_exec | redirect_exec | LineEnd+)
pub(crate) fn redirect_target() -> (r: Rule)
    ensures
        r.well_formed(),
        r@ == redirect_target_pattern(),
{
    Rule::from_tok(Lexeme::Literal).join(chain_end(), false)
}

/// The position of the first rule for `symbol` among `rules` from `from` on.
pub open spec fn first_rule(rules: Seq<(Symbol, Pattern)>, symbol: Symbol, from: int) -> Option<int>
    decreases rules.len() - from,
{
    if from < 0 || from >= rules.len() {
        None
    } else if rules[from].0 == symbol {
        Some(from)
    } else {
        first_rule(rules, symbol, from + 1)
    }
}

/// The pattern that `rules` gives for `symbol`, if any: that of the first
/// rule for it.
pub open spec fn rule_for(rules: Seq<(Symbol, Pattern)>, symbol: Symbol) -> Option<Pattern> {
    match first_rule(rules, symbol, 0) {
        Some(i) => Some(rules[i].1),
        None => None,
    }
}

/// A grammar, one rule to a symbol, and the symbol that a parse starts
/// from. Where a symbol has more rules than one, the first counts.
pub struct Parser {
    pub rules: Vec<(Symbol, Rule)>,
    pub entry: Symbol,
}

impl Parser {
    /// The grammar as a list of symbols with their patterns.
    pub open spec fn grammar(&self) -> Seq<(Symbol, Pattern)> {
        Seq::new(self.rules@.len(), |i: int| (self.rules@[i].0, self.rules@[i].1@))
    }

    /// Every rule of the grammar is well formed.
    pub open spec fn well_formed(&self) -> bool {
        forall|i: int| 0 <= i < self.rules@.len() ==> (#[trigger] self.rules@[i]).1.well_formed()
    }

    /// Construct a parser for the language, starting from a program.
    pub fn new() -> (r: Self)
        ensures
            r.well_formed(),
            r.entry == Symbol::Program,
            r.grammar() == language(),
    {
        let mut rules: Vec<(Symbol, Rule)> = Vec::new();
        rules.push((Symbol::Program, program()));
        rules.push((Symbol::ExecChain, exec_chain()));
        rules.push((Symbol::Exec, exec()));
        rules.push((Symbol::PipeExec, pipe_exec()));
        rules.push((Symbol::RedirectExec, redirect_exec()));
        rules.push((Symbol::RedirectTarget, redirect_target()));
        let r = Parser { rules, entry: Symbol::Program };
        assert(r.grammar() =~= language());
        r
    }

    /// The position of the first rule for `symbol`.
    pub(crate) fn find_rule(&self, symbol: Symbol) -> (r: Option<usize>)
        ensures
            match r {
                Some(i) => first_rule(self.grammar(), symbol, 0) == Some(i as int) && i
                    < self.rules@.len() && rule_for(self.grammar(), symbol) == Some(
                    self.rules@[i as int].1@,
                ),
                None => first_rule(self.grammar(), symbol, 0) is None && rule_for(
                    self.grammar(),
                    symbol,
                ) is None,
            },
    {
        let mut i: usize = 0;
        while i < self.rules.len()
            invariant
                i <= self.rules@.len(),
                first_rule(self.grammar(), symbol, 0) == first_rule(
                    self.grammar(),
                    symbol,
                    i as int,
                ),
            decreases self.rules@.len() - i,
        {
            assert(self.grammar()[i as int].0 == self.rules@[i as int].0);
            if self.rules[i].0 == symbol {
                return Some(i);
            }
            i += 1;
        }
        None
    }
}

impl Default for Parser {
    fn default() -> (r: Self)
        ensures
            r.well_formed(),
            r.entry == Symbol::Program,
            r.grammar() == language(),
    {
        Self::new()
    }
}

} // verus!
