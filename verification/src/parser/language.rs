use vstd::prelude::*;

use crate::ast::ast::hang_from_placeholder_nodes;
use crate::ast::ast::NodeView;
use crate::ast::splice::blank_tree;
use crate::grammar::Lexeme;
use crate::grammar::Symbol;
use crate::parser::depth::lemma_match_moves_on;
use crate::parser::errors::Error;
use crate::parser::meta_parse::depth_budget;
use crate::parser::meta_parse::eval;
use crate::parser::meta_parse::eval_any;
use crate::parser::meta_parse::eval_rule;
use crate::parser::meta_parse::eval_sequence;
use crate::parser::meta_parse::eval_star;
use crate::parser::meta_parse::parse_result;
use crate::parser::meta_parse::Outcome;
use crate::parser::meta_parse_rule::Pattern;
use crate::parser::parser::chain_end_pattern;
use crate::parser::parser::exec_chain_pattern;
use crate::parser::parser::exec_pattern;
use crate::parser::parser::first_rule;
use crate::parser::parser::language;
use crate::parser::parser::pipe_exec_pattern;
use crate::parser::parser::program_pattern;
use crate::parser::parser::redirect_exec_pattern;
use crate::parser::parser::redirect_target_pattern;
use crate::parser::parser::rule_for;
use crate::source::token::Token;

verus! {

/// The language has a rule for each of its six symbols.
pub proof fn lemma_language_rules()
    ensures
        rule_for(language(), Symbol::Program) == Some(program_pattern()),
        rule_for(language(), Symbol::ExecChain) == Some(exec_chain_pattern()),
        rule_for(language(), Symbol::Exec) == Some(exec_pattern()),
        rule_for(language(), Symbol::PipeExec) == Some(pipe_exec_pattern()),
        rule_for(language(), Symbol::RedirectExec) == Some(redirect_exec_pattern()),
        rule_for(language(), Symbol::RedirectTarget) == Some(redirect_target_pattern()),
        rule_for(language(), Symbol::Lexeme) is None,
        rule_for(language(), Symbol::_Placeholder) is None,
{
    reveal_with_fuel(first_rule, 8);
}

/// Repeating a token never fails.
proof fn lemma_tokens_repeat(
    g: Seq<(Symbol, Pattern)>,
    tokens: Seq<Token>,
    lexeme: Lexeme,
    head: usize,
    acc: Seq<NodeView>,
    depth: nat,
)
    requires
        tokens.len() <= usize::MAX,
    ensures
        !(eval_star(g, tokens, Pattern::Token(lexeme), head, acc, depth) is Failed),
    decreases tokens.len() - head + 1,
{
    if head <= tokens.len() {
        if let Outcome::Matched(h, t) = eval(g, tokens, Pattern::Token(lexeme), head, depth) {
            if head < h <= tokens.len() {
                lemma_tokens_repeat(
                    g,
                    tokens,
                    lexeme,
                    h,
                    hang_from_placeholder_nodes(acc, t),
                    depth,
                );
            }
        }
    }
}

/// What ends a chain never fails, given depth for the chains that may
/// follow: two for each token that is left, and one.
proof fn lemma_chain_end(tokens: Seq<Token>, head: usize, depth: nat)
    requires
        head <= tokens.len() <= usize::MAX,
        depth >= 2 * (tokens.len() - head) + 1,
    ensures
        !(eval(language(), tokens, chain_end_pattern(), head, depth) is Failed),
    decreases tokens.len() - head, 0int,
{
    let g = language();
    lemma_language_rules();
    reveal_with_fuel(eval, 3);
    reveal_with_fuel(eval_any, 4);
    reveal_with_fuel(eval_sequence, 3);
    let alternatives = chain_end_pattern()->Any_0;
    // a pipe and the chain after it
    let pipe = eval(g, tokens, Pattern::Token(Lexeme::Pipe), head, (depth - 1) as nat);
    let pipe_parts = pipe_exec_pattern()->Sequence_0;
    assert(pipe_parts[0] == Pattern::Token(Lexeme::Pipe));
    assert(pipe_parts[1] == Pattern::Symbol(Symbol::ExecChain));
    if let Outcome::Matched(h, t) = pipe {
        lemma_exec_chain(tokens, h, (depth - 2) as nat);
        let next = eval(g, tokens, Pattern::Symbol(Symbol::ExecChain), h, (depth - 1) as nat);
        assert(!(next is Failed));
        let acc = hang_from_placeholder_nodes(blank_tree(), t);
        assert(eval_sequence(g, tokens, pipe_parts, 1, h, acc, (depth - 1) as nat) == match next {
            Outcome::Matched(h2, t2) => eval_sequence(
                g,
                tokens,
                pipe_parts,
                2,
                h2,
                hang_from_placeholder_nodes(acc, t2),
                (depth - 1) as nat,
            ),
            other => other,
        });
    }
    let piped = eval(g, tokens, pipe_exec_pattern(), head, (depth - 1) as nat);
    assert(piped == eval_sequence(g, tokens, pipe_parts, 0, head, blank_tree(), (depth - 1) as nat));
    assert(!(piped is Failed));
    let first = eval(g, tokens, Pattern::Symbol(Symbol::PipeExec), head, depth);
    assert(!(first is Failed));
    // a redirection and its target
    let arrows = redirect_exec_pattern()->Sequence_0;
    let arrow_kinds = arrows[0]->Any_0;
    assert(arrow_kinds[0] == Pattern::Token(Lexeme::Redirect));
    assert(arrow_kinds[1] == Pattern::Token(Lexeme::RedirectAppend));
    assert(arrows[1] == Pattern::Symbol(Symbol::RedirectTarget));
    let arrow = eval(g, tokens, arrows[0], head, (depth - 1) as nat);
    assert(arrow == eval_any(g, tokens, arrow_kinds, 0, head, (depth - 1) as nat));
    assert(eval_any(g, tokens, arrow_kinds, 1, head, (depth - 1) as nat) == match eval(
        g,
        tokens,
        arrow_kinds[1],
        head,
        (depth - 1) as nat,
    ) {
        Outcome::NoMatch => eval_any(g, tokens, arrow_kinds, 2, head, (depth - 1) as nat),
        other => other,
    });
    assert(!(arrow is Failed));
    if let Outcome::Matched(h, t) = arrow {
        assert(h == head + 1);
        lemma_redirect_target(tokens, h, (depth - 2) as nat);
        let next = eval(g, tokens, Pattern::Symbol(Symbol::RedirectTarget), h, (depth - 1) as nat);
        assert(!(next is Failed));
        let acc = hang_from_placeholder_nodes(blank_tree(), t);
        assert(eval_sequence(g, tokens, arrows, 1, h, acc, (depth - 1) as nat) == match next {
            Outcome::Matched(h2, t2) => eval_sequence(
                g,
                tokens,
                arrows,
                2,
                h2,
                hang_from_placeholder_nodes(acc, t2),
                (depth - 1) as nat,
            ),
            other => other,
        });
    }
    let redirected = eval(g, tokens, redirect_exec_pattern(), head, (depth - 1) as nat);
    assert(redirected == eval_sequence(g, tokens, arrows, 0, head, blank_tree(), (depth - 1) as nat));
    assert(!(redirected is Failed));
    let second = eval(g, tokens, Pattern::Symbol(Symbol::RedirectExec), head, depth);
    assert(!(second is Failed));
    // or the end of the line
    lemma_tokens_repeat(g, tokens, Lexeme::LineEnd, head, blank_tree(), depth);
    let third = eval(g, tokens, alternatives[2], head, depth);
    assert(!(third is Failed));
    assert(alternatives[0] == Pattern::Symbol(Symbol::PipeExec));
    assert(alternatives[1] == Pattern::Symbol(Symbol::RedirectExec));
    assert(eval_any(g, tokens, alternatives, 2, head, depth) == match third {
        Outcome::NoMatch => eval_any(g, tokens, alternatives, 3, head, depth),
        other => other,
    });
    assert(eval_any(g, tokens, alternatives, 1, head, depth) == match second {
        Outcome::NoMatch => eval_any(g, tokens, alternatives, 2, head, depth),
        other => other,
    });
    assert(eval_any(g, tokens, alternatives, 0, head, depth) == match first {
        Outcome::NoMatch => eval_any(g, tokens, alternatives, 1, head, depth),
        other => other,
    });
}

/// The target of a redirection never fails, given depth as for what ends
/// a chain one token on.
proof fn lemma_redirect_target(tokens: Seq<Token>, head: usize, depth: nat)
    requires
        head <= tokens.len() <= usize::MAX,
        depth + 1 >= 2 * (tokens.len() - head) + 1,
    ensures
        !(eval(language(), tokens, redirect_target_pattern(), head, depth) is Failed),
    decreases tokens.len() - head, 1int,
{
    let g = language();
    reveal_with_fuel(eval, 3);
    reveal_with_fuel(eval_sequence, 3);
    let parts = redirect_target_pattern()->Sequence_0;
    assert(parts[0] == Pattern::Token(Lexeme::Literal));
    assert(parts[1] == chain_end_pattern());
    let name = eval(g, tokens, parts[0], head, depth);
    if let Outcome::Matched(h, t) = name {
        lemma_chain_end(tokens, h, depth);
        let end = eval(g, tokens, chain_end_pattern(), h, depth);
        let acc = hang_from_placeholder_nodes(blank_tree(), t);
        assert(eval_sequence(g, tokens, parts, 1, h, acc, depth) == match end {
            Outcome::Matched(h2, t2) => eval_sequence(
                g,
                tokens,
                parts,
                2,
                h2,
                hang_from_placeholder_nodes(acc, t2),
                depth,
            ),
            other => other,
        });
    }
    assert(eval(g, tokens, redirect_target_pattern(), head, depth) == eval_sequence(
        g,
        tokens,
        parts,
        0,
        head,
        blank_tree(),
        depth,
    ));
}

/// A chain never fails, given depth as for what ends it.
proof fn lemma_exec_chain(tokens: Seq<Token>, head: usize, depth: nat)
    requires
        head <= tokens.len() <= usize::MAX,
        depth >= 2 * (tokens.len() - head) + 1,
    ensures
        !(eval(language(), tokens, exec_chain_pattern(), head, depth) is Failed),
    decreases tokens.len() - head, 2int,
{
    let g = language();
    lemma_language_rules();
    reveal_with_fuel(eval, 3);
    reveal_with_fuel(eval_sequence, 3);
    let parts = exec_chain_pattern()->Sequence_0;
    assert(parts[0] == Pattern::Symbol(Symbol::Exec));
    assert(parts[1] == chain_end_pattern());
    lemma_tokens_repeat(g, tokens, Lexeme::Literal, head, blank_tree(), (depth - 1) as nat);
    let words = eval(g, tokens, parts[0], head, depth);
    assert(!(words is Failed));
    lemma_match_moves_on(g, tokens, parts[0], head, depth);
    if let Outcome::Matched(h, t) = words {
        lemma_chain_end(tokens, h, depth);
        let end = eval(g, tokens, chain_end_pattern(), h, depth);
        let acc = hang_from_placeholder_nodes(blank_tree(), t);
        assert(eval_sequence(g, tokens, parts, 1, h, acc, depth) == match end {
            Outcome::Matched(h2, t2) => eval_sequence(
                g,
                tokens,
                parts,
                2,
                h2,
                hang_from_placeholder_nodes(acc, t2),
                depth,
            ),
            other => other,
        });
    }
    assert(eval(g, tokens, exec_chain_pattern(), head, depth) == eval_sequence(
        g,
        tokens,
        parts,
        0,
        head,
        blank_tree(),
        depth,
    ));
}

/// Chain after chain always matches, given depth for the longest chain.
proof fn lemma_chains_repeat(tokens: Seq<Token>, head: usize, acc: Seq<NodeView>, depth: nat)
    requires
        tokens.len() <= usize::MAX,
        depth >= 2 * tokens.len() + 2,
    ensures
        eval_star(
            language(),
            tokens,
            Pattern::Symbol(Symbol::ExecChain),
            head,
            acc,
            depth,
        ) is Matched,
    decreases tokens.len() - head + 1,
{
    let g = language();
    lemma_language_rules();
    if head <= tokens.len() {
        lemma_exec_chain(tokens, head, (depth - 1) as nat);
        let chain = eval(g, tokens, Pattern::Symbol(Symbol::ExecChain), head, depth);
        assert(!(chain is Failed));
        if let Outcome::Matched(h, t) = chain {
            if head < h <= tokens.len() {
                lemma_chains_repeat(tokens, h, hang_from_placeholder_nodes(acc, t), depth);
            }
        }
    }
}

/// A parse of the language yields a tree, or names the first token that
/// it could not take. Neither the grammar nor the depth is ever at fault.
pub proof fn language_parses_or_names_a_token(tokens: Seq<Token>)
    requires
        2 * tokens.len() + 2 <= usize::MAX,
    ensures
        match parse_result(language(), Symbol::Program, tokens) {
            Ok(_) => true,
            Err(e) => exists|h: int|
                0 <= h < tokens.len() && e == Error::ParserUnexpectedToken(#[trigger] tokens[h]),
        },
{
    let g = language();
    lemma_language_rules();
    reveal_with_fuel(eval, 3);
    let depth = depth_budget(g.len(), tokens.len());
    assert(g.len() == 6);
    assert(depth >= 2 * tokens.len() + 2) by (nonlinear_arith)
        requires
            depth == if (tokens.len() + 1) * 7 <= usize::MAX {
                (tokens.len() + 1) * 7
            } else {
                usize::MAX as nat
            },
            2 * tokens.len() + 2 <= usize::MAX,
    ;
    lemma_chains_repeat(tokens, 0, blank_tree(), depth);
    lemma_match_moves_on(g, tokens, program_pattern(), 0, depth);
    let outcome = eval_rule(g, tokens, Symbol::Program, program_pattern(), 0, depth);
    assert(outcome is Matched);
    let h = outcome->Matched_0;
    if h < tokens.len() {
        assert(tokens[h as int] == tokens[h as int]);
    }
}

} // verus!
