use vstd::prelude::*;

use crate::ast::ast::NodeView;
use crate::grammar::Symbol;
use crate::parser::errors::Error;
use crate::parser::meta_parse::eval;
use crate::parser::meta_parse::eval_any;
use crate::parser::meta_parse::eval_rule;
use crate::parser::meta_parse::eval_sequence;
use crate::parser::meta_parse::eval_star;
use crate::parser::meta_parse::Outcome;
use crate::parser::meta_parse_rule::Pattern;
use crate::parser::parser::rule_for;
use crate::source::token::Token;

verus! {

/// The outcome of a match that ran out of depth.
pub open spec fn out_of_depth() -> Outcome {
    Outcome::Failed(Error::ParserRecursionLimit)
}

/// The depth that a match may use matters only where it runs out: a match
/// that ends in any other way ends in the same way with every greater
/// depth.
pub proof fn depth_is_spare(
    g: Seq<(Symbol, Pattern)>,
    tokens: Seq<Token>,
    p: Pattern,
    head: usize,
    depth: nat,
    more: nat,
)
    requires
        eval(g, tokens, p, head, depth) != out_of_depth(),
        depth <= more,
    ensures
        eval(g, tokens, p, head, more) == eval(g, tokens, p, head, depth),
    decreases more - depth,
{
    if depth < more {
        lemma_one_deeper(g, tokens, p, head, depth);
        depth_is_spare(g, tokens, p, head, depth + 1, more);
    }
}

/// The same of the rule of a symbol.
pub proof fn rule_depth_is_spare(
    g: Seq<(Symbol, Pattern)>,
    tokens: Seq<Token>,
    target: Symbol,
    q: Pattern,
    head: usize,
    depth: nat,
    more: nat,
)
    requires
        eval_rule(g, tokens, target, q, head, depth) != out_of_depth(),
        depth <= more,
    ensures
        eval_rule(g, tokens, target, q, head, more) == eval_rule(g, tokens, target, q, head, depth),
{
    depth_is_spare(g, tokens, q, head, depth, more);
}

proof fn lemma_one_deeper(
    g: Seq<(Symbol, Pattern)>,
    tokens: Seq<Token>,
    p: Pattern,
    head: usize,
    depth: nat,
)
    requires
        eval(g, tokens, p, head, depth) != out_of_depth(),
    ensures
        eval(g, tokens, p, head, depth + 1) == eval(g, tokens, p, head, depth),
    decreases depth, p, 0int,
{
    match p {
        Pattern::Token(_) => {},
        Pattern::Symbol(symbol) => {
            if let Some(q) = rule_for(g, symbol) {
                lemma_one_deeper(g, tokens, q, head, (depth - 1) as nat);
            }
        },
        Pattern::Sequence(parts) => {
            lemma_sequence_deeper(g, tokens, parts, 0, head, crate::ast::splice::blank_tree(), depth);
        },
        Pattern::Any(parts) => {
            lemma_any_deeper(g, tokens, parts, 0, head, depth);
        },
        Pattern::Maybe(q) => {
            lemma_one_deeper(g, tokens, *q, head, depth);
        },
        Pattern::Star(q) => {
            lemma_star_deeper(g, tokens, *q, head, crate::ast::splice::blank_tree(), depth);
        },
        Pattern::Plus(q) => {
            lemma_star_deeper(g, tokens, *q, head, crate::ast::splice::blank_tree(), depth);
        },
        Pattern::Discard(q) => {
            lemma_one_deeper(g, tokens, *q, head, depth);
        },
    }
}

proof fn lemma_sequence_deeper(
    g: Seq<(Symbol, Pattern)>,
    tokens: Seq<Token>,
    parts: Seq<Pattern>,
    k: int,
    head: usize,
    acc: Seq<NodeView>,
    depth: nat,
)
    requires
        eval_sequence(g, tokens, parts, k, head, acc, depth) != out_of_depth(),
    ensures
        eval_sequence(g, tokens, parts, k, head, acc, depth + 1) == eval_sequence(
            g,
            tokens,
            parts,
            k,
            head,
            acc,
            depth,
        ),
    decreases depth, parts, parts.len() - k,
{
    if 0 <= k < parts.len() {
        lemma_one_deeper(g, tokens, parts[k], head, depth);
        if let Outcome::Matched(h, t) = eval(g, tokens, parts[k], head, depth) {
            lemma_sequence_deeper(
                g,
                tokens,
                parts,
                k + 1,
                h,
                crate::ast::ast::hang_from_placeholder_nodes(acc, t),
                depth,
            );
        }
    }
}

proof fn lemma_any_deeper(
    g: Seq<(Symbol, Pattern)>,
    tokens: Seq<Token>,
    parts: Seq<Pattern>,
    k: int,
    head: usize,
    depth: nat,
)
    requires
        eval_any(g, tokens, parts, k, head, depth) != out_of_depth(),
    ensures
        eval_any(g, tokens, parts, k, head, depth + 1) == eval_any(g, tokens, parts, k, head, depth),
    decreases depth, parts, parts.len() - k,
{
    if 0 <= k < parts.len() {
        lemma_one_deeper(g, tokens, parts[k], head, depth);
        if eval(g, tokens, parts[k], head, depth) is NoMatch {
            lemma_any_deeper(g, tokens, parts, k + 1, head, depth);
        }
    }
}

proof fn lemma_star_deeper(
    g: Seq<(Symbol, Pattern)>,
    tokens: Seq<Token>,
    q: Pattern,
    head: usize,
    acc: Seq<NodeView>,
    depth: nat,
)
    requires
        eval_star(g, tokens, q, head, acc, depth) != out_of_depth(),
    ensures
        eval_star(g, tokens, q, head, acc, depth + 1) == eval_star(g, tokens, q, head, acc, depth),
    decreases depth, q, tokens.len() - head + 1,
{
    if head <= tokens.len() {
        lemma_one_deeper(g, tokens, q, head, depth);
        if let Outcome::Matched(h, t) = eval(g, tokens, q, head, depth) {
            if head < h <= tokens.len() {
                lemma_star_deeper(
                    g,
                    tokens,
                    q,
                    h,
                    crate::ast::ast::hang_from_placeholder_nodes(acc, t),
                    depth,
                );
            }
        }
    }
}

/// A match ends between where it started and the end of the tokens.
pub proof fn lemma_match_moves_on(
    g: Seq<(Symbol, Pattern)>,
    tokens: Seq<Token>,
    p: Pattern,
    head: usize,
    depth: nat,
)
    requires
        head <= tokens.len() <= usize::MAX,
    ensures
        eval(g, tokens, p, head, depth) matches Outcome::Matched(h, _) ==> head <= h
            <= tokens.len(),
    decreases depth, p, 0int,
{
    match p {
        Pattern::Token(_) => {},
        Pattern::Symbol(symbol) => {
            if let Some(q) = rule_for(g, symbol) {
                if depth > 0 {
                    lemma_match_moves_on(g, tokens, q, head, (depth - 1) as nat);
                }
            }
        },
        Pattern::Sequence(parts) => {
            lemma_sequence_moves_on(
                g,
                tokens,
                parts,
                0,
                head,
                crate::ast::splice::blank_tree(),
                depth,
            );
        },
        Pattern::Any(parts) => {
            lemma_any_moves_on(g, tokens, parts, 0, head, depth);
        },
        Pattern::Maybe(q) => {
            lemma_match_moves_on(g, tokens, *q, head, depth);
        },
        Pattern::Star(q) => {
            lemma_star_moves_on(g, tokens, *q, head, crate::ast::splice::blank_tree(), depth);
        },
        Pattern::Plus(q) => {
            lemma_star_moves_on(g, tokens, *q, head, crate::ast::splice::blank_tree(), depth);
        },
        Pattern::Discard(q) => {
            lemma_match_moves_on(g, tokens, *q, head, depth);
        },
    }
}

proof fn lemma_sequence_moves_on(
    g: Seq<(Symbol, Pattern)>,
    tokens: Seq<Token>,
    parts: Seq<Pattern>,
    k: int,
    head: usize,
    acc: Seq<NodeView>,
    depth: nat,
)
    requires
        head <= tokens.len() <= usize::MAX,
    ensures
        eval_sequence(g, tokens, parts, k, head, acc, depth) matches Outcome::Matched(h, _)
            ==> head <= h <= tokens.len(),
    decreases depth, parts, parts.len() - k,
{
    if 0 <= k < parts.len() {
        lemma_match_moves_on(g, tokens, parts[k], head, depth);
        if let Outcome::Matched(h, t) = eval(g, tokens, parts[k], head, depth) {
            lemma_sequence_moves_on(
                g,
                tokens,
                parts,
                k + 1,
                h,
                crate::ast::ast::hang_from_placeholder_nodes(acc, t),
                depth,
            );
        }
    }
}

proof fn lemma_any_moves_on(
    g: Seq<(Symbol, Pattern)>,
    tokens: Seq<Token>,
    parts: Seq<Pattern>,
    k: int,
    head: usize,
    depth: nat,
)
    requires
        head <= tokens.len() <= usize::MAX,
    ensures
        eval_any(g, tokens, parts, k, head, depth) matches Outcome::Matched(h, _) ==> head <= h
            <= tokens.len(),
    decreases depth, parts, parts.len() - k,
{
    if 0 <= k < parts.len() {
        lemma_match_moves_on(g, tokens, parts[k], head, depth);
        if eval(g, tokens, parts[k], head, depth) is NoMatch {
            lemma_any_moves_on(g, tokens, parts, k + 1, head, depth);
        }
    }
}

proof fn lemma_star_moves_on(
    g: Seq<(Symbol, Pattern)>,
    tokens: Seq<Token>,
    q: Pattern,
    head: usize,
    acc: Seq<NodeView>,
    depth: nat,
)
    requires
        head <= tokens.len() <= usize::MAX,
    ensures
        eval_star(g, tokens, q, head, acc, depth) matches Outcome::Matched(h, _) ==> head <= h
            <= tokens.len(),
    decreases depth, q, tokens.len() - head + 1,
{
    lemma_match_moves_on(g, tokens, q, head, depth);
    if let Outcome::Matched(h, t) = eval(g, tokens, q, head, depth) {
        if head < h <= tokens.len() {
            lemma_star_moves_on(
                g,
                tokens,
                q,
                h,
                crate::ast::ast::hang_from_placeholder_nodes(acc, t),
                depth,
            );
        }
    }
}

} // verus!
