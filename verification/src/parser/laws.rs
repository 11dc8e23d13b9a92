use vstd::prelude::*;

use crate::ast::ast::add_child_nodes;
use crate::ast::ast::hang_from_placeholder_nodes;
use crate::ast::ast::NodeView;
use crate::ast::splice::blank_node;
use crate::ast::splice::blank_tree;
use crate::ast::splice::leaf_node;
use crate::grammar::Lexeme;
use crate::grammar::Symbol;
use crate::parser::meta_parse::eval;
use crate::parser::meta_parse::eval_sequence;
use crate::parser::meta_parse::Outcome;
use crate::parser::meta_parse_rule::Pattern;
use crate::source::token::Token;

verus! {

/// The tree of three leaves under one placeholder, for the tokens from
/// `head` on.
pub open spec fn three_leaves(head: usize) -> Seq<NodeView> {
    seq![
        NodeView { children: seq![1usize, 2usize, 3usize], ..blank_node() },
        leaf_node(head),
        leaf_node((head + 1) as usize),
        leaf_node((head + 2) as usize),
    ]
}

/// A sequence of three tokens that matches yields three leaves side by
/// side under one parent, and no chain of parents with one child each.
pub proof fn sequence_of_tokens_is_flat(
    g: Seq<(Symbol, Pattern)>,
    tokens: Seq<Token>,
    a: Lexeme,
    b: Lexeme,
    c: Lexeme,
    head: usize,
    depth: nat,
)
    requires
        head + 3 <= tokens.len() <= usize::MAX,
        tokens[head as int].lexeme == a,
        tokens[head + 1].lexeme == b,
        tokens[head + 2].lexeme == c,
    ensures
        eval(
            g,
            tokens,
            Pattern::Sequence(seq![Pattern::Token(a), Pattern::Token(b), Pattern::Token(c)]),
            head,
            depth,
        ) == Outcome::Matched((head + 3) as usize, three_leaves(head)),
{
    let parts = seq![Pattern::Token(a), Pattern::Token(b), Pattern::Token(c)];
    let one = add_child_nodes(blank_tree(), leaf_node(head));
    let two = add_child_nodes(blank_tree(), leaf_node((head + 1) as usize));
    let three = add_child_nodes(blank_tree(), leaf_node((head + 2) as usize));
    let first = hang_from_placeholder_nodes(blank_tree(), one);
    let second = hang_from_placeholder_nodes(first, two);
    let third = hang_from_placeholder_nodes(second, three);
    assert(one[0].children =~= seq![1usize]);
    assert(two[0].children =~= seq![1usize]);
    assert(three[0].children =~= seq![1usize]);
    assert(first[0].children =~= seq![1usize]);
    assert(first =~= seq![first[0], leaf_node(head)]) by {
        assert(first[1].children =~= leaf_node(head).children);
    }
    assert(second[0].children =~= seq![1usize, 2usize]);
    assert(second.len() == 3);
    assert(second[2].children =~= leaf_node((head + 1) as usize).children);
    assert(third[0].children =~= seq![1usize, 2usize, 3usize]);
    assert(third.len() == 4);
    assert(third[3].children =~= leaf_node((head + 2) as usize).children);
    assert(third =~= three_leaves(head));
    assert(eval_sequence(g, tokens, parts, 3, (head + 3) as usize, third, depth)
        == Outcome::Matched((head + 3) as usize, third));
    assert(eval(g, tokens, parts[2], (head + 2) as usize, depth) == Outcome::Matched(
        (head + 3) as usize,
        three,
    ));
    assert(eval_sequence(g, tokens, parts, 2, (head + 2) as usize, second, depth)
        == Outcome::Matched((head + 3) as usize, third));
    assert(eval(g, tokens, parts[1], (head + 1) as usize, depth) == Outcome::Matched(
        (head + 2) as usize,
        two,
    ));
    assert(eval_sequence(g, tokens, parts, 1, (head + 1) as usize, first, depth)
        == Outcome::Matched((head + 3) as usize, third));
    assert(eval(g, tokens, parts[0], head, depth) == Outcome::Matched((head + 1) as usize, one));
    assert(eval_sequence(g, tokens, parts, 0, head, blank_tree(), depth) == Outcome::Matched(
        (head + 3) as usize,
        third,
    ));
}

/// What is matched under a discard moves the head on and leaves no node:
/// the tree is that of the placeholder alone.
pub proof fn discard_keeps_no_node(
    g: Seq<(Symbol, Pattern)>,
    tokens: Seq<Token>,
    q: Pattern,
    head: usize,
    depth: nat,
)
    ensures
        eval(g, tokens, Pattern::Discard(Box::new(q)), head, depth) == match eval(
            g,
            tokens,
            q,
            head,
            depth,
        ) {
            Outcome::Matched(h, _) => Outcome::Matched(h, blank_tree()),
            other => other,
        },
        blank_tree().len() == 1,
{
}

} // verus!
