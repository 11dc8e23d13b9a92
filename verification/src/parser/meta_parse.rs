use vstd::prelude::*;

use crate::ast::annotations::Annotations;
use crate::ast::ast::add_child_nodes;
use crate::ast::ast::hang_child_nodes;
use crate::ast::ast::hang_from_placeholder_nodes;
use crate::ast::ast::is_tree;
use crate::ast::ast::Ast;
use crate::ast::ast::AstNode;
use crate::ast::ast::NodeView;
use crate::ast::splice::blank_tree;
use crate::ast::splice::claimed;
use crate::ast::splice::is_forest;
use crate::ast::splice::leaf_node;
use crate::ast::splice::leaves_sound;
use crate::ast::splice::lemma_claimed_tree;
use crate::ast::splice::lemma_hang_child_under_blank;
use crate::ast::splice::lemma_hang_from_placeholder_tree;
use crate::ast::splice::lemma_single_node;
use crate::ast::splice::no_placeholder;
use crate::grammar::Lexeme;
use crate::grammar::Symbol;
use crate::parser::errors::Error;
use crate::parser::meta_parse_rule::unfolds_to;
use crate::parser::meta_parse_rule::Block;
use crate::parser::meta_parse_rule::Pattern;
use crate::parser::meta_parse_rule::Rule;
use crate::parser::parser::rule_for;
use crate::parser::parser::Parser;
use crate::source::token::Token;

verus! {

/// How matching a pattern at a place in the token stream ends.
pub enum Outcome {
    /// The grammar or the engine is at fault; the parse is over.
    Failed(Error),
    /// The pattern does not match here.
    NoMatch,
    /// The pattern matches up to the given place, and yields the tree.
    Matched(usize, Seq<NodeView>),
}

/// The outcome that a result of the interpreter stands for.
pub open spec fn outcome_of(r: Result<Option<(usize, Ast)>, Error>) -> Outcome {
    match r {
        Err(e) => Outcome::Failed(e),
        Ok(None) => Outcome::NoMatch,
        Ok(Some((head, ast))) => Outcome::Matched(head, ast@),
    }
}

/// Matching `p` at `head`. Choices are ordered and final, repetition is
/// greedy. `depth` is how many rules may still be entered one within the
/// other.
pub open spec fn eval(
    g: Seq<(Symbol, Pattern)>,
    tokens: Seq<Token>,
    p: Pattern,
    head: usize,
    depth: nat,
) -> Outcome
    decreases depth, p, 0int,
{
    match p {
        Pattern::Token(lexeme) => if head < tokens.len() && tokens[head as int].lexeme == lexeme {
            Outcome::Matched((head + 1) as usize, add_child_nodes(blank_tree(), leaf_node(head)))
        } else {
            Outcome::NoMatch
        },
        Pattern::Symbol(symbol) => match rule_for(g, symbol) {
            None => Outcome::Failed(Error::ParserTriedToBuildSymbolWithNoRule(symbol)),
            Some(q) => if depth == 0 {
                Outcome::Failed(Error::ParserRecursionLimit)
            } else {
                match eval(g, tokens, q, head, (depth - 1) as nat) {
                    Outcome::Matched(h, t) => if symbol == Symbol::_Placeholder {
                        Outcome::Failed(
                            Error::AstError(crate::ast::errors::Error::ParserReceivedPlaceholder),
                        )
                    } else {
                        Outcome::Matched(h, hang_child_nodes(blank_tree(), claimed(t, symbol)))
                    },
                    other => other,
                }
            },
        },
        Pattern::Sequence(parts) => eval_sequence(g, tokens, parts, 0, head, blank_tree(), depth),
        Pattern::Any(parts) => eval_any(g, tokens, parts, 0, head, depth),
        Pattern::Maybe(q) => match eval(g, tokens, *q, head, depth) {
            Outcome::NoMatch => Outcome::Matched(head, blank_tree()),
            other => other,
        },
        Pattern::Star(q) => eval_star(g, tokens, *q, head, blank_tree(), depth),
        Pattern::Plus(q) => match eval_star(g, tokens, *q, head, blank_tree(), depth) {
            Outcome::Matched(h, t) => if t.len() > 1 {
                Outcome::Matched(h, t)
            } else {
                Outcome::NoMatch
            },
            other => other,
        },
        Pattern::Discard(q) => match eval(g, tokens, *q, head, depth) {
            Outcome::Matched(h, _) => Outcome::Matched(h, blank_tree()),
            other => other,
        },
    }
}

/// Matching the parts of a sequence from the `k`-th on, one after the
/// other; `acc` holds what the earlier parts yielded.
pub open spec fn eval_sequence(
    g: Seq<(Symbol, Pattern)>,
    tokens: Seq<Token>,
    parts: Seq<Pattern>,
    k: int,
    head: usize,
    acc: Seq<NodeView>,
    depth: nat,
) -> Outcome
    decreases depth, parts, parts.len() - k,
{
    if k < 0 || k >= parts.len() {
        Outcome::Matched(head, acc)
    } else {
        match eval(g, tokens, parts[k], head, depth) {
            Outcome::Matched(h, t) => eval_sequence(
                g,
                tokens,
                parts,
                k + 1,
                h,
                hang_from_placeholder_nodes(acc, t),
                depth,
            ),
            other => other,
        }
    }
}

/// Matching the first of the alternatives from the `k`-th on that matches.
pub open spec fn eval_any(
    g: Seq<(Symbol, Pattern)>,
    tokens: Seq<Token>,
    parts: Seq<Pattern>,
    k: int,
    head: usize,
    depth: nat,
) -> Outcome
    decreases depth, parts, parts.len() - k,
{
    if k < 0 || k >= parts.len() {
        Outcome::NoMatch
    } else {
        match eval(g, tokens, parts[k], head, depth) {
            Outcome::NoMatch => eval_any(g, tokens, parts, k + 1, head, depth),
            other => other,
        }
    }
}

/// Matching `q` again and again, as long as it matches and moves on; `acc`
/// holds what the earlier rounds yielded. A round that matches without
/// moving on ends the repetition and is not kept.
pub open spec fn eval_star(
    g: Seq<(Symbol, Pattern)>,
    tokens: Seq<Token>,
    q: Pattern,
    head: usize,
    acc: Seq<NodeView>,
    depth: nat,
) -> Outcome
    decreases depth, q, tokens.len() - head + 1,
{
    if head > tokens.len() {
        Outcome::Matched(head, acc)
    } else {
        match eval(g, tokens, q, head, depth) {
            Outcome::Failed(e) => Outcome::Failed(e),
            Outcome::NoMatch => Outcome::Matched(head, acc),
            Outcome::Matched(h, t) => if head < h <= tokens.len() {
                eval_star(g, tokens, q, h, hang_from_placeholder_nodes(acc, t), depth)
            } else {
                Outcome::Matched(head, acc)
            },
        }
    }
}

/// Matching the rule of a symbol: its pattern, and on a match the root of
/// the tree claimed for the symbol.
pub open spec fn eval_rule(
    g: Seq<(Symbol, Pattern)>,
    tokens: Seq<Token>,
    target: Symbol,
    q: Pattern,
    head: usize,
    depth: nat,
) -> Outcome {
    match eval(g, tokens, q, head, depth) {
        Outcome::Matched(h, t) => Outcome::Matched(h, claimed(t, target)),
        other => other,
    }
}

/// How many rules a parse of `tokens` tokens may enter one within the
/// other: more than any grammar of `rules` rules without left recursion
/// does.
pub open spec fn depth_budget(rules: nat, tokens: nat) -> nat {
    if (tokens + 1) * (rules + 1) <= usize::MAX {
        (tokens + 1) * (rules + 1)
    } else {
        usize::MAX as nat
    }
}

/// What a parse returns: the tree of the entry symbol if its rule matches
/// all the tokens, else why there is none.
pub open spec fn parse_result(
    g: Seq<(Symbol, Pattern)>,
    entry: Symbol,
    tokens: Seq<Token>,
) -> Result<Seq<NodeView>, Error> {
    match rule_for(g, entry) {
        None => Err(Error::ParserTriedToBuildSymbolWithNoRule(entry)),
        Some(q) => match eval_rule(g, tokens, entry, q, 0, depth_budget(g.len(), tokens.len())) {
            Outcome::Failed(e) => Err(e),
            Outcome::NoMatch => Err(Error::ParserCouldNotParseProgram),
            Outcome::Matched(h, t) => if h == tokens.len() {
                Ok(t)
            } else if h < tokens.len() {
                Err(Error::ParserUnexpectedToken(tokens[h as int]))
            } else {
                Err(Error::ParserHeadPastLastToken)
            },
        },
    }
}

/// A match ends between `head` and the end of the tokens, and yields a
/// tree under a placeholder.
pub open spec fn in_shape(
    outcome: Outcome,
    head: usize,
    tokens: Seq<Token>,
    g: Seq<(Symbol, Pattern)>,
) -> bool {
    outcome matches Outcome::Matched(h, t) ==> head <= h <= tokens.len() && is_forest(t)
        && leaves_sound(t, tokens.len() as int, no_rule_for_leaves(g))
}

/// The grammar has no rule for the symbol of the leaves, so that every
/// node of that symbol stands for a token.
pub open spec fn no_rule_for_leaves(g: Seq<(Symbol, Pattern)>) -> bool {
    rule_for(g, Symbol::Lexeme) is None
}

/// A rule matched and its tree was claimed for `target`: the match ends
/// between `head` and the end of the tokens, and yields a tree whose root
/// is a `target` and which has no placeholder below the root.
pub open spec fn in_claimed_shape(
    outcome: Outcome,
    target: Symbol,
    head: usize,
    tokens: Seq<Token>,
    g: Seq<(Symbol, Pattern)>,
) -> bool {
    outcome matches Outcome::Matched(h, t) ==> head <= h <= tokens.len() && is_tree(t)
        && t[0].symbol == target && leaves_sound(t, tokens.len() as int, no_rule_for_leaves(g))
        && forall|i: int| 0 < i < t.len() ==> (#[trigger] t[i]).symbol != Symbol::_Placeholder
}

/// The tree of one placeholder.
fn blank() -> (ast: Ast)
    ensures
        ast@ == blank_tree(),
        is_forest(ast@),
        forall|count: int, strict: bool| #[trigger] leaves_sound(ast@, count, strict),
{
    let mut nodes: Vec<AstNode> = Vec::new();
    nodes.push(
        AstNode {
            symbol: Symbol::_Placeholder,
            children: Vec::new(),
            token: None,
            annotations: Annotations::new(),
        },
    );
    let ast = Ast { nodes };
    proof {
        assert(ast@ =~= blank_tree());
        lemma_single_node(crate::ast::splice::blank_node());
    }
    ast
}

/// Hang the subtrees of `more` under the root of `acc`.
fn splice(acc: Ast, more: Ast, Ghost(count): Ghost<int>, Ghost(strict): Ghost<bool>) -> (r: Ast)
    requires
        is_forest(acc@),
        is_forest(more@),
        leaves_sound(acc@, count, strict),
        leaves_sound(more@, count, strict),
    ensures
        r@ == hang_from_placeholder_nodes(acc@, more@),
        is_forest(r@),
        leaves_sound(r@, count, strict),
{
    match acc.hang_from_placeholder(more) {
        Ok(tree) => {
            proof {
                assert(tree.nodes.len() == tree@.len());
                lemma_hang_from_placeholder_tree(acc@, more@);
                assert forall|i: int| 0 <= i < tree@.len() implies crate::ast::splice::leaf_or_inner(
                    #[trigger] tree@[i],
                    count,
                    strict,
                ) by {
                    if i == 0 {
                        assert(crate::ast::splice::leaf_or_inner(acc@[0], count, strict));
                    } else if i < acc@.len() {
                        assert(crate::ast::splice::leaf_or_inner(acc@[i], count, strict));
                    } else {
                        assert(crate::ast::splice::leaf_or_inner(
                            more@[i - acc@.len() + 1],
                            count,
                            strict,
                        ));
                    }
                }
            }
            tree
        },
        Err(_) => {
            proof {
                assert(false);
            }
            blank()
        },
    }
}

impl Parser {
    /// Attempt to parse an egg program to a syntax tree.
    pub fn parse(&mut self, tokens: &[Token]) -> (r: Result<Ast, Error>)
        requires
            old(self).well_formed(),
        ensures
            *final(self) == *old(self),
            match r {
                Ok(ast) => parse_result(old(self).grammar(), old(self).entry, tokens@) == Ok::<
                    Seq<NodeView>,
                    Error,
                >(ast@),
                Err(e) => parse_result(old(self).grammar(), old(self).entry, tokens@) == Err::<
                    Seq<NodeView>,
                    Error,
                >(e),
            },
            r matches Ok(ast) ==> is_tree(ast@) && ast@[0].symbol == old(self).entry && (old(
                self,
            ).entry != Symbol::_Placeholder ==> no_placeholder(ast@)) && leaves_sound(
                ast@,
                tokens@.len() as int,
                no_rule_for_leaves(old(self).grammar()),
            ),
            r matches Err(e) ==> e != Error::ParserHeadPastLastToken,
    {
        let count = tokens.len();
        let rules = self.rules.len();
        let depth = if count < usize::MAX && rules < usize::MAX {
            match (count + 1).checked_mul(rules + 1) {
                Some(d) => d,
                None => usize::MAX,
            }
        } else {
            usize::MAX
        };
        assert(depth == depth_budget(self.grammar().len(), tokens@.len())) by (nonlinear_arith)
            requires
                count == tokens@.len(),
                rules == self.grammar().len(),
                depth == if count < usize::MAX && rules < usize::MAX {
                    if (count + 1) * (rules + 1) <= usize::MAX {
                        ((count + 1) * (rules + 1)) as usize
                    } else {
                        usize::MAX
                    }
                } else {
                    usize::MAX
                },
        ;
        let entry = self.entry;
        match self.find_rule(entry) {
            None => Err(Error::ParserTriedToBuildSymbolWithNoRule(entry)),
            Some(i) => {
                match self.meta_parse(entry, &self.rules[i].1, 0, tokens, depth) {
                    Err(e) => Err(e),
                    Ok(None) => Err(Error::ParserCouldNotParseProgram),
                    Ok(Some((head, ast))) => {
                        if head == count {
                            Ok(ast)
                        } else if head < count {
                            Err(Error::ParserUnexpectedToken(tokens[head]))
                        } else {
                            Err(Error::ParserHeadPastLastToken)
                        }
                    },
                }
            },
        }
    }

    /// Match a rule, and claim the tree of a match for `target`.
    fn meta_parse(
        &self,
        target: Symbol,
        rule: &Rule,
        parser_head: usize,
        tokens: &[Token],
        depth: usize,
    ) -> (r: Result<Option<(usize, Ast)>, Error>)
        requires
            self.well_formed(),
            rule.well_formed(),
            rule_for(self.grammar(), target) is Some,
            parser_head <= tokens@.len(),
        ensures
            outcome_of(r) == eval_rule(
                self.grammar(),
                tokens@,
                target,
                rule@,
                parser_head,
                depth as nat,
            ),
            in_claimed_shape(outcome_of(r), target, parser_head, tokens@, self.grammar()),
            r matches Err(e) ==> e != Error::ParserHeadPastLastToken,
        decreases depth, rule@, 3int,
    {
        proof {
            rule.lemma_pattern(choose|p: Pattern| unfolds_to(rule.arena(), rule.root as int, p));
        }
        match self.meta_parse_helper(rule, rule.root, parser_head, tokens, depth, Ghost(rule@)) {
            Err(e) => Err(e),
            Ok(None) => Ok(None),
            Ok(Some((new_head, ast))) => {
                let ghost found = ast@;
                let mut ast = ast;
                ast.nodes[0].symbol = target;
                proof {
                    assert(ast@ =~= claimed(found, target));
                    lemma_claimed_tree(found, target);
                    assert forall|i: int| 0 <= i < ast@.len() implies crate::ast::splice::leaf_or_inner(
                        #[trigger] ast@[i],
                        tokens@.len() as int,
                        no_rule_for_leaves(self.grammar()),
                    ) by {
                        assert(crate::ast::splice::leaf_or_inner(
                            found[i],
                            tokens@.len() as int,
                            no_rule_for_leaves(self.grammar()),
                        ));
                    }
                }
                Ok(Some((new_head, ast)))
            },
        }
    }

    /// Match the block `rule_head` of `rule`, which unfolds to `p`.
    fn meta_parse_helper(
        &self,
        rule: &Rule,
        rule_head: usize,
        parser_head: usize,
        tokens: &[Token],
        depth: usize,
        Ghost(p): Ghost<Pattern>,
    ) -> (r: Result<Option<(usize, Ast)>, Error>)
        requires
            self.well_formed(),
            unfolds_to(rule.arena(), rule_head as int, p),
            parser_head <= tokens@.len(),
        ensures
            outcome_of(r) == eval(self.grammar(), tokens@, p, parser_head, depth as nat),
            in_shape(outcome_of(r), parser_head, tokens@, self.grammar()),
            r matches Err(e) ==> e != Error::ParserHeadPastLastToken,
        decreases depth, p, 2int,
    {
        assert(rule.arena()[rule_head as int] == rule.blocks@[rule_head as int]@);
        match &rule.blocks[rule_head] {
            Block::Symbol(symbol) => self.meta_parse_symbol(*symbol, parser_head, tokens, depth),
            Block::Token(lexeme) => self.meta_parse_token(*lexeme, parser_head, tokens),
            Block::_Sequence(children) => self.meta_parse_sequence(
                rule,
                children,
                parser_head,
                tokens,
                depth,
                Ghost(p->Sequence_0),
            ),
            Block::_Any(children) => self.meta_parse_any(
                rule,
                children,
                parser_head,
                tokens,
                depth,
                Ghost(p->Any_0),
            ),
            Block::_Maybe(child) => self.meta_parse_maybe(
                rule,
                *child,
                parser_head,
                tokens,
                depth,
                Ghost(*p->Maybe_0),
            ),
            Block::_Star(child) => self.meta_parse_star(
                rule,
                *child,
                parser_head,
                tokens,
                depth,
                Ghost(*p->Star_0),
            ),
            Block::_Plus(child) => self.meta_parse_plus(
                rule,
                *child,
                parser_head,
                tokens,
                depth,
                Ghost(*p->Plus_0),
            ),
            Block::_Discard(child) => self.meta_parse_discard(
                rule,
                *child,
                parser_head,
                tokens,
                depth,
                Ghost(*p->Discard_0),
            ),
        }
    }

    /// Match the rule of a symbol, and hang its tree under a placeholder.
    fn meta_parse_symbol(&self, symbol: Symbol, head: usize, tokens: &[Token], depth: usize) -> (r:
        Result<Option<(usize, Ast)>, Error>)
        requires
            self.well_formed(),
            head <= tokens@.len(),
        ensures
            outcome_of(r) == eval(
                self.grammar(),
                tokens@,
                Pattern::Symbol(symbol),
                head,
                depth as nat,
            ),
            in_shape(outcome_of(r), head, tokens@, self.grammar()),
            r matches Err(e) ==> e != Error::ParserHeadPastLastToken,
        decreases depth, Pattern::Symbol(symbol), 1int,
    {
        let ast = blank();
        match self.find_rule(symbol) {
            None => Err(Error::ParserTriedToBuildSymbolWithNoRule(symbol)),
            Some(i) => {
                if depth == 0 {
                    return Err(Error::ParserRecursionLimit);
                }
                match self.meta_parse(symbol, &self.rules[i].1, head, tokens, depth - 1) {
                    Err(e) => Err(e),
                    Ok(None) => Ok(None),
                    Ok(Some((new_head, child_ast))) => {
                        match ast.hang_child(child_ast) {
                            Ok(tree) => {
                                proof {
                                    assert(tree.nodes.len() == tree@.len());
                                    lemma_hang_child_under_blank(child_ast@);
                                    assert forall|i: int|
                                        0 <= i < tree@.len() implies crate::ast::splice::leaf_or_inner(
                                        #[trigger] tree@[i],
                                        tokens@.len() as int,
                                        no_rule_for_leaves(self.grammar()),
                                    ) by {
                                        if i > 0 {
                                            assert(crate::ast::splice::leaf_or_inner(
                                                child_ast@[i - 1],
                                                tokens@.len() as int,
                                                no_rule_for_leaves(self.grammar()),
                                            ));
                                        }
                                    }
                                }
                                Ok(Some((new_head, tree)))
                            },
                            Err(e) => Err(Error::AstError(e)),
                        }
                    },
                }
            },
        }
    }

    /// Match the parts of a sequence one after the other, and gather what
    /// they yield under one placeholder.
    fn meta_parse_sequence(
        &self,
        rule: &Rule,
        children: &Vec<usize>,
        head: usize,
        tokens: &[Token],
        depth: usize,
        Ghost(parts): Ghost<Seq<Pattern>>,
    ) -> (r: Result<Option<(usize, Ast)>, Error>)
        requires
            self.well_formed(),
            children@.len() == parts.len(),
            forall|k: int|
                0 <= k < parts.len() ==> unfolds_to(
                    rule.arena(),
                    #[trigger] children@[k] as int,
                    parts[k],
                ),
            head <= tokens@.len(),
        ensures
            outcome_of(r) == eval_sequence(
                self.grammar(),
                tokens@,
                parts,
                0,
                head,
                blank_tree(),
                depth as nat,
            ),
            in_shape(outcome_of(r), head, tokens@, self.grammar()),
            r matches Err(e) ==> e != Error::ParserHeadPastLastToken,
        decreases depth, parts, 1int,
    {
        let mut new_head = head;
        let mut ast = blank();
        let mut k: usize = 0;
        while k < children.len()
            invariant
                self.well_formed(),
                k <= children@.len(),
                children@.len() == parts.len(),
                forall|i: int|
                    0 <= i < parts.len() ==> unfolds_to(
                        rule.arena(),
                        #[trigger] children@[i] as int,
                        parts[i],
                    ),
                head <= new_head <= tokens@.len(),
                is_forest(ast@),
                leaves_sound(ast@, tokens@.len() as int, no_rule_for_leaves(self.grammar())),
                eval_sequence(
                    self.grammar(),
                    tokens@,
                    parts,
                    0,
                    head,
                    blank_tree(),
                    depth as nat,
                ) == eval_sequence(
                    self.grammar(),
                    tokens@,
                    parts,
                    k as int,
                    new_head,
                    ast@,
                    depth as nat,
                ),
            decreases children@.len() - k,
        {
            match self.meta_parse_helper(
                rule,
                children[k],
                new_head,
                tokens,
                depth,
                Ghost(parts[k as int]),
            ) {
                Err(e) => {
                    return Err(e);
                },
                Ok(None) => {
                    return Ok(None);
                },
                Ok(Some((next_head, new_ast))) => {
                    new_head = next_head;
                    ast = splice(
                        ast,
                        new_ast,
                        Ghost(tokens@.len() as int),
                        Ghost(no_rule_for_leaves(self.grammar())),
                    );
                },
            }
            k += 1;
        }
        Ok(Some((new_head, ast)))
    }

    /// Match the first alternative that matches.
    fn meta_parse_any(
        &self,
        rule: &Rule,
        options: &Vec<usize>,
        head: usize,
        tokens: &[Token],
        depth: usize,
        Ghost(parts): Ghost<Seq<Pattern>>,
    ) -> (r: Result<Option<(usize, Ast)>, Error>)
        requires
            self.well_formed(),
            options@.len() == parts.len(),
            forall|k: int|
                0 <= k < parts.len() ==> unfolds_to(
                    rule.arena(),
                    #[trigger] options@[k] as int,
                    parts[k],
                ),
            head <= tokens@.len(),
        ensures
            outcome_of(r) == eval_any(self.grammar(), tokens@, parts, 0, head, depth as nat),
            in_shape(outcome_of(r), head, tokens@, self.grammar()),
            r matches Err(e) ==> e != Error::ParserHeadPastLastToken,
        decreases depth, parts, 1int,
    {
        let mut k: usize = 0;
        while k < options.len()
            invariant
                self.well_formed(),
                k <= options@.len(),
                options@.len() == parts.len(),
                forall|i: int|
                    0 <= i < parts.len() ==> unfolds_to(
                        rule.arena(),
                        #[trigger] options@[i] as int,
                        parts[i],
                    ),
                head <= tokens@.len(),
                eval_any(self.grammar(), tokens@, parts, 0, head, depth as nat) == eval_any(
                    self.grammar(),
                    tokens@,
                    parts,
                    k as int,
                    head,
                    depth as nat,
                ),
            decreases options@.len() - k,
        {
            match self.meta_parse_helper(
                rule,
                options[k],
                head,
                tokens,
                depth,
                Ghost(parts[k as int]),
            ) {
                Err(e) => {
                    return Err(e);
                },
                Ok(Some((new_head, ast))) => {
                    return Ok(Some((new_head, ast)));
                },
                Ok(None) => {},
            }
            k += 1;
        }
        Ok(None)
    }

    /// Match the block if it matches, and nothing if it does not.
    fn meta_parse_maybe(
        &self,
        rule: &Rule,
        child: usize,
        head: usize,
        tokens: &[Token],
        depth: usize,
        Ghost(q): Ghost<Pattern>,
    ) -> (r: Result<Option<(usize, Ast)>, Error>)
        requires
            self.well_formed(),
            unfolds_to(rule.arena(), child as int, q),
            head <= tokens@.len(),
        ensures
            outcome_of(r) == eval(
                self.grammar(),
                tokens@,
                Pattern::Maybe(Box::new(q)),
                head,
                depth as nat,
            ),
            in_shape(outcome_of(r), head, tokens@, self.grammar()),
            r matches Err(e) ==> e != Error::ParserHeadPastLastToken,
        decreases depth, q, 3int,
    {
        match self.meta_parse_helper(rule, child, head, tokens, depth, Ghost(q)) {
            Err(e) => Err(e),
            Ok(Some(found)) => Ok(Some(found)),
            Ok(None) => Ok(Some((head, blank()))),
        }
    }

    /// Match the block as often as it matches and moves on, and gather
    /// what the rounds yield under one placeholder.
    fn meta_parse_star(
        &self,
        rule: &Rule,
        child: usize,
        head: usize,
        tokens: &[Token],
        depth: usize,
        Ghost(q): Ghost<Pattern>,
    ) -> (r: Result<Option<(usize, Ast)>, Error>)
        requires
            self.well_formed(),
            unfolds_to(rule.arena(), child as int, q),
            head <= tokens@.len(),
        ensures
            outcome_of(r) == eval_star(
                self.grammar(),
                tokens@,
                q,
                head,
                blank_tree(),
                depth as nat,
            ),
            in_shape(outcome_of(r), head, tokens@, self.grammar()),
            r matches Err(e) ==> e != Error::ParserHeadPastLastToken,
        decreases depth, q, 3int,
    {
        let mut new_head = head;
        let mut ast = blank();
        loop
            invariant
                self.well_formed(),
                unfolds_to(rule.arena(), child as int, q),
                head <= new_head <= tokens@.len(),
                is_forest(ast@),
                leaves_sound(ast@, tokens@.len() as int, no_rule_for_leaves(self.grammar())),
                eval_star(self.grammar(), tokens@, q, head, blank_tree(), depth as nat)
                    == eval_star(self.grammar(), tokens@, q, new_head, ast@, depth as nat),
            decreases tokens@.len() - new_head,
        {
            match self.meta_parse_helper(rule, child, new_head, tokens, depth, Ghost(q)) {
                Err(e) => {
                    return Err(e);
                },
                Ok(None) => {
                    return Ok(Some((new_head, ast)));
                },
                Ok(Some((next_head, new_ast))) => {
                    if next_head > new_head {
                        new_head = next_head;
                        ast = splice(
                        ast,
                        new_ast,
                        Ghost(tokens@.len() as int),
                        Ghost(no_rule_for_leaves(self.grammar())),
                    );
                    } else {
                        return Ok(Some((new_head, ast)));
                    }
                },
            }
        }
    }

    /// Match the block as `meta_parse_star` does, but fail if nothing was
    /// gathered.
    fn meta_parse_plus(
        &self,
        rule: &Rule,
        child: usize,
        head: usize,
        tokens: &[Token],
        depth: usize,
        Ghost(q): Ghost<Pattern>,
    ) -> (r: Result<Option<(usize, Ast)>, Error>)
        requires
            self.well_formed(),
            unfolds_to(rule.arena(), child as int, q),
            head <= tokens@.len(),
        ensures
            outcome_of(r) == eval(
                self.grammar(),
                tokens@,
                Pattern::Plus(Box::new(q)),
                head,
                depth as nat,
            ),
            in_shape(outcome_of(r), head, tokens@, self.grammar()),
            r matches Err(e) ==> e != Error::ParserHeadPastLastToken,
        decreases depth, q, 4int,
    {
        match self.meta_parse_star(rule, child, head, tokens, depth, Ghost(q)) {
            Err(e) => Err(e),
            Ok(None) => Ok(None),
            Ok(Some((new_head, new_ast))) => {
                if new_ast.nodes.len() > 1 {
                    Ok(Some((new_head, new_ast)))
                } else {
                    Ok(None)
                }
            },
        }
    }

    /// Ensures a match exists for rule, but returns an empty _placeholder tree.
    fn meta_parse_discard(
        &self,
        rule: &Rule,
        child: usize,
        head: usize,
        tokens: &[Token],
        depth: usize,
        Ghost(q): Ghost<Pattern>,
    ) -> (r: Result<Option<(usize, Ast)>, Error>)
        requires
            self.well_formed(),
            unfolds_to(rule.arena(), child as int, q),
            head <= tokens@.len(),
        ensures
            outcome_of(r) == eval(
                self.grammar(),
                tokens@,
                Pattern::Discard(Box::new(q)),
                head,
                depth as nat,
            ),
            in_shape(outcome_of(r), head, tokens@, self.grammar()),
            r matches Err(e) ==> e != Error::ParserHeadPastLastToken,
        decreases depth, q, 3int,
    {
        match self.meta_parse_helper(rule, child, head, tokens, depth, Ghost(q)) {
            Err(e) => Err(e),
            Ok(None) => Ok(None),
            Ok(Some((new_head, _))) => Ok(Some((new_head, blank()))),
        }
    }

    /// Return an AST for a lexeme.
    fn meta_parse_token(&self, lexeme: Lexeme, head: usize, tokens: &[Token]) -> (r: Result<
        Option<(usize, Ast)>,
        Error,
    >)
        requires
            head <= tokens@.len(),
        ensures
            forall|depth: nat|
                outcome_of(r) == #[trigger] eval(
                    self.grammar(),
                    tokens@,
                    Pattern::Token(lexeme),
                    head,
                    depth,
                ),
            in_shape(outcome_of(r), head, tokens@, self.grammar()),
            r is Ok,
    {
        let count = tokens.len();
        if self.recognize_token(lexeme, head, tokens) {
            match blank().add_child(self.token_to_node(head)) {
                Ok(tree) => {
                    proof {
                        assert(tree.nodes.len() == tree@.len());
                        lemma_single_node(leaf_node(head));
                        assert(crate::arena::shift_ids(leaf_node(head).children, 1)
                            =~= leaf_node(head).children);
                        assert(crate::ast::ast::shift_nodes(seq![leaf_node(head)], 1)
                            =~= seq![leaf_node(head)]);
                        assert(add_child_nodes(blank_tree(), leaf_node(head)) =~= hang_child_nodes(
                            blank_tree(),
                            seq![leaf_node(head)],
                        ));
                        lemma_hang_child_under_blank(seq![leaf_node(head)]);
                        assert forall|i: int| 0 <= i < tree@.len() implies crate::ast::splice::leaf_or_inner(
                            #[trigger] tree@[i],
                            tokens@.len() as int,
                            no_rule_for_leaves(self.grammar()),
                        ) by {
                            if i > 0 {
                                assert(tree@[i].token == leaf_node(head).token);
                            }
                        }
                    }
                    Ok(Some((head + 1, tree)))
                },
                Err(e) => Err(Error::AstError(e)),
            }
        } else {
            Ok(None)
        }
    }

    /// Build a SyntaxTreeNode object from the token at head.
    fn token_to_node(&self, head: usize) -> (node: AstNode)
        ensures
            node@ == leaf_node(head),
    {
        AstNode {
            symbol: Symbol::Lexeme,
            children: Vec::new(),
            token: Some(head),
            annotations: Annotations::new(),
        }
    }

    /// Check if the token at head has the given lexeme.
    fn recognize_token(&self, lexeme: Lexeme, head: usize, tokens: &[Token]) -> (r: bool)
        ensures
            r == (head < tokens@.len() && tokens@[head as int].lexeme == lexeme),
    {
        if head < tokens.len() {
            tokens[head].lexeme == lexeme
        } else {
            false
        }
    }
}

} // verus!
