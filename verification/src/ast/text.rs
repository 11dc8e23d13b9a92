use vstd::prelude::*;
use vstd::string::StringExecFns;

use crate::ast::ast::links_ascend;
use crate::ast::ast::Ast;
use crate::ast::ast::NodeView;
use crate::ast::errors::Error;
use crate::ast::iterators::children_postorder;
use crate::ast::iterators::subtree_postorder;
use crate::grammar::Symbol;
use crate::outline::deeper;
use crate::outline::indent;
use crate::outline::push_indent;
use crate::outline::step_in;
use crate::source::source_file::SourceFile;
use crate::source::source_manager::span_text;
use crate::source::source_manager::SourceManager;
use crate::source::token::debug_quoted;
use crate::source::token::quote;
use crate::source::token::Token;

verus! {

/// A text or the error that ended it.
pub type Text = Result<Seq<char>, Error>;

/// `a`, then `b` if there is no error in `a`.
pub open spec fn chain(a: Text, b: Text) -> Text {
    match a {
        Err(e) => Err(e),
        Ok(x) => match b {
            Err(e) => Err(e),
            Ok(y) => Ok(x + y),
        },
    }
}

/// The lines of the node `n`, which is a node of the arena: for a leaf its
/// token's kind and, one level deeper, the token's text in quotes; for any
/// other node its symbol, with a colon if it has children.
pub open spec fn node_lines(
    nodes: Seq<NodeView>,
    tokens: Seq<Token>,
    files: Seq<SourceFile>,
    n: usize,
    depth: usize,
) -> Text {
    let node = nodes[n as int];
    if node.symbol == Symbol::Lexeme {
        match node.token {
            None => Err(Error::ParserLexemeNodeMissingToken),
            Some(t) => if t >= tokens.len() {
                Err(Error::ParserTokenOutOfBounds)
            } else {
                match span_text(files, tokens[t as int].location) {
                    Err(e) => Err(Error::SourceError(e)),
                    Ok(text) => Ok(
                        indent(depth) + tokens[t as int].lexeme.name_chars() + ":\n"@ + "  "@
                            + indent(depth) + debug_quoted(text) + "\n"@,
                    ),
                }
            },
        }
    } else if node.children.len() == 0 {
        Ok(indent(depth) + node.symbol.name_chars() + "\n"@)
    } else {
        Ok(indent(depth) + node.symbol.name_chars() + ":\n"@)
    }
}

/// The outline of the subtree under `n`: the lines of `n`, then the
/// outlines of its children in order, one level deeper. The first node in
/// this order that cannot be shown ends the outline with its error.
pub open spec fn subtree_text(
    nodes: Seq<NodeView>,
    tokens: Seq<Token>,
    files: Seq<SourceFile>,
    n: usize,
    depth: usize,
) -> Text
    decreases nodes.len() - n, 1int, 0int,
{
    if n >= nodes.len() {
        Err(Error::ParserTreeNodeOutOfBounds)
    } else {
        chain(
            node_lines(nodes, tokens, files, n, depth),
            children_text(nodes, tokens, files, n, 0, deeper(depth)),
        )
    }
}

/// The outlines of the children of `n` from the `k`-th on.
pub open spec fn children_text(
    nodes: Seq<NodeView>,
    tokens: Seq<Token>,
    files: Seq<SourceFile>,
    n: usize,
    k: int,
    depth: usize,
) -> Text
    decreases nodes.len() - n, 0int, nodes[n as int].children.len() - k,
{
    if n < nodes.len() && 0 <= k < nodes[n as int].children.len() {
        let c = nodes[n as int].children[k];
        let first = if n < c < nodes.len() {
            subtree_text(nodes, tokens, files, c, depth)
        } else {
            Err(Error::ParserTreeNodeOutOfBounds)
        };
        chain(first, children_text(nodes, tokens, files, n, k + 1, depth))
    } else {
        Ok(Seq::empty())
    }
}

/// The text of a tree: a line of three dashes, then the outline from the
/// root.
pub open spec fn tree_text(nodes: Seq<NodeView>, tokens: Seq<Token>, files: Seq<SourceFile>) -> Text {
    chain(Ok("---\n"@), subtree_text(nodes, tokens, files, 0, 0))
}

/// `r` is the text of the tree, or the error that ends it.
pub open spec fn is_text_of(
    r: Result<String, Error>,
    nodes: Seq<NodeView>,
    tokens: Seq<Token>,
    files: Seq<SourceFile>,
) -> bool {
    match r {
        Ok(text) => tree_text(nodes, tokens, files) == Ok::<Seq<char>, Error>(text@),
        Err(e) => tree_text(nodes, tokens, files) == Err::<Seq<char>, Error>(e),
    }
}

/// Writing a tree out twice gives the same characters twice, or the same
/// error twice.
pub proof fn text_is_repeatable(
    first: Result<String, Error>,
    second: Result<String, Error>,
    nodes: Seq<NodeView>,
    tokens: Seq<Token>,
    files: Seq<SourceFile>,
)
    requires
        is_text_of(first, nodes, tokens, files),
        is_text_of(second, nodes, tokens, files),
    ensures
        match first {
            Ok(a) => second matches Ok(b) && a@ == b@,
            Err(e) => second == Err::<String, Error>(e),
        },
{
}

/// The outlines of the subtrees that are waiting, last first.
pub open spec fn waiting_text(
    nodes: Seq<NodeView>,
    tokens: Seq<Token>,
    files: Seq<SourceFile>,
    queue: Seq<(usize, usize)>,
) -> Text
    decreases queue.len(),
{
    if queue.len() == 0 {
        Ok(Seq::empty())
    } else {
        chain(
            subtree_text(nodes, tokens, files, queue.last().0, queue.last().1),
            waiting_text(nodes, tokens, files, queue.drop_last()),
        )
    }
}

/// The number of nodes in the subtrees that are waiting.
pub open spec fn waiting_work(nodes: Seq<NodeView>, queue: Seq<(usize, usize)>) -> nat
    decreases queue.len(),
{
    if queue.len() == 0 {
        0
    } else {
        subtree_postorder(nodes, queue.last().0).len() + waiting_work(nodes, queue.drop_last())
    }
}

proof fn lemma_chain_assoc(a: Text, b: Text, c: Text)
    ensures
        chain(chain(a, b), c) == chain(a, chain(b, c)),
{
    if a is Ok && b is Ok && c is Ok {
        assert((a->Ok_0 + b->Ok_0) + c->Ok_0 =~= a->Ok_0 + (b->Ok_0 + c->Ok_0));
    }
}

/// Put the children of `n` on the queue, last first, so that the first is
/// the next to be taken off.
fn push_children(
    queue: &mut Vec<(usize, usize)>,
    children: &Vec<usize>,
    depth: usize,
    Ghost(nodes): Ghost<Seq<NodeView>>,
    Ghost(tokens): Ghost<Seq<Token>>,
    Ghost(files): Ghost<Seq<SourceFile>>,
    Ghost(n): Ghost<usize>,
)
    requires
        links_ascend(nodes),
        n < nodes.len(),
        children@ == nodes[n as int].children,
    ensures
        waiting_text(nodes, tokens, files, final(queue)@) == chain(
            children_text(nodes, tokens, files, n, 0, depth),
            waiting_text(nodes, tokens, files, old(queue)@),
        ),
        waiting_work(nodes, final(queue)@) == children_postorder(nodes, n, 0).len() + waiting_work(
            nodes,
            old(queue)@,
        ),
{
    let mut k: usize = children.len();
    while k > 0
        invariant
            links_ascend(nodes),
            n < nodes.len(),
            children@ == nodes[n as int].children,
            k <= children@.len(),
            waiting_text(nodes, tokens, files, queue@) == chain(
                children_text(nodes, tokens, files, n, k as int, depth),
                waiting_text(nodes, tokens, files, old(queue)@),
            ),
            waiting_work(nodes, queue@) == children_postorder(nodes, n, k as int).len()
                + waiting_work(nodes, old(queue)@),
        decreases k,
    {
        k -= 1;
        let ghost before = queue@;
        let c = children[k];
        queue.push((c, depth));
        proof {
            assert(queue@.drop_last() =~= before);
            assert(n < nodes[n as int].children[k as int]);
            let first = if c < nodes.len() {
                subtree_text(nodes, tokens, files, c, depth)
            } else {
                Err(Error::ParserTreeNodeOutOfBounds)
            };
            assert(subtree_text(nodes, tokens, files, c, depth) == first);
            lemma_chain_assoc(
                first,
                children_text(nodes, tokens, files, n, k + 1, depth),
                waiting_text(nodes, tokens, files, old(queue)@),
            );
        }
    }
}

impl Ast {
    /// Serialize abstract syntax tree with yaml formatting: a line of three
    /// dashes, then the outline of the tree from the root, children after
    /// their parent and one level deeper.
    pub fn to_string(&self, tokens: &[Token], source_manager: &SourceManager) -> (r: Result<
        String,
        Error,
    >)
        requires
            links_ascend(self@),
        ensures
            is_text_of(r, self@, tokens@, source_manager.files@),
    {
        let ghost nodes = self@;
        let ghost files = source_manager.files@;
        let mut buffer = "---\n".to_owned();
        let mut queue: Vec<(usize, usize)> = Vec::new();
        queue.push((0, 0));
        proof {
            assert(queue@.drop_last() =~= Seq::empty());
            assert(queue@.last() == (0usize, 0usize));
            assert(waiting_text(nodes, tokens@, files, queue@.drop_last()) == Ok::<
                Seq<char>,
                Error,
            >(Seq::empty()));
            assert(waiting_text(nodes, tokens@, files, queue@) == chain(
                subtree_text(nodes, tokens@, files, 0, 0),
                Ok(Seq::empty()),
            ));
            if subtree_text(nodes, tokens@, files, 0, 0) is Ok {
                assert(subtree_text(nodes, tokens@, files, 0, 0)->Ok_0 + Seq::<char>::empty()
                    =~= subtree_text(nodes, tokens@, files, 0, 0)->Ok_0);
            }
        }
        while queue.len() > 0
            invariant
                nodes == self@,
                files == source_manager.files@,
                links_ascend(nodes),
                chain(Ok(buffer@), waiting_text(nodes, tokens@, files, queue@)) == tree_text(
                    nodes,
                    tokens@,
                    files,
                ),
            decreases waiting_work(nodes, queue@),
        {
            let ghost before = buffer@;
            let ghost waiting = queue@;
            let top = queue.pop().unwrap();
            let node_id = top.0;
            let depth = top.1;
            let ghost rest = waiting_text(nodes, tokens@, files, queue@);
            assert(waiting_text(nodes, tokens@, files, waiting) == chain(
                subtree_text(nodes, tokens@, files, node_id, depth),
                rest,
            ));
            if node_id >= self.nodes.len() {
                return Err(Error::ParserTreeNodeOutOfBounds);
            }
            let node = &self.nodes[node_id];
            assert(node@ == nodes[node_id as int]);
            push_indent(&mut buffer, depth);
            match node.symbol {
                Symbol::Lexeme => {
                    let index = match node.token {
                        Some(t) => t,
                        None => {
                            return Err(Error::ParserLexemeNodeMissingToken);
                        },
                    };
                    if index >= tokens.len() {
                        return Err(Error::ParserTokenOutOfBounds);
                    }
                    let tok = &tokens[index];
                    let contents = match tok.get_contents(source_manager) {
                        Ok(c) => c,
                        Err(e) => {
                            return Err(Error::SourceError(e));
                        },
                    };
                    buffer.append(tok.lexeme.name());
                    buffer.append(":\n");
                    buffer.append("  ");
                    push_indent(&mut buffer, depth);
                    let quoted = quote(contents.as_str());
                    buffer.append(quoted.as_str());
                    buffer.append("\n");
                },
                _ => {
                    buffer.append(node.symbol.name());
                    if node.children.len() == 0 {
                        buffer.append("\n");
                    } else {
                        buffer.append(":\n");
                    }
                },
            }
            let ghost lines = node_lines(nodes, tokens@, files, node_id, depth);
            assert(lines is Ok && buffer@ =~= before + lines->Ok_0);
            let next = step_in(depth);
            push_children(
                &mut queue,
                &node.children,
                next,
                Ghost(nodes),
                Ghost(tokens@),
                Ghost(files),
                Ghost(node_id),
            );
            proof {
                let below = children_text(nodes, tokens@, files, node_id, 0, next);
                lemma_chain_assoc(lines, below, rest);
                lemma_chain_assoc(Ok(before), lines, chain(below, rest));
                assert(chain(Ok(before), lines) == Ok::<Seq<char>, Error>(buffer@));
            }
        }
        proof {
            assert(buffer@ + Seq::<char>::empty() =~= buffer@);
        }
        Ok(buffer)
    }
}

} // verus!
