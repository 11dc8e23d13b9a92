use vstd::prelude::*;

use crate::ast::annotations::Annotations;
use crate::ast::ast::Ast;
use crate::ast::ast::NodeView;
use crate::grammar::Symbol;
use crate::sema::errors::reports;
use crate::sema::errors::same_shape;
use crate::sema::errors::Error;
use crate::sema::errors::ErrorView;
use crate::sema::errors::Labeled;

verus! {

/// The node at `i` is out of the arena.
pub open spec fn out_of_bounds() -> ErrorView {
    ErrorView::AstError(crate::ast::errors::Error::ParserTreeNodeOutOfBounds)
}

/// `nodes` with the memory id of the node `i` set to `i`.
pub open spec fn with_mem_id(nodes: Seq<NodeView>, i: usize) -> Labeled {
    if i < nodes.len() {
        Labeled {
            nodes: nodes.update(
                i as int,
                NodeView {
                    annotations: Annotations { mem_id: Some(i), ..nodes[i as int].annotations },
                    ..nodes[i as int]
                },
            ),
            error: None,
        }
    } else {
        Labeled { nodes, error: Some(out_of_bounds()) }
    }
}

/// `nodes` with the node `c` marked as read.
pub open spec fn kept(nodes: Seq<NodeView>, c: usize) -> Seq<NodeView> {
    nodes.update(
        c as int,
        NodeView {
            annotations: Annotations { discard: false, ..nodes[c as int].annotations },
            ..nodes[c as int]
        },
    )
}

/// `nodes` with the nodes of `children` from the `k`-th on marked as read,
/// up to the first that is out of the arena.
pub open spec fn keep_all(nodes: Seq<NodeView>, children: Seq<usize>, k: int) -> Labeled
    decreases children.len() - k,
{
    if k < 0 || k >= children.len() {
        Labeled { nodes, error: None }
    } else if children[k] >= nodes.len() {
        Labeled { nodes, error: Some(out_of_bounds()) }
    } else {
        keep_all(kept(nodes, children[k]), children, k + 1)
    }
}

/// `nodes` with the child at `position` of the node `root` marked as read.
pub open spec fn keep_one(nodes: Seq<NodeView>, root: usize, position: int) -> Labeled {
    let node = nodes[root as int];
    if position >= node.children.len() {
        Labeled { nodes, error: Some(ErrorView::AstNodeMissingExpectedChildren(node.symbol)) }
    } else if node.children[position] >= nodes.len() {
        Labeled { nodes, error: Some(out_of_bounds()) }
    } else {
        Labeled { nodes: kept(nodes, node.children[position]), error: None }
    }
}

/// `nodes` with the children of `root` marked whose values `root` reads:
/// all those of a chain, an execution or a redirect target, and the second
/// of a pipe or a redirection.
pub open spec fn with_reads(nodes: Seq<NodeView>, root: usize) -> Labeled {
    if root >= nodes.len() {
        Labeled { nodes, error: Some(out_of_bounds()) }
    } else {
        match nodes[root as int].symbol {
            Symbol::Program => Labeled { nodes, error: None },
            Symbol::ExecChain => keep_all(nodes, nodes[root as int].children, 0),
            Symbol::Exec => keep_all(nodes, nodes[root as int].children, 0),
            Symbol::PipeExec => keep_one(nodes, root, 1),
            Symbol::RedirectExec => keep_one(nodes, root, 1),
            Symbol::RedirectTarget => keep_all(nodes, nodes[root as int].children, 0),
            Symbol::Lexeme => Labeled { nodes, error: None },
            Symbol::_Placeholder => Labeled {
                nodes,
                error: Some(ErrorView::ReceivedPlaceholderSymbol),
            },
        }
    }
}

/// Marking nodes as read changes annotations alone.
pub proof fn lemma_keep_all_shape(nodes: Seq<NodeView>, children: Seq<usize>, k: int)
    ensures
        same_shape(nodes, keep_all(nodes, children, k).nodes),
    decreases children.len() - k,
{
    if 0 <= k < children.len() && children[k] < nodes.len() {
        let next = kept(nodes, children[k]);
        let last = keep_all(next, children, k + 1).nodes;
        lemma_keep_all_shape(next, children, k + 1);
        assert forall|i: int| 0 <= i < nodes.len() implies (#[trigger] nodes[i]).symbol
            == last[i].symbol && nodes[i].children == last[i].children && nodes[i].token
            == last[i].token by {
            assert(next[i].symbol == nodes[i].symbol);
            assert(next[i].symbol == last[i].symbol);
        }
    }
}

/// Mark the memory id of all node values.
pub fn label_mem_id(root: usize, ast: &mut Ast) -> (r: Result<(), Error>)
    ensures
        final(ast)@ == with_mem_id(old(ast)@, root).nodes,
        reports(r, with_mem_id(old(ast)@, root).error),
        same_shape(old(ast)@, final(ast)@),
{
    if root < ast.nodes.len() {
        ast.nodes[root].annotations.mem_id = Some(root);
        assert(ast@ =~= with_mem_id(old(ast)@, root).nodes);
        Ok(())
    } else {
        assert(ast@ =~= old(ast)@);
        Err(Error::AstError(crate::ast::errors::Error::ParserTreeNodeOutOfBounds))
    }
}

/// Mark all the children of `root` as read.
fn mark_all_children(root: usize, ast: &mut Ast) -> (r: Result<(), Error>)
    requires
        root < old(ast)@.len(),
    ensures
        final(ast)@ == keep_all(old(ast)@, old(ast)@[root as int].children, 0).nodes,
        reports(r, keep_all(old(ast)@, old(ast)@[root as int].children, 0).error),
{
    let ghost children = ast@[root as int].children;
    let mut k: usize = 0;
    while k < ast.nodes[root].children.len()
        invariant
            root < ast@.len(),
            ast@.len() == ast.nodes@.len(),
            ast@[root as int].children == children,
            ast.nodes@[root as int].children@ == children,
            old(ast)@[root as int].children == children,
            k <= children.len(),
            keep_all(old(ast)@, children, 0) == keep_all(ast@, children, k as int),
        decreases children.len() - k,
    {
        let c = ast.nodes[root].children[k];
        if c >= ast.nodes.len() {
            return Err(Error::AstError(crate::ast::errors::Error::ParserTreeNodeOutOfBounds));
        }
        let ghost before = ast@;
        ast.nodes[c].annotations.discard = false;
        assert(ast@ =~= kept(before, c));
        k += 1;
    }
    Ok(())
}

/// Mark the child at `child_pos` of `root` as read.
fn mark_child(root: usize, ast: &mut Ast, child_pos: usize) -> (r: Result<(), Error>)
    requires
        root < old(ast)@.len(),
    ensures
        final(ast)@ == keep_one(old(ast)@, root, child_pos as int).nodes,
        reports(r, keep_one(old(ast)@, root, child_pos as int).error),
{
    assert(ast@[root as int] == ast.nodes@[root as int]@);
    if child_pos >= ast.nodes[root].children.len() {
        assert(ast@ =~= old(ast)@);
        return Err(Error::AstNodeMissingExpectedChildren(ast.nodes[root].symbol));
    }
    let pos = ast.nodes[root].children[child_pos];
    if pos >= ast.nodes.len() {
        assert(ast@ =~= old(ast)@);
        return Err(Error::AstError(crate::ast::errors::Error::ParserTreeNodeOutOfBounds));
    }
    ast.nodes[pos].annotations.discard = false;
    assert(ast@ =~= kept(old(ast)@, pos));
    Ok(())
}

/// Mark which nodes have values that get read.
pub fn label_dont_discard(root: usize, ast: &mut Ast) -> (r: Result<(), Error>)
    ensures
        final(ast)@ == with_reads(old(ast)@, root).nodes,
        reports(r, with_reads(old(ast)@, root).error),
        same_shape(old(ast)@, final(ast)@),
{
    if root >= ast.nodes.len() {
        assert(ast@ =~= old(ast)@);
        return Err(Error::AstError(crate::ast::errors::Error::ParserTreeNodeOutOfBounds));
    }
    assert(ast@[root as int] == ast.nodes@[root as int]@);
    proof {
        lemma_keep_all_shape(ast@, ast@[root as int].children, 0);
    }
    let r = match ast.nodes[root].symbol {
        Symbol::Program => Ok(()),
        Symbol::ExecChain => mark_all_children(root, ast),
        Symbol::Exec => mark_all_children(root, ast),
        Symbol::PipeExec => mark_child(root, ast, 1),
        Symbol::RedirectExec => mark_child(root, ast, 1),
        Symbol::RedirectTarget => mark_all_children(root, ast),
        Symbol::Lexeme => Ok(()),
        Symbol::_Placeholder => Err(Error::ReceivedPlaceholderSymbol),
    };
    assert(ast@ =~= with_reads(old(ast)@, root).nodes);
    r
}

} // verus!
