use vstd::prelude::*;

use crate::ast::annotations::Annotations;
use crate::ast::ast::has_parent;
use crate::ast::ast::is_child_at;
use crate::ast::ast::is_tree;
use crate::ast::ast::single_parent;
use crate::ast::ast::Ast;
use crate::ast::ast::AstNode;
use crate::ast::ast::NodeView;
use crate::ast::splice::leaf_node;
use crate::grammar::Symbol;

verus! {

/// A node with children and no token, not yet annotated.
pub open spec fn inner_view(symbol: Symbol, children: Seq<usize>) -> NodeView {
    NodeView {
        symbol,
        children,
        token: None,
        annotations: Annotations { mem_id: None, discard: true, type_id: None },
    }
}

/// The nodes of the example tree.
pub open spec fn example_nodes() -> Seq<NodeView> {
    seq![
        inner_view(Symbol::Program, seq![1, 19]),
        inner_view(Symbol::ExecChain, seq![2, 5]),
        inner_view(Symbol::Exec, seq![3, 4]),
        leaf_node(0),
        leaf_node(1),
        inner_view(Symbol::PipeExec, seq![6, 7]),
        leaf_node(2),
        inner_view(Symbol::ExecChain, seq![8, 10]),
        inner_view(Symbol::Exec, seq![9]),
        leaf_node(3),
        inner_view(Symbol::PipeExec, seq![11, 12]),
        leaf_node(4),
        inner_view(Symbol::ExecChain, seq![13, 15]),
        inner_view(Symbol::Exec, seq![14]),
        leaf_node(5),
        inner_view(Symbol::RedirectExec, seq![16, 17]),
        leaf_node(6),
        inner_view(Symbol::RedirectTarget, seq![18]),
        leaf_node(7),
        inner_view(Symbol::ExecChain, seq![20, 23]),
        inner_view(Symbol::Exec, seq![21, 22]),
        leaf_node(9),
        leaf_node(10),
        inner_view(Symbol::RedirectExec, seq![24, 25]),
        leaf_node(11),
        inner_view(Symbol::RedirectTarget, seq![26]),
        leaf_node(12),
    ]
}

/// The example is a tree.
pub proof fn lemma_example_is_tree()
    ensures
        is_tree(example_nodes()),
{
    let view = example_nodes();
    assert forall|i: int, j: int|
        0 <= i < view.len() && 0 <= j < view[i].children.len() implies i < (
        #[trigger] view[i].children[j]) < view.len() by {
    }
    assert(is_child_at(view, 0, 0, 1));
    assert(is_child_at(view, 0, 1, 19));
    assert(is_child_at(view, 1, 0, 2));
    assert(is_child_at(view, 1, 1, 5));
    assert(is_child_at(view, 2, 0, 3));
    assert(is_child_at(view, 2, 1, 4));
    assert(is_child_at(view, 5, 0, 6));
    assert(is_child_at(view, 5, 1, 7));
    assert(is_child_at(view, 7, 0, 8));
    assert(is_child_at(view, 7, 1, 10));
    assert(is_child_at(view, 8, 0, 9));
    assert(is_child_at(view, 10, 0, 11));
    assert(is_child_at(view, 10, 1, 12));
    assert(is_child_at(view, 12, 0, 13));
    assert(is_child_at(view, 12, 1, 15));
    assert(is_child_at(view, 13, 0, 14));
    assert(is_child_at(view, 15, 0, 16));
    assert(is_child_at(view, 15, 1, 17));
    assert(is_child_at(view, 17, 0, 18));
    assert(is_child_at(view, 19, 0, 20));
    assert(is_child_at(view, 19, 1, 23));
    assert(is_child_at(view, 20, 0, 21));
    assert(is_child_at(view, 20, 1, 22));
    assert(is_child_at(view, 23, 0, 24));
    assert(is_child_at(view, 23, 1, 25));
    assert(is_child_at(view, 25, 0, 26));
    assert forall|c: int| 0 < c < view.len() implies #[trigger] has_parent(view, c) by {}
    assert(single_parent(view));
}

/// A node with children and no token.
fn inner(symbol: Symbol, children: Vec<usize>) -> (node: AstNode)
    ensures
        node@ == inner_view(symbol, children@),
{
    AstNode { symbol, children, token: None, annotations: Annotations::new() }
}

/// The leaf of the token at `token`.
fn leaf(token: usize) -> (node: AstNode)
    ensures
        node@ == leaf_node(token),
{
    AstNode {
        symbol: Symbol::Lexeme,
        children: Vec::new(),
        token: Some(token),
        annotations: Annotations::new(),
    }
}

/// The tree of the two lines
///
/// ```text
/// a a | b | c > d
/// say "hi" >> file_name
/// ```
///
/// with the tokens numbered from 0, line ends included.
pub fn example_ast() -> (ast: Ast)
    ensures
        ast@ == example_nodes(),
        ast.well_formed(),
{
    let mut nodes: Vec<AstNode> = Vec::new();
    nodes.push(inner(Symbol::Program, vec![1, 19]));
    nodes.push(inner(Symbol::ExecChain, vec![2, 5]));
    nodes.push(inner(Symbol::Exec, vec![3, 4]));
    nodes.push(leaf(0));
    nodes.push(leaf(1));
    nodes.push(inner(Symbol::PipeExec, vec![6, 7]));
    nodes.push(leaf(2));
    nodes.push(inner(Symbol::ExecChain, vec![8, 10]));
    nodes.push(inner(Symbol::Exec, vec![9]));
    nodes.push(leaf(3));
    nodes.push(inner(Symbol::PipeExec, vec![11, 12]));
    nodes.push(leaf(4));
    nodes.push(inner(Symbol::ExecChain, vec![13, 15]));
    nodes.push(inner(Symbol::Exec, vec![14]));
    nodes.push(leaf(5));
    nodes.push(inner(Symbol::RedirectExec, vec![16, 17]));
    nodes.push(leaf(6));
    nodes.push(inner(Symbol::RedirectTarget, vec![18]));
    nodes.push(leaf(7));
    nodes.push(inner(Symbol::ExecChain, vec![20, 23]));
    nodes.push(inner(Symbol::Exec, vec![21, 22]));
    nodes.push(leaf(9));
    nodes.push(leaf(10));
    nodes.push(inner(Symbol::RedirectExec, vec![24, 25]));
    nodes.push(leaf(11));
    nodes.push(inner(Symbol::RedirectTarget, vec![26]));
    nodes.push(leaf(12));
    let ast = Ast { nodes };
    proof {
        let view = ast@;
        assert(ast.nodes@[0].children@ =~= seq![1, 19]);
        assert(ast.nodes@[1].children@ =~= seq![2, 5]);
        assert(ast.nodes@[2].children@ =~= seq![3, 4]);
        assert(ast.nodes@[5].children@ =~= seq![6, 7]);
        assert(ast.nodes@[7].children@ =~= seq![8, 10]);
        assert(ast.nodes@[8].children@ =~= seq![9]);
        assert(ast.nodes@[10].children@ =~= seq![11, 12]);
        assert(ast.nodes@[12].children@ =~= seq![13, 15]);
        assert(ast.nodes@[13].children@ =~= seq![14]);
        assert(ast.nodes@[15].children@ =~= seq![16, 17]);
        assert(ast.nodes@[17].children@ =~= seq![18]);
        assert(ast.nodes@[19].children@ =~= seq![20, 23]);
        assert(ast.nodes@[20].children@ =~= seq![21, 22]);
        assert(ast.nodes@[23].children@ =~= seq![24, 25]);
        assert(ast.nodes@[25].children@ =~= seq![26]);
        assert forall|i: int| 0 <= i < view.len() implies #[trigger] view[i]
            == example_nodes()[i] by {
            assert(view[i] == ast.nodes@[i]@);
        }
        assert(view =~= example_nodes());
        lemma_example_is_tree();
    }
    ast
}

} // verus!
