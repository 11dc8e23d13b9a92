pub mod errors;
pub mod memory;
pub mod types;

use vstd::prelude::*;

use crate::ast::ast::forward_links;
use crate::ast::ast::Ast;
use crate::ast::ast::NodeView;
use crate::ast::iterators::tree_postorder;
use crate::context::context_manager::ContextManager;
use crate::sema::errors::reports;
use crate::sema::errors::same_shape;
use crate::sema::errors::Error;
use crate::sema::errors::Labeled;
use crate::sema::memory::with_mem_id;
use crate::sema::memory::with_reads;
use crate::sema::types::with_type;

verus! {

/// `nodes` after the three passes on the node `i`: its memory id, the
/// children that it reads, and its type. The first pass that fails is the
/// last.
pub open spec fn annotated_node(nodes: Seq<NodeView>, i: usize, ctx_man: &ContextManager) -> Labeled {
    let first = with_mem_id(nodes, i);
    if first.error is Some {
        first
    } else {
        let second = with_reads(first.nodes, i);
        if second.error is Some {
            second
        } else {
            with_type(second.nodes, i, ctx_man)
        }
    }
}

/// `nodes` after the passes on the nodes of `order` from the `k`-th on.
pub open spec fn annotated_from(
    nodes: Seq<NodeView>,
    order: Seq<usize>,
    k: int,
    ctx_man: &ContextManager,
) -> Labeled
    decreases order.len() - k,
{
    if k < 0 || k >= order.len() {
        Labeled { nodes, error: None }
    } else {
        let step = annotated_node(nodes, order[k], ctx_man);
        if step.error is Some {
            step
        } else {
            annotated_from(step.nodes, order, k + 1, ctx_man)
        }
    }
}

/// `nodes` after the passes on every node, in postorder.
pub open spec fn annotated(nodes: Seq<NodeView>, ctx_man: &ContextManager) -> Labeled {
    annotated_from(nodes, tree_postorder(nodes), 0, ctx_man)
}

/// Annotate the AST with memory and type information, node by node in
/// postorder. An error leaves the tree as the passes before it left it.
pub fn annotate_ast(ast: &mut Ast, ctx_man: &ContextManager) -> (r: Result<(), Error>)
    requires
        old(ast)@.len() > 0,
        forward_links(old(ast)@),
        ctx_man.well_formed(),
    ensures
        final(ast)@ == annotated(old(ast)@, ctx_man).nodes,
        reports(r, annotated(old(ast)@, ctx_man).error),
        same_shape(old(ast)@, final(ast)@),
{
    let postorder = ast.postorder().collect();
    let mut k: usize = 0;
    while k < postorder.len()
        invariant
            k <= postorder@.len(),
            ctx_man.well_formed(),
            postorder@ == tree_postorder(old(ast)@),
            same_shape(old(ast)@, ast@),
            annotated(old(ast)@, ctx_man) == annotated_from(
                ast@,
                postorder@,
                k as int,
                ctx_man,
            ),
        decreases postorder@.len() - k,
    {
        let i = postorder[k];
        let ghost start = ast@;
        match crate::sema::memory::label_mem_id(i, ast) {
            Ok(_) => {},
            Err(e) => {
                return Err(e);
            },
        }
        let ghost first = ast@;
        match crate::sema::memory::label_dont_discard(i, ast) {
            Ok(_) => {},
            Err(e) => {
                proof {
                    lemma_shape_chain(old(ast)@, start, first, ast@);
                }
                return Err(e);
            },
        }
        let ghost second = ast@;
        let third = crate::sema::types::label_type(i, ast, ctx_man);
        proof {
            lemma_shape_chain(old(ast)@, start, first, second);
            lemma_shape_chain(old(ast)@, second, ast@, ast@);
        }
        match third {
            Ok(_) => {},
            Err(e) => {
                return Err(e);
            },
        }
        k += 1;
    }
    Ok(())
}

proof fn lemma_shape_chain(
    a: Seq<NodeView>,
    b: Seq<NodeView>,
    c: Seq<NodeView>,
    d: Seq<NodeView>,
)
    requires
        same_shape(a, b),
        same_shape(b, c),
        same_shape(c, d),
    ensures
        same_shape(a, d),
{
    assert forall|i: int| 0 <= i < a.len() implies (#[trigger] a[i]).symbol == d[i].symbol
        && a[i].children == d[i].children && a[i].token == d[i].token by {
        assert(b[i].symbol == a[i].symbol);
        assert(c[i].symbol == b[i].symbol);
        assert(d[i].symbol == c[i].symbol);
    }
}

} // verus!
