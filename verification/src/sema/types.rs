use vstd::prelude::*;

use crate::ast::annotations::Annotations;
use crate::ast::ast::Ast;
use crate::ast::ast::NodeView;
use crate::context::context_manager::ContextManager;
use crate::grammar::Symbol;
use crate::sema::errors::reports;
use crate::sema::errors::same_shape;
use crate::sema::errors::Error;
use crate::sema::errors::ErrorView;
use crate::sema::errors::Labeled;
use crate::sema::memory::out_of_bounds;

verus! {

/// The id of the type that goes by `name`, which must be known.
pub open spec fn required_type(ctx_man: &ContextManager, name: Seq<char>) -> Result<
    Option<usize>,
    ErrorView,
> {
    match ctx_man.type_id_of(name) {
        Some(id) => Ok(Some(id)),
        None => Err(
            ErrorView::ContextError(
                crate::context::errors::ErrorView::ContextManagerMissingRequiredDataTypeID(name),
            ),
        ),
    }
}

/// The type of the value of a node with the given symbol: none for a
/// program, `String` for a leaf, `Result` for every other node.
pub open spec fn type_of(ctx_man: &ContextManager, symbol: Symbol) -> Result<
    Option<usize>,
    ErrorView,
> {
    match symbol {
        Symbol::Program => Ok(None),
        Symbol::ExecChain => required_type(ctx_man, "Result"@),
        Symbol::Exec => required_type(ctx_man, "Result"@),
        Symbol::PipeExec => required_type(ctx_man, "Result"@),
        Symbol::RedirectExec => required_type(ctx_man, "Result"@),
        Symbol::RedirectTarget => required_type(ctx_man, "Result"@),
        Symbol::Lexeme => required_type(ctx_man, "String"@),
        Symbol::_Placeholder => Err(ErrorView::ReceivedPlaceholderSymbol),
    }
}

/// `nodes` with the type of the node `root` set.
pub open spec fn with_type(nodes: Seq<NodeView>, root: usize, ctx_man: &ContextManager) -> Labeled {
    if root >= nodes.len() {
        Labeled { nodes, error: Some(out_of_bounds()) }
    } else {
        match type_of(ctx_man, nodes[root as int].symbol) {
            Err(e) => Labeled { nodes, error: Some(e) },
            Ok(type_id) => Labeled {
                nodes: nodes.update(
                    root as int,
                    NodeView {
                        annotations: Annotations { type_id, ..nodes[root as int].annotations },
                        ..nodes[root as int]
                    },
                ),
                error: None,
            },
        }
    }
}

/// The id of the type that goes by `name`.
fn require(ctx_man: &ContextManager, name: &str) -> (r: Result<Option<usize>, Error>)
    requires
        ctx_man.well_formed(),
    ensures
        match r {
            Ok(found) => required_type(ctx_man, name@) == Ok::<Option<usize>, ErrorView>(found),
            Err(e) => required_type(ctx_man, name@) == Err::<Option<usize>, ErrorView>(e@),
        },
{
    match ctx_man.get_required_data_type_id(&name.to_owned()) {
        Ok(id) => Ok(Some(id)),
        Err(e) => Err(Error::ContextError(e)),
    }
}

/// Set the type of the value of the node `root`.
pub fn label_type(root: usize, ast: &mut Ast, ctx_man: &ContextManager) -> (r: Result<(), Error>)
    requires
        ctx_man.well_formed(),
    ensures
        final(ast)@ == with_type(old(ast)@, root, ctx_man).nodes,
        reports(r, with_type(old(ast)@, root, ctx_man).error),
        same_shape(old(ast)@, final(ast)@),
{
    if root >= ast.nodes.len() {
        assert(ast@ =~= old(ast)@);
        return Err(Error::AstError(crate::ast::errors::Error::ParserTreeNodeOutOfBounds));
    }
    assert(ast@[root as int] == ast.nodes@[root as int]@);
    let found = match ast.nodes[root].symbol {
        Symbol::Program => Ok(None),
        Symbol::ExecChain => require(ctx_man, "Result"),
        Symbol::Exec => require(ctx_man, "Result"),
        Symbol::PipeExec => require(ctx_man, "Result"),
        Symbol::RedirectExec => require(ctx_man, "Result"),
        Symbol::RedirectTarget => require(ctx_man, "Result"),
        Symbol::Lexeme => require(ctx_man, "String"),
        Symbol::_Placeholder => Err(Error::ReceivedPlaceholderSymbol),
    };
    match found {
        Ok(type_id) => {
            ast.nodes[root].annotations.type_id = type_id;
            assert(ast@ =~= with_type(old(ast)@, root, ctx_man).nodes);
            Ok(())
        },
        Err(e) => {
            assert(ast@ =~= old(ast)@);
            Err(e)
        },
    }
}

} // verus!
