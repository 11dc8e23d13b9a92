use vstd::prelude::*;

use crate::grammar::Symbol;

verus! {

/// Failures of the passes that annotate a syntax tree.
#[derive(Debug, Clone, PartialEq, Eq)]
pub enum Error {
    ReceivedPlaceholderSymbol,
    AstNodeMissingExpectedChildren(Symbol),
    AstNodeHasUnexpectedChild { node_type: Symbol, child_type: Symbol, child_position: usize },
    /// An operation on the syntax tree failed.
    AstError(crate::ast::errors::Error),
    /// A type that the pass needs is not known.
    ContextError(crate::context::errors::Error),
}

/// The mathematical content of an [`Error`].
pub enum ErrorView {
    ReceivedPlaceholderSymbol,
    AstNodeMissingExpectedChildren(Symbol),
    AstNodeHasUnexpectedChild { node_type: Symbol, child_type: Symbol, child_position: usize },
    AstError(crate::ast::errors::Error),
    ContextError(crate::context::errors::ErrorView),
}

impl View for Error {
    type V = ErrorView;

    open spec fn view(&self) -> ErrorView {
        match self {
            Error::ReceivedPlaceholderSymbol => ErrorView::ReceivedPlaceholderSymbol,
            Error::AstNodeMissingExpectedChildren(s) => ErrorView::AstNodeMissingExpectedChildren(
                *s,
            ),
            Error::AstNodeHasUnexpectedChild {
                node_type,
                child_type,
                child_position,
            } => ErrorView::AstNodeHasUnexpectedChild {
                node_type: *node_type,
                child_type: *child_type,
                child_position: *child_position,
            },
            Error::AstError(e) => ErrorView::AstError(*e),
            Error::ContextError(e) => ErrorView::ContextError(e@),
        }
    }
}

/// What a pass leaves behind: the nodes as it left them, and the error
/// that stopped it, if any.
pub struct Labeled {
    pub nodes: Seq<crate::ast::ast::NodeView>,
    pub error: Option<ErrorView>,
}

/// `r` reports `error`, and nothing if there is none.
pub open spec fn reports(r: Result<(), Error>, error: Option<ErrorView>) -> bool {
    match r {
        Ok(_) => error is None,
        Err(e) => error == Some(e@),
    }
}

/// The two arenas have the same nodes but for their annotations.
pub open spec fn same_shape(
    a: Seq<crate::ast::ast::NodeView>,
    b: Seq<crate::ast::ast::NodeView>,
) -> bool {
    &&& a.len() == b.len()
    &&& forall|i: int|
        0 <= i < a.len() ==> (#[trigger] a[i]).symbol == b[i].symbol && a[i].children
            == b[i].children && a[i].token == b[i].token
}

} // verus!
