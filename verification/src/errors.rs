use vstd::prelude::*;

verus! {

/// Whatever fails between the source text and the annotated tree.
#[derive(Debug, Clone, PartialEq, Eq)]
pub enum Error {
    AstError(crate::ast::errors::Error),
    ParserError(crate::parser::errors::Error),
    SourceError(crate::source::errors::Error),
    SemaError(crate::sema::errors::Error),
    TypesError(crate::types::errors::Error),
}

} // verus!
