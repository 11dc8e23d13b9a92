use vstd::prelude::*;

verus! {

/// Failures of the set-up of the standard types.
#[derive(Debug, Clone, PartialEq, Eq)]
pub enum Error {
    /// The bookkeeping of names and types failed.
    EggContextError(crate::context::errors::Error),
}

/// The mathematical content of an [`Error`].
pub enum ErrorView {
    EggContextError(crate::context::errors::ErrorView),
}

impl View for Error {
    type V = ErrorView;

    open spec fn view(&self) -> ErrorView {
        match self {
            Error::EggContextError(e) => ErrorView::EggContextError(e@),
        }
    }
}

} // verus!
