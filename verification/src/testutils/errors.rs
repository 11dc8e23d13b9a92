use vstd::prelude::*;

verus! {

/// Failures of the comparisons that tests make.
#[derive(Debug, Clone, PartialEq, Eq)]
pub enum Error {
    /// Two vectors differ; the text says where.
    TestCaseFailedAssertionVecsEqual(String),
}

} // verus!
