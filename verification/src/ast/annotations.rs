use vstd::prelude::*;

verus! {

/// What the semantic passes record on a node.
#[derive(Debug, Default, Clone, Copy, PartialEq, Eq, Structural)]
pub struct Annotations {
    /// Unique id for each unique value stored in memory
    pub mem_id: Option<usize>,
    /// Signifies that this AST Node is never read
    pub discard: bool,
    /// Id of the data type of the node's value
    pub type_id: Option<usize>,
}

impl Annotations {
    /// The annotations of a node that no pass has visited yet.
    pub fn new() -> (r: Self)
        ensures
            r == (Annotations { mem_id: None, discard: true, type_id: None }),
    {
        Self { mem_id: None, discard: true, type_id: None }
    }
}

} // verus!
