use vstd::prelude::*;

verus! {

/// Why an operation on a tree was refused.
#[derive(Clone, Copy, Debug, PartialEq, Eq, Structural)]
pub enum NodeIdError {
    /// A handle does not name an occupied slot of this tree.
    HandleInvalid,
    /// The requested change would break the shape of the tree.
    InvalidOperation,
}

impl NodeIdError {
    /// A short description of the error.
    pub fn message(&self) -> (text: &'static str)
        ensures
            text == (match *self {
                NodeIdError::HandleInvalid => "the node id does not name a node of this tree",
                NodeIdError::InvalidOperation => "the operation would break the shape of the tree",
            }),
    {
        match self {
            NodeIdError::HandleInvalid => "the node id does not name a node of this tree",
            NodeIdError::InvalidOperation => "the operation would break the shape of the tree",
        }
    }
}

} // verus!
