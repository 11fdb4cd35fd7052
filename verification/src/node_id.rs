use vstd::prelude::*;

verus! {

/// An opaque handle naming one slot of a tree's arena.
///
/// Handles are handed out by the tree on insertion and compare by slot.
#[derive(Clone, Copy, Debug, PartialEq, Eq, PartialOrd, Ord, Hash, Structural)]
pub struct NodeId {
    pub(crate) index: usize,
}

impl NodeId {
    /// The slot that this handle names, as a mathematical integer.
    pub open(crate) spec fn slot(self) -> int {
        self.index as int
    }
}

} // verus!
