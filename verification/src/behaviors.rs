use vstd::prelude::*;
use crate::node_id::NodeId;

verus! {

/// Where a new node is placed.
#[derive(Clone, Copy, Debug)]
pub enum InsertBehavior<'a> {
    /// The node becomes the root; a former root becomes its only child.
    AsRoot,
    /// The node becomes the last child of the named node.
    UnderNode(&'a NodeId),
}

/// What becomes of the children of a removed node.
#[derive(Clone, Copy, Debug, PartialEq, Eq, Structural)]
pub enum RemoveBehavior {
    /// The whole subtree below the node is removed with it.
    DropSubtree,
    /// The children take the node's place among its siblings.
    LiftChildrenToParent,
}

/// Where a moved node is attached.
#[derive(Clone, Copy, Debug)]
pub enum MoveBehavior<'a> {
    /// The node becomes the root; a former root becomes its last child.
    ToRoot,
    /// The node becomes the last child of the named node.
    ToParent(&'a NodeId),
}

/// What two swapped nodes exchange.
#[derive(Clone, Copy, Debug, PartialEq, Eq, Structural)]
pub enum SwapBehavior {
    /// The nodes stay where they are and exchange their data.
    SwapDataOnly,
    /// The nodes keep their data and exchange their places in the tree.
    SwapSubtrees,
}

} // verus!
