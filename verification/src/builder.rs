use vstd::prelude::*;
use crate::behaviors::InsertBehavior;
use crate::model::TreeModel;
use crate::node::OptNode;
use crate::tree::OptTree;

verus! {

/// Collects the options a tree is built with: an initial root and how much
/// room to reserve. The reserved room changes nothing a caller can observe.
pub struct OptTreeBuilder<T> {
    pub(crate) root: Option<OptNode<T>>,
    pub(crate) node_capacity: usize,
    pub(crate) swap_capacity: usize,
}

impl<T> OptTreeBuilder<T> {
    /// The data of the root that the built tree will have, if any.
    pub open(crate) spec fn root_data(&self) -> Option<T> {
        match self.root {
            Some(node) => Some(node.data),
            None => None,
        }
    }

    /// The number of slots that the built tree reserves.
    pub open(crate) spec fn spec_node_capacity(&self) -> usize {
        self.node_capacity
    }

    /// The number of free-list entries that the built tree reserves.
    pub open(crate) spec fn spec_swap_capacity(&self) -> usize {
        self.swap_capacity
    }

    /// A builder for an empty tree that reserves nothing.
    pub fn new() -> (builder: Self)
        ensures
            builder.root_data() is None,
            builder.spec_node_capacity() == 0,
            builder.spec_swap_capacity() == 0,
    {
        OptTreeBuilder { root: None, node_capacity: 0, swap_capacity: 0 }
    }

    /// Sets the node that becomes the root of the built tree.
    pub fn with_root(self, root: OptNode<T>) -> (builder: Self)
        ensures
            builder.root_data() == Some(root@.data),
            builder.spec_node_capacity() == self.spec_node_capacity(),
            builder.spec_swap_capacity() == self.spec_swap_capacity(),
    {
        OptTreeBuilder {
            root: Some(root),
            node_capacity: self.node_capacity,
            swap_capacity: self.swap_capacity,
        }
    }

    /// Sets the number of slots to reserve.
    pub fn with_node_capacity(self, node_capacity: usize) -> (builder: Self)
        ensures
            builder.root_data() == self.root_data(),
            builder.spec_node_capacity() == node_capacity,
            builder.spec_swap_capacity() == self.spec_swap_capacity(),
    {
        OptTreeBuilder { root: self.root, node_capacity, swap_capacity: self.swap_capacity }
    }

    /// Sets the number of free-list entries to reserve.
    pub fn with_swap_capacity(self, swap_capacity: usize) -> (builder: Self)
        ensures
            builder.root_data() == self.root_data(),
            builder.spec_node_capacity() == self.spec_node_capacity(),
            builder.spec_swap_capacity() == swap_capacity,
    {
        OptTreeBuilder { root: self.root, node_capacity: self.node_capacity, swap_capacity }
    }

    /// Builds the tree: empty, or holding the chosen root in the first slot.
    pub fn build(self) -> (tree: OptTree<T>)
        ensures
            tree.wf(),
            tree.free_slots().len() == 0,
            match self.root_data() {
                Some(data) => {
                    &&& tree.spec_slot_count() == 1
                    &&& tree@.root is Some
                    &&& tree@.root->0.slot() == 0
                    &&& tree@ == TreeModel::<T>::empty().insert_root(tree@.root->0, data)
                },
                None => tree.spec_slot_count() == 0 && tree@ == TreeModel::<T>::empty(),
            },
    {
        let mut tree = OptTree::with_capacity(self.node_capacity, self.swap_capacity);
        match self.root {
            Some(node) => {
                let _ = tree.insert(node, InsertBehavior::AsRoot);
            },
            None => {},
        }
        tree
    }
}

} // verus!
