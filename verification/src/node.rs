use vstd::prelude::*;
use crate::node_id::NodeId;

verus! {

/// What a node holds, as a plain value: its data and its five links.
pub struct NodeView<T> {
    pub data: T,
    pub parent: Option<NodeId>,
    pub first_child: Option<NodeId>,
    pub last_child: Option<NodeId>,
    pub prev_sibling: Option<NodeId>,
    pub next_sibling: Option<NodeId>,
}

impl<T> NodeView<T> {
    /// Whether `self` and `other` carry the same five links.
    pub open spec fn same_links(self, other: NodeView<T>) -> bool {
        &&& self.parent == other.parent
        &&& self.first_child == other.first_child
        &&& self.last_child == other.last_child
        &&& self.prev_sibling == other.prev_sibling
        &&& self.next_sibling == other.next_sibling
    }

    /// Whether all five links are absent.
    pub open spec fn unlinked(self) -> bool {
        &&& self.parent is None
        &&& self.first_child is None
        &&& self.last_child is None
        &&& self.prev_sibling is None
        &&& self.next_sibling is None
    }
}

/// The handle behind a borrowed link, as the getters hand links out.
pub open spec fn link_of(link: Option<&NodeId>) -> Option<NodeId> {
    match link {
        Some(id) => Some(*id),
        None => None,
    }
}

/// One node of a tree: user data and the five links that place it.
///
/// Only the data can be changed from outside the tree; the links are
/// maintained by the tree's own operations.
#[derive(Debug)]
pub struct OptNode<T> {
    pub(crate) data: T,
    pub(crate) parent: Option<NodeId>,
    pub(crate) first_child: Option<NodeId>,
    pub(crate) last_child: Option<NodeId>,
    pub(crate) prev_sibling: Option<NodeId>,
    pub(crate) next_sibling: Option<NodeId>,
}

impl<T> OptNode<T> {
    pub open(crate) spec fn view(&self) -> NodeView<T> {
        NodeView {
            data: self.data,
            parent: self.parent,
            first_child: self.first_child,
            last_child: self.last_child,
            prev_sibling: self.prev_sibling,
            next_sibling: self.next_sibling,
        }
    }

    /// A node that holds `data` and is linked to nothing.
    pub fn new(data: T) -> (node: Self)
        ensures
            node@.data == data,
            node@.unlinked(),
    {
        OptNode {
            data,
            parent: None,
            first_child: None,
            last_child: None,
            prev_sibling: None,
            next_sibling: None,
        }
    }

    /// The data stored in this node.
    pub fn data(&self) -> (data: &T)
        ensures
            *data == self@.data,
    {
        &self.data
    }

    /// Mutable access to the data; the links cannot be reached through it.
    pub fn data_mut(&mut self) -> (data: &mut T)
        ensures
            *data == old(self)@.data,
            final(self)@.data == *final(data),
            final(self)@.same_links(old(self)@),
    {
        &mut self.data
    }

    /// Stores `data` and hands back what was stored before.
    pub fn replace_data(&mut self, data: T) -> (previous: T)
        ensures
            previous == old(self)@.data,
            final(self)@.data == data,
            final(self)@.same_links(old(self)@),
    {
        let mut data = data;
        std::mem::swap(&mut self.data, &mut data);
        data
    }

    /// The parent of this node; `None` for the root.
    pub fn parent(&self) -> (id: Option<&NodeId>)
        ensures
            link_of(id) == self@.parent,
    {
        self.parent.as_ref()
    }

    /// The first child of this node, if it has children.
    pub fn first_child(&self) -> (id: Option<&NodeId>)
        ensures
            link_of(id) == self@.first_child,
    {
        self.first_child.as_ref()
    }

    /// The last child of this node, if it has children.
    pub fn last_child(&self) -> (id: Option<&NodeId>)
        ensures
            link_of(id) == self@.last_child,
    {
        self.last_child.as_ref()
    }

    /// The sibling just before this node, if there is one.
    pub fn prev_sibling(&self) -> (id: Option<&NodeId>)
        ensures
            link_of(id) == self@.prev_sibling,
    {
        self.prev_sibling.as_ref()
    }

    /// The sibling just after this node, if there is one.
    pub fn next_sibling(&self) -> (id: Option<&NodeId>)
        ensures
            link_of(id) == self@.next_sibling,
    {
        self.next_sibling.as_ref()
    }
}

} // verus!
