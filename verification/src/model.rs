use vstd::prelude::*;
use crate::node::NodeView;
use crate::node_id::NodeId;

verus! {

/// One node of the mathematical tree.
pub struct NodeModel<T> {
    /// The user's data.
    pub data: T,
    /// The parent; `None` for the root.
    pub parent: Option<NodeId>,
    /// The children, first to last.
    pub children: Seq<NodeId>,
    /// The node itself, then its parent, and so on up to the root.
    pub ancestors: Seq<NodeId>,
}

/// The mathematical tree that a tree value stands for: its nodes by
/// handle, and the handle of the root.
pub struct TreeModel<T> {
    pub nodes: Map<NodeId, NodeModel<T>>,
    pub root: Option<NodeId>,
}

impl<T> TreeModel<T> {
    /// The tree without nodes.
    pub open spec fn empty() -> Self {
        TreeModel { nodes: Map::empty(), root: None }
    }

    /// Whether `id` names a node of the tree.
    #[verifier::inline]
    pub open spec fn contains(self, id: NodeId) -> bool {
        self.nodes.dom().contains(id)
    }

    #[verifier::inline]
    pub open spec fn data(self, id: NodeId) -> T {
        self.nodes[id].data
    }

    #[verifier::inline]
    pub open spec fn parent(self, id: NodeId) -> Option<NodeId> {
        self.nodes[id].parent
    }

    #[verifier::inline]
    pub open spec fn children(self, id: NodeId) -> Seq<NodeId> {
        self.nodes[id].children
    }

    #[verifier::inline]
    pub open spec fn ancestors(self, id: NodeId) -> Seq<NodeId> {
        self.nodes[id].ancestors
    }

    /// Whether `id` is `top` or lies below it.
    pub open spec fn in_subtree(self, id: NodeId, top: NodeId) -> bool {
        self.contains(id) && self.ancestors(id).contains(top)
    }

    /// What must hold of one node: its children are distinct nodes that
    /// name it as their parent, its parent lists it as a child, and its
    /// ancestors are itself followed by those of its parent. A node
    /// without a parent is the root.
    pub open spec fn node_wf(self, id: NodeId) -> bool {
        let n = self.nodes[id];
        &&& self.root is Some
        &&& n.children.no_duplicates()
        &&& forall|k: int|
            0 <= k < n.children.len() ==> {
                &&& self.contains(#[trigger] n.children[k])
                &&& self.nodes[n.children[k]].parent == Some(id)
            }
        &&& match n.parent {
            None => self.root == Some(id) && n.ancestors == seq![id],
            Some(p) => {
                &&& self.contains(p)
                &&& self.nodes[p].children.contains(id)
                &&& n.ancestors == seq![id] + self.nodes[p].ancestors
            },
        }
    }

    /// The shape invariant of a tree.
    pub open spec fn wf(self) -> bool {
        &&& self.nodes.dom().finite()
        &&& (self.root matches Some(r) ==> self.contains(r) && self.nodes[r].parent is None)
        &&& forall|id: NodeId| self.contains(id) ==> #[trigger] self.node_wf(id)
    }

    /// The link to the first child that the node `id` carries.
    pub open spec fn first_child(self, id: NodeId) -> Option<NodeId> {
        if self.children(id).len() == 0 {
            None
        } else {
            Some(self.children(id).first())
        }
    }

    /// The link to the last child that the node `id` carries.
    pub open spec fn last_child(self, id: NodeId) -> Option<NodeId> {
        if self.children(id).len() == 0 {
            None
        } else {
            Some(self.children(id).last())
        }
    }

    /// The link to the previous sibling that the node `id` carries.
    pub open spec fn prev_sibling(self, id: NodeId) -> Option<NodeId> {
        match self.parent(id) {
            None => None,
            Some(p) => {
                let k = self.children(p).index_of(id);
                if k == 0 {
                    None
                } else {
                    Some(self.children(p)[k - 1])
                }
            },
        }
    }

    /// The link to the next sibling that the node `id` carries.
    pub open spec fn next_sibling(self, id: NodeId) -> Option<NodeId> {
        match self.parent(id) {
            None => None,
            Some(p) => {
                let k = self.children(p).index_of(id);
                if k + 1 == self.children(p).len() {
                    None
                } else {
                    Some(self.children(p)[k + 1])
                }
            },
        }
    }

    /// The node `id` as it is stored: its data and its five links.
    pub open spec fn node_view(self, id: NodeId) -> NodeView<T> {
        NodeView {
            data: self.data(id),
            parent: self.parent(id),
            first_child: self.first_child(id),
            last_child: self.last_child(id),
            prev_sibling: self.prev_sibling(id),
            next_sibling: self.next_sibling(id),
        }
    }

    /// The tree in which the node `id` holds `data` instead.
    pub open spec fn set_data(self, id: NodeId, data: T) -> Self {
        TreeModel {
            nodes: self.nodes.insert(id, NodeModel { data, ..self.nodes[id] }),
            root: self.root,
        }
    }

    /// The tree with a new leaf `id` appended to the children of `parent`.
    pub open spec fn insert_under(self, id: NodeId, data: T, parent: NodeId) -> Self {
        let p = self.nodes[parent];
        TreeModel {
            nodes: self.nodes.insert(parent, NodeModel { children: p.children.push(id), ..p })
                .insert(
                id,
                NodeModel {
                    data,
                    parent: Some(parent),
                    children: Seq::empty(),
                    ancestors: seq![id] + p.ancestors,
                },
            ),
            root: self.root,
        }
    }

    /// The tree with a new root `id`, whose only child is the former root,
    /// if there was one.
    pub open spec fn insert_root(self, id: NodeId, data: T) -> Self {
        TreeModel {
            nodes: Map::new(
                |x: NodeId| x == id || self.contains(x),
                |x: NodeId|
                    if x == id {
                        NodeModel {
                            data,
                            parent: None,
                            children: match self.root {
                                Some(r) => seq![r],
                                None => Seq::empty(),
                            },
                            ancestors: seq![id],
                        }
                    } else {
                        NodeModel {
                            parent: if self.root == Some(x) {
                                Some(id)
                            } else {
                                self.nodes[x].parent
                            },
                            ancestors: self.nodes[x].ancestors.push(id),
                            ..self.nodes[x]
                        }
                    },
            ),
            root: Some(id),
        }
    }

    /// Changing the data of a node keeps the shape.
    pub proof fn lemma_set_data_wf(self, id: NodeId, data: T)
        requires
            self.wf(),
            self.contains(id),
        ensures
            self.set_data(id, data).wf(),
    {
        let m = self.set_data(id, data);
        assert(m.nodes.dom() =~= self.nodes.dom());
        assert forall|x: NodeId| m.contains(x) implies #[trigger] m.node_wf(x) by {
            assert(self.contains(x));
            assert(self.node_wf(x));
        }
    }

    /// Appending a new leaf keeps the shape.
    pub proof fn lemma_insert_under_wf(self, id: NodeId, data: T, parent: NodeId)
        requires
            self.wf(),
            self.contains(parent),
            !self.contains(id),
        ensures
            self.insert_under(id, data, parent).wf(),
    {
        let m = self.insert_under(id, data, parent);
        let old_children = self.children(parent);
        assert(self.node_wf(parent));
        assert(m.children(parent) == old_children.push(id));
        assert(m.children(parent)[old_children.len() as int] == id);
        assert forall|x: NodeId| m.contains(x) implies #[trigger] m.node_wf(x) by {
            if x == id {
            } else {
                assert(self.contains(x));
                assert(self.node_wf(x));
                if self.parent(x) == Some(parent) {
                    let k = choose|k: int| 0 <= k < old_children.len() && old_children[k] == x;
                    assert(m.children(parent)[k] == x);
                }
                if x == parent {
                    assert forall|i: int, j: int|
                        0 <= i < m.children(x).len() && 0 <= j < m.children(x).len() && i != j
                        implies m.children(x)[i] != m.children(x)[j] by {
                        if i < old_children.len() {
                            assert(self.contains(old_children[i]));
                        }
                        if j < old_children.len() {
                            assert(self.contains(old_children[j]));
                        }
                    }
                    assert forall|k: int| 0 <= k < m.children(x).len() implies {
                        &&& m.contains(#[trigger] m.children(x)[k])
                        &&& m.nodes[m.children(x)[k]].parent == Some(x)
                    } by {
                        if k < old_children.len() {
                            assert(self.contains(old_children[k]));
                        }
                    }
                } else {
                    assert forall|k: int| 0 <= k < m.children(x).len() implies {
                        &&& m.contains(#[trigger] m.children(x)[k])
                        &&& m.nodes[m.children(x)[k]].parent == Some(x)
                    } by {
                        assert(self.contains(self.children(x)[k]));
                    }
                }
            }
        }
    }

    /// Putting a new root above the tree keeps the shape.
    pub proof fn lemma_insert_root_wf(self, id: NodeId, data: T)
        requires
            self.wf(),
            !self.contains(id),
        ensures
            self.insert_root(id, data).wf(),
    {
        let m = self.insert_root(id, data);
        assert(m.nodes.dom() =~= self.nodes.dom().insert(id));
        assert forall|x: NodeId| m.contains(x) implies #[trigger] m.node_wf(x) by {
            if x == id {
                if let Some(r) = self.root {
                    assert(m.children(id)[0] == r);
                }
            } else {
                assert(self.contains(x));
                assert(self.node_wf(x));
                assert forall|k: int| 0 <= k < m.children(x).len() implies {
                    &&& m.contains(#[trigger] m.children(x)[k])
                    &&& m.nodes[m.children(x)[k]].parent == Some(x)
                } by {
                    assert(self.contains(self.children(x)[k]));
                    assert(self.root != Some(self.children(x)[k]));
                }
                match self.parent(x) {
                    None => {
                        assert(m.children(id)[0] == x);
                        assert(m.ancestors(x) =~= seq![x] + m.ancestors(id));
                    },
                    Some(p) => {
                        assert(self.root != Some(x));
                        assert(m.ancestors(x) =~= seq![x] + m.ancestors(p));
                    },
                }
            }
        }
    }
}

} // verus!
