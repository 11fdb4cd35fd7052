use vstd::prelude::*;
use crate::model::{NodeModel, TreeModel};
use crate::node_id::NodeId;

verus! {

/// The handle that stands where `x` stood once `a` and `b` have exchanged
/// their places.
pub open spec fn swapped(a: NodeId, b: NodeId, x: NodeId) -> NodeId {
    if x == a {
        b
    } else if x == b {
        a
    } else {
        x
    }
}

/// A link once `a` and `b` have exchanged their places.
pub open spec fn swapped_link(a: NodeId, b: NodeId, link: Option<NodeId>) -> Option<NodeId> {
    match link {
        Some(x) => Some(swapped(a, b, x)),
        None => None,
    }
}

/// A sequence of handles once `a` and `b` have exchanged their places.
pub open spec fn swapped_seq(a: NodeId, b: NodeId, s: Seq<NodeId>) -> Seq<NodeId> {
    Seq::new(s.len(), |i: int| swapped(a, b, s[i]))
}

impl<T> TreeModel<T> {
    /// The tree in which the nodes `a` and `b` hold each other's data and
    /// everything else is as it was.
    pub open spec fn swap_data(self, a: NodeId, b: NodeId) -> Self {
        TreeModel {
            nodes: Map::new(
                |x: NodeId| self.contains(x),
                |x: NodeId| NodeModel { data: self.data(swapped(a, b, x)), ..self.nodes[x] },
            ),
            root: self.root,
        }
    }

    /// The tree in which the nodes `a` and `b` have exchanged their
    /// places: each keeps its data and has the parent, the siblings and
    /// the children that the other had.
    pub open spec fn swap_places(self, a: NodeId, b: NodeId) -> Self {
        TreeModel {
            nodes: Map::new(
                |x: NodeId| self.contains(x),
                |x: NodeId|
                    NodeModel {
                        data: self.data(x),
                        parent: swapped_link(a, b, self.parent(swapped(a, b, x))),
                        children: swapped_seq(a, b, self.children(swapped(a, b, x))),
                        ancestors: swapped_seq(a, b, self.ancestors(swapped(a, b, x))),
                    },
            ),
            root: swapped_link(a, b, self.root),
        }
    }

    /// Whether `a` and `b` are two nodes of which one lies below the
    /// other.
    pub open spec fn one_below_other(self, a: NodeId, b: NodeId) -> bool {
        a != b && (self.in_subtree(a, b) || self.in_subtree(b, a))
    }

    /// Exchanging the data of two nodes keeps the shape.
    pub proof fn lemma_swap_data_wf(self, a: NodeId, b: NodeId)
        requires
            self.wf(),
            self.contains(a),
            self.contains(b),
        ensures
            self.swap_data(a, b).wf(),
    {
        let m = self.swap_data(a, b);
        assert(m.nodes.dom() =~= self.nodes.dom());
        assert forall|x: NodeId| m.contains(x) implies #[trigger] m.node_wf(x) by {
            assert(self.node_wf(x));
            assert forall|k: int| 0 <= k < m.children(x).len() implies {
                &&& m.contains(#[trigger] m.children(x)[k])
                &&& m.nodes[m.children(x)[k]].parent == Some(x)
            } by {
                assert(self.contains(self.children(x)[k]));
            }
        }
    }

    /// Exchanging the places of two nodes keeps the shape.
    pub proof fn lemma_swap_places_wf(self, a: NodeId, b: NodeId)
        requires
            self.wf(),
            self.contains(a),
            self.contains(b),
        ensures
            self.swap_places(a, b).wf(),
    {
        let m = self.swap_places(a, b);
        assert(m.nodes.dom() =~= self.nodes.dom());
        if let Some(r) = self.root {
            assert(self.node_wf(r));
        }
        assert forall|x: NodeId| m.contains(x) implies #[trigger] m.node_wf(x) by {
            let y = swapped(a, b, x);
            assert(self.contains(y));
            assert(self.node_wf(y));
            let ch = self.children(y);
            assert forall|k: int| 0 <= k < m.children(x).len() implies {
                &&& m.contains(#[trigger] m.children(x)[k])
                &&& m.nodes[m.children(x)[k]].parent == Some(x)
            } by {
                assert(self.contains(ch[k]));
                assert(m.children(x)[k] == swapped(a, b, ch[k]));
            }
            assert forall|i: int, j: int|
                0 <= i < m.children(x).len() && 0 <= j < m.children(x).len() && i != j
                implies m.children(x)[i] != m.children(x)[j] by {
                assert(ch[i] != ch[j]);
            }
            match self.parent(y) {
                None => {
                    assert(m.ancestors(x) =~= seq![x]);
                },
                Some(q) => {
                    assert(self.node_wf(q));
                    let j = choose|j: int|
                        0 <= j < self.children(q).len() && self.children(q)[j] == y;
                    let q2 = swapped(a, b, q);
                    assert(m.children(q2)[j] == x);
                    assert(m.ancestors(x) =~= seq![x] + m.ancestors(q2));
                },
            }
        }
    }
}

} // verus!
