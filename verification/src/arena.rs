use vstd::prelude::*;
use crate::error::NodeIdError;
use crate::node_id::NodeId;

verus! {

/// A slot table that owns the nodes of one tree and recycles freed slots.
///
/// A slot is either occupied by a node or free. Freed slots are kept on a
/// stack and handed out again, most recently freed first, before the table
/// grows.
pub struct Arena<N> {
    pub(crate) nodes: Vec<Option<N>>,
    pub(crate) free_ids: Vec<NodeId>,
    pub(crate) root: Option<NodeId>,
}

impl<N> Arena<N> {
    /// The slot table, one entry per slot ever handed out.
    pub open(crate) spec fn slots(&self) -> Seq<Option<N>> {
        self.nodes@
    }

    /// The stack of free slots; the last one is handed out next.
    pub open(crate) spec fn free(&self) -> Seq<NodeId> {
        self.free_ids@
    }

    /// Whether `id` names an occupied slot.
    pub open(crate) spec fn contains(&self, id: NodeId) -> bool {
        id.slot() < self.slots().len() && self.slots()[id.slot()] is Some
    }

    /// The node in the slot that `id` names.
    pub open(crate) spec fn node(&self, id: NodeId) -> N {
        self.slots()[id.slot()]->0
    }

    /// The handle that the next allocation returns.
    pub open(crate) spec fn next_id(&self) -> NodeId {
        if self.free().len() > 0 {
            self.free().last()
        } else {
            NodeId { index: self.slots().len() as usize }
        }
    }

    /// The free stack lists exactly the empty slots, each once.
    pub open(crate) spec fn wf(&self) -> bool {
        &&& self.free().no_duplicates()
        &&& forall|k: int|
            0 <= k < self.free().len() ==> {
                &&& (#[trigger] self.free()[k]).slot() < self.slots().len()
                &&& self.slots()[self.free()[k].slot()] is None
            }
        &&& forall|id: NodeId|
            id.slot() < self.slots().len() && self.slots()[id.slot()] is None
                ==> #[trigger] self.free().contains(id)
    }

    /// An empty arena with room reserved for `node_capacity` slots and
    /// `free_capacity` entries of the free stack.
    pub(crate) fn with_capacity(node_capacity: usize, free_capacity: usize) -> (arena: Self)
        ensures
            arena.wf(),
            arena.slots().len() == 0,
            arena.free().len() == 0,
            arena.root is None,
    {
        Arena {
            nodes: Vec::with_capacity(node_capacity),
            free_ids: Vec::with_capacity(free_capacity),
            root: None,
        }
    }

    /// Stores `node` in a free slot, or in a new one when none is free.
    pub(crate) fn insert(&mut self, node: N) -> (id: NodeId)
        requires
            old(self).wf(),
        ensures
            final(self).wf(),
            id == old(self).next_id(),
            !old(self).contains(id),
            final(self).contains(id),
            id.slot() <= old(self).slots().len(),
            old(self).free().len() > 0 ==> {
                &&& final(self).free() == old(self).free().drop_last()
                &&& final(self).slots() == old(self).slots().update(id.slot(), Some(node))
            },
            old(self).free().len() == 0 ==> {
                &&& final(self).free() == old(self).free()
                &&& final(self).slots() == old(self).slots().push(Some(node))
            },
            final(self).root == old(self).root,
    {
        match self.free_ids.pop() {
            Some(id) => {
                self.nodes[id.index] = Some(node);
                proof {
                    let free = old(self).free();
                    assert(free[free.len() - 1] == id);
                    assert(self.free() =~= free.drop_last());
                    assert forall|other: NodeId|
                        other.slot() < self.slots().len() && self.slots()[other.slot()] is None
                        implies #[trigger] self.free().contains(other) by {
                        assert(other.slot() != id.slot());
                        assert(old(self).slots()[other.slot()] is None);
                        assert(free.contains(other));
                        let k = choose|k: int| 0 <= k < free.len() && free[k] == other;
                        assert(self.free()[k] == other);
                    }
                }
                id
            },
            None => {
                let id = NodeId { index: self.nodes.len() };
                self.nodes.push(Some(node));
                id
            },
        }
    }

    /// Empties the slot that `id` names and hands back its node.
    pub(crate) fn remove(&mut self, id: &NodeId) -> (node: N)
        requires
            old(self).wf(),
            old(self).contains(*id),
        ensures
            final(self).wf(),
            node == old(self).node(*id),
            final(self).slots() == old(self).slots().update(id.slot(), None),
            final(self).free() == old(self).free().push(*id),
            final(self).root == old(self).root,
    {
        let taken = self.nodes[id.index].take();
        proof {
            let free = old(self).free();
            if free.contains(*id) {
                let k = choose|k: int| 0 <= k < free.len() && free[k] == *id;
                assert(old(self).slots()[free[k].slot()] is None);
            }
        }
        self.free_ids.push(*id);
        proof {
            let free = old(self).free();
            assert forall|other: NodeId|
                other.slot() < self.slots().len() && self.slots()[other.slot()] is None
                implies #[trigger] self.free().contains(other) by {
                if other == *id {
                    assert(self.free()[free.len() as int] == other);
                } else {
                    assert(free.contains(other));
                    let k = choose|k: int| 0 <= k < free.len() && free[k] == other;
                    assert(self.free()[k] == other);
                }
            }
        }
        taken.unwrap()
    }

    /// Exchanges the nodes in the slots that `a` and `b` name.
    pub(crate) fn swap_slots(&mut self, a: &NodeId, b: &NodeId)
        requires
            old(self).wf(),
            old(self).contains(*a),
            old(self).contains(*b),
        ensures
            final(self).wf(),
            final(self).slots() == old(self).slots().update(
                a.slot(),
                old(self).slots()[b.slot()],
            ).update(b.slot(), old(self).slots()[a.slot()]),
            final(self).free() == old(self).free(),
            final(self).root == old(self).root,
    {
        if a.index != b.index {
            let from_a = self.nodes[a.index].take();
            let from_b = self.nodes[b.index].take();
            self.nodes[a.index] = from_b;
            self.nodes[b.index] = from_a;
        }
        proof {
            assert(self.slots() =~= old(self).slots().update(
                a.slot(),
                old(self).slots()[b.slot()],
            ).update(b.slot(), old(self).slots()[a.slot()]));
            assert forall|id: NodeId|
                id.slot() < self.slots().len() && self.slots()[id.slot()] is None
                implies #[trigger] self.free().contains(id) by {
                assert(old(self).slots()[id.slot()] is None);
            }
        }
    }

    /// Succeeds exactly when `id` names an occupied slot.
    pub(crate) fn validate_node_id(&self, id: &NodeId) -> (res: Result<(), NodeIdError>)
        ensures
            res is Ok <==> self.contains(*id),
            res is Err ==> res == Err::<(), NodeIdError>(NodeIdError::HandleInvalid),
    {
        if id.index < self.nodes.len() && self.nodes[id.index].is_some() {
            Ok(())
        } else {
            Err(NodeIdError::HandleInvalid)
        }
    }

    /// The node that `id` names, which the caller knows to exist.
    pub(crate) fn get_unchecked(&self, id: &NodeId) -> (node: &N)
        requires
            self.contains(*id),
        ensures
            *node == self.node(*id),
    {
        self.nodes[id.index].as_ref().unwrap()
    }

    /// Mutable access to the node that `id` names, which the caller knows
    /// to exist.
    pub(crate) fn get_unchecked_mut(&mut self, id: &NodeId) -> (node: &mut N)
        requires
            old(self).contains(*id),
        ensures
            *node == old(self).node(*id),
            final(self).slots() == old(self).slots().update(id.slot(), Some(*final(node))),
            final(self).free() == old(self).free(),
            final(self).root == old(self).root,
            old(self).wf() ==> final(self).wf(),
    {
        self.nodes[id.index].as_mut().unwrap()
    }

    /// The node that `id` names, after checking that there is one.
    pub(crate) fn get(&self, id: &NodeId) -> (res: Result<&N, NodeIdError>)
        ensures
            match res {
                Ok(node) => self.contains(*id) && *node == self.node(*id),
                Err(e) => !self.contains(*id) && e == NodeIdError::HandleInvalid,
            },
    {
        match self.validate_node_id(id) {
            Ok(_) => Ok(self.get_unchecked(id)),
            Err(e) => Err(e),
        }
    }

    /// Mutable access to the node that `id` names, after checking that
    /// there is one.
    pub(crate) fn get_mut(&mut self, id: &NodeId) -> (res: Result<&mut N, NodeIdError>)
        ensures
            match res {
                Ok(node) => {
                    &&& old(self).contains(*id)
                    &&& *node == old(self).node(*id)
                    &&& final(self).slots() == old(self).slots().update(
                        id.slot(),
                        Some(*final(node)),
                    )
                    &&& final(self).free() == old(self).free()
                    &&& final(self).root == old(self).root
                    &&& old(self).wf() ==> final(self).wf()
                },
                Err(e) => {
                    &&& !old(self).contains(*id)
                    &&& e == NodeIdError::HandleInvalid
                    &&& *final(self) == *old(self)
                },
            },
    {
        match self.validate_node_id(id) {
            Ok(_) => Ok(self.get_unchecked_mut(id)),
            Err(e) => Err(e),
        }
    }

    /// The handle of the root, if the arena holds a tree.
    pub(crate) fn root(&self) -> (root: Option<&NodeId>)
        ensures
            crate::node::link_of(root) == self.root,
    {
        self.root.as_ref()
    }

    /// Stores `node` and records its slot as the root.
    pub(crate) fn set_root(&mut self, node: N) -> (id: NodeId)
        requires
            old(self).wf(),
        ensures
            final(self).wf(),
            id == old(self).next_id(),
            !old(self).contains(id),
            final(self).contains(id),
            id.slot() <= old(self).slots().len(),
            old(self).free().len() > 0 ==> {
                &&& final(self).free() == old(self).free().drop_last()
                &&& final(self).slots() == old(self).slots().update(id.slot(), Some(node))
            },
            old(self).free().len() == 0 ==> {
                &&& final(self).free() == old(self).free()
                &&& final(self).slots() == old(self).slots().push(Some(node))
            },
            final(self).root == Some(id),
    {
        let id = self.insert(node);
        self.root = Some(id);
        id
    }
}

} // verus!
