use vstd::prelude::*;
use crate::arena::Arena;
use crate::behaviors::InsertBehavior;
use crate::error::NodeIdError;
use crate::model::{NodeModel, TreeModel};
use crate::node::{link_of, OptNode};
use crate::node_id::NodeId;

verus! {

/// An ordered tree whose nodes live in an arena and are named by handles.
///
/// The tree stands for a [`TreeModel`], its view, and every operation says
/// how the view changes. Beside the nodes the tree keeps, as ghost state,
/// the order of each node's children and each node's chain of ancestors;
/// the invariant ties both to the links stored in the nodes.
pub struct OptTree<T> {
    pub(crate) arena: Arena<OptNode<T>>,
    pub(crate) kids: Ghost<Map<NodeId, Seq<NodeId>>>,
    pub(crate) paths: Ghost<Map<NodeId, Seq<NodeId>>>,
}

impl<T> OptTree<T> {
    /// The mathematical tree that this value stands for.
    pub open(crate) spec fn view(&self) -> TreeModel<T> {
        TreeModel {
            nodes: Map::new(
                |id: NodeId| self.arena.contains(id),
                |id: NodeId|
                    NodeModel {
                        data: self.arena.node(id).data,
                        parent: self.arena.node(id).parent,
                        children: self.kids@[id],
                        ancestors: self.paths@[id],
                    },
            ),
            root: self.arena.root,
        }
    }

    /// The number of slots of the arena, occupied or free.
    pub open(crate) spec fn spec_slot_count(&self) -> nat {
        self.arena.slots().len()
    }

    /// The free slots of the arena; the last one is reused first.
    pub open(crate) spec fn free_slots(&self) -> Seq<NodeId> {
        self.arena.free()
    }

    /// The handle that the next insertion returns: the free slot freed
    /// last, or a new slot when none is free.
    pub open(crate) spec fn next_id(&self) -> NodeId {
        self.arena.next_id()
    }

    /// The free slots after one insertion.
    pub open spec fn free_slots_after_insert(&self) -> Seq<NodeId> {
        if self.free_slots().len() > 0 {
            self.free_slots().drop_last()
        } else {
            self.free_slots()
        }
    }

    /// The number of slots after one insertion.
    pub open spec fn slot_count_after_insert(&self) -> nat {
        if self.free_slots().len() > 0 {
            self.spec_slot_count()
        } else {
            self.spec_slot_count() + 1
        }
    }

    /// The first and last child links of `id` are the ends of its list of
    /// children, and a node without a parent has no sibling links.
    pub open(crate) spec fn head_links_ok(&self, id: NodeId) -> bool {
        let n = self.arena.node(id);
        &&& n.first_child == self@.first_child(id)
        &&& n.last_child == self@.last_child(id)
        &&& n.parent is None ==> n.prev_sibling is None && n.next_sibling is None
    }

    /// The sibling links of the `k`-th child of `p` name its neighbours in
    /// the list of children of `p`.
    pub open(crate) spec fn sibling_links_ok(&self, p: NodeId, k: int) -> bool {
        let ch = self.kids@[p];
        let c = self.arena.node(ch[k]);
        &&& c.prev_sibling == if k == 0 {
            None
        } else {
            Some(ch[k - 1])
        }
        &&& c.next_sibling == if k + 1 == ch.len() {
            None
        } else {
            Some(ch[k + 1])
        }
    }

    /// The links stored in the nodes agree with the view.
    pub open(crate) spec fn links_ok(&self) -> bool {
        &&& forall|id: NodeId| self.arena.contains(id) ==> #[trigger] self.head_links_ok(id)
        &&& forall|p: NodeId, k: int|
            self.arena.contains(p) && 0 <= k < self.kids@[p].len()
                ==> #[trigger] self.sibling_links_ok(p, k)
    }

    /// The invariant of the tree: the arena is consistent, the view is a
    /// tree, and the stored links agree with the view.
    pub open(crate) spec fn wf(&self) -> bool {
        &&& self.arena.wf()
        &&& self@.wf()
        &&& self.links_ok()
    }

    /// The node stored under `id`.
    pub open(crate) spec fn spec_node(&self, id: NodeId) -> OptNode<T> {
        self.arena.node(id)
    }

    /// A node as stored is the node that the view describes.
    pub proof fn lemma_node_view(&self, id: NodeId)
        requires
            self.wf(),
            self@.contains(id),
        ensures
            self.spec_node(id)@ == self@.node_view(id),
    {
        let m = self@;
        assert(self.head_links_ok(id));
        assert(m.node_wf(id));
        match m.parent(id) {
            None => {},
            Some(p) => {
                m.children(p).index_of_first_ensures(id);
                let k = m.children(p).index_of(id);
                assert(self.sibling_links_ok(p, k));
            },
        }
    }

    /// An empty tree.
    pub fn new() -> (tree: Self)
        ensures
            tree.wf(),
            tree@ == TreeModel::<T>::empty(),
            tree.spec_slot_count() == 0,
            tree.free_slots().len() == 0,
    {
        Self::with_capacity(0, 0)
    }

    /// An empty tree with room reserved for `node_capacity` slots and
    /// `free_capacity` free-list entries.
    pub(crate) fn with_capacity(node_capacity: usize, free_capacity: usize) -> (tree: Self)
        ensures
            tree.wf(),
            tree@ == TreeModel::<T>::empty(),
            tree.spec_slot_count() == 0,
            tree.free_slots().len() == 0,
    {
        let tree = OptTree {
            arena: Arena::with_capacity(node_capacity, free_capacity),
            kids: Ghost(Map::empty()),
            paths: Ghost(Map::empty()),
        };
        proof {
            assert(tree@.nodes =~= TreeModel::<T>::empty().nodes);
        }
        tree
    }

    /// The number of slots of the arena, occupied or free.
    pub fn slot_count(&self) -> (n: usize)
        ensures
            n == self.spec_slot_count(),
    {
        self.arena.nodes.len()
    }

    /// The number of free slots of the arena.
    pub fn free_slot_count(&self) -> (n: usize)
        ensures
            n == self.free_slots().len(),
    {
        self.arena.free_ids.len()
    }

    /// The handle of the root; `None` for an empty tree.
    pub fn root_node_id(&self) -> (root: Option<&NodeId>)
        ensures
            link_of(root) == self@.root,
    {
        self.arena.root()
    }

    /// The node that `node_id` names, or `HandleInvalid` when it names
    /// none.
    pub fn get(&self, node_id: &NodeId) -> (res: Result<&OptNode<T>, NodeIdError>)
        requires
            self.wf(),
        ensures
            match res {
                Ok(node) => self@.contains(*node_id) && node@ == self@.node_view(*node_id),
                Err(e) => !self@.contains(*node_id) && e == NodeIdError::HandleInvalid,
            },
    {
        proof {
            if self@.contains(*node_id) {
                self.lemma_node_view(*node_id);
            }
        }
        self.arena.get(node_id)
    }

    /// Mutable access to the node that `node_id` names, or `HandleInvalid`
    /// when it names none. As long as the links of the node are left as
    /// they were, the tree keeps its shape and only the data changes.
    pub fn get_mut(&mut self, node_id: &NodeId) -> (res: Result<&mut OptNode<T>, NodeIdError>)
        requires
            old(self).wf(),
        ensures
            match res {
                Ok(node) => {
                    &&& old(self)@.contains(*node_id)
                    &&& node@ == old(self)@.node_view(*node_id)
                    &&& final(node)@.same_links(node@) ==> {
                        &&& final(self).only_data_differs(*old(self), *node_id)
                        &&& final(self)@.data(*node_id) == final(node)@.data
                    }
                },
                Err(e) => {
                    &&& !old(self)@.contains(*node_id)
                    &&& e == NodeIdError::HandleInvalid
                    &&& *final(self) == *old(self)
                },
            },
    {
        proof {
            if self@.contains(*node_id) {
                self.lemma_node_view(*node_id);
                Self::lemma_data_changes(*self, *node_id);
            }
        }
        self.arena.get_mut(node_id)
    }

    /// Whether `after` differs from `before` at most in the data of the
    /// node `id`.
    pub(crate) open spec fn data_changed(before: Self, after: Self, id: NodeId) -> bool {
        &&& after.arena.slots().len() == before.arena.slots().len()
        &&& after.arena.slots()[id.slot()] is Some
        &&& after.arena.node(id)@.same_links(before.arena.node(id)@)
        &&& after.arena.slots() == before.arena.slots().update(
            id.slot(),
            after.arena.slots()[id.slot()],
        )
        &&& after.arena.free() == before.arena.free()
        &&& after.arena.root == before.arena.root
        &&& after.arena.wf()
        &&& after.kids == before.kids
        &&& after.paths == before.paths
    }

    /// Every tree that differs from a well-formed one in the data of one
    /// node only is well formed, and its view differs in that data only.
    pub(crate) proof fn lemma_data_changes(before: Self, id: NodeId)
        requires
            before.wf(),
            before.arena.contains(id),
        ensures
            forall|after: Self|
                Self::data_changed(before, after, id) ==> #[trigger] after.only_data_differs(
                    before,
                    id,
                ),
    {
        assert forall|after: Self| Self::data_changed(before, after, id) implies #[trigger]
            after.only_data_differs(before, id) by {
            Self::lemma_data_change(before, after, id);
        }
    }

    /// Whether `self` is the well-formed tree that `before` becomes when
    /// the data of the node `id` is replaced and nothing else changes.
    pub open(crate) spec fn only_data_differs(self, before: Self, id: NodeId) -> bool {
        &&& self.wf()
        &&& self@ == before@.set_data(id, self@.data(id))
        &&& self.free_slots() == before.free_slots()
        &&& self.spec_slot_count() == before.spec_slot_count()
    }

    /// A tree that differs from a well-formed one in the data of one node
    /// only is well formed, and its view differs in that data only.
    pub(crate) proof fn lemma_data_change(before: Self, after: Self, id: NodeId)
        requires
            before.wf(),
            before.arena.contains(id),
            Self::data_changed(before, after, id),
        ensures
            after.wf(),
            after@ == before@.set_data(id, after.arena.node(id).data),
    {
        let m0 = before@;
        let m1 = after@;
        assert(m1.nodes =~= m0.set_data(id, after.arena.node(id).data).nodes);
        m0.lemma_set_data_wf(id, after.arena.node(id).data);
        assert forall|x: NodeId| after.arena.contains(x) implies #[trigger] after.head_links_ok(
            x,
        ) by {
            assert(before.head_links_ok(x));
        }
        assert forall|p: NodeId, k: int|
            after.arena.contains(p) && 0 <= k < after.kids@[p].len()
            implies #[trigger] after.sibling_links_ok(p, k) by {
            assert(before.sibling_links_ok(p, k));
            assert(m0.node_wf(p));
            assert(m0.contains(m0.children(p)[k]));
        }
    }

    /// The node that `node_id` names, which the caller knows to exist.
    pub fn get_unchecked(&self, node_id: &NodeId) -> (node: &OptNode<T>)
        requires
            self.wf(),
            self@.contains(*node_id),
        ensures
            node@ == self@.node_view(*node_id),
    {
        proof {
            self.lemma_node_view(*node_id);
        }
        self.arena.get_unchecked(node_id)
    }

    /// Mutable access to the node that `node_id` names, which the caller
    /// knows to exist. As long as the links of the node are left as they
    /// were, the tree keeps its shape and only the data changes.
    pub fn get_unchecked_mut(&mut self, node_id: &NodeId) -> (node: &mut OptNode<T>)
        requires
            old(self).wf(),
            old(self)@.contains(*node_id),
        ensures
            node@ == old(self)@.node_view(*node_id),
            final(node)@.same_links(node@) ==> {
                &&& final(self).only_data_differs(*old(self), *node_id)
                &&& final(self)@.data(*node_id) == final(node)@.data
            },
    {
        proof {
            self.lemma_node_view(*node_id);
        }
        proof {
            Self::lemma_data_changes(*self, *node_id);
        }
        self.arena.get_unchecked_mut(node_id)
    }

    /// Places `node` in the tree: as the new root, or as the last child of
    /// a node. The links that `node` carries are ignored. Fails with
    /// `HandleInvalid`, changing nothing, when the named parent does not
    /// exist.
    pub fn insert(&mut self, node: OptNode<T>, behavior: InsertBehavior) -> (res: Result<
        NodeId,
        NodeIdError,
    >)
        requires
            old(self).wf(),
        ensures
            final(self).wf(),
            match behavior {
                InsertBehavior::AsRoot => {
                    &&& res == Ok::<NodeId, NodeIdError>(old(self).next_id())
                    &&& final(self)@ == old(self)@.insert_root(old(self).next_id(), node@.data)
                },
                InsertBehavior::UnderNode(parent) => if old(self)@.contains(*parent) {
                    &&& res == Ok::<NodeId, NodeIdError>(old(self).next_id())
                    &&& final(self)@ == old(self)@.insert_under(
                        old(self).next_id(),
                        node@.data,
                        *parent,
                    )
                } else {
                    &&& res == Err::<NodeId, NodeIdError>(NodeIdError::HandleInvalid)
                    &&& *final(self) == *old(self)
                },
            },
            res is Ok ==> {
                &&& !old(self)@.contains(old(self).next_id())
                &&& final(self).free_slots() == old(self).free_slots_after_insert()
                &&& final(self).spec_slot_count() == old(self).slot_count_after_insert()
            },
    {
        match behavior {
            InsertBehavior::UnderNode(parent_id) => {
                match self.arena.validate_node_id(parent_id) {
                    Ok(_) => Ok(self.insert_under_node(node, parent_id)),
                    Err(e) => Err(e),
                }
            },
            InsertBehavior::AsRoot => Ok(self.set_root(node)),
        }
    }

    /// Appends `node` to the children of `parent_id`.
    fn insert_under_node(&mut self, node: OptNode<T>, parent_id: &NodeId) -> (id: NodeId)
        requires
            old(self).wf(),
            old(self)@.contains(*parent_id),
        ensures
            final(self).wf(),
            id == old(self).next_id(),
            !old(self)@.contains(id),
            final(self)@ == old(self)@.insert_under(id, node@.data, *parent_id),
            final(self).free_slots() == old(self).free_slots_after_insert(),
            final(self).spec_slot_count() == old(self).slot_count_after_insert(),
    {
        let ghost data = node.data;
        let last = self.arena.get_unchecked(parent_id).last_child;
        let mut node = node;
        node.parent = Some(*parent_id);
        node.first_child = None;
        node.last_child = None;
        node.prev_sibling = last;
        node.next_sibling = None;

        let new_id = self.arena.insert(node);

        match last {
            Some(last_id) => {
                proof {
                    assert(old(self).head_links_ok(*parent_id));
                    assert(old(self)@.node_wf(*parent_id));
                    assert(old(self)@.contains(old(self)@.children(*parent_id).last()));
                }
                let parent = self.arena.get_unchecked_mut(parent_id);
                parent.last_child = Some(new_id);
                let last_child = self.arena.get_unchecked_mut(&last_id);
                last_child.next_sibling = Some(new_id);
            },
            None => {
                let parent = self.arena.get_unchecked_mut(parent_id);
                parent.first_child = Some(new_id);
                parent.last_child = Some(new_id);
            },
        }

        let ghost kids = old(self).kids@.insert(
            *parent_id,
            old(self).kids@[*parent_id].push(new_id),
        ).insert(new_id, Seq::empty());
        let ghost paths = old(self).paths@.insert(
            new_id,
            seq![new_id] + old(self).paths@[*parent_id],
        );
        self.kids = Ghost(kids);
        self.paths = Ghost(paths);

        proof {
            let before = old(self);
            let m0 = before@;
            let m1 = self@;
            let p = *parent_id;
            let ch0 = m0.children(p);
            m0.lemma_insert_under_wf(new_id, data, p);
            assert(m1.nodes =~= m0.insert_under(new_id, data, p).nodes);
            assert(before.head_links_ok(p));
            assert(m0.node_wf(p));
            assert forall|id: NodeId| self.arena.contains(id) implies #[trigger] self.head_links_ok(
                id,
            ) by {
                if id != new_id {
                    assert(before.head_links_ok(id));
                    assert(m0.node_wf(id));
                }
            }
            assert forall|q: NodeId, k: int|
                self.arena.contains(q) && 0 <= k < self.kids@[q].len()
                implies #[trigger] self.sibling_links_ok(q, k) by {
                if q == p {
                    if k < ch0.len() {
                        assert(before.sibling_links_ok(p, k));
                        assert(m0.contains(ch0[k]));
                    }
                } else {
                    assert(q != new_id);
                    assert(before.sibling_links_ok(q, k));
                    assert(m0.node_wf(q));
                    assert(m0.contains(m0.children(q)[k]));
                    if ch0.len() > 0 {
                        assert(m0.contains(ch0.last()));
                    }
                }
            }
        }
        new_id
    }

    /// Makes `new_root` the root; a former root becomes its only child.
    fn set_root(&mut self, new_root: OptNode<T>) -> (id: NodeId)
        requires
            old(self).wf(),
        ensures
            final(self).wf(),
            id == old(self).next_id(),
            !old(self)@.contains(id),
            final(self)@ == old(self)@.insert_root(id, new_root@.data),
            final(self).free_slots() == old(self).free_slots_after_insert(),
            final(self).spec_slot_count() == old(self).slot_count_after_insert(),
    {
        let ghost data = new_root.data;
        let current_root = self.arena.root;
        let mut node = new_root;
        node.parent = None;
        node.first_child = current_root;
        node.last_child = current_root;
        node.prev_sibling = None;
        node.next_sibling = None;

        let new_root_id = self.arena.set_root(node);

        if let Some(current_root_id) = current_root {
            let former = self.arena.get_unchecked_mut(&current_root_id);
            former.parent = Some(new_root_id);
        }

        let ghost before = *old(self);
        let ghost kids = before.kids@.insert(
            new_root_id,
            match current_root {
                Some(r) => seq![r],
                None => Seq::empty(),
            },
        );
        let ghost paths = Map::new(
            |x: NodeId| x == new_root_id || before.arena.contains(x),
            |x: NodeId|
                if x == new_root_id {
                    seq![new_root_id]
                } else {
                    before.paths@[x].push(new_root_id)
                },
        );
        self.kids = Ghost(kids);
        self.paths = Ghost(paths);

        proof {
            let m0 = before@;
            let m1 = self@;
            m0.lemma_insert_root_wf(new_root_id, data);
            assert(m1.nodes =~= m0.insert_root(new_root_id, data).nodes);
            assert forall|id: NodeId| self.arena.contains(id) implies #[trigger] self.head_links_ok(
                id,
            ) by {
                if id != new_root_id {
                    assert(before.head_links_ok(id));
                    assert(m0.node_wf(id));
                }
            }
            assert forall|q: NodeId, k: int|
                self.arena.contains(q) && 0 <= k < self.kids@[q].len()
                implies #[trigger] self.sibling_links_ok(q, k) by {
                if q == new_root_id {
                    let r = current_root->0;
                    assert(before.head_links_ok(r));
                } else {
                    assert(before.sibling_links_ok(q, k));
                    assert(m0.node_wf(q));
                    assert(m0.contains(m0.children(q)[k]));
                }
            }
        }
        new_root_id
    }
}

} // verus!
