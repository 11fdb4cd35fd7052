use vstd::prelude::*;
use crate::model::TreeModel;
use crate::node_id::NodeId;
use crate::tree::OptTree;

verus! {

impl<T> OptTree<T> {
    /// The node reached from `start` by following the next-sibling links
    /// stored in the nodes `steps` times; `None` once the chain has ended.
    pub open spec fn walk_next(&self, start: Option<NodeId>, steps: nat) -> Option<NodeId>
        decreases steps,
    {
        if steps == 0 {
            start
        } else {
            match self.walk_next(start, (steps - 1) as nat) {
                Some(x) => self.spec_node(x)@.next_sibling,
                None => None,
            }
        }
    }

    /// The node reached from `start` by following the previous-sibling
    /// links stored in the nodes `steps` times; `None` once the chain has
    /// ended.
    pub open spec fn walk_prev(&self, start: Option<NodeId>, steps: nat) -> Option<NodeId>
        decreases steps,
    {
        if steps == 0 {
            start
        } else {
            match self.walk_prev(start, (steps - 1) as nat) {
                Some(x) => self.spec_node(x)@.prev_sibling,
                None => None,
            }
        }
    }

    /// Walking `k` next-sibling links from the first child of `p` reaches
    /// the `k`-th child of `p`.
    proof fn lemma_walk_next_reaches(&self, p: NodeId, k: nat)
        requires
            self.wf(),
            self@.contains(p),
            k < self@.children(p).len(),
        ensures
            self.walk_next(self.spec_node(p)@.first_child, k) == Some(self@.children(p)[k as int]),
        decreases k,
    {
        assert(self.head_links_ok(p));
        if k > 0 {
            self.lemma_walk_next_reaches(p, (k - 1) as nat);
            assert(self.sibling_links_ok(p, k - 1));
        }
    }

    /// Walking `k` previous-sibling links from the last child of `p`
    /// reaches the `k`-th child of `p` counted from the end.
    proof fn lemma_walk_prev_reaches(&self, p: NodeId, k: nat)
        requires
            self.wf(),
            self@.contains(p),
            k < self@.children(p).len(),
        ensures
            self.walk_prev(self.spec_node(p)@.last_child, k) == Some(
                self@.children(p)[self@.children(p).len() - 1 - k],
            ),
        decreases k,
    {
        assert(self.head_links_ok(p));
        if k > 0 {
            self.lemma_walk_prev_reaches(p, (k - 1) as nat);
            assert(self.sibling_links_ok(p, self@.children(p).len() - k));
        }
    }

    /// The sibling chain of every node is consistent: the children of `p`
    /// are exactly the nodes whose parent link names `p`, each listed
    /// once; walking the next-sibling links from the first-child link of
    /// `p` visits them in order and ends after the last, which is the one
    /// that the last-child link of `p` names; and walking the
    /// previous-sibling links from there visits them in reverse. A node
    /// without children has neither link.
    pub proof fn lemma_sibling_chain(&self, p: NodeId)
        requires
            self.wf(),
            self@.contains(p),
        ensures
            self@.children(p).no_duplicates(),
            forall|x: NodeId|
                self@.children(p).contains(x) <==> self@.contains(x) && self.spec_node(x)@.parent
                    == Some(p),
            forall|k: nat|
                k < self@.children(p).len() ==> #[trigger] self.walk_next(
                    self.spec_node(p)@.first_child,
                    k,
                ) == Some(self@.children(p)[k as int]),
            self.walk_next(self.spec_node(p)@.first_child, self@.children(p).len()) is None,
            forall|k: nat|
                k < self@.children(p).len() ==> #[trigger] self.walk_prev(
                    self.spec_node(p)@.last_child,
                    k,
                ) == Some(self@.children(p)[self@.children(p).len() - 1 - k]),
            self.walk_prev(self.spec_node(p)@.last_child, self@.children(p).len()) is None,
            self.spec_node(p)@.first_child is None <==> self.spec_node(p)@.last_child is None,
            self@.children(p).len() == 0 <==> self.spec_node(p)@.first_child is None,
            self@.children(p).len() > 0 ==> {
                &&& self.spec_node(p)@.first_child == Some(self@.children(p).first())
                &&& self.spec_node(p)@.last_child == Some(self@.children(p).last())
                &&& self.spec_node(self@.children(p).first())@.prev_sibling is None
                &&& self.spec_node(self@.children(p).last())@.next_sibling is None
            },
    {
        let m = self@;
        let ch = m.children(p);
        let n = ch.len();
        assert(m.node_wf(p));
        assert(self.head_links_ok(p));
        assert forall|x: NodeId| ch.contains(x) <==> m.contains(x) && self.spec_node(x)@.parent
            == Some(p) by {
            if ch.contains(x) {
                let k = choose|k: int| 0 <= k < ch.len() && ch[k] == x;
                assert(m.contains(ch[k]));
            }
            if m.contains(x) {
                assert(m.node_wf(x));
            }
        }
        assert forall|k: nat| k < n implies #[trigger] self.walk_next(
            self.spec_node(p)@.first_child,
            k,
        ) == Some(ch[k as int]) by {
            self.lemma_walk_next_reaches(p, k);
        }
        assert forall|k: nat| k < n implies #[trigger] self.walk_prev(
            self.spec_node(p)@.last_child,
            k,
        ) == Some(ch[n - 1 - k]) by {
            self.lemma_walk_prev_reaches(p, k);
        }
        if n > 0 {
            self.lemma_walk_next_reaches(p, (n - 1) as nat);
            self.lemma_walk_prev_reaches(p, (n - 1) as nat);
            assert(self.sibling_links_ok(p, n - 1));
            assert(self.sibling_links_ok(p, 0));
        }
    }

    /// Whether `self` and `other` store the same nodes under the same
    /// handles and record the same root.
    pub open spec fn stores_the_same(&self, other: &Self) -> bool {
        &&& self@.root == other@.root
        &&& forall|id: NodeId| #[trigger] self@.contains(id) == other@.contains(id)
        &&& forall|id: NodeId| self@.contains(id) ==> #[trigger] self.spec_node(id)
            == other.spec_node(id)
    }

    /// As far as `self` lists children of `p`, `other` lists the same.
    proof fn lemma_same_children_upto(&self, other: &Self, p: NodeId, k: int)
        requires
            self.wf(),
            other.wf(),
            self.stores_the_same(other),
            self@.contains(p),
            0 <= k < self@.children(p).len(),
        ensures
            k < other@.children(p).len(),
            other@.children(p)[k] == self@.children(p)[k],
        decreases k,
    {
        assert(other@.contains(p));
        assert(self.spec_node(p) == other.spec_node(p));
        assert(self.head_links_ok(p));
        assert(other.head_links_ok(p));
        if k > 0 {
            self.lemma_same_children_upto(other, p, k - 1);
            let c = self@.children(p)[k - 1];
            assert(self@.node_wf(p));
            assert(self@.contains(c));
            assert(self.spec_node(c) == other.spec_node(c));
            assert(self.sibling_links_ok(p, k - 1));
            assert(other.sibling_links_ok(p, k - 1));
        }
    }

    /// The chains of ancestors of a node in `self` and in `other` are the
    /// same.
    proof fn lemma_same_ancestors(&self, other: &Self, x: NodeId)
        requires
            self.wf(),
            other.wf(),
            self.stores_the_same(other),
            self@.contains(x),
        ensures
            self@.ancestors(x) == other@.ancestors(x),
        decreases self@.ancestors(x).len(),
    {
        assert(other@.contains(x));
        assert(self.spec_node(x) == other.spec_node(x));
        assert(self@.node_wf(x));
        assert(other@.node_wf(x));
        if let Some(p) = self@.parent(x) {
            self.lemma_same_ancestors(other, p);
        }
    }

    /// The view of a well-formed tree is determined by what is stored:
    /// two well-formed trees with the same nodes under the same handles
    /// and the same root stand for the same mathematical tree.
    pub proof fn lemma_view_determined(&self, other: &Self)
        requires
            self.wf(),
            other.wf(),
            self.stores_the_same(other),
        ensures
            self@ == other@,
    {
        assert(self@.nodes.dom() =~= other@.nodes.dom());
        assert forall|x: NodeId| self@.contains(x) implies #[trigger] self@.nodes[x]
            == other@.nodes[x] by {
            assert(other@.contains(x));
            assert(self.spec_node(x) == other.spec_node(x));
            self.lemma_same_ancestors(other, x);
            let mine = self@.children(x);
            let theirs = other@.children(x);
            assert forall|k: int| 0 <= k < mine.len() implies k < theirs.len() && theirs[k]
                == mine[k] by {
                self.lemma_same_children_upto(other, x, k);
            }
            assert forall|k: int| 0 <= k < theirs.len() implies k < mine.len() && theirs[k]
                == mine[k] by {
                other.lemma_same_children_upto(self, x, k);
            }
            if mine.len() > 0 {
                self.lemma_same_children_upto(other, x, mine.len() - 1);
            }
            if theirs.len() > 0 {
                other.lemma_same_children_upto(self, x, theirs.len() - 1);
            }
            assert(mine =~= theirs);
        }
        assert(self@.nodes =~= other@.nodes);
    }

    /// A tree has one root or is empty: the nodes without a parent link
    /// are the root and nothing else, an empty tree has no root, and a
    /// tree with a root holds it.
    pub proof fn lemma_single_root(&self)
        requires
            self.wf(),
        ensures
            forall|x: NodeId|
                self@.contains(x) ==> (self.spec_node(x)@.parent is None <==> self@.root == Some(
                    x,
                )),
            self@.root is None <==> forall|x: NodeId| !self@.contains(x),
            self@.root matches Some(r) ==> self@.contains(r),
    {
        let m = self@;
        assert forall|x: NodeId| m.contains(x) implies (self.spec_node(x)@.parent is None
            <==> m.root == Some(x)) by {
            assert(m.node_wf(x));
        }
        if m.root is None {
            assert forall|x: NodeId| !m.contains(x) by {
                if m.contains(x) {
                    assert(m.node_wf(x));
                }
            }
        }
    }

    /// Removing a leaf that is the last child of its parent and inserting
    /// a node with the same data under the same parent restores the tree:
    /// the insertion reuses the freed slot, so the new node has the handle
    /// of the removed one, and the tree, the free slots and the number of
    /// slots are what they were. Here `middle` is what the removal left
    /// and `after` is what the insertion left.
    pub proof fn lemma_remove_then_insert_restores(
        before: Self,
        middle: Self,
        after: Self,
        id: NodeId,
        parent: NodeId,
    )
        requires
            before.wf(),
            before@.contains(id),
            before@.children(id).len() == 0,
            before@.parent(id) == Some(parent),
            before@.children(parent).last() == id,
            middle@ == before@.remove_subtree(id),
            middle.free_slots() == before.free_slots() + before@.pre_order(id),
            middle.spec_slot_count() == before.spec_slot_count(),
            after@ == middle@.insert_under(middle.next_id(), before@.data(id), parent),
            after.free_slots() == middle.free_slots_after_insert(),
            after.spec_slot_count() == middle.slot_count_after_insert(),
        ensures
            middle.next_id() == id,
            after@ == before@,
            after.free_slots() == before.free_slots(),
            after.spec_slot_count() == before.spec_slot_count(),
    {
        let m = before@;
        m.lemma_leaf_pre_order(id);
        assert(middle.free_slots() =~= before.free_slots().push(id));
        assert(after.free_slots() =~= before.free_slots());
        m.lemma_remove_leaf_then_insert(id, parent);
    }

    /// Each traversal of a subtree is determined by the tree and the node
    /// it starts at: what two calls on the same tree return, `first` and
    /// `second`, is the same sequence.
    pub proof fn lemma_traversals_repeat(
        &self,
        id: NodeId,
        first: (Seq<NodeId>, Seq<NodeId>, Seq<NodeId>),
        second: (Seq<NodeId>, Seq<NodeId>, Seq<NodeId>),
    )
        requires
            first.0 == self@.pre_order(id),
            first.1 == self@.post_order(id),
            first.2 == self@.level_order(id),
            second.0 == self@.pre_order(id),
            second.1 == self@.post_order(id),
            second.2 == self@.level_order(id),
        ensures
            first == second,
    {
    }
}

impl<T> TreeModel<T> {
    /// The subtree at a node without children is that node alone.
    pub proof fn lemma_leaf_pre_order(self, id: NodeId)
        requires
            self.wf(),
            self.contains(id),
            self.children(id).len() == 0,
        ensures
            self.pre_order(id) == seq![id],
            forall|x: NodeId| self.in_subtree(x, id) <==> x == id,
    {
        assert(self.pre_order_from(id, 0) =~= Seq::empty());
        assert(self.pre_order(id) =~= seq![id]);
        self.lemma_pre_order_members(id);
        assert forall|x: NodeId| self.in_subtree(x, id) <==> x == id by {
            if self.in_subtree(x, id) {
                assert(self.pre_order(id).contains(x));
            }
            if x == id {
                assert(self.pre_order(id)[0] == id);
                assert(self.pre_order(id).contains(id));
            }
        }
    }

    /// Removing a leaf that is the last child of its parent and appending
    /// a leaf with the same handle and data to the children of that parent
    /// gives the tree back.
    pub proof fn lemma_remove_leaf_then_insert(self, id: NodeId, parent: NodeId)
        requires
            self.wf(),
            self.contains(id),
            self.children(id).len() == 0,
            self.parent(id) == Some(parent),
            self.children(parent).last() == id,
        ensures
            self.remove_subtree(id).insert_under(id, self.data(id), parent) == self,
    {
        let cut = self.remove_subtree(id);
        let back = cut.insert_under(id, self.data(id), parent);
        let ch = self.children(parent);
        self.lemma_leaf_pre_order(id);
        assert(self.node_wf(id));
        assert(self.node_wf(parent));
        self.lemma_ancestors_acyclic(id);
        crate::removal::lemma_without(ch, id);
        assert(ch.index_of(id) == ch.len() - 1);
        assert(crate::removal::without(ch, id).push(id) =~= ch);
        assert(!self.in_subtree(parent, id));
        assert forall|x: NodeId| back.contains(x) <==> self.contains(x) by {
            assert(self.in_subtree(x, id) <==> x == id);
            assert(cut.contains(x) <==> self.contains(x) && !self.in_subtree(x, id));
        }
        assert(back.nodes.dom() =~= self.nodes.dom());
        assert forall|x: NodeId| self.contains(x) implies #[trigger] back.nodes[x]
            == self.nodes[x] by {
            if x == id {
                assert(self.children(id) =~= Seq::empty());
            } else {
                assert(!self.in_subtree(x, id));
            }
        }
        assert(back.nodes =~= self.nodes);
        assert(self.root != Some(id)) by {
            if let Some(r) = self.root {
                assert(self.node_wf(r));
            }
        }
    }
}

} // verus!
