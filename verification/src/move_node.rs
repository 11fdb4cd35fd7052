use vstd::prelude::*;
use crate::behaviors::MoveBehavior;
use crate::error::NodeIdError;
use crate::moving::upto;
use crate::node_id::NodeId;
use crate::tree::OptTree;

verus! {

impl<T> OptTree<T> {
    /// Whether the node `id` is `top` or lies below it, found by walking
    /// up from `id`.
    pub(crate) fn lies_below(&self, id: &NodeId, top: &NodeId) -> (below: bool)
        requires
            self.wf(),
            self@.contains(*id),
        ensures
            below == self@.in_subtree(*id, *top),
    {
        let ghost anc = self@.ancestors(*id);
        proof {
            self@.lemma_ancestors_acyclic(*id);
            assert forall|j: int| 0 <= j < anc.len() implies self@.contains(#[trigger] anc[j]) by {
                self@.lemma_ancestor_chain(*id, j);
            }
            assert(self@.node_wf(anc.last()));
        }
        let mut cur: NodeId = *id;
        let ghost mut j: int = 0;
        loop
            invariant
                self.wf(),
                self@.contains(*id),
                anc == self@.ancestors(*id),
                forall|i: int| 0 <= i < anc.len() ==> self@.contains(#[trigger] anc[i]),
                forall|i: int|
                    0 <= i < anc.len() - 1 ==> self@.parent(#[trigger] anc[i]) == Some(anc[i + 1]),
                self@.parent(anc.last()) is None,
                0 <= j < anc.len(),
                cur == anc[j],
                forall|i: int| 0 <= i < j ==> anc[i] != *top,
            decreases anc.len() - j,
        {
            if cur == *top {
                proof {
                    assert(anc[j] == *top);
                }
                return true;
            }
            match self.arena.get_unchecked(&cur).parent {
                Some(p) => {
                    cur = p;
                    proof {
                        j = j + 1;
                    }
                },
                None => {
                    return false;
                },
            }
        }
    }

    /// Appends the node `child`, which is in no list of children, to the
    /// children of `parent`.
    pub(crate) fn append_child(&mut self, child: &NodeId, parent: &NodeId)
        requires
            old(self).arena.wf(),
            old(self).links_ok(),
            old(self).lists_ok(),
            old(self).unlisted(*child),
            old(self).arena.contains(*child),
            old(self).arena.contains(*parent),
            *child != *parent,
        ensures
            final(self).arena.wf(),
            final(self).links_ok(),
            final(self).lists_ok(),
            final(self).arena.slots().len() == old(self).arena.slots().len(),
            final(self).arena.free() == old(self).arena.free(),
            final(self).arena.root == old(self).arena.root,
            final(self).paths == old(self).paths,
            final(self).kids@ == old(self).kids@.insert(
                *parent,
                old(self).kids@[*parent].push(*child),
            ),
            forall|x: NodeId|
                #![trigger final(self).arena.contains(x)]
                #![trigger old(self).arena.contains(x)]
                final(self).arena.contains(x) == old(self).arena.contains(x),
            forall|x: NodeId|
                #![trigger final(self).arena.node(x)]
                #![trigger old(self).arena.node(x)]
                old(self).arena.contains(x) ==> {
                    &&& final(self).arena.node(x).data == old(self).arena.node(x).data
                    &&& final(self).arena.node(x).parent == if x == *child {
                        Some(*parent)
                    } else {
                        old(self).arena.node(x).parent
                    }
                },
    {
        let ghost before = *old(self);
        let ghost base = before.kids@[*parent];
        proof {
            assert(before.head_links_ok(*parent));
            if base.len() > 0 {
                assert(before.listed_ok(*parent, base.len() - 1));
                assert(before.sibling_links_ok(*parent, base.len() - 1));
            }
        }
        let last = self.arena.get_unchecked(parent).last_child;
        let node = self.arena.get_unchecked_mut(child);
        node.parent = Some(*parent);
        node.prev_sibling = last;
        node.next_sibling = None;
        match last {
            Some(last_id) => {
                let owner = self.arena.get_unchecked_mut(parent);
                owner.last_child = Some(*child);
                let last_child = self.arena.get_unchecked_mut(&last_id);
                last_child.next_sibling = Some(*child);
            },
            None => {
                let owner = self.arena.get_unchecked_mut(parent);
                owner.first_child = Some(*child);
                owner.last_child = Some(*child);
            },
        }
        let ghost kids = before.kids@.insert(*parent, base.push(*child));
        self.kids = Ghost(kids);
        proof {
            assert forall|x: NodeId| self.arena.contains(x) implies #[trigger] self.head_links_ok(
                x,
            ) by {
                assert(before.head_links_ok(x));
            }
            assert forall|q: NodeId, k: int|
                self.arena.contains(q) && 0 <= k < self.kids@[q].len() implies #[trigger]
                self.sibling_links_ok(q, k) by {
                if q == *parent {
                    if k < base.len() {
                        assert(before.sibling_links_ok(q, k));
                        assert(before.listed_ok(q, k));
                        assert(base[k] != *child);
                    }
                } else {
                    assert(before.sibling_links_ok(q, k));
                    assert(before.listed_ok(q, k));
                    assert(before.kids@[q][k] != *child);
                }
            }
            assert forall|q: NodeId, k: int|
                self.arena.contains(q) && 0 <= k < self.kids@[q].len() implies #[trigger]
                self.listed_ok(q, k) by {
                if q == *parent {
                    if k < base.len() {
                        assert(before.listed_ok(q, k));
                        assert(base[k] != *child);
                    }
                } else {
                    assert(before.listed_ok(q, k));
                    assert(before.kids@[q][k] != *child);
                }
            }
        }
    }

    /// Moves the node `node_id`, with everything below it, to the end of
    /// the children of another node, or makes it the root, in which case
    /// the former root becomes its last child.
    ///
    /// Fails, changing nothing, with `HandleInvalid` when a handle names
    /// no node, and with `InvalidOperation` when the destination is the
    /// node itself or lies below it, as the move would create a cycle.
    pub fn move_node(&mut self, node_id: &NodeId, behavior: MoveBehavior) -> (res: Result<
        (),
        NodeIdError,
    >)
        requires
            old(self).wf(),
        ensures
            final(self).wf(),
            final(self).free_slots() == old(self).free_slots(),
            final(self).spec_slot_count() == old(self).spec_slot_count(),
            res is Err ==> *final(self) == *old(self),
            match behavior {
                MoveBehavior::ToRoot => if old(self)@.contains(*node_id) {
                    &&& res is Ok
                    &&& final(self)@ == old(self)@.move_to_root(*node_id)
                } else {
                    res == Err::<(), NodeIdError>(NodeIdError::HandleInvalid)
                },
                MoveBehavior::ToParent(dest) => if !old(self)@.contains(*node_id) || !old(
                    self,
                )@.contains(*dest) {
                    res == Err::<(), NodeIdError>(NodeIdError::HandleInvalid)
                } else if old(self)@.in_subtree(*dest, *node_id) {
                    res == Err::<(), NodeIdError>(NodeIdError::InvalidOperation)
                } else {
                    &&& res is Ok
                    &&& final(self)@ == old(self)@.move_under(*node_id, *dest)
                },
            },
    {
        match self.arena.validate_node_id(node_id) {
            Ok(_) => {},
            Err(e) => {
                return Err(e);
            },
        }
        match behavior {
            MoveBehavior::ToRoot => {
                self.move_to_root(node_id);
                Ok(())
            },
            MoveBehavior::ToParent(dest) => {
                match self.arena.validate_node_id(dest) {
                    Ok(_) => {},
                    Err(e) => {
                        return Err(e);
                    },
                }
                if self.lies_below(dest, node_id) {
                    return Err(NodeIdError::InvalidOperation);
                }
                self.move_under(node_id, dest);
                Ok(())
            },
        }
    }

    /// Moves the node `id` to the end of the children of `dest`, which
    /// does not lie below it.
    fn move_under(&mut self, id: &NodeId, dest: &NodeId)
        requires
            old(self).wf(),
            old(self)@.contains(*id),
            old(self)@.contains(*dest),
            !old(self)@.in_subtree(*dest, *id),
        ensures
            final(self).wf(),
            final(self).free_slots() == old(self).free_slots(),
            final(self).spec_slot_count() == old(self).spec_slot_count(),
            final(self)@ == old(self)@.move_under(*id, *dest),
    {
        let ghost before = *old(self);
        let ghost m = before@;
        proof {
            m.lemma_move_under_wf(*id, *dest);
            m.lemma_ancestors_acyclic(*dest);
            assert(m.ancestors(*dest)[0] == *dest);
        }
        self.splice_out(id);
        let ghost cut = *self;
        self.append_child(id, dest);
        let ghost joined = *self;
        let ghost paths = Map::new(
            |x: NodeId| true,
            |x: NodeId|
                if before.paths@[x].contains(*id) {
                    upto(before.paths@[x], *id) + before.paths@[*dest]
                } else {
                    before.paths@[x]
                },
        );
        self.paths = Ghost(paths);
        proof {
            let m1 = self@;
            let goal = m.move_under(*id, *dest);
            assert(m1.nodes.dom() =~= goal.nodes.dom());
            assert forall|x: NodeId| m1.contains(x) implies #[trigger] m1.nodes[x]
                == goal.nodes[x] by {
                assert(cut.arena.contains(x));
                assert(before.arena.contains(x));
                assert(self.arena.node(x).data == cut.arena.node(x).data);
                assert(cut.arena.node(x).data == before.arena.node(x).data);
            }
            assert(m1.nodes =~= goal.nodes);
            assert(m1 == goal);
            Self::lemma_links_frame(joined, *self);
        }
    }

    /// Makes the node `id` the root; the former root becomes its last
    /// child.
    fn move_to_root(&mut self, id: &NodeId)
        requires
            old(self).wf(),
            old(self)@.contains(*id),
        ensures
            final(self).wf(),
            final(self).free_slots() == old(self).free_slots(),
            final(self).spec_slot_count() == old(self).spec_slot_count(),
            final(self)@ == old(self)@.move_to_root(*id),
    {
        let ghost before = *old(self);
        let ghost m = before@;
        proof {
            m.lemma_move_to_root_wf(*id);
            assert(m.node_wf(*id));
        }
        let root = match self.arena.root {
            Some(root) => root,
            None => {
                return ;
            },
        };
        if root == *id {
            return ;
        }
        proof {
            assert(m.node_wf(root));
        }
        self.splice_out(id);
        let ghost cut = *self;
        let node = self.arena.get_unchecked_mut(id);
        node.parent = None;
        node.prev_sibling = None;
        node.next_sibling = None;
        self.arena.root = Some(*id);
        proof {
            assert forall|x: NodeId| self.arena.contains(x) implies #[trigger] self.head_links_ok(
                x,
            ) by {
                assert(cut.head_links_ok(x));
            }
            assert forall|q: NodeId, k: int|
                self.arena.contains(q) && 0 <= k < self.kids@[q].len() implies #[trigger]
                self.sibling_links_ok(q, k) by {
                assert(cut.sibling_links_ok(q, k));
                assert(cut.listed_ok(q, k));
                assert(cut.kids@[q][k] != *id);
            }
            assert forall|q: NodeId, k: int|
                self.arena.contains(q) && 0 <= k < self.kids@[q].len() implies #[trigger]
                self.listed_ok(q, k) by {
                assert(cut.listed_ok(q, k));
                assert(cut.kids@[q][k] != *id);
            }
            assert forall|q: NodeId, k: int|
                self.arena.contains(q) && 0 <= k < self.kids@[q].len() implies (
            #[trigger] self.kids@[q][k]) != root by {
                assert(cut.listed_ok(q, k));
                assert(cut.kids@[q][k] != *id);
            }
        }
        let ghost loose = *self;
        self.append_child(&root, id);
        let ghost joined = *self;
        let ghost paths = Map::new(
            |x: NodeId| true,
            |x: NodeId|
                if before.paths@[x].contains(*id) {
                    upto(before.paths@[x], *id)
                } else {
                    before.paths@[x].push(*id)
                },
        );
        self.paths = Ghost(paths);
        proof {
            let m1 = self@;
            let goal = m.move_to_root(*id);
            assert(m1.nodes.dom() =~= goal.nodes.dom());
            assert forall|x: NodeId| m1.contains(x) implies #[trigger] m1.nodes[x]
                == goal.nodes[x] by {
                assert(loose.arena.contains(x));
                assert(cut.arena.contains(x));
                assert(before.arena.contains(x));
                assert(self.arena.node(x).data == loose.arena.node(x).data);
                assert(cut.arena.node(x).data == before.arena.node(x).data);
            }
            assert(m1.nodes =~= goal.nodes);
            assert(m1 == goal);
            Self::lemma_links_frame(joined, *self);
        }
    }
}

} // verus!
