use vstd::prelude::*;
use crate::behaviors::RemoveBehavior;
use crate::error::NodeIdError;
use crate::node::OptNode;
use crate::node_id::NodeId;
use crate::removal::{lemma_spliced, lemma_without, spliced, without};
use crate::tree::OptTree;

verus! {

impl<T> OptTree<T> {
    /// Whether `self` holds the same nodes as `before`, each with the
    /// data and the parent link it had.
    pub(crate) open spec fn same_nodes(&self, before: &Self) -> bool {
        &&& self.arena.slots().len() == before.arena.slots().len()
        &&& self.arena.free() == before.arena.free()
        &&& forall|x: NodeId|
            #![trigger self.arena.contains(x)]
            #![trigger before.arena.contains(x)]
            self.arena.contains(x) == before.arena.contains(x)
        &&& forall|x: NodeId|
            #![trigger self.arena.node(x)]
            #![trigger before.arena.node(x)]
            before.arena.contains(x) ==> {
                &&& self.arena.node(x).data == before.arena.node(x).data
                &&& self.arena.node(x).parent == before.arena.node(x).parent
            }
    }

    /// The `k`-th entry of the list of children of `p` is a stored node
    /// whose parent link names `p`.
    pub(crate) open spec fn listed_ok(&self, p: NodeId, k: int) -> bool {
        let c = self.kids@[p][k];
        &&& self.arena.contains(c)
        &&& self.arena.node(c).parent == Some(p)
    }

    /// Every entry of every list of children is a stored node whose parent
    /// link names the owner of the list.
    pub(crate) open spec fn lists_ok(&self) -> bool {
        forall|p: NodeId, k: int|
            self.arena.contains(p) && 0 <= k < self.kids@[p].len() ==> #[trigger] self.listed_ok(
                p,
                k,
            )
    }

    /// The node `id` is in no list of children.
    pub(crate) open spec fn unlisted(&self, id: NodeId) -> bool {
        forall|p: NodeId, k: int|
            self.arena.contains(p) && 0 <= k < self.kids@[p].len() ==> (
            #[trigger] self.kids@[p][k]) != id
    }

    /// In a well-formed tree the lists of children hold stored nodes with
    /// the right parent links, and only the list of its parent holds `id`.
    pub(crate) proof fn lemma_lists(&self, id: NodeId)
        requires
            self.wf(),
            self@.contains(id),
        ensures
            self.lists_ok(),
            forall|p: NodeId, k: int|
                self.arena.contains(p) && 0 <= k < self.kids@[p].len() && (
                #[trigger] self.kids@[p][k]) == id ==> self@.parent(id) == Some(p),
            self@.parent(id) is None ==> self.unlisted(id),
    {
        let m = self@;
        assert forall|p: NodeId, k: int|
            self.arena.contains(p) && 0 <= k < self.kids@[p].len() implies #[trigger]
            self.listed_ok(p, k) by {
            assert(m.node_wf(p));
            assert(m.contains(m.children(p)[k]));
        }
        assert forall|p: NodeId, k: int|
            self.arena.contains(p) && 0 <= k < self.kids@[p].len() && (
            #[trigger] self.kids@[p][k]) == id implies m.parent(id) == Some(p) by {
            assert(self.listed_ok(p, k));
        }
    }

    /// Takes the node `id` out of the list of children of its parent. The
    /// node keeps its own links, so the view is no tree until the caller
    /// has removed or re-attached the node; the stored links agree with
    /// the new lists of children all the same.
    pub(crate) fn splice_out(&mut self, id: &NodeId)
        requires
            old(self).wf(),
            old(self)@.contains(*id),
        ensures
            final(self).arena.wf(),
            final(self).links_ok(),
            final(self).lists_ok(),
            final(self).unlisted(*id),
            final(self).same_nodes(old(self)),
            final(self).arena.root == old(self).arena.root,
            final(self).arena.node(*id) == old(self).arena.node(*id),
            final(self).paths == old(self).paths,
            final(self).kids@ == (match old(self)@.parent(*id) {
                Some(p) => old(self).kids@.insert(p, without(old(self).kids@[p], *id)),
                None => old(self).kids@,
            }),
    {
        let ghost before = *old(self);
        let ghost m = before@;
        proof {
            before.lemma_node_view(*id);
            assert(m.node_wf(*id));
            assert(before.head_links_ok(*id));
        }
        let node = self.arena.get_unchecked(id);
        let up = node.parent;
        let prev = node.prev_sibling;
        let next = node.next_sibling;
        match up {
            None => {
                proof {
                    before.lemma_lists(*id);
                }
            },
            Some(p) => {
                let ghost ch = m.children(p);
                let ghost pos = ch.index_of(*id);
                proof {
                    assert(m.node_wf(p));
                    lemma_without(ch, *id);
                    assert(before.head_links_ok(p));
                    assert(before.sibling_links_ok(p, pos));
                    assert forall|k: int| 0 <= k < ch.len() implies #[trigger] ch[k] != p
                        && m.contains(ch[k]) && m.parent(ch[k]) == Some(p) by {
                        m.lemma_child_rank(p, k);
                    }
                }
                match prev {
                    Some(pv) => {
                        assert(pv == ch[pos - 1]);
                        let before_id = self.arena.get_unchecked_mut(&pv);
                        before_id.next_sibling = next;
                    },
                    None => {
                        let parent = self.arena.get_unchecked_mut(&p);
                        parent.first_child = next;
                    },
                }
                match next {
                    Some(nx) => {
                        assert(nx == ch[pos + 1]);
                        let after_id = self.arena.get_unchecked_mut(&nx);
                        after_id.prev_sibling = prev;
                    },
                    None => {
                        let parent = self.arena.get_unchecked_mut(&p);
                        parent.last_child = prev;
                    },
                }
                let ghost kids = before.kids@.insert(p, without(ch, *id));
                self.kids = Ghost(kids);
                proof {
                    let w = without(ch, *id);
                    before.lemma_lists(*id);
                    assert forall|q: NodeId, k: int|
                        self.arena.contains(q) && 0 <= k < self.kids@[q].len() implies #[trigger]
                        self.listed_ok(q, k) && self.kids@[q][k] != *id by {
                        if q == p {
                            assert(w.contains(w[k]));
                            let j = choose|j: int| 0 <= j < ch.len() && ch[j] == w[k];
                            assert(before.listed_ok(p, j));
                        } else {
                            assert(before.listed_ok(q, k));
                        }
                    }
                    assert forall|x: NodeId| self.arena.contains(x) implies #[trigger]
                        self.head_links_ok(x) by {
                        assert(before.head_links_ok(x));
                        assert(m.node_wf(x));
                        if x == p {
                            if ch.len() > 1 {
                                assert(before.sibling_links_ok(p, 0));
                                assert(before.sibling_links_ok(p, ch.len() - 1));
                                assert(w[0] == if pos == 0 {
                                    ch[1]
                                } else {
                                    ch[0]
                                });
                                assert(w[w.len() - 1] == if pos == ch.len() - 1 {
                                    ch[ch.len() - 2]
                                } else {
                                    ch[ch.len() - 1]
                                });
                            }
                        } else {
                            if m.children(x).len() > 0 {
                                assert(m.contains(m.children(x)[0]));
                                assert(m.contains(m.children(x)[m.children(x).len() - 1]));
                            }
                        }
                    }
                    assert forall|q: NodeId, k: int|
                        self.arena.contains(q) && 0 <= k < self.kids@[q].len() implies #[trigger]
                        self.sibling_links_ok(q, k) by {
                        assert(m.node_wf(q));
                        if q == p {
                            let ko = if k < pos {
                                k
                            } else {
                                k + 1
                            };
                            assert(w[k] == ch[ko]);
                            assert(before.sibling_links_ok(p, ko));
                            if k > 0 {
                                assert(w[k - 1] == if k - 1 < pos {
                                    ch[k - 1]
                                } else {
                                    ch[k]
                                });
                            }
                            if k + 1 < w.len() {
                                assert(w[k + 1] == if k + 1 < pos {
                                    ch[k + 1]
                                } else {
                                    ch[k + 2]
                                });
                            }
                        } else {
                            assert(before.sibling_links_ok(q, k));
                            let c = m.children(q)[k];
                            assert(m.contains(c));
                            assert(m.parent(c) == Some(q));
                        }
                    }
                }
            },
        }
    }

    /// Removes the node `node_id`. With `DropSubtree` everything below
    /// the node goes with it; with `LiftChildrenToParent` its children
    /// take its place. Returns the node, unlinked, with its data.
    ///
    /// Fails, changing nothing, with `HandleInvalid` when `node_id` names
    /// no node, and with `InvalidOperation` when the children of a root
    /// with several children are to be lifted.
    pub fn remove(&mut self, node_id: NodeId, behavior: RemoveBehavior) -> (res: Result<
        OptNode<T>,
        NodeIdError,
    >)
        requires
            old(self).wf(),
        ensures
            final(self).wf(),
            match res {
                Ok(node) => {
                    &&& old(self)@.contains(node_id)
                    &&& !final(self)@.contains(node_id)
                    &&& node@.data == old(self)@.data(node_id)
                    &&& node@.unlinked()
                    &&& final(self).spec_slot_count() == old(self).spec_slot_count()
                    &&& match behavior {
                        RemoveBehavior::DropSubtree => {
                            &&& final(self)@ == old(self)@.remove_subtree(node_id)
                            &&& final(self).free_slots() == old(self).free_slots()
                                + old(self)@.pre_order(node_id)
                        },
                        RemoveBehavior::LiftChildrenToParent => {
                            &&& !old(self)@.lift_refused(node_id)
                            &&& final(self)@ == old(self)@.remove_lift(node_id)
                            &&& final(self).free_slots() == old(self).free_slots().push(node_id)
                        },
                    }
                },
                Err(e) => {
                    &&& *final(self) == *old(self)
                    &&& if old(self)@.contains(node_id) {
                        &&& e == NodeIdError::InvalidOperation
                        &&& behavior == RemoveBehavior::LiftChildrenToParent
                        &&& old(self)@.lift_refused(node_id)
                    } else {
                        e == NodeIdError::HandleInvalid
                    }
                },
            },
    {
        match self.arena.validate_node_id(&node_id) {
            Ok(_) => {},
            Err(e) => {
                return Err(e);
            },
        }
        match behavior {
            RemoveBehavior::DropSubtree => Ok(self.remove_with_subtree(&node_id)),
            RemoveBehavior::LiftChildrenToParent => {
                proof {
                    self.lemma_node_view(node_id);
                    assert(self@.node_wf(node_id));
                }
                let node = self.arena.get_unchecked(&node_id);
                if node.parent.is_none() && node.first_child != node.last_child {
                    Err(NodeIdError::InvalidOperation)
                } else {
                    Ok(self.remove_and_lift(&node_id))
                }
            },
        }
    }

    /// Removes the node `id` and everything below it.
    fn remove_with_subtree(&mut self, id: &NodeId) -> (node: OptNode<T>)
        requires
            old(self).wf(),
            old(self)@.contains(*id),
        ensures
            final(self).wf(),
            !final(self)@.contains(*id),
            node@.data == old(self)@.data(*id),
            node@.unlinked(),
            final(self).spec_slot_count() == old(self).spec_slot_count(),
            final(self)@ == old(self)@.remove_subtree(*id),
            final(self).free_slots() == old(self).free_slots() + old(self)@.pre_order(*id),
    {
        let ghost before = *old(self);
        let ghost m = before@;
        let ghost order = m.pre_order(*id);
        let ids = match self.traverse_pre_order_ids(id) {
            Ok(ids) => ids,
            Err(_) => Vec::new(),
        };
        proof {
            m.lemma_pre_order_members(*id);
            m.lemma_pre_order_nodes(*id);
            m.lemma_remove_subtree_wf(*id);
            assert(m.node_wf(*id));
        }
        self.splice_out(id);
        let ghost spliced_state = *self;
        if self.arena.root == Some(*id) {
            self.arena.root = None;
        }
        let ghost mid = *self;
        proof {
            assert(mid.same_nodes(&before));
            Self::lemma_links_frame(spliced_state, mid);
            assert forall|j: int| 0 <= j < order.len() implies mid.arena.contains(
                #[trigger] order[j],
            ) by {
                assert(m.contains(order[j]));
                assert(before.arena.contains(order[j]));
            }
            assert(order[0] == *id);
        }
        let mut node = self.arena.remove(&ids[0]);
        let mut i: usize = 1;
        proof {
            assert(self.arena.free() =~= before.arena.free() + order.take(1));
            assert forall|x: NodeId| #[trigger]
                self.arena.contains(x) <==> mid.arena.contains(x) && !order.take(
                    1,
                ).contains(x) by {
                let t1 = order.take(1);
                if t1.contains(x) {
                    let j = choose|j: int| 0 <= j < t1.len() && t1[j] == x;
                }
                assert(t1[0] == *id);
            }
        }
        while i < ids.len()
            invariant
                1 <= i <= ids.len(),
                ids@ == order,
                order.no_duplicates(),
                forall|j: int| 0 <= j < order.len() ==> mid.arena.contains(#[trigger] order[j]),
                self.arena.wf(),
                self.arena.slots().len() == mid.arena.slots().len(),
                self.arena.free() == before.arena.free() + order.take(i as int),
                self.arena.root == mid.arena.root,
                self.kids == mid.kids,
                self.paths == mid.paths,
                forall|x: NodeId| #[trigger]
                    self.arena.contains(x) <==> mid.arena.contains(x) && !order.take(
                        i as int,
                    ).contains(x),
                forall|x: NodeId|
                    #![trigger self.arena.node(x)]
                    #![trigger mid.arena.node(x)]
                    self.arena.contains(x) ==> self.arena.node(x) == mid.arena.node(x),
            decreases ids.len() - i,
        {
            let ghost cur = *self;
            proof {
                let x = order[i as int];
                let t0 = order.take(i as int);
                if t0.contains(x) {
                    let j = choose|j: int| 0 <= j < t0.len() && t0[j] == x;
                    assert(order[j] == order[i as int]);
                }
            }
            let _ = self.arena.remove(&ids[i]);
            proof {
                let x = order[i as int];
                assert(self.arena.free() =~= before.arena.free() + order.take(i + 1));
                assert forall|y: NodeId| #[trigger]
                    self.arena.contains(y) <==> mid.arena.contains(y) && !order.take(
                        i + 1,
                    ).contains(y) by {
                    assert(cur.arena.contains(y) <==> mid.arena.contains(y) && !order.take(
                        i as int,
                    ).contains(y));
                    let t0 = order.take(i as int);
                    let t1 = order.take(i + 1);
                    if t1.contains(y) {
                        let j = choose|j: int| 0 <= j < t1.len() && t1[j] == y;
                        if j < i {
                            assert(t0[j] == y);
                        }
                    }
                    if t0.contains(y) {
                        let j = choose|j: int| 0 <= j < t0.len() && t0[j] == y;
                        assert(t1[j] == y);
                    }
                    if y == x {
                        assert(t1[i as int] == y);
                    }
                }
                assert forall|y: NodeId| self.arena.contains(y) implies #[trigger]
                    self.arena.node(y) == mid.arena.node(y) by {
                    assert(cur.arena.contains(y));
                    assert(cur.arena.node(y) == mid.arena.node(y));
                }
            }
            i += 1;
        }
        node.parent = None;
        node.first_child = None;
        node.last_child = None;
        node.prev_sibling = None;
        node.next_sibling = None;
        proof {
            assert(order.take(order.len() as int) =~= order);
            let m1 = self@;
            let goal = m.remove_subtree(*id);
            assert forall|x: NodeId| m1.contains(x) <==> goal.contains(x) by {
                assert(self.arena.contains(x) <==> mid.arena.contains(x) && !order.contains(x));
                assert(mid.arena.contains(x) == before.arena.contains(x));
                assert(order.contains(x) <==> m.in_subtree(x, *id));
            }
            assert(m1.nodes.dom() =~= goal.nodes.dom());
            assert forall|x: NodeId| m1.contains(x) implies #[trigger] m1.nodes[x]
                == goal.nodes[x] by {
                assert(self.arena.node(x) == mid.arena.node(x));
                assert(mid.arena.node(x).data == before.arena.node(x).data);
            }
            assert(m1.nodes =~= goal.nodes);
            assert(m1.root == goal.root);
            assert(m1 == goal);
            assert forall|x: NodeId| self.arena.contains(x) implies #[trigger] self.head_links_ok(
                x,
            ) by {
                assert(mid.head_links_ok(x));
                assert(self.arena.node(x) == mid.arena.node(x));
            }
            assert forall|q: NodeId, k: int|
                self.arena.contains(q) && 0 <= k < self.kids@[q].len() implies #[trigger]
                self.sibling_links_ok(q, k) by {
                assert(mid.sibling_links_ok(q, k));
                assert(m1.node_wf(q));
                let c = m1.children(q)[k];
                assert(m1.contains(c));
                assert(self.arena.node(c) == mid.arena.node(c));
            }
            assert(order.contains(order[0]));
        }
        node
    }

    /// Whether the stored links agree with the lists of children depends
    /// on the slots and the lists only, not on the recorded root or the
    /// recorded chains of ancestors.
    pub(crate) proof fn lemma_links_frame(before: Self, after: Self)
        requires
            before.links_ok(),
            after.arena.slots() == before.arena.slots(),
            after.kids == before.kids,
        ensures
            after.links_ok(),
    {
        assert forall|x: NodeId| after.arena.contains(x) implies #[trigger] after.head_links_ok(
            x,
        ) by {
            assert(before.head_links_ok(x));
        }
        assert forall|q: NodeId, k: int|
            after.arena.contains(q) && 0 <= k < after.kids@[q].len() implies #[trigger]
            after.sibling_links_ok(q, k) by {
            assert(before.sibling_links_ok(q, k));
        }
    }

    /// The node `x` as it is stored once the children of `id` have taken
    /// the place of `id`: links that named `id` name its first or last
    /// child, the children carry the parent of `id`, and `id` itself is
    /// left without children.
    pub(crate) open spec fn lifted_node(&self, id: NodeId, x: NodeId) -> OptNode<T> {
        let n = self.arena.node(x);
        let h = self.arena.node(id);
        OptNode {
            data: n.data,
            parent: if n.parent == Some(id) {
                h.parent
            } else {
                n.parent
            },
            first_child: if x == id {
                None
            } else if h.parent == Some(x) && h.prev_sibling is None {
                h.first_child
            } else {
                n.first_child
            },
            last_child: if x == id {
                None
            } else if h.parent == Some(x) && h.next_sibling is None {
                h.last_child
            } else {
                n.last_child
            },
            prev_sibling: if Some(x) == h.first_child {
                h.prev_sibling
            } else if h.next_sibling == Some(x) {
                h.last_child
            } else {
                n.prev_sibling
            },
            next_sibling: if Some(x) == h.last_child {
                h.next_sibling
            } else if h.prev_sibling == Some(x) {
                h.first_child
            } else {
                n.next_sibling
            },
        }
    }

    /// The lists of children once the children of `id` have taken the
    /// place of `id`.
    pub(crate) open spec fn lifted_kids(&self, id: NodeId) -> Map<NodeId, Seq<NodeId>> {
        (match self@.parent(id) {
            Some(p) => self.kids@.insert(p, spliced(self.kids@[p], id, self.kids@[id])),
            None => self.kids@,
        }).insert(id, Seq::empty())
    }

    /// Once the children of `id` have taken its place, the stored links
    /// agree with the new lists of children.
    pub(crate) proof fn lemma_lift_links(before: Self, after: Self, id: NodeId)
        requires
            before.wf(),
            before@.contains(id),
            before@.children(id).len() > 0,
            !before@.lift_refused(id),
            after.arena.slots().len() == before.arena.slots().len(),
            forall|x: NodeId|
                #![trigger after.arena.contains(x)]
                #![trigger before.arena.contains(x)]
                after.arena.contains(x) == before.arena.contains(x),
            forall|x: NodeId|
                #![trigger after.arena.node(x)]
                before.arena.contains(x) ==> after.arena.node(x) == before.lifted_node(id, x),
            after.kids@ == before.lifted_kids(id),
        ensures
            after.links_ok(),
    {
        let m = before@;
        let mid = m.children(id);
        let up = m.parent(id);
        let h = before.arena.node(id);
        before.lemma_node_view(id);
        assert(m.node_wf(id));
        assert(before.head_links_ok(id));
        assert forall|j: int| 0 <= j < mid.len() implies #[trigger] mid[j] != id && m.contains(
            mid[j],
        ) && m.parent(mid[j]) == Some(id) by {
            m.lemma_child_rank(id, j);
        }
        assert(m.contains(mid[0]));
        assert(m.contains(mid[mid.len() - 1]));
        match up {
            None => {
                assert(mid.len() == 1);
                assert forall|x: NodeId| after.arena.contains(x) implies #[trigger]
                    after.head_links_ok(x) by {
                    assert(before.head_links_ok(x));
                    assert(m.node_wf(x));
                }
                assert forall|q: NodeId, k: int|
                    after.arena.contains(q) && 0 <= k < after.kids@[q].len() implies #[trigger]
                    after.sibling_links_ok(q, k) by {
                    assert(before.sibling_links_ok(q, k));
                    assert(m.node_wf(q));
                    let c = m.children(q)[k];
                    assert(m.contains(c));
                    assert(m.parent(c) == Some(q));
                }
            },
            Some(p) => {
                let ch = m.children(p);
                let pos = ch.index_of(id);
                let w = spliced(ch, id, mid);
                assert(m.node_wf(p));
                assert(before.head_links_ok(p));
                assert forall|k: int| 0 <= k < ch.len() implies #[trigger] ch[k] != p
                    && m.contains(ch[k]) && m.parent(ch[k]) == Some(p) by {
                    m.lemma_child_rank(p, k);
                }
                assert forall|i: int, j: int|
                    0 <= i < ch.len() && 0 <= j < mid.len() implies ch[i] != mid[j] by {
                    assert(m.parent(ch[i]) == Some(p));
                    assert(m.parent(mid[j]) == Some(id));
                }
                lemma_spliced(ch, id, mid);
                assert(before.sibling_links_ok(p, pos));
                assert forall|x: NodeId| after.arena.contains(x) implies #[trigger]
                    after.head_links_ok(x) by {
                    assert(before.head_links_ok(x));
                    assert(m.node_wf(x));
                    if x == p {
                        assert(w[0] == if pos == 0 {
                            mid[0]
                        } else {
                            ch[0]
                        });
                        assert(w[w.len() - 1] == if pos == ch.len() - 1 {
                            mid[mid.len() - 1]
                        } else {
                            ch[ch.len() - 1]
                        });
                    } else if x != id {
                        if m.children(x).len() > 0 {
                            assert(m.contains(m.children(x)[0]));
                            assert(m.contains(m.children(x)[m.children(x).len() - 1]));
                        }
                    }
                }
                assert forall|q: NodeId, k: int|
                    after.arena.contains(q) && 0 <= k < after.kids@[q].len() implies #[trigger]
                    after.sibling_links_ok(q, k) by {
                    assert(m.node_wf(q));
                    if q == p {
                        Self::lemma_lift_sibling_links(before, after, id, k);
                    } else {
                        assert(q != id);
                        assert(before.sibling_links_ok(q, k));
                        let c = m.children(q)[k];
                        assert(m.contains(c));
                        assert(m.parent(c) == Some(q));
                    }
                }
            },
        }
    }

    /// Once the children of `id` have taken its place, the sibling links
    /// of the `k`-th child of the parent of `id` name its new neighbours.
    pub(crate) proof fn lemma_lift_sibling_links(before: Self, after: Self, id: NodeId, k: int)
        requires
            before.wf(),
            before@.contains(id),
            before@.children(id).len() > 0,
            before@.parent(id) is Some,
            forall|x: NodeId|
                #![trigger after.arena.node(x)]
                before.arena.contains(x) ==> after.arena.node(x) == before.lifted_node(id, x),
            after.kids@ == before.lifted_kids(id),
            0 <= k < after.kids@[before@.parent(id)->0].len(),
        ensures
            after.sibling_links_ok(before@.parent(id)->0, k),
    {
        let m = before@;
        let mid = m.children(id);
        let p = m.parent(id)->0;
        let ch = m.children(p);
        let pos = ch.index_of(id);
        let w = spliced(ch, id, mid);
        before.lemma_node_view(id);
        assert(m.node_wf(id));
        assert(m.node_wf(p));
        assert(before.head_links_ok(id));
        assert forall|j: int| 0 <= j < mid.len() implies #[trigger] mid[j] != id && m.contains(
            mid[j],
        ) && m.parent(mid[j]) == Some(id) by {
            m.lemma_child_rank(id, j);
        }
        assert forall|j: int| 0 <= j < ch.len() implies #[trigger] ch[j] != p && m.contains(ch[j])
            && m.parent(ch[j]) == Some(p) by {
            m.lemma_child_rank(p, j);
        }
        assert forall|i: int, j: int| 0 <= i < ch.len() && 0 <= j < mid.len() implies ch[i]
            != mid[j] by {
            assert(m.parent(ch[i]) == Some(p));
            assert(m.parent(mid[j]) == Some(id));
        }
        lemma_spliced(ch, id, mid);
        assert(before.sibling_links_ok(p, pos));
        assert(after.kids@[p] == w);
        if k > 0 {
            assert(w[k - 1] == if k - 1 < pos {
                ch[k - 1]
            } else if k - 1 < pos + mid.len() {
                mid[k - 1 - pos]
            } else {
                ch[k - 1 - mid.len() + 1]
            });
        }
        if k + 1 < w.len() {
            assert(w[k + 1] == if k + 1 < pos {
                ch[k + 1]
            } else if k + 1 < pos + mid.len() {
                mid[k + 1 - pos]
            } else {
                ch[k + 1 - mid.len() + 1]
            });
        }
        if k < pos {
            assert(w[k] == ch[k]);
            assert(before.sibling_links_ok(p, k));
            assert(after.arena.node(ch[k]) == before.lifted_node(id, ch[k]));
        } else if k < pos + mid.len() {
            let j = k - pos;
            assert(w[k] == mid[j]);
            assert(before.sibling_links_ok(id, j));
            assert(m.parent(mid[j]) == Some(id));
            assert(after.arena.node(mid[j]) == before.lifted_node(id, mid[j]));
            if j > 0 {
                assert(mid[j] != mid[0]);
            }
            if j < mid.len() - 1 {
                assert(mid[j] != mid[mid.len() - 1]);
            }
        } else {
            let ko = k - mid.len() + 1;
            assert(w[k] == ch[ko]);
            assert(before.sibling_links_ok(p, ko));
            assert(after.arena.node(ch[ko]) == before.lifted_node(id, ch[ko]));
        }
    }

    /// Gives every child of `id` the parent link `up`, and nothing else.
    fn reparent_children(&mut self, id: &NodeId, up: Option<NodeId>)
        requires
            old(self).wf(),
            old(self)@.contains(*id),
        ensures
            final(self).arena.wf(),
            final(self).arena.slots().len() == old(self).arena.slots().len(),
            final(self).arena.free() == old(self).arena.free(),
            final(self).arena.root == old(self).arena.root,
            final(self).kids == old(self).kids,
            final(self).paths == old(self).paths,
            forall|x: NodeId|
                #![trigger final(self).arena.contains(x)]
                #![trigger old(self).arena.contains(x)]
                final(self).arena.contains(x) == old(self).arena.contains(x),
            forall|x: NodeId|
                #![trigger final(self).arena.node(x)]
                #![trigger old(self).arena.node(x)]
                old(self).arena.contains(x) ==> final(self).arena.node(x) == if old(
                    self,
                ).arena.node(x).parent == Some(*id) {
                    OptNode { parent: up, ..old(self).arena.node(x) }
                } else {
                    old(self).arena.node(x)
                },
    {
        let ghost before = *old(self);
        let ghost m = before@;
        let ghost ch = m.children(*id);
        proof {
            assert(before.head_links_ok(*id));
            assert(m.node_wf(*id));
        }
        let mut cur = self.arena.get_unchecked(id).first_child;
        let ghost mut k: int = 0;
        while cur.is_some()
            invariant
                before.wf(),
                m == before@,
                m.contains(*id),
                ch == m.children(*id),
                0 <= k <= ch.len(),
                cur == if k < ch.len() {
                    Some(ch[k])
                } else {
                    None
                },
                self.arena.wf(),
                self.arena.slots().len() == before.arena.slots().len(),
                self.arena.free() == before.arena.free(),
                self.arena.root == before.arena.root,
                self.kids == before.kids,
                self.paths == before.paths,
                forall|x: NodeId|
                    #![trigger self.arena.contains(x)]
                    #![trigger before.arena.contains(x)]
                    self.arena.contains(x) == before.arena.contains(x),
                forall|j: int|
                    0 <= j < ch.len() ==> self.arena.node(#[trigger] ch[j]) == if j < k {
                        OptNode { parent: up, ..before.arena.node(ch[j]) }
                    } else {
                        before.arena.node(ch[j])
                    },
                forall|x: NodeId|
                    #![trigger self.arena.node(x)]
                    #![trigger before.arena.node(x)]
                    before.arena.contains(x) && !ch.contains(x) ==> self.arena.node(x)
                        == before.arena.node(x),
            decreases ch.len() - k,
        {
            let c = cur.unwrap();
            let ghost cur_state = *self;
            proof {
                assert(m.node_wf(*id));
                assert(m.contains(ch[k]));
                assert(before.sibling_links_ok(*id, k));
            }
            let child = self.arena.get_unchecked_mut(&c);
            child.parent = up;
            cur = child.next_sibling;
            proof {
                assert forall|j: int| 0 <= j < ch.len() implies self.arena.node(#[trigger] ch[j])
                    == if j < k + 1 {
                    OptNode { parent: up, ..before.arena.node(ch[j]) }
                } else {
                    before.arena.node(ch[j])
                } by {
                    assert(cur_state.arena.node(ch[j]) == if j < k {
                        OptNode { parent: up, ..before.arena.node(ch[j]) }
                    } else {
                        before.arena.node(ch[j])
                    });
                    if j != k {
                        assert(ch[j] != ch[k]);
                    }
                }
                assert forall|x: NodeId| before.arena.contains(x) && !ch.contains(x) implies #[trigger]
                    self.arena.node(x) == before.arena.node(x) by {
                    assert(cur_state.arena.node(x) == before.arena.node(x));
                    assert(ch.contains(ch[k]));
                }
                k = k + 1;
            }
        }
        proof {
            assert forall|x: NodeId| before.arena.contains(x) implies #[trigger] self.arena.node(x)
                == if before.arena.node(x).parent == Some(*id) {
                OptNode { parent: up, ..before.arena.node(x) }
            } else {
                before.arena.node(x)
            } by {
                assert(m.contains(x));
                assert(m.node_wf(x));
                if ch.contains(x) {
                    let j = choose|j: int| 0 <= j < ch.len() && ch[j] == x;
                    assert(self.arena.node(ch[j]) == OptNode {
                        parent: up,
                        ..before.arena.node(ch[j])
                    });
                    assert(m.contains(ch[j]));
                }
            }
        }
    }

    /// Puts the children of `id`, of which there are some, in the place of
    /// `id` among the children of its parent, and leaves `id` without
    /// children. The node `id` keeps its other links, so the view is no
    /// tree until the caller has removed the node.
    fn lift_children(&mut self, id: &NodeId)
        requires
            old(self).wf(),
            old(self)@.contains(*id),
            old(self)@.children(*id).len() > 0,
            !old(self)@.lift_refused(*id),
        ensures
            final(self).arena.wf(),
            final(self).links_ok(),
            final(self).arena.slots().len() == old(self).arena.slots().len(),
            final(self).arena.free() == old(self).arena.free(),
            final(self).arena.root == old(self)@.remove_lift(*id).root,
            final(self).paths == old(self).paths,
            final(self).kids@ == old(self).lifted_kids(*id),
            forall|x: NodeId|
                #![trigger final(self).arena.contains(x)]
                #![trigger old(self).arena.contains(x)]
                final(self).arena.contains(x) == old(self).arena.contains(x),
            forall|x: NodeId|
                #![trigger final(self).arena.node(x)]
                old(self).arena.contains(x) ==> final(self).arena.node(x) == old(self).lifted_node(
                    *id,
                    x,
                ),
    {
        let ghost before = *old(self);
        let ghost m = before@;
        let ghost mid = m.children(*id);
        proof {
            before.lemma_node_view(*id);
            assert(m.node_wf(*id));
            assert(before.head_links_ok(*id));
            assert forall|j: int| 0 <= j < mid.len() implies #[trigger] mid[j] != *id
                && m.contains(mid[j]) && m.parent(mid[j]) == Some(*id) by {
                m.lemma_child_rank(*id, j);
            }
            assert(m.contains(mid[0]));
            assert(m.contains(mid[mid.len() - 1]));
        }
        let node = self.arena.get_unchecked(id);
        let up = node.parent;
        let prev = node.prev_sibling;
        let next = node.next_sibling;
        let first = node.first_child.unwrap();
        let last = node.last_child.unwrap();

        self.reparent_children(id, up);
        let ghost moved = *self;

        let first_node = self.arena.get_unchecked_mut(&first);
        first_node.prev_sibling = prev;
        let last_node = self.arena.get_unchecked_mut(&last);
        last_node.next_sibling = next;
        let lifted = self.arena.get_unchecked_mut(id);
        lifted.first_child = None;
        lifted.last_child = None;

        match up {
            None => {
                proof {
                    assert(mid.len() == 1);
                }
                self.arena.root = Some(first);
            },
            Some(p) => {
                let ghost ch = m.children(p);
                let ghost pos = ch.index_of(*id);
                proof {
                    assert(m.node_wf(p));
                    assert forall|k: int| 0 <= k < ch.len() implies #[trigger] ch[k] != p
                        && m.contains(ch[k]) && m.parent(ch[k]) == Some(p) by {
                        m.lemma_child_rank(p, k);
                    }
                    assert(0 <= pos < ch.len() && ch[pos] == *id);
                    assert(before.sibling_links_ok(p, pos));
                    m.lemma_child_rank(p, pos);
                }
                match prev {
                    Some(pv) => {
                        assert(pv == ch[pos - 1]);
                        let before_id = self.arena.get_unchecked_mut(&pv);
                        before_id.next_sibling = Some(first);
                    },
                    None => {
                        let parent = self.arena.get_unchecked_mut(&p);
                        parent.first_child = Some(first);
                    },
                }
                match next {
                    Some(nx) => {
                        assert(nx == ch[pos + 1]);
                        let after_id = self.arena.get_unchecked_mut(&nx);
                        after_id.prev_sibling = Some(last);
                    },
                    None => {
                        let parent = self.arena.get_unchecked_mut(&p);
                        parent.last_child = Some(last);
                    },
                }
            },
        }
        let ghost kids = before.lifted_kids(*id);
        self.kids = Ghost(kids);
        proof {
            assert forall|x: NodeId|
                #![trigger self.arena.node(x)]
                before.arena.contains(x) implies self.arena.node(x) == before.lifted_node(*id, x) by {
                assert(m.node_wf(x));
                assert(moved.arena.node(x) == if before.arena.node(x).parent == Some(*id) {
                    OptNode { parent: up, ..before.arena.node(x) }
                } else {
                    before.arena.node(x)
                });
                if let Some(p) = up {
                    let ch = m.children(p);
                    let pos = ch.index_of(*id);
                    if pos > 0 {
                        assert(m.parent(ch[pos - 1]) == Some(p));
                    }
                    if pos + 1 < ch.len() {
                        assert(m.parent(ch[pos + 1]) == Some(p));
                    }
                }
            }
            Self::lemma_lift_links(before, *self, *id);
        }
    }

    /// Removes the node `id` and puts its children in its place.
    fn remove_and_lift(&mut self, id: &NodeId) -> (node: OptNode<T>)
        requires
            old(self).wf(),
            old(self)@.contains(*id),
            !old(self)@.lift_refused(*id),
        ensures
            final(self).wf(),
            !final(self)@.contains(*id),
            node@.data == old(self)@.data(*id),
            node@.unlinked(),
            final(self).spec_slot_count() == old(self).spec_slot_count(),
            final(self)@ == old(self)@.remove_lift(*id),
            final(self).free_slots() == old(self).free_slots().push(*id),
    {
        let ghost before = *old(self);
        let ghost m = before@;
        proof {
            assert(before.head_links_ok(*id));
            assert(m.node_wf(*id));
            m.lemma_remove_lift_wf(*id);
        }
        if self.arena.get_unchecked(id).first_child.is_some() {
            self.lift_children(id);
            proof {
                assert forall|x: NodeId|
                    #![trigger self.arena.node(x)]
                    before.arena.contains(x) implies self.arena.node(x).data == before.arena.node(
                    x,
                ).data && self.arena.node(x).parent == if before.arena.node(x).parent == Some(
                    *id,
                ) {
                    before.arena.node(*id).parent
                } else {
                    before.arena.node(x).parent
                } by {
                    assert(self.arena.node(x) == before.lifted_node(*id, x));
                }
            }
        } else {
            self.splice_out(id);
            let ghost spliced_state = *self;
            if self.arena.root == Some(*id) {
                self.arena.root = None;
            }
            proof {
                Self::lemma_links_frame(spliced_state, *self);
                assert(self.same_nodes(&before));
                if let Some(p) = m.parent(*id) {
                    assert(m.node_wf(p));
                    lemma_without(m.children(p), *id);
                    assert(without(m.children(p), *id) =~= spliced(
                        m.children(p),
                        *id,
                        m.children(*id),
                    ));
                }
                assert forall|x: NodeId|
                    #![trigger self.arena.node(x)]
                    before.arena.contains(x) implies self.arena.node(x).data == before.arena.node(
                    x,
                ).data && self.arena.node(x).parent == if before.arena.node(x).parent == Some(
                    *id,
                ) {
                    before.arena.node(*id).parent
                } else {
                    before.arena.node(x).parent
                } by {
                    assert(m.node_wf(x));
                    if m.parent(x) == Some(*id) {
                        assert(m.children(*id).contains(x));
                    }
                }
            }
        }
        let ghost mid = *self;
        proof {
            assert(mid.links_ok());
            assert(mid.arena.root == m.remove_lift(*id).root);
            assert forall|x: NodeId| before.arena.contains(x) && x != *id implies #[trigger]
                mid.kids@[x] == if m.parent(*id)
                == Some(x) {
                spliced(m.children(x), *id, m.children(*id))
            } else {
                m.children(x)
            } by {}
        }
        let mut node = self.arena.remove(id);
        node.parent = None;
        node.first_child = None;
        node.last_child = None;
        node.prev_sibling = None;
        node.next_sibling = None;
        let ghost paths = Map::new(
            |x: NodeId| true,
            |x: NodeId|
                if before.paths@[x].contains(*id) {
                    without(before.paths@[x], *id)
                } else {
                    before.paths@[x]
                },
        );
        self.paths = Ghost(paths);
        proof {
            let m1 = self@;
            let goal = m.remove_lift(*id);
            assert(m1.nodes.dom() =~= goal.nodes.dom());
            assert forall|x: NodeId| m1.contains(x) implies #[trigger] m1.nodes[x]
                == goal.nodes[x] by {
                assert(self.arena.node(x) == mid.arena.node(x));
                assert(mid.arena.contains(x));
                assert(before.arena.contains(x));
                assert(mid.kids@[x] == if m.parent(*id) == Some(x) {
                    spliced(m.children(x), *id, m.children(*id))
                } else {
                    m.children(x)
                });
            }
            assert(m1.nodes =~= goal.nodes);
            assert(m1 == goal);
            assert forall|x: NodeId| self.arena.contains(x) implies #[trigger] self.head_links_ok(
                x,
            ) by {
                assert(mid.head_links_ok(x));
            }
            assert forall|q: NodeId, k: int|
                self.arena.contains(q) && 0 <= k < self.kids@[q].len() implies #[trigger]
                self.sibling_links_ok(q, k) by {
                assert(mid.sibling_links_ok(q, k));
                assert(m1.node_wf(q));
                assert(m1.contains(m1.children(q)[k]));
            }
        }
        node
    }
}

} // verus!
