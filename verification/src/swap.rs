use vstd::prelude::*;
use crate::behaviors::SwapBehavior;
use crate::error::NodeIdError;
use crate::node::OptNode;
use crate::node_id::NodeId;
use crate::swapping::{swapped, swapped_link, swapped_seq};
use crate::tree::OptTree;

verus! {

/// The link `link` once `a` and `b` have exchanged their places.
pub(crate) fn swap_link(a: &NodeId, b: &NodeId, link: Option<NodeId>) -> (out: Option<NodeId>)
    ensures
        out == swapped_link(*a, *b, link),
{
    match link {
        Some(x) => {
            if x == *a {
                Some(*b)
            } else if x == *b {
                Some(*a)
            } else {
                Some(x)
            }
        },
        None => None,
    }
}

impl<T> OptTree<T> {
    /// In a well-formed tree a link of `x` names `a` exactly when `x` is
    /// the matching neighbour of `a`.
    pub(crate) proof fn lemma_neighbours(&self, a: NodeId, x: NodeId)
        requires
            self.wf(),
            self@.contains(a),
            self@.contains(x),
        ensures
            self.arena.node(x).next_sibling == Some(a) <==> self.arena.node(a).prev_sibling
                == Some(x),
            self.arena.node(x).prev_sibling == Some(a) <==> self.arena.node(a).next_sibling
                == Some(x),
            self.arena.node(x).first_child == Some(a) <==> self.arena.node(a).parent == Some(x)
                && self.arena.node(a).prev_sibling is None,
            self.arena.node(x).last_child == Some(a) <==> self.arena.node(a).parent == Some(x)
                && self.arena.node(a).next_sibling is None,
            self.arena.node(x).parent == Some(a) <==> self@.children(a).contains(x),
    {
        let m = self@;
        self.lemma_node_view(a);
        self.lemma_node_view(x);
        assert(m.node_wf(a));
        assert(m.node_wf(x));
        assert(self.head_links_ok(x));
        if let Some(p) = m.parent(a) {
            assert(m.node_wf(p));
            let i = m.children(p).index_of(a);
            assert(0 <= i < m.children(p).len() && m.children(p)[i] == a);
            assert(self.sibling_links_ok(p, i));
            if i > 0 {
                assert(m.contains(m.children(p)[i - 1]));
                assert(self.sibling_links_ok(p, i - 1));
            }
            if i + 1 < m.children(p).len() {
                assert(m.contains(m.children(p)[i + 1]));
                assert(self.sibling_links_ok(p, i + 1));
            }
        }
        if let Some(q) = m.parent(x) {
            assert(m.node_wf(q));
            let j = m.children(q).index_of(x);
            assert(0 <= j < m.children(q).len() && m.children(q)[j] == x);
            assert(self.sibling_links_ok(q, j));
            if j > 0 {
                assert(m.contains(m.children(q)[j - 1]));
                assert(self.sibling_links_ok(q, j - 1));
            }
            if j + 1 < m.children(q).len() {
                assert(m.contains(m.children(q)[j + 1]));
                assert(self.sibling_links_ok(q, j + 1));
            }
        }
        if m.children(x).len() > 0 {
            assert(m.contains(m.children(x)[0]));
            assert(m.contains(m.children(x)[m.children(x).len() - 1]));
            assert(self.sibling_links_ok(x, 0));
            assert(self.sibling_links_ok(x, m.children(x).len() - 1));
        }
        if m.children(a).contains(x) {
            let k = choose|k: int| 0 <= k < m.children(a).len() && m.children(a)[k] == x;
            assert(m.contains(m.children(a)[k]));
        }
    }

    /// The node `n`, stored under `x`, once every link that named a node
    /// with the given parent, siblings and children names `new` instead.
    pub(crate) open spec fn retargeted(
        n: OptNode<T>,
        x: NodeId,
        parent: Option<NodeId>,
        prev: Option<NodeId>,
        next: Option<NodeId>,
        children: Seq<NodeId>,
        new: NodeId,
    ) -> OptNode<T> {
        OptNode {
            data: n.data,
            parent: if children.contains(x) {
                Some(new)
            } else {
                n.parent
            },
            first_child: if parent == Some(x) && prev is None {
                Some(new)
            } else {
                n.first_child
            },
            last_child: if parent == Some(x) && next is None {
                Some(new)
            } else {
                n.last_child
            },
            prev_sibling: if next == Some(x) {
                Some(new)
            } else {
                n.prev_sibling
            },
            next_sibling: if prev == Some(x) {
                Some(new)
            } else {
                n.next_sibling
            },
        }
    }

    /// Makes the neighbours of a node, given by its parent, its siblings
    /// and its children, name `new` in its place.
    pub(crate) fn retarget(
        &mut self,
        parent: Option<NodeId>,
        prev: Option<NodeId>,
        next: Option<NodeId>,
        children: &Vec<NodeId>,
        new: &NodeId,
    )
        requires
            old(self).arena.wf(),
            parent matches Some(p) ==> old(self).arena.contains(p),
            prev matches Some(p) ==> old(self).arena.contains(p),
            next matches Some(p) ==> old(self).arena.contains(p),
            forall|i: int| 0 <= i < children@.len() ==> old(self).arena.contains(
                #[trigger] children@[i],
            ),
        ensures
            final(self).arena.wf(),
            final(self).arena.slots().len() == old(self).arena.slots().len(),
            final(self).arena.free() == old(self).arena.free(),
            final(self).arena.root == old(self).arena.root,
            final(self).kids == old(self).kids,
            final(self).paths == old(self).paths,
            forall|x: NodeId|
                #![trigger final(self).arena.contains(x)]
                #![trigger old(self).arena.contains(x)]
                final(self).arena.contains(x) == old(self).arena.contains(x),
            forall|x: NodeId|
                #![trigger final(self).arena.node(x)]
                #![trigger old(self).arena.node(x)]
                old(self).arena.contains(x) ==> final(self).arena.node(x) == Self::retargeted(
                    old(self).arena.node(x),
                    x,
                    parent,
                    prev,
                    next,
                    children@,
                    *new,
                ),
    {
        let ghost before = *old(self);
        if let Some(p) = parent {
            if prev.is_none() {
                let node = self.arena.get_unchecked_mut(&p);
                node.first_child = Some(*new);
            }
            if next.is_none() {
                let node = self.arena.get_unchecked_mut(&p);
                node.last_child = Some(*new);
            }
        }
        if let Some(pv) = prev {
            let node = self.arena.get_unchecked_mut(&pv);
            node.next_sibling = Some(*new);
        }
        if let Some(nx) = next {
            let node = self.arena.get_unchecked_mut(&nx);
            node.prev_sibling = Some(*new);
        }
        let mut i: usize = 0;
        proof {
            assert forall|x: NodeId| before.arena.contains(x) implies #[trigger] self.arena.node(x)
                == Self::retargeted(
                before.arena.node(x),
                x,
                parent,
                prev,
                next,
                children@.take(0),
                *new,
            ) by {
                assert(!children@.take(0).contains(x));
            }
        }
        while i < children.len()
            invariant
                i <= children.len(),
                forall|j: int| 0 <= j < children@.len() ==> before.arena.contains(
                    #[trigger] children@[j],
                ),
                self.arena.wf(),
                self.arena.slots().len() == before.arena.slots().len(),
                self.arena.free() == before.arena.free(),
                self.arena.root == before.arena.root,
                self.kids == before.kids,
                self.paths == before.paths,
                forall|x: NodeId|
                    #![trigger self.arena.contains(x)]
                    #![trigger before.arena.contains(x)]
                    self.arena.contains(x) == before.arena.contains(x),
                forall|x: NodeId|
                    #![trigger self.arena.node(x)]
                    #![trigger before.arena.node(x)]
                    before.arena.contains(x) ==> self.arena.node(x) == Self::retargeted(
                        before.arena.node(x),
                        x,
                        parent,
                        prev,
                        next,
                        children@.take(i as int),
                        *new,
                    ),
            decreases children.len() - i,
        {
            let ghost cur = *self;
            let c = children[i];
            let node = self.arena.get_unchecked_mut(&c);
            node.parent = Some(*new);
            proof {
                let t0 = children@.take(i as int);
                let t1 = children@.take(i + 1);
                assert forall|x: NodeId| before.arena.contains(x) implies #[trigger]
                    self.arena.node(x) == Self::retargeted(
                    before.arena.node(x),
                    x,
                    parent,
                    prev,
                    next,
                    t1,
                    *new,
                ) by {
                    assert(cur.arena.node(x) == Self::retargeted(
                        before.arena.node(x),
                        x,
                        parent,
                        prev,
                        next,
                        t0,
                        *new,
                    ));
                    if t1.contains(x) {
                        let j = choose|j: int| 0 <= j < t1.len() && t1[j] == x;
                        if j < i {
                            assert(t0[j] == x);
                        }
                    }
                    if t0.contains(x) {
                        let j = choose|j: int| 0 <= j < t0.len() && t0[j] == x;
                        assert(t1[j] == x);
                    }
                    if x == c {
                        assert(t1[i as int] == x);
                    }
                }
            }
            i += 1;
        }
        proof {
            assert(children@.take(children@.len() as int) =~= children@);
        }
    }

    /// The node stored under `x` once `a` and `b` have exchanged their
    /// places: its own data, and the links of the node whose place it
    /// has, with `a` and `b` exchanged in them.
    pub(crate) open spec fn exchanged_node(&self, a: NodeId, b: NodeId, x: NodeId) -> OptNode<T> {
        let n = self.arena.node(swapped(a, b, x));
        OptNode {
            data: self.arena.node(x).data,
            parent: swapped_link(a, b, n.parent),
            first_child: swapped_link(a, b, n.first_child),
            last_child: swapped_link(a, b, n.last_child),
            prev_sibling: swapped_link(a, b, n.prev_sibling),
            next_sibling: swapped_link(a, b, n.next_sibling),
        }
    }

    /// Once `a` and `b` have exchanged their places, the stored links
    /// agree with the exchanged lists of children.
    pub(crate) proof fn lemma_swap_links(before: Self, after: Self, a: NodeId, b: NodeId)
        requires
            before.wf(),
            before@.contains(a),
            before@.contains(b),
            after.arena.slots().len() == before.arena.slots().len(),
            forall|x: NodeId|
                #![trigger after.arena.contains(x)]
                #![trigger before.arena.contains(x)]
                after.arena.contains(x) == before.arena.contains(x),
            forall|x: NodeId|
                #![trigger after.arena.node(x)]
                before.arena.contains(x) ==> after.arena.node(x) == before.exchanged_node(a, b, x),
            forall|x: NodeId|
                before.arena.contains(x) ==> #[trigger] after.kids@[x] == swapped_seq(
                    a,
                    b,
                    before.kids@[swapped(a, b, x)],
                ),
        ensures
            after.links_ok(),
    {
        let m = before@;
        assert forall|x: NodeId| after.arena.contains(x) implies #[trigger] after.head_links_ok(
            x,
        ) by {
            let y = swapped(a, b, x);
            assert(before.head_links_ok(y));
            assert(after.arena.node(x) == before.exchanged_node(a, b, x));
            assert(after.kids@[x] == swapped_seq(a, b, before.kids@[y]));
        }
        assert forall|q: NodeId, k: int|
            after.arena.contains(q) && 0 <= k < after.kids@[q].len() implies #[trigger]
            after.sibling_links_ok(q, k) by {
            let y = swapped(a, b, q);
            assert(after.kids@[q] == swapped_seq(a, b, before.kids@[y]));
            assert(before.sibling_links_ok(y, k));
            assert(m.node_wf(y));
            let c = before.kids@[y][k];
            assert(m.contains(c));
            let c2 = swapped(a, b, c);
            assert(after.kids@[q][k] == c2);
            assert(after.arena.node(c2) == before.exchanged_node(a, b, c2));
        }
    }

    /// Neither of two nodes of which none lies below the other is the
    /// root.
    pub(crate) proof fn lemma_not_root(before: Self, a: NodeId, b: NodeId)
        requires
            before.wf(),
            before@.contains(a),
            before@.contains(b),
            a != b,
            !before@.one_below_other(a, b),
        ensures
            before@.root != Some(a),
            before@.root != Some(b),
    {
        let m = before@;
        m.lemma_ancestors_acyclic(a);
        m.lemma_ancestors_acyclic(b);
        let anc_a = m.ancestors(a);
        let anc_b = m.ancestors(b);
        if m.root == Some(a) {
            assert(anc_b[anc_b.len() - 1] == a);
        }
        if m.root == Some(b) {
            assert(anc_a[anc_a.len() - 1] == b);
        }
    }

    /// The node stored under `x` after the neighbours of `a` were made to
    /// name `b`, those of `b` to name `a`, and `a` and `b` were given each
    /// other's links, is the node that the exchange of places asks for.
    pub(crate) proof fn lemma_exchanged(
        before: Self,
        one: Self,
        two: Self,
        after: Self,
        a: NodeId,
        b: NodeId,
        x: NodeId,
    )
        requires
            before.wf(),
            before@.contains(a),
            before@.contains(b),
            before@.contains(x),
            a != b,
            !before@.one_below_other(a, b),
            one.arena.node(x) == Self::retargeted(
                before.arena.node(x),
                x,
                before.arena.node(a).parent,
                before.arena.node(a).prev_sibling,
                before.arena.node(a).next_sibling,
                before@.children(a),
                b,
            ),
            two.arena.node(x) == Self::retargeted(
                one.arena.node(x),
                x,
                before.arena.node(b).parent,
                before.arena.node(b).prev_sibling,
                before.arena.node(b).next_sibling,
                before@.children(b),
                a,
            ),
            after.arena.node(x) == if x == a || x == b {
                OptNode {
                    data: two.arena.node(x).data,
                    parent: swapped_link(a, b, before.arena.node(swapped(a, b, x)).parent),
                    first_child: swapped_link(
                        a,
                        b,
                        before.arena.node(swapped(a, b, x)).first_child,
                    ),
                    last_child: swapped_link(a, b, before.arena.node(swapped(a, b, x)).last_child),
                    prev_sibling: swapped_link(
                        a,
                        b,
                        before.arena.node(swapped(a, b, x)).prev_sibling,
                    ),
                    next_sibling: swapped_link(
                        a,
                        b,
                        before.arena.node(swapped(a, b, x)).next_sibling,
                    ),
                }
            } else {
                two.arena.node(x)
            },
        ensures
            after.arena.node(x) == before.exchanged_node(a, b, x),
    {
        before.lemma_neighbours(a, x);
        before.lemma_neighbours(b, x);
    }

    /// Exchanges the nodes `first_id` and `second_id`. With `SwapDataOnly`
    /// the two nodes stay where they are and exchange their data. With
    /// `SwapSubtrees` each node keeps its data and takes the place of the
    /// other: its parent, its siblings and its children.
    ///
    /// Fails, changing nothing, with `HandleInvalid` when a handle names
    /// no node, and with `InvalidOperation` when places are to be
    /// exchanged between a node and one of its descendants.
    pub fn swap_nodes(
        &mut self,
        first_id: &NodeId,
        second_id: &NodeId,
        behavior: SwapBehavior,
    ) -> (res: Result<(), NodeIdError>)
        requires
            old(self).wf(),
        ensures
            final(self).wf(),
            final(self).free_slots() == old(self).free_slots(),
            final(self).spec_slot_count() == old(self).spec_slot_count(),
            res is Err ==> *final(self) == *old(self),
            if !old(self)@.contains(*first_id) || !old(self)@.contains(*second_id) {
                res == Err::<(), NodeIdError>(NodeIdError::HandleInvalid)
            } else {
                match behavior {
                    SwapBehavior::SwapDataOnly => {
                        &&& res is Ok
                        &&& final(self)@ == old(self)@.swap_data(*first_id, *second_id)
                    },
                    SwapBehavior::SwapSubtrees => if old(self)@.one_below_other(
                        *first_id,
                        *second_id,
                    ) {
                        res == Err::<(), NodeIdError>(NodeIdError::InvalidOperation)
                    } else {
                        &&& res is Ok
                        &&& final(self)@ == old(self)@.swap_places(*first_id, *second_id)
                    },
                }
            },
    {
        match self.arena.validate_node_id(first_id) {
            Ok(_) => {},
            Err(e) => {
                return Err(e);
            },
        }
        match self.arena.validate_node_id(second_id) {
            Ok(_) => {},
            Err(e) => {
                return Err(e);
            },
        }
        match behavior {
            SwapBehavior::SwapDataOnly => {
                self.swap_data(first_id, second_id);
                Ok(())
            },
            SwapBehavior::SwapSubtrees => {
                if *first_id == *second_id {
                    proof {
                        self.lemma_swap_with_itself(*first_id);
                    }
                    return Ok(());
                }
                if self.lies_below(first_id, second_id) || self.lies_below(second_id, first_id) {
                    return Err(NodeIdError::InvalidOperation);
                }
                self.swap_places(first_id, second_id);
                Ok(())
            },
        }
    }

    /// Exchanging the places of a node with itself changes nothing.
    pub(crate) proof fn lemma_swap_with_itself(&self, a: NodeId)
        requires
            self.wf(),
            self@.contains(a),
        ensures
            self@ == self@.swap_places(a, a),
            self@ == self@.swap_data(a, a),
    {
        let m = self@;
        assert forall|x: NodeId| m.contains(x) implies #[trigger] m.swap_places(a, a).nodes[x]
            == m.nodes[x] by {
            assert(swapped_seq(a, a, m.children(x)) =~= m.children(x));
            assert(swapped_seq(a, a, m.ancestors(x)) =~= m.ancestors(x));
        }
        assert(m.swap_places(a, a).nodes =~= m.nodes);
        assert(m.swap_data(a, a).nodes =~= m.nodes);
    }

    /// Exchanges the data of the nodes `a` and `b`.
    fn swap_data(&mut self, a: &NodeId, b: &NodeId)
        requires
            old(self).wf(),
            old(self)@.contains(*a),
            old(self)@.contains(*b),
        ensures
            final(self).wf(),
            final(self).free_slots() == old(self).free_slots(),
            final(self).spec_slot_count() == old(self).spec_slot_count(),
            final(self)@ == old(self)@.swap_data(*a, *b),
    {
        let ghost before = *old(self);
        let ghost m = before@;
        proof {
            m.lemma_swap_data_wf(*a, *b);
        }
        let node_a = self.arena.get_unchecked(a);
        let a_parent = node_a.parent;
        let a_first = node_a.first_child;
        let a_last = node_a.last_child;
        let a_prev = node_a.prev_sibling;
        let a_next = node_a.next_sibling;
        let node_b = self.arena.get_unchecked(b);
        let b_parent = node_b.parent;
        let b_first = node_b.first_child;
        let b_last = node_b.last_child;
        let b_prev = node_b.prev_sibling;
        let b_next = node_b.next_sibling;

        self.arena.swap_slots(a, b);

        let node_a = self.arena.get_unchecked_mut(a);
        node_a.parent = a_parent;
        node_a.first_child = a_first;
        node_a.last_child = a_last;
        node_a.prev_sibling = a_prev;
        node_a.next_sibling = a_next;
        let node_b = self.arena.get_unchecked_mut(b);
        node_b.parent = b_parent;
        node_b.first_child = b_first;
        node_b.last_child = b_last;
        node_b.prev_sibling = b_prev;
        node_b.next_sibling = b_next;

        proof {
            let m1 = self@;
            let goal = m.swap_data(*a, *b);
            assert(m1.nodes.dom() =~= goal.nodes.dom());
            assert(m1.nodes =~= goal.nodes);
            assert forall|x: NodeId| self.arena.contains(x) implies #[trigger] self.head_links_ok(
                x,
            ) by {
                assert(before.head_links_ok(x));
            }
            assert forall|q: NodeId, k: int|
                self.arena.contains(q) && 0 <= k < self.kids@[q].len() implies #[trigger]
                self.sibling_links_ok(q, k) by {
                assert(before.sibling_links_ok(q, k));
                assert(m.node_wf(q));
                assert(m.contains(m.children(q)[k]));
            }
        }
    }

    /// Exchanges the places of the distinct nodes `a` and `b`, neither of
    /// which lies below the other.
    fn swap_places(&mut self, a: &NodeId, b: &NodeId)
        requires
            old(self).wf(),
            old(self)@.contains(*a),
            old(self)@.contains(*b),
            *a != *b,
            !old(self)@.one_below_other(*a, *b),
        ensures
            final(self).wf(),
            final(self).free_slots() == old(self).free_slots(),
            final(self).spec_slot_count() == old(self).spec_slot_count(),
            final(self)@ == old(self)@.swap_places(*a, *b),
    {
        let ghost before = *old(self);
        let ghost m = before@;
        proof {
            m.lemma_swap_places_wf(*a, *b);
            m.lemma_ancestors_acyclic(*a);
            m.lemma_ancestors_acyclic(*b);
            assert(m.node_wf(*a));
            assert(m.node_wf(*b));
            before.lemma_node_view(*a);
            before.lemma_node_view(*b);
        }
        let children_a = match self.children_ids(a) {
            Ok(ids) => ids,
            Err(_) => Vec::new(),
        };
        let children_b = match self.children_ids(b) {
            Ok(ids) => ids,
            Err(_) => Vec::new(),
        };
        let node_a = self.arena.get_unchecked(a);
        let a_parent = node_a.parent;
        let a_first = node_a.first_child;
        let a_last = node_a.last_child;
        let a_prev = node_a.prev_sibling;
        let a_next = node_a.next_sibling;
        let node_b = self.arena.get_unchecked(b);
        let b_parent = node_b.parent;
        let b_first = node_b.first_child;
        let b_last = node_b.last_child;
        let b_prev = node_b.prev_sibling;
        let b_next = node_b.next_sibling;
        proof {
            if let Some(p) = m.parent(*a) {
                assert(m.node_wf(p));
                let i = m.children(p).index_of(*a);
                assert(0 <= i < m.children(p).len() && m.children(p)[i] == *a);
                if i > 0 {
                    assert(m.contains(m.children(p)[i - 1]));
                }
                if i + 1 < m.children(p).len() {
                    assert(m.contains(m.children(p)[i + 1]));
                }
            }
            if let Some(p) = m.parent(*b) {
                assert(m.node_wf(p));
                let i = m.children(p).index_of(*b);
                assert(0 <= i < m.children(p).len() && m.children(p)[i] == *b);
                if i > 0 {
                    assert(m.contains(m.children(p)[i - 1]));
                }
                if i + 1 < m.children(p).len() {
                    assert(m.contains(m.children(p)[i + 1]));
                }
            }
        }

        self.retarget(a_parent, a_prev, a_next, &children_a, b);
        let ghost one = *self;
        self.retarget(b_parent, b_prev, b_next, &children_b, a);
        let ghost two = *self;

        let node_a = self.arena.get_unchecked_mut(a);
        node_a.parent = swap_link(a, b, b_parent);
        node_a.first_child = swap_link(a, b, b_first);
        node_a.last_child = swap_link(a, b, b_last);
        node_a.prev_sibling = swap_link(a, b, b_prev);
        node_a.next_sibling = swap_link(a, b, b_next);
        let node_b = self.arena.get_unchecked_mut(b);
        node_b.parent = swap_link(a, b, a_parent);
        node_b.first_child = swap_link(a, b, a_first);
        node_b.last_child = swap_link(a, b, a_last);
        node_b.prev_sibling = swap_link(a, b, a_prev);
        node_b.next_sibling = swap_link(a, b, a_next);

        let ghost kids = Map::new(
            |x: NodeId| true,
            |x: NodeId| swapped_seq(*a, *b, before.kids@[swapped(*a, *b, x)]),
        );
        let ghost paths = Map::new(
            |x: NodeId| true,
            |x: NodeId| swapped_seq(*a, *b, before.paths@[swapped(*a, *b, x)]),
        );
        self.kids = Ghost(kids);
        self.paths = Ghost(paths);

        proof {
            assert forall|x: NodeId|
                #![trigger self.arena.node(x)]
                before.arena.contains(x) implies self.arena.node(x) == before.exchanged_node(
                *a,
                *b,
                x,
            ) by {
                assert(one.arena.contains(x));
                assert(two.arena.contains(x));
                Self::lemma_exchanged(before, one, two, *self, *a, *b, x);
            }
            let m1 = self@;
            let goal = m.swap_places(*a, *b);
            Self::lemma_not_root(before, *a, *b);
            assert(m1.nodes.dom() =~= goal.nodes.dom());
            assert forall|x: NodeId| m1.contains(x) implies #[trigger] m1.nodes[x]
                == goal.nodes[x] by {
                assert(self.arena.node(x) == before.exchanged_node(*a, *b, x));
                assert(before.arena.contains(swapped(*a, *b, x)));
            }
            assert(m1.nodes =~= goal.nodes);
            assert(m1 == goal);
            Self::lemma_swap_links(before, *self, *a, *b);
        }
    }
}

} // verus!
