use vstd::prelude::*;
use vstd::set_lib::lemma_len_subset;
use crate::model::TreeModel;
use crate::node_id::NodeId;

verus! {

impl<T> TreeModel<T> {
    /// Every ancestor of a node is a node, and its own ancestors are the
    /// rest of the chain.
    pub proof fn lemma_ancestor_chain(self, id: NodeId, j: int)
        requires
            self.wf(),
            self.contains(id),
            0 <= j < self.ancestors(id).len(),
        ensures
            self.contains(self.ancestors(id)[j]),
            self.ancestors(self.ancestors(id)[j]) == self.ancestors(id).skip(j),
        decreases j,
    {
        assert(self.node_wf(id));
        if j == 0 {
            assert(self.ancestors(id).skip(0) =~= self.ancestors(id));
        } else {
            let p = self.parent(id)->0;
            self.lemma_ancestor_chain(p, j - 1);
            assert(self.ancestors(p).skip(j - 1) =~= self.ancestors(id).skip(j));
        }
    }

    /// The chain of ancestors of a node starts at the node, ends at the
    /// root and names no node twice: following parents never cycles.
    pub proof fn lemma_ancestors_acyclic(self, id: NodeId)
        requires
            self.wf(),
            self.contains(id),
        ensures
            self.ancestors(id).len() >= 1,
            self.ancestors(id).first() == id,
            Some(self.ancestors(id).last()) == self.root,
            self.ancestors(id).no_duplicates(),
            forall|j: int|
                0 <= j < self.ancestors(id).len() - 1 ==> self.parent(
                    #[trigger] self.ancestors(id)[j],
                ) == Some(self.ancestors(id)[j + 1]),
    {
        let anc = self.ancestors(id);
        assert(self.node_wf(id));
        if let Some(p) = self.parent(id) {
            assert(self.node_wf(p));
        }
        assert forall|i: int, j: int| 0 <= i < j < anc.len() implies anc[i] != anc[j] by {
            self.lemma_ancestor_chain(id, i);
            self.lemma_ancestor_chain(id, j);
            assert(anc.skip(i).len() != anc.skip(j).len());
        }
        assert forall|j: int| 0 <= j < anc.len() - 1 implies self.parent(#[trigger] anc[j])
            == Some(anc[j + 1]) by {
            self.lemma_ancestor_chain(id, j);
            let x = anc[j];
            assert(self.node_wf(x));
            assert(anc.skip(j).len() >= 2);
            let p = self.parent(x)->0;
            assert(self.node_wf(p));
            assert(self.ancestors(p)[0] == p);
            assert(self.ancestors(x)[1] == p);
            assert(anc.skip(j)[1] == anc[j + 1]);
        }
        let last = anc.len() - 1;
        self.lemma_ancestor_chain(id, last);
        let top = anc[last];
        assert(self.node_wf(top));
        assert(anc.skip(last).len() == 1);
        if let Some(p) = self.parent(top) {
            assert(self.node_wf(p));
            assert(self.ancestors(p).len() >= 1);
        }
    }

    /// No chain of ancestors is longer than the tree has nodes.
    pub proof fn lemma_depth_bound(self, id: NodeId)
        requires
            self.wf(),
            self.contains(id),
        ensures
            self.ancestors(id).len() <= self.nodes.dom().len(),
    {
        let anc = self.ancestors(id);
        self.lemma_ancestors_acyclic(id);
        anc.unique_seq_to_set();
        assert forall|x: NodeId| anc.to_set().contains(x) implies self.nodes.dom().contains(x) by {
            let j = choose|j: int| 0 <= j < anc.len() && anc[j] == x;
            self.lemma_ancestor_chain(id, j);
        }
        lemma_len_subset(anc.to_set(), self.nodes.dom());
    }

    /// How far the node `id` is from the greatest depth a node can have.
    pub open spec fn rank(self, id: NodeId) -> nat {
        (self.nodes.dom().len() - self.ancestors(id).len()) as nat
    }

    /// A child lies one step deeper than its parent.
    pub proof fn lemma_child_rank(self, id: NodeId, k: int)
        requires
            self.wf(),
            self.contains(id),
            0 <= k < self.children(id).len(),
        ensures
            self.contains(self.children(id)[k]),
            self.parent(self.children(id)[k]) == Some(id),
            self.rank(self.children(id)[k]) < self.rank(id),
    {
        let c = self.children(id)[k];
        assert(self.node_wf(id));
        assert(self.node_wf(c));
        self.lemma_depth_bound(c);
    }

    /// The nodes of the subtree below and including `id`, each node before
    /// its children, children first to last.
    pub open spec fn pre_order(self, id: NodeId) -> Seq<NodeId>
        decreases self.rank(id), self.children(id).len() + 1,
        when self.wf() && self.contains(id)
        via Self::pre_order_decreases
    {
        seq![id] + self.pre_order_from(id, 0)
    }

    /// The pre-order sequences of the children of `id` from the `k`-th on,
    /// one after the other.
    pub open spec fn pre_order_from(self, id: NodeId, k: int) -> Seq<NodeId>
        decreases self.rank(id), self.children(id).len() - k,
        when self.wf() && self.contains(id) && 0 <= k
        via Self::pre_order_from_decreases
    {
        if k >= self.children(id).len() {
            Seq::empty()
        } else {
            self.pre_order(self.children(id)[k]) + self.pre_order_from(id, k + 1)
        }
    }

    #[via_fn]
    proof fn pre_order_decreases(self, id: NodeId) {
    }

    #[via_fn]
    proof fn pre_order_from_decreases(self, id: NodeId, k: int) {
        if k < self.children(id).len() {
            self.lemma_child_rank(id, k);
        }
    }

    /// The nodes of the subtree below and including `id`, each node after
    /// its children, children first to last.
    pub open spec fn post_order(self, id: NodeId) -> Seq<NodeId>
        decreases self.rank(id), self.children(id).len() + 1,
        when self.wf() && self.contains(id)
        via Self::post_order_decreases
    {
        self.post_order_from(id, 0).push(id)
    }

    /// The post-order sequences of the children of `id` from the `k`-th
    /// on, one after the other.
    pub open spec fn post_order_from(self, id: NodeId, k: int) -> Seq<NodeId>
        decreases self.rank(id), self.children(id).len() - k,
        when self.wf() && self.contains(id) && 0 <= k
        via Self::post_order_from_decreases
    {
        if k >= self.children(id).len() {
            Seq::empty()
        } else {
            self.post_order(self.children(id)[k]) + self.post_order_from(id, k + 1)
        }
    }

    #[via_fn]
    proof fn post_order_decreases(self, id: NodeId) {
    }

    #[via_fn]
    proof fn post_order_from_decreases(self, id: NodeId, k: int) {
        if k < self.children(id).len() {
            self.lemma_child_rank(id, k);
        }
    }

    /// What a pre-order walk still has to yield when `stack` holds the
    /// nodes waiting to be visited, the next one last.
    pub open spec fn pre_order_stack(self, stack: Seq<NodeId>) -> Seq<NodeId>
        decreases stack.len(),
    {
        if stack.len() == 0 {
            Seq::empty()
        } else {
            self.pre_order(stack.last()) + self.pre_order_stack(stack.drop_last())
        }
    }

    /// What a post-order walk still has to yield when `stack` holds the
    /// waiting nodes, the next one last, each marked as to whether its
    /// children have been put on the stack already.
    pub open spec fn post_order_stack(self, stack: Seq<(NodeId, bool)>) -> Seq<NodeId>
        decreases stack.len(),
    {
        if stack.len() == 0 {
            Seq::empty()
        } else if stack.last().1 {
            seq![stack.last().0] + self.post_order_stack(stack.drop_last())
        } else {
            self.post_order(stack.last().0) + self.post_order_stack(stack.drop_last())
        }
    }

    /// A bound on the steps that a post-order walk has left.
    pub open spec fn post_order_steps(self, stack: Seq<(NodeId, bool)>) -> nat
        decreases stack.len(),
    {
        if stack.len() == 0 {
            0
        } else if stack.last().1 {
            1 + self.post_order_steps(stack.drop_last())
        } else {
            2 * self.post_order(stack.last().0).len() + self.post_order_steps(stack.drop_last())
        }
    }

    /// Putting the children of `top` from the `k`-th on onto a stack, last
    /// child first, adds their pre-order sequences to what the walk yields.
    pub proof fn lemma_pre_order_stack_children(self, rest: Seq<NodeId>, top: NodeId, k: int)
        requires
            self.wf(),
            self.contains(top),
            0 <= k <= self.children(top).len(),
        ensures
            self.contains_all(rest) ==> self.contains_all(
                rest + self.children(top).skip(k).reverse(),
            ),
            self.pre_order_stack(rest + self.children(top).skip(k).reverse())
                == self.pre_order_from(top, k) + self.pre_order_stack(rest),
        decreases self.children(top).len() - k,
    {
        let ch = self.children(top);
        let stack = rest + ch.skip(k).reverse();
        assert(self.node_wf(top));
        if self.contains_all(rest) {
            assert forall|i: int| 0 <= i < stack.len() implies self.contains(
                #[trigger] stack[i],
            ) by {
                if i < rest.len() {
                    assert(stack[i] == rest[i]);
                } else {
                    let j = i - rest.len();
                    assert(stack[i] == ch.skip(k).reverse()[j]);
                    assert(ch.skip(k).reverse()[j] == ch[k + (ch.len() - k - 1 - j)]);
                }
            }
        }
        if k == ch.len() {
            assert(stack =~= rest);
            assert(self.pre_order_from(top, k) =~= Seq::empty());
            assert(self.pre_order_from(top, k) + self.pre_order_stack(rest)
                =~= self.pre_order_stack(rest));
        } else {
            self.lemma_child_rank(top, k);
            self.lemma_pre_order_stack_children(rest, top, k + 1);
            let below = rest + ch.skip(k + 1).reverse();
            assert(stack =~= below.push(ch[k]));
            assert(stack.last() == ch[k]);
            assert(stack.drop_last() =~= below);
            assert(self.pre_order_stack(stack) == self.pre_order(ch[k]) + self.pre_order_stack(
                below,
            ));
            assert(self.pre_order_from(top, k) == self.pre_order(ch[k]) + self.pre_order_from(
                top,
                k + 1,
            ));
            assert(self.pre_order_stack(stack) =~= self.pre_order_from(top, k)
                + self.pre_order_stack(rest));
        }
    }

    /// The pre-order sequence of a subtree names nodes only.
    pub proof fn lemma_pre_order_nodes(self, id: NodeId)
        requires
            self.wf(),
            self.contains(id),
        ensures
            self.contains_all(self.pre_order(id)),
        decreases self.rank(id), self.children(id).len() + 1,
    {
        self.lemma_pre_order_from_nodes(id, 0);
    }

    /// The pre-order sequences of the children of a node name nodes only.
    pub proof fn lemma_pre_order_from_nodes(self, id: NodeId, k: int)
        requires
            self.wf(),
            self.contains(id),
            0 <= k,
        ensures
            self.contains_all(self.pre_order_from(id, k)),
        decreases self.rank(id), self.children(id).len() - k,
    {
        if k < self.children(id).len() {
            self.lemma_child_rank(id, k);
            self.lemma_pre_order_nodes(self.children(id)[k]);
            self.lemma_pre_order_from_nodes(id, k + 1);
        }
    }

    /// The nodes of `ids`, each marked as one whose children are not on
    /// the stack yet.
    pub open spec fn unvisited(ids: Seq<NodeId>) -> Seq<(NodeId, bool)> {
        Seq::new(ids.len(), |i: int| (ids[i], false))
    }

    /// Whether every entry of `stack` names a node.
    pub open spec fn contains_all_marked(self, stack: Seq<(NodeId, bool)>) -> bool {
        forall|i: int| 0 <= i < stack.len() ==> self.contains((#[trigger] stack[i]).0)
    }

    /// Putting the children of `top` from the `k`-th on onto a stack, last
    /// child first, adds their post-order sequences to what the walk
    /// yields, and twice their length to the steps it has left.
    pub proof fn lemma_post_order_stack_children(
        self,
        rest: Seq<(NodeId, bool)>,
        top: NodeId,
        k: int,
    )
        requires
            self.wf(),
            self.contains(top),
            0 <= k <= self.children(top).len(),
        ensures
            self.contains_all_marked(rest) ==> self.contains_all_marked(
                rest + Self::unvisited(self.children(top).skip(k).reverse()),
            ),
            self.post_order_stack(rest + Self::unvisited(self.children(top).skip(k).reverse()))
                == self.post_order_from(top, k) + self.post_order_stack(rest),
            self.post_order_steps(rest + Self::unvisited(self.children(top).skip(k).reverse()))
                == 2 * self.post_order_from(top, k).len() + self.post_order_steps(rest),
        decreases self.children(top).len() - k,
    {
        let ch = self.children(top);
        let stack = rest + Self::unvisited(ch.skip(k).reverse());
        assert(self.node_wf(top));
        if self.contains_all_marked(rest) {
            assert forall|i: int| 0 <= i < stack.len() implies self.contains(
                (#[trigger] stack[i]).0,
            ) by {
                if i < rest.len() {
                    assert(stack[i] == rest[i]);
                } else {
                    let j = i - rest.len();
                    assert(stack[i].0 == ch.skip(k).reverse()[j]);
                    assert(ch.skip(k).reverse()[j] == ch[k + (ch.len() - k - 1 - j)]);
                }
            }
        }
        if k == ch.len() {
            assert(stack =~= rest);
            assert(self.post_order_from(top, k) =~= Seq::empty());
            assert(self.post_order_from(top, k) + self.post_order_stack(rest)
                =~= self.post_order_stack(rest));
        } else {
            self.lemma_child_rank(top, k);
            self.lemma_post_order_stack_children(rest, top, k + 1);
            let below = rest + Self::unvisited(ch.skip(k + 1).reverse());
            assert(stack =~= below.push((ch[k], false)));
            assert(stack.last() == (ch[k], false));
            assert(stack.drop_last() =~= below);
            assert(self.post_order_stack(stack) == self.post_order(ch[k])
                + self.post_order_stack(below));
            assert(self.post_order_steps(stack) == 2 * self.post_order(ch[k]).len()
                + self.post_order_steps(below));
            assert(self.post_order_from(top, k) == self.post_order(ch[k]) + self.post_order_from(
                top,
                k + 1,
            ));
            assert(self.post_order_stack(stack) =~= self.post_order_from(top, k)
                + self.post_order_stack(rest));
        }
    }

    /// Whether every handle in `ids` names a node.
    pub open spec fn contains_all(self, ids: Seq<NodeId>) -> bool {
        forall|i: int| 0 <= i < ids.len() ==> self.contains(#[trigger] ids[i])
    }

    /// The number of nodes in the subtrees below the nodes of `ids`.
    pub open spec fn weight(self, ids: Seq<NodeId>) -> nat
        decreases ids.len(),
    {
        if ids.len() == 0 {
            0
        } else {
            self.pre_order(ids.first()).len() + self.weight(ids.skip(1))
        }
    }

    /// The nodes reached from a queue of nodes breadth first: the head of
    /// the queue, then what is reached from the rest of the queue followed
    /// by the children of the head.
    pub open spec fn level_order_from(self, queue: Seq<NodeId>) -> Seq<NodeId>
        decreases self.weight(queue),
        when self.wf() && self.contains_all(queue)
        via Self::level_order_from_decreases
    {
        if queue.len() == 0 {
            Seq::empty()
        } else {
            seq![queue.first()] + self.level_order_from(
                queue.skip(1) + self.children(queue.first()),
            )
        }
    }

    /// The nodes of the subtree below and including `id`, level by level,
    /// each level first to last.
    pub open spec fn level_order(self, id: NodeId) -> Seq<NodeId> {
        self.level_order_from(seq![id])
    }

    #[via_fn]
    proof fn level_order_from_decreases(self, queue: Seq<NodeId>) {
        if queue.len() > 0 {
            self.lemma_level_step(queue);
        }
    }

    /// The weight of two sequences of nodes one after the other is the sum
    /// of their weights.
    pub proof fn lemma_weight_concat(self, a: Seq<NodeId>, b: Seq<NodeId>)
        ensures
            self.weight(a + b) == self.weight(a) + self.weight(b),
        decreases a.len(),
    {
        if a.len() == 0 {
            assert(a + b =~= b);
        } else {
            assert((a + b).skip(1) =~= a.skip(1) + b);
            self.lemma_weight_concat(a.skip(1), b);
        }
    }

    /// The children of `id` from the `k`-th on weigh as much as their
    /// pre-order sequences are long.
    pub proof fn lemma_weight_children(self, id: NodeId, k: int)
        requires
            self.wf(),
            self.contains(id),
            0 <= k <= self.children(id).len(),
        ensures
            self.weight(self.children(id).skip(k)) == self.pre_order_from(id, k).len(),
        decreases self.children(id).len() - k,
    {
        let ch = self.children(id);
        if k < ch.len() {
            assert(ch.skip(k).skip(1) =~= ch.skip(k + 1));
            assert(ch.skip(k).first() == ch[k]);
            self.lemma_child_rank(id, k);
            self.lemma_weight_children(id, k + 1);
            assert(self.pre_order_from(id, k) == self.pre_order(ch[k]) + self.pre_order_from(
                id,
                k + 1,
            ));
        } else {
            assert(ch.skip(k).len() == 0);
            assert(self.pre_order_from(id, k) =~= Seq::empty());
        }
    }

    /// Taking the head off a queue and appending its children makes the
    /// queue lighter by one, and keeps it a queue of nodes.
    pub proof fn lemma_level_step(self, queue: Seq<NodeId>)
        requires
            self.wf(),
            self.contains_all(queue),
            queue.len() > 0,
        ensures
            self.contains_all(queue.skip(1) + self.children(queue.first())),
            self.weight(queue.skip(1) + self.children(queue.first())) + 1 == self.weight(queue),
    {
        let head = queue.first();
        let ch = self.children(head);
        assert(self.contains(queue[0]));
        assert(self.node_wf(head));
        let next = queue.skip(1) + ch;
        assert forall|i: int| 0 <= i < next.len() implies self.contains(#[trigger] next[i]) by {
            if i < queue.len() - 1 {
                assert(next[i] == queue[i + 1]);
            } else {
                assert(next[i] == ch[i - (queue.len() - 1)]);
            }
        }
        self.lemma_weight_concat(queue.skip(1), ch);
        self.lemma_weight_children(head, 0);
        assert(ch.skip(0) =~= ch);
    }
}

} // verus!
