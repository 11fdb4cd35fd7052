use vstd::prelude::*;
use vstd::seq_lib::lemma_no_dup_in_concat;
use crate::model::TreeModel;
use crate::node_id::NodeId;

verus! {

impl<T> TreeModel<T> {
    /// For a node `x` strictly below `id`: the child of `id` through which
    /// `x` is reached.
    pub open spec fn branch(self, x: NodeId, id: NodeId) -> NodeId {
        self.ancestors(x)[self.ancestors(x).index_of(id) - 1]
    }

    /// For a node `x` strictly below `id`: the place, among the children
    /// of `id`, of the child through which `x` is reached.
    pub open spec fn branch_index(self, x: NodeId, id: NodeId) -> int {
        self.children(id).index_of(self.branch(x, id))
    }

    /// A node strictly below `id` lies in the subtree of exactly one child
    /// of `id`, its branch.
    pub proof fn lemma_branch(self, x: NodeId, id: NodeId)
        requires
            self.wf(),
            self.in_subtree(x, id),
            x != id,
        ensures
            self.contains(id),
            self.contains(self.branch(x, id)),
            self.parent(self.branch(x, id)) == Some(id),
            0 <= self.branch_index(x, id) < self.children(id).len(),
            self.children(id)[self.branch_index(x, id)] == self.branch(x, id),
            self.in_subtree(x, self.branch(x, id)),
    {
        let anc = self.ancestors(x);
        let i = anc.index_of(id);
        assert(0 <= i < anc.len() && anc[i] == id);
        self.lemma_ancestors_acyclic(x);
        assert(i != 0);
        let b = anc[i - 1];
        assert(self.parent(b) == Some(id));
        self.lemma_ancestor_chain(x, i - 1);
        self.lemma_ancestor_chain(x, i);
        assert(self.node_wf(b));
        assert(self.children(id).contains(b));
    }

    /// A node in the subtree of the `k`-th child of `id` lies strictly
    /// below `id`, and that child is its branch.
    pub proof fn lemma_below_child(self, x: NodeId, id: NodeId, k: int)
        requires
            self.wf(),
            self.contains(id),
            0 <= k < self.children(id).len(),
            self.in_subtree(x, self.children(id)[k]),
        ensures
            self.in_subtree(x, id),
            x != id,
            self.branch(x, id) == self.children(id)[k],
            self.branch_index(x, id) == k,
    {
        let c = self.children(id)[k];
        let anc = self.ancestors(x);
        assert(self.node_wf(id));
        assert(self.node_wf(c));
        let j = anc.index_of(c);
        assert(0 <= j < anc.len() && anc[j] == c);
        self.lemma_ancestor_chain(x, j);
        assert(self.ancestors(id)[0] == id);
        assert(self.ancestors(c)[1] == id);
        assert(self.ancestors(c).len() >= 2);
        assert(anc.skip(j).len() == anc.len() - j);
        assert(anc.skip(j)[1] == anc[j + 1]);
        assert(anc[j + 1] == id);
        self.lemma_ancestors_acyclic(x);
        let i = anc.index_of(id);
        assert(0 <= i < anc.len() && anc[i] == id);
        assert(i == j + 1);
        let q = self.children(id).index_of(c);
        assert(0 <= q < self.children(id).len() && self.children(id)[q] == c);
    }

    /// The pre-order sequence of the subtree at `id` names every node of
    /// that subtree, and each once.
    pub proof fn lemma_pre_order_members(self, id: NodeId)
        requires
            self.wf(),
            self.contains(id),
        ensures
            self.pre_order(id).no_duplicates(),
            self.pre_order(id).len() >= 1,
            self.pre_order(id)[0] == id,
            forall|x: NodeId| #[trigger] self.pre_order(id).contains(x) <==> self.in_subtree(x, id),
        decreases self.rank(id), self.children(id).len() + 1,
    {
        let rest = self.pre_order_from(id, 0);
        let all = self.pre_order(id);
        self.lemma_pre_order_from_members(id, 0);
        self.lemma_ancestors_acyclic(id);
        assert(self.ancestors(id)[0] == id);
        assert(!rest.contains(id));
        assert(seq![id].no_duplicates());
        lemma_no_dup_in_concat(seq![id], rest);
        assert forall|x: NodeId| #[trigger] all.contains(x) <==> self.in_subtree(x, id) by {
            if all.contains(x) {
                let i = choose|i: int| 0 <= i < all.len() && all[i] == x;
                if i > 0 {
                    assert(rest[i - 1] == x);
                    assert(rest.contains(x));
                }
            }
            if self.in_subtree(x, id) {
                if x == id {
                    assert(all[0] == x);
                } else {
                    self.lemma_branch(x, id);
                    assert(rest.contains(x));
                    let i = choose|i: int| 0 <= i < rest.len() && rest[i] == x;
                    assert(all[i + 1] == x);
                }
            }
        }
    }

    /// The pre-order sequences of the children of `id` from the `k`-th on
    /// name every node below those children, and each once.
    pub proof fn lemma_pre_order_from_members(self, id: NodeId, k: int)
        requires
            self.wf(),
            self.contains(id),
            0 <= k,
        ensures
            self.pre_order_from(id, k).no_duplicates(),
            forall|x: NodeId| #[trigger]
                self.pre_order_from(id, k).contains(x) <==> {
                    &&& self.in_subtree(x, id)
                    &&& x != id
                    &&& self.branch_index(x, id) >= k
                },
        decreases self.rank(id), self.children(id).len() - k,
    {
        let ch = self.children(id);
        let from = self.pre_order_from(id, k);
        if k >= ch.len() {
            assert(from =~= Seq::empty());
            assert forall|x: NodeId| #[trigger] from.contains(x) <==> {
                &&& self.in_subtree(x, id)
                &&& x != id
                &&& self.branch_index(x, id) >= k
            } by {
                if self.in_subtree(x, id) && x != id {
                    self.lemma_branch(x, id);
                }
            }
        } else {
            let c = ch[k];
            let head = self.pre_order(c);
            let tail = self.pre_order_from(id, k + 1);
            self.lemma_child_rank(id, k);
            self.lemma_pre_order_members(c);
            self.lemma_pre_order_from_members(id, k + 1);
            assert(from == head + tail);
            assert forall|i: int, j: int| 0 <= i < head.len() && 0 <= j < tail.len() implies head[i]
                != tail[j] by {
                assert(head.contains(head[i]));
                assert(tail.contains(tail[j]));
                self.lemma_below_child(head[i], id, k);
            }
            lemma_no_dup_in_concat(head, tail);
            assert forall|x: NodeId| #[trigger] from.contains(x) <==> {
                &&& self.in_subtree(x, id)
                &&& x != id
                &&& self.branch_index(x, id) >= k
            } by {
                if from.contains(x) {
                    let i = choose|i: int| 0 <= i < from.len() && from[i] == x;
                    if i < head.len() {
                        assert(head[i] == x);
                        assert(head.contains(x));
                        self.lemma_below_child(x, id, k);
                    } else {
                        assert(tail[i - head.len()] == x);
                        assert(tail.contains(x));
                    }
                }
                if self.in_subtree(x, id) && x != id && self.branch_index(x, id) >= k {
                    self.lemma_branch(x, id);
                    if self.branch_index(x, id) == k {
                        assert(head.contains(x));
                        let i = choose|i: int| 0 <= i < head.len() && head[i] == x;
                        assert(from[i] == x);
                    } else {
                        assert(tail.contains(x));
                        let i = choose|i: int| 0 <= i < tail.len() && tail[i] == x;
                        assert(from[head.len() + i] == x);
                    }
                }
            }
        }
    }

    /// The post-order sequence of the subtree at `id` names every node of
    /// that subtree, and each once; the node `id` comes last.
    pub proof fn lemma_post_order_members(self, id: NodeId)
        requires
            self.wf(),
            self.contains(id),
        ensures
            self.post_order(id).no_duplicates(),
            self.post_order(id).len() >= 1,
            self.post_order(id).last() == id,
            forall|x: NodeId| #[trigger] self.post_order(id).contains(x) <==> self.in_subtree(x, id),
        decreases self.rank(id), self.children(id).len() + 1,
    {
        let rest = self.post_order_from(id, 0);
        let all = self.post_order(id);
        self.lemma_post_order_from_members(id, 0);
        self.lemma_ancestors_acyclic(id);
        assert(self.ancestors(id)[0] == id);
        assert(!rest.contains(id));
        assert(seq![id].no_duplicates());
        lemma_no_dup_in_concat(rest, seq![id]);
        assert(all =~= rest + seq![id]);
        assert forall|x: NodeId| #[trigger] all.contains(x) <==> self.in_subtree(x, id) by {
            if all.contains(x) {
                let i = choose|i: int| 0 <= i < all.len() && all[i] == x;
                if i < rest.len() {
                    assert(rest[i] == x);
                    assert(rest.contains(x));
                }
            }
            if self.in_subtree(x, id) {
                if x == id {
                    assert(all[all.len() - 1] == x);
                } else {
                    self.lemma_branch(x, id);
                    assert(rest.contains(x));
                    let i = choose|i: int| 0 <= i < rest.len() && rest[i] == x;
                    assert(all[i] == x);
                }
            }
        }
    }

    /// The post-order sequences of the children of `id` from the `k`-th on
    /// name every node below those children, and each once.
    pub proof fn lemma_post_order_from_members(self, id: NodeId, k: int)
        requires
            self.wf(),
            self.contains(id),
            0 <= k,
        ensures
            self.post_order_from(id, k).no_duplicates(),
            forall|x: NodeId| #[trigger]
                self.post_order_from(id, k).contains(x) <==> {
                    &&& self.in_subtree(x, id)
                    &&& x != id
                    &&& self.branch_index(x, id) >= k
                },
        decreases self.rank(id), self.children(id).len() - k,
    {
        let ch = self.children(id);
        let from = self.post_order_from(id, k);
        if k >= ch.len() {
            assert(from =~= Seq::empty());
            assert forall|x: NodeId| #[trigger] from.contains(x) <==> {
                &&& self.in_subtree(x, id)
                &&& x != id
                &&& self.branch_index(x, id) >= k
            } by {
                if self.in_subtree(x, id) && x != id {
                    self.lemma_branch(x, id);
                }
            }
        } else {
            let c = ch[k];
            let head = self.post_order(c);
            let tail = self.post_order_from(id, k + 1);
            self.lemma_child_rank(id, k);
            self.lemma_post_order_members(c);
            self.lemma_post_order_from_members(id, k + 1);
            assert(from == head + tail);
            assert forall|i: int, j: int| 0 <= i < head.len() && 0 <= j < tail.len() implies head[i]
                != tail[j] by {
                assert(head.contains(head[i]));
                assert(tail.contains(tail[j]));
                self.lemma_below_child(head[i], id, k);
            }
            lemma_no_dup_in_concat(head, tail);
            assert forall|x: NodeId| #[trigger] from.contains(x) <==> {
                &&& self.in_subtree(x, id)
                &&& x != id
                &&& self.branch_index(x, id) >= k
            } by {
                if from.contains(x) {
                    let i = choose|i: int| 0 <= i < from.len() && from[i] == x;
                    if i < head.len() {
                        assert(head[i] == x);
                        assert(head.contains(x));
                        self.lemma_below_child(x, id, k);
                    } else {
                        assert(tail[i - head.len()] == x);
                        assert(tail.contains(x));
                    }
                }
                if self.in_subtree(x, id) && x != id && self.branch_index(x, id) >= k {
                    self.lemma_branch(x, id);
                    if self.branch_index(x, id) == k {
                        assert(head.contains(x));
                        let i = choose|i: int| 0 <= i < head.len() && head[i] == x;
                        assert(from[i] == x);
                    } else {
                        assert(tail.contains(x));
                        let i = choose|i: int| 0 <= i < tail.len() && tail[i] == x;
                        assert(from[head.len() + i] == x);
                    }
                }
            }
        }
    }

    /// Whether `x` lies in the subtree of one of the nodes of `queue`.
    pub open spec fn covered(self, queue: Seq<NodeId>, x: NodeId) -> bool {
        exists|i: int| 0 <= i < queue.len() && #[trigger] self.in_subtree(x, queue[i])
    }

    /// Whether no node lies in the subtrees of two entries of `queue`.
    pub open spec fn apart(self, queue: Seq<NodeId>) -> bool {
        forall|i: int, j: int, x: NodeId|
            0 <= i < j < queue.len() && #[trigger] self.in_subtree(x, queue[i]) ==> !(
            #[trigger] self.in_subtree(x, queue[j]))
    }

    /// What is reached breadth first from a queue of nodes with separate
    /// subtrees are the nodes of these subtrees, each once.
    pub proof fn lemma_level_order_from_members(self, queue: Seq<NodeId>)
        requires
            self.wf(),
            self.contains_all(queue),
            self.apart(queue),
        ensures
            self.level_order_from(queue).no_duplicates(),
            forall|x: NodeId| #[trigger]
                self.level_order_from(queue).contains(x) <==> self.covered(queue, x),
        decreases self.weight(queue),
    {
        let all = self.level_order_from(queue);
        if queue.len() == 0 {
            assert(all =~= Seq::empty());
        } else {
            let head = queue.first();
            let ch = self.children(head);
            let next = queue.skip(1) + ch;
            let later = self.level_order_from(next);
            self.lemma_level_step(queue);
            assert(self.contains(queue[0]));
            assert(self.node_wf(head));
            self.lemma_ancestors_acyclic(head);
            assert(self.ancestors(head)[0] == head);
            assert(self.in_subtree(head, queue[0]));
            assert forall|i: int, j: int, x: NodeId|
                0 <= i < j < next.len() && #[trigger] self.in_subtree(x, next[i]) implies !(
            #[trigger] self.in_subtree(x, next[j])) by {
                if j < queue.len() - 1 {
                    assert(next[i] == queue[i + 1]);
                    assert(next[j] == queue[j + 1]);
                } else if i < queue.len() - 1 {
                    assert(next[i] == queue[i + 1]);
                    let k = j - (queue.len() - 1);
                    assert(next[j] == ch[k]);
                    if self.in_subtree(x, ch[k]) {
                        self.lemma_below_child(x, head, k);
                        assert(self.in_subtree(x, queue[0]));
                    }
                } else {
                    let k1 = i - (queue.len() - 1);
                    let k2 = j - (queue.len() - 1);
                    assert(next[i] == ch[k1]);
                    assert(next[j] == ch[k2]);
                    if self.in_subtree(x, ch[k2]) {
                        self.lemma_below_child(x, head, k1);
                        self.lemma_below_child(x, head, k2);
                    }
                }
            }
            self.lemma_level_order_from_members(next);
            assert(all == seq![head] + later);
            assert(!later.contains(head)) by {
                if later.contains(head) {
                    assert(self.covered(next, head));
                    let i = choose|i: int|
                        0 <= i < next.len() && #[trigger] self.in_subtree(head, next[i]);
                    if i < queue.len() - 1 {
                        assert(next[i] == queue[i + 1]);
                    } else {
                        let k = i - (queue.len() - 1);
                        assert(next[i] == ch[k]);
                        self.lemma_below_child(head, head, k);
                    }
                }
            }
            assert(seq![head].no_duplicates());
            lemma_no_dup_in_concat(seq![head], later);
            assert forall|x: NodeId| #[trigger] all.contains(x) <==> self.covered(queue, x) by {
                if all.contains(x) {
                    let i = choose|i: int| 0 <= i < all.len() && all[i] == x;
                    if i > 0 {
                        assert(later[i - 1] == x);
                        assert(later.contains(x));
                        assert(self.covered(next, x));
                        let q = choose|q: int|
                            0 <= q < next.len() && #[trigger] self.in_subtree(x, next[q]);
                        if q < queue.len() - 1 {
                            assert(next[q] == queue[q + 1]);
                            assert(self.in_subtree(x, queue[q + 1]));
                        } else {
                            let k = q - (queue.len() - 1);
                            assert(next[q] == ch[k]);
                            self.lemma_below_child(x, head, k);
                            assert(self.in_subtree(x, queue[0]));
                        }
                    }
                }
                if self.covered(queue, x) {
                    let q = choose|q: int|
                        0 <= q < queue.len() && #[trigger] self.in_subtree(x, queue[q]);
                    if q == 0 {
                        if x == head {
                            assert(all[0] == x);
                        } else {
                            self.lemma_branch(x, head);
                            let k = self.branch_index(x, head);
                            assert(next[queue.len() - 1 + k] == ch[k]);
                            assert(self.in_subtree(x, next[queue.len() - 1 + k]));
                            assert(self.covered(next, x));
                            assert(later.contains(x));
                            let i = choose|i: int| 0 <= i < later.len() && later[i] == x;
                            assert(all[i + 1] == x);
                        }
                    } else {
                        assert(next[q - 1] == queue[q]);
                        assert(self.in_subtree(x, next[q - 1]));
                        assert(self.covered(next, x));
                        assert(later.contains(x));
                        let i = choose|i: int| 0 <= i < later.len() && later[i] == x;
                        assert(all[i + 1] == x);
                    }
                }
            }
        }
    }

    /// The level-order sequence of the subtree at `id` names every node of
    /// that subtree, and each once; the node `id` comes first.
    pub proof fn lemma_level_order_members(self, id: NodeId)
        requires
            self.wf(),
            self.contains(id),
        ensures
            self.level_order(id).no_duplicates(),
            self.level_order(id).len() >= 1,
            self.level_order(id)[0] == id,
            forall|x: NodeId| #[trigger] self.level_order(id).contains(x) <==> self.in_subtree(x, id),
    {
        let queue = seq![id];
        assert(queue[0] == id);
        self.lemma_level_order_from_members(queue);
        assert forall|x: NodeId| #[trigger] self.level_order(id).contains(x) <==> self.in_subtree(
            x,
            id,
        ) by {
            if self.covered(queue, x) {
                let q = choose|q: int|
                    0 <= q < queue.len() && #[trigger] self.in_subtree(x, queue[q]);
            }
            if self.in_subtree(x, id) {
                assert(self.in_subtree(x, queue[0]));
            }
        }
    }
}

} // verus!
