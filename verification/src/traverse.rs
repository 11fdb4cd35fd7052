use vstd::prelude::*;
use std::collections::VecDeque;
use crate::error::NodeIdError;
use crate::model::TreeModel;
use crate::node_id::NodeId;
use crate::tree::OptTree;

verus! {

impl<T> OptTree<T> {
    /// The handles of the node `node_id` and of its ancestors, from the
    /// node up to the root, or `HandleInvalid` when it names no node.
    pub fn ancestor_ids(&self, node_id: &NodeId) -> (res: Result<Vec<NodeId>, NodeIdError>)
        requires
            self.wf(),
        ensures
            match res {
                Ok(ids) => self@.contains(*node_id) && ids@ == self@.ancestors(*node_id),
                Err(e) => !self@.contains(*node_id) && e == NodeIdError::HandleInvalid,
            },
    {
        match self.arena.validate_node_id(node_id) {
            Ok(_) => {},
            Err(e) => {
                return Err(e);
            },
        }
        let ghost anc = self@.ancestors(*node_id);
        proof {
            self@.lemma_ancestors_acyclic(*node_id);
            assert forall|j: int| 0 <= j < anc.len() implies self@.contains(#[trigger] anc[j]) by {
                self@.lemma_ancestor_chain(*node_id, j);
            }
            assert(self@.node_wf(anc.last()));
        }
        let mut out: Vec<NodeId> = Vec::new();
        let mut cur: NodeId = *node_id;
        out.push(cur);
        let mut next = self.arena.get_unchecked(&cur).parent;
        while next.is_some()
            invariant
                self.wf(),
                anc == self@.ancestors(*node_id),
                forall|j: int| 0 <= j < anc.len() ==> self@.contains(#[trigger] anc[j]),
                forall|j: int|
                    0 <= j < anc.len() - 1 ==> self@.parent(#[trigger] anc[j]) == Some(anc[j + 1]),
                self@.parent(anc.last()) is None,
                1 <= out.len() <= anc.len(),
                out@ == anc.take(out.len() as int),
                cur == anc[out.len() - 1],
                next == self@.parent(cur),
            decreases anc.len() - out.len(),
        {
            let p = next.unwrap();
            out.push(p);
            cur = p;
            proof {
                assert(out@ =~= anc.take(out.len() as int));
            }
            next = self.arena.get_unchecked(&cur).parent;
        }
        proof {
            assert(out@ =~= anc);
        }
        Ok(out)
    }

    /// The handles of the children of `node_id`, first to last, or
    /// `HandleInvalid` when it names no node.
    pub fn children_ids(&self, node_id: &NodeId) -> (res: Result<Vec<NodeId>, NodeIdError>)
        requires
            self.wf(),
        ensures
            match res {
                Ok(ids) => self@.contains(*node_id) && ids@ == self@.children(*node_id),
                Err(e) => !self@.contains(*node_id) && e == NodeIdError::HandleInvalid,
            },
    {
        match self.arena.validate_node_id(node_id) {
            Ok(_) => {},
            Err(e) => {
                return Err(e);
            },
        }
        let ghost ch = self@.children(*node_id);
        proof {
            assert(self.head_links_ok(*node_id));
            assert(self@.node_wf(*node_id));
        }
        let mut out: Vec<NodeId> = Vec::new();
        let mut cur = self.arena.get_unchecked(node_id).first_child;
        while cur.is_some()
            invariant
                self.wf(),
                self@.contains(*node_id),
                ch == self@.children(*node_id),
                out.len() <= ch.len(),
                out@ == ch.take(out.len() as int),
                cur == if out.len() < ch.len() {
                    Some(ch[out.len() as int])
                } else {
                    None
                },
            decreases ch.len() - out.len(),
        {
            let c = cur.unwrap();
            proof {
                assert(self@.node_wf(*node_id));
                assert(self@.contains(ch[out.len() as int]));
                assert(self.sibling_links_ok(*node_id, out.len() as int));
            }
            out.push(c);
            cur = self.arena.get_unchecked(&c).next_sibling;
            proof {
                assert(out@ =~= ch.take(out.len() as int));
            }
        }
        proof {
            assert(out@ =~= ch);
        }
        Ok(out)
    }

    /// Puts the children of `top` on `stack`, last child first, so that
    /// the first child is taken off first.
    pub(crate) fn push_children_reversed(&self, top: &NodeId, stack: &mut Vec<NodeId>)
        requires
            self.wf(),
            self@.contains(*top),
        ensures
            final(stack)@ == old(stack)@ + self@.children(*top).reverse(),
    {
        let ghost ch = self@.children(*top);
        let ghost base = stack@;
        proof {
            assert(self.head_links_ok(*top));
            assert(self@.node_wf(*top));
        }
        let mut cur = self.arena.get_unchecked(top).last_child;
        let ghost mut k: int = ch.len() as int;
        proof {
            assert(stack@ =~= base + ch.skip(k).reverse());
        }
        while cur.is_some()
            invariant
                self.wf(),
                self@.contains(*top),
                ch == self@.children(*top),
                0 <= k <= ch.len(),
                stack@ == base + ch.skip(k).reverse(),
                cur == if k > 0 {
                    Some(ch[k - 1])
                } else {
                    None
                },
            decreases k,
        {
            let c = cur.unwrap();
            proof {
                assert(self@.node_wf(*top));
                assert(self@.contains(ch[k - 1]));
                assert(self.sibling_links_ok(*top, k - 1));
            }
            stack.push(c);
            cur = self.arena.get_unchecked(&c).prev_sibling;
            proof {
                k = k - 1;
                assert(ch.skip(k).reverse() =~= ch.skip(k + 1).reverse().push(ch[k]));
                assert(stack@ =~= base + ch.skip(k).reverse());
            }
        }
        proof {
            assert(ch.skip(0) =~= ch);
        }
    }

    /// The handles of the subtree at `node_id` in pre-order, each node
    /// before its children, or `HandleInvalid` when it names no node.
    pub fn traverse_pre_order_ids(&self, node_id: &NodeId) -> (res: Result<
        Vec<NodeId>,
        NodeIdError,
    >)
        requires
            self.wf(),
        ensures
            match res {
                Ok(ids) => self@.contains(*node_id) && ids@ == self@.pre_order(*node_id),
                Err(e) => !self@.contains(*node_id) && e == NodeIdError::HandleInvalid,
            },
    {
        match self.arena.validate_node_id(node_id) {
            Ok(_) => {},
            Err(e) => {
                return Err(e);
            },
        }
        let mut out: Vec<NodeId> = Vec::new();
        let mut stack: Vec<NodeId> = Vec::new();
        stack.push(*node_id);
        proof {
            assert(stack@.last() == *node_id);
            assert(stack@.drop_last().len() == 0);
            assert(self@.pre_order_stack(stack@.drop_last()) =~= Seq::empty());
            assert(self@.pre_order_stack(stack@) =~= self@.pre_order(*node_id));
        }
        while stack.len() > 0
            invariant
                self.wf(),
                self@.contains_all(stack@),
                out@ + self@.pre_order_stack(stack@) == self@.pre_order(*node_id),
            decreases self@.pre_order_stack(stack@).len(),
        {
            let ghost before = stack@;
            let top = stack.pop().unwrap();
            let ghost rest = stack@;
            proof {
                assert(before.last() == top);
                assert(rest =~= before.drop_last());
                assert(self@.contains(before[before.len() - 1]));
            }
            out.push(top);
            self.push_children_reversed(&top, &mut stack);
            proof {
                self@.lemma_pre_order_stack_children(rest, top, 0);
                assert(self@.children(top).skip(0) =~= self@.children(top));
                assert(self@.pre_order(top) == seq![top] + self@.pre_order_from(top, 0));
                assert(out@ + self@.pre_order_stack(stack@) =~= self@.pre_order(*node_id));
            }
        }
        proof {
            assert(out@ =~= self@.pre_order(*node_id));
        }
        Ok(out)
    }

    /// Puts the children of `top` on `stack`, last child first, each
    /// marked as one whose children are not on the stack yet.
    pub(crate) fn push_children_unvisited(&self, top: &NodeId, stack: &mut Vec<(NodeId, bool)>)
        requires
            self.wf(),
            self@.contains(*top),
        ensures
            final(stack)@ == old(stack)@ + TreeModel::<T>::unvisited(
                self@.children(*top).reverse(),
            ),
    {
        let ghost ch = self@.children(*top);
        let ghost base = stack@;
        proof {
            assert(self.head_links_ok(*top));
            assert(self@.node_wf(*top));
        }
        let mut cur = self.arena.get_unchecked(top).last_child;
        let ghost mut k: int = ch.len() as int;
        proof {
            assert(stack@ =~= base + TreeModel::<T>::unvisited(ch.skip(k).reverse()));
        }
        while cur.is_some()
            invariant
                self.wf(),
                self@.contains(*top),
                ch == self@.children(*top),
                0 <= k <= ch.len(),
                stack@ == base + TreeModel::<T>::unvisited(ch.skip(k).reverse()),
                cur == if k > 0 {
                    Some(ch[k - 1])
                } else {
                    None
                },
            decreases k,
        {
            let c = cur.unwrap();
            proof {
                assert(self@.node_wf(*top));
                assert(self@.contains(ch[k - 1]));
                assert(self.sibling_links_ok(*top, k - 1));
            }
            stack.push((c, false));
            cur = self.arena.get_unchecked(&c).prev_sibling;
            proof {
                k = k - 1;
                assert(ch.skip(k).reverse() =~= ch.skip(k + 1).reverse().push(ch[k]));
                assert(stack@ =~= base + TreeModel::<T>::unvisited(ch.skip(k).reverse()));
            }
        }
        proof {
            assert(ch.skip(0) =~= ch);
        }
    }

    /// The handles of the subtree at `node_id` in post-order, each node
    /// after its children, or `HandleInvalid` when it names no node.
    pub fn traverse_post_order_ids(&self, node_id: &NodeId) -> (res: Result<
        Vec<NodeId>,
        NodeIdError,
    >)
        requires
            self.wf(),
        ensures
            match res {
                Ok(ids) => self@.contains(*node_id) && ids@ == self@.post_order(*node_id),
                Err(e) => !self@.contains(*node_id) && e == NodeIdError::HandleInvalid,
            },
    {
        match self.arena.validate_node_id(node_id) {
            Ok(_) => {},
            Err(e) => {
                return Err(e);
            },
        }
        let mut out: Vec<NodeId> = Vec::new();
        let mut stack: Vec<(NodeId, bool)> = Vec::new();
        stack.push((*node_id, false));
        proof {
            assert(stack@.last() == (*node_id, false));
            assert(stack@.drop_last().len() == 0);
            assert(self@.post_order_stack(stack@.drop_last()) =~= Seq::empty());
            assert(self@.post_order_stack(stack@) =~= self@.post_order(*node_id));
        }
        while stack.len() > 0
            invariant
                self.wf(),
                self@.contains_all_marked(stack@),
                out@ + self@.post_order_stack(stack@) == self@.post_order(*node_id),
            decreases self@.post_order_steps(stack@),
        {
            let ghost before = stack@;
            let (top, expanded) = stack.pop().unwrap();
            let ghost rest = stack@;
            proof {
                assert(before.last() == (top, expanded));
                assert(rest =~= before.drop_last());
                assert(self@.contains(before[before.len() - 1].0));
            }
            if expanded {
                out.push(top);
                proof {
                    assert(out@ + self@.post_order_stack(stack@) =~= self@.post_order(*node_id));
                }
            } else {
                stack.push((top, true));
                let ghost marked = stack@;
                self.push_children_unvisited(&top, &mut stack);
                proof {
                    assert(marked.last() == (top, true));
                    assert(marked.drop_last() =~= rest);
                    assert(self@.contains_all_marked(marked));
                    self@.lemma_post_order_stack_children(marked, top, 0);
                    assert(self@.children(top).skip(0) =~= self@.children(top));
                    assert(self@.post_order(top) == self@.post_order_from(top, 0).push(top));
                    assert(self@.post_order_stack(stack@) =~= self@.post_order(top)
                        + self@.post_order_stack(rest));
                    assert(out@ + self@.post_order_stack(stack@) =~= self@.post_order(*node_id));
                }
            }
        }
        proof {
            assert(out@ =~= self@.post_order(*node_id));
        }
        Ok(out)
    }

    /// Appends the children of `top` to `queue`, first child first.
    pub(crate) fn enqueue_children(&self, top: &NodeId, queue: &mut VecDeque<NodeId>)
        requires
            self.wf(),
            self@.contains(*top),
        ensures
            final(queue)@ == old(queue)@ + self@.children(*top),
    {
        let ghost ch = self@.children(*top);
        let ghost base = queue@;
        proof {
            assert(self.head_links_ok(*top));
            assert(self@.node_wf(*top));
            assert(queue@ =~= base + ch.take(0));
        }
        let mut cur = self.arena.get_unchecked(top).first_child;
        let ghost mut k: int = 0;
        while cur.is_some()
            invariant
                self.wf(),
                self@.contains(*top),
                ch == self@.children(*top),
                0 <= k <= ch.len(),
                queue@ == base + ch.take(k),
                cur == if k < ch.len() {
                    Some(ch[k])
                } else {
                    None
                },
            decreases ch.len() - k,
        {
            let c = cur.unwrap();
            proof {
                assert(self@.node_wf(*top));
                assert(self@.contains(ch[k]));
                assert(self.sibling_links_ok(*top, k));
            }
            queue.push_back(c);
            cur = self.arena.get_unchecked(&c).next_sibling;
            proof {
                k = k + 1;
                assert(queue@ =~= base + ch.take(k));
            }
        }
        proof {
            assert(ch.take(k) =~= ch);
        }
    }

    /// The handles of the subtree at `node_id` level by level, or
    /// `HandleInvalid` when it names no node.
    pub fn traverse_level_order_ids(&self, node_id: &NodeId) -> (res: Result<
        Vec<NodeId>,
        NodeIdError,
    >)
        requires
            self.wf(),
        ensures
            match res {
                Ok(ids) => self@.contains(*node_id) && ids@ == self@.level_order(*node_id),
                Err(e) => !self@.contains(*node_id) && e == NodeIdError::HandleInvalid,
            },
    {
        match self.arena.validate_node_id(node_id) {
            Ok(_) => {},
            Err(e) => {
                return Err(e);
            },
        }
        let mut out: Vec<NodeId> = Vec::new();
        let mut queue: VecDeque<NodeId> = VecDeque::new();
        queue.push_back(*node_id);
        proof {
            assert(queue@ =~= seq![*node_id]);
        }
        while queue.len() > 0
            invariant
                self.wf(),
                self@.contains_all(queue@),
                out@ + self@.level_order_from(queue@) == self@.level_order(*node_id),
            decreases self@.weight(queue@),
        {
            let ghost before = queue@;
            let head = queue.pop_front().unwrap();
            proof {
                assert(queue@ =~= before.skip(1));
                assert(self@.contains(before[0]));
                self@.lemma_level_step(before);
            }
            out.push(head);
            self.enqueue_children(&head, &mut queue);
            proof {
                assert(self@.level_order_from(before) == seq![head] + self@.level_order_from(
                    queue@,
                ));
                assert(out@ + self@.level_order_from(queue@) =~= self@.level_order(*node_id));
            }
        }
        proof {
            assert(self@.level_order_from(queue@) =~= Seq::empty());
            assert(out@ =~= self@.level_order(*node_id));
        }
        Ok(out)
    }
}

} // verus!
