use vstd::prelude::*;
use std::collections::VecDeque;
use crate::error::NodeIdError;
use crate::node::{NodeView, OptNode};
use crate::node_id::NodeId;
use crate::tree::OptTree;

verus! {

/// What a call of `next` on a cursor over the nodes of `tree` may return
/// when `before` was still to come and `after` is still to come: the
/// stored node that the first handle of `before` names, or nothing at the
/// end.
pub open spec fn yields_node<T>(
    tree: OptTree<T>,
    before: Seq<NodeId>,
    after: Seq<NodeId>,
    item: Option<NodeView<T>>,
) -> bool {
    match item {
        Some(node) => {
            &&& before.len() > 0
            &&& tree@.contains(before[0])
            &&& node == tree@.node_view(before[0])
            &&& after == before.skip(1)
        },
        None => before.len() == 0 && after.len() == 0,
    }
}

/// What a call of `next_id` on a cursor over the nodes of `tree` may
/// return when `before` was still to come and `after` is still to come:
/// the first handle of `before`, or nothing at the end.
pub open spec fn yields_id<T>(
    tree: OptTree<T>,
    before: Seq<NodeId>,
    after: Seq<NodeId>,
    item: Option<NodeId>,
) -> bool {
    match item {
        Some(id) => {
            &&& before.len() > 0
            &&& tree@.contains(id)
            &&& id == before[0]
            &&& after == before.skip(1)
        },
        None => before.len() == 0 && after.len() == 0,
    }
}

/// The view of a borrowed node, if there is one.
pub open spec fn view_of<T>(item: Option<&OptNode<T>>) -> Option<NodeView<T>> {
    match item {
        Some(node) => Some(node@),
        None => None,
    }
}

/// A walk from a node up to the root, one node for each call.
pub struct Ancestors<'a, T> {
    pub(crate) tree: &'a OptTree<T>,
    pub(crate) next: Option<NodeId>,
}

impl<'a, T> Ancestors<'a, T> {
    /// The tree that is walked.
    pub open(crate) spec fn tree(&self) -> OptTree<T> {
        *self.tree
    }

    /// The handles still to come, in order.
    pub open(crate) spec fn remaining(&self) -> Seq<NodeId> {
        match self.next {
            Some(id) => self.tree@.ancestors(id),
            None => Seq::empty(),
        }
    }

    /// The tree is well formed and the walk stands at one of its nodes.
    pub open(crate) spec fn wf(&self) -> bool {
        &&& self.tree.wf()
        &&& self.next matches Some(id) ==> self.tree@.contains(id)
    }

    /// The handle of the next node on the way to the root.
    pub fn next_id(&mut self) -> (item: Option<NodeId>)
        requires
            old(self).wf(),
        ensures
            final(self).wf(),
            final(self).tree() == old(self).tree(),
            yields_id(old(self).tree(), old(self).remaining(), final(self).remaining(), item),
    {
        match self.next {
            None => None,
            Some(id) => {
                proof {
                    assert(self.tree@.node_wf(id));
                    if let Some(p) = self.tree@.parent(id) {
                        assert(self.tree@.ancestors(id).skip(1) =~= self.tree@.ancestors(p));
                    } else {
                        assert(self.tree@.ancestors(id).skip(1) =~= Seq::empty());
                    }
                }
                self.next = self.tree.arena.get_unchecked(&id).parent;
                Some(id)
            },
        }
    }

    /// The next node on the way to the root.
    pub fn next(&mut self) -> (item: Option<&'a OptNode<T>>)
        requires
            old(self).wf(),
        ensures
            final(self).wf(),
            final(self).tree() == old(self).tree(),
            yields_node(
                old(self).tree(),
                old(self).remaining(),
                final(self).remaining(),
                view_of(item),
            ),
    {
        match self.next_id() {
            Some(id) => {
                let tree = self.tree;
                Some(tree.get_unchecked(&id))
            },
            None => None,
        }
    }
}

/// A walk over the children of a node, first to last, one child for each
/// call.
pub struct Children<'a, T> {
    pub(crate) tree: &'a OptTree<T>,
    pub(crate) next: Option<NodeId>,
}

impl<'a, T> Children<'a, T> {
    /// The tree that is walked.
    pub open(crate) spec fn tree(&self) -> OptTree<T> {
        *self.tree
    }

    /// The handles still to come, in order: the child that the walk
    /// stands at and its later siblings.
    pub open(crate) spec fn remaining(&self) -> Seq<NodeId> {
        match self.next {
            Some(id) => {
                let siblings = self.tree@.children(self.tree@.parent(id)->0);
                siblings.skip(siblings.index_of(id))
            },
            None => Seq::empty(),
        }
    }

    /// The tree is well formed and the walk stands at a child of one of
    /// its nodes.
    pub open(crate) spec fn wf(&self) -> bool {
        &&& self.tree.wf()
        &&& self.next matches Some(id) ==> self.tree@.contains(id) && self.tree@.parent(id) is Some
    }

    /// The handle of the next child.
    pub fn next_id(&mut self) -> (item: Option<NodeId>)
        requires
            old(self).wf(),
        ensures
            final(self).wf(),
            final(self).tree() == old(self).tree(),
            yields_id(old(self).tree(), old(self).remaining(), final(self).remaining(), item),
    {
        match self.next {
            None => None,
            Some(id) => {
                proof {
                    let m = self.tree@;
                    let p = m.parent(id)->0;
                    let siblings = m.children(p);
                    let k = siblings.index_of(id);
                    assert(m.node_wf(id));
                    assert(m.node_wf(p));
                    assert(0 <= k < siblings.len() && siblings[k] == id);
                    assert(self.tree.sibling_links_ok(p, k));
                    if k + 1 < siblings.len() {
                        let later = siblings[k + 1];
                        assert(m.contains(later));
                        let q = siblings.index_of(later);
                        assert(siblings.contains(later));
                        assert(0 <= q < siblings.len() && siblings[q] == later);
                        assert(q == k + 1);
                        assert(siblings.skip(k).skip(1) =~= siblings.skip(k + 1));
                    } else {
                        assert(siblings.skip(k).skip(1) =~= Seq::empty());
                    }
                }
                self.next = self.tree.arena.get_unchecked(&id).next_sibling;
                Some(id)
            },
        }
    }

    /// The next child.
    pub fn next(&mut self) -> (item: Option<&'a OptNode<T>>)
        requires
            old(self).wf(),
        ensures
            final(self).wf(),
            final(self).tree() == old(self).tree(),
            yields_node(
                old(self).tree(),
                old(self).remaining(),
                final(self).remaining(),
                view_of(item),
            ),
    {
        match self.next_id() {
            Some(id) => {
                let tree = self.tree;
                Some(tree.get_unchecked(&id))
            },
            None => None,
        }
    }
}

/// A walk over a subtree in pre-order, one node for each call. The nodes
/// waiting to be visited are kept on a stack.
pub struct PreOrder<'a, T> {
    pub(crate) tree: &'a OptTree<T>,
    pub(crate) stack: Vec<NodeId>,
}

impl<'a, T> PreOrder<'a, T> {
    /// The tree that is walked.
    pub open(crate) spec fn tree(&self) -> OptTree<T> {
        *self.tree
    }

    /// The handles still to come, in order.
    pub open(crate) spec fn remaining(&self) -> Seq<NodeId> {
        self.tree@.pre_order_stack(self.stack@)
    }

    /// The tree is well formed and the stack holds nodes of it.
    pub open(crate) spec fn wf(&self) -> bool {
        &&& self.tree.wf()
        &&& self.tree@.contains_all(self.stack@)
    }

    /// The handle of the next node in pre-order.
    pub fn next_id(&mut self) -> (item: Option<NodeId>)
        requires
            old(self).wf(),
        ensures
            final(self).wf(),
            final(self).tree() == old(self).tree(),
            yields_id(old(self).tree(), old(self).remaining(), final(self).remaining(), item),
    {
        let ghost before = self.stack@;
        let tree = self.tree;
        match self.stack.pop() {
            None => None,
            Some(top) => {
                let ghost rest = self.stack@;
                proof {
                    assert(before.last() == top);
                    assert(rest =~= before.drop_last());
                    assert(tree@.contains(before[before.len() - 1]));
                }
                tree.push_children_reversed(&top, &mut self.stack);
                proof {
                    tree@.lemma_pre_order_stack_children(rest, top, 0);
                    assert(tree@.children(top).skip(0) =~= tree@.children(top));
                    assert(tree@.pre_order(top) == seq![top] + tree@.pre_order_from(top, 0));
                    assert(tree@.pre_order_stack(before).skip(1) =~= tree@.pre_order_stack(
                        self.stack@,
                    ));
                }
                Some(top)
            },
        }
    }

    /// The next node in pre-order.
    pub fn next(&mut self) -> (item: Option<&'a OptNode<T>>)
        requires
            old(self).wf(),
        ensures
            final(self).wf(),
            final(self).tree() == old(self).tree(),
            yields_node(
                old(self).tree(),
                old(self).remaining(),
                final(self).remaining(),
                view_of(item),
            ),
    {
        match self.next_id() {
            Some(id) => {
                let tree = self.tree;
                Some(tree.get_unchecked(&id))
            },
            None => None,
        }
    }
}

/// A walk over a subtree in post-order, one node for each call. The
/// waiting nodes are kept on one stack, each marked as to whether its
/// children have been put on the stack already.
pub struct PostOrder<'a, T> {
    pub(crate) tree: &'a OptTree<T>,
    pub(crate) stack: Vec<(NodeId, bool)>,
}

impl<'a, T> PostOrder<'a, T> {
    /// The tree that is walked.
    pub open(crate) spec fn tree(&self) -> OptTree<T> {
        *self.tree
    }

    /// The handles still to come, in order.
    pub open(crate) spec fn remaining(&self) -> Seq<NodeId> {
        self.tree@.post_order_stack(self.stack@)
    }

    /// The tree is well formed and the stack holds nodes of it.
    pub open(crate) spec fn wf(&self) -> bool {
        &&& self.tree.wf()
        &&& self.tree@.contains_all_marked(self.stack@)
    }

    /// The handle of the next node in post-order.
    pub fn next_id(&mut self) -> (item: Option<NodeId>)
        requires
            old(self).wf(),
        ensures
            final(self).wf(),
            final(self).tree() == old(self).tree(),
            yields_id(old(self).tree(), old(self).remaining(), final(self).remaining(), item),
    {
        let tree = self.tree;
        let ghost start = self.stack@;
        loop
            invariant
                tree == self.tree,
                tree == old(self).tree,
                start == old(self).stack@,
                tree.wf(),
                tree@.contains_all_marked(self.stack@),
                tree@.post_order_stack(self.stack@) == tree@.post_order_stack(start),
            decreases tree@.post_order_steps(self.stack@),
        {
            let ghost before = self.stack@;
            match self.stack.pop() {
                None => {
                    return None;
                },
                Some((top, expanded)) => {
                    let ghost rest = self.stack@;
                    proof {
                        assert(before.last() == (top, expanded));
                        assert(rest =~= before.drop_last());
                        assert(tree@.contains(before[before.len() - 1].0));
                    }
                    if expanded {
                        proof {
                            assert(tree@.post_order_stack(before).skip(1)
                                =~= tree@.post_order_stack(rest));
                        }
                        return Some(top);
                    }
                    self.stack.push((top, true));
                    let ghost marked = self.stack@;
                    tree.push_children_unvisited(&top, &mut self.stack);
                    proof {
                        assert(marked.last() == (top, true));
                        assert(marked.drop_last() =~= rest);
                        assert(tree@.contains_all_marked(marked));
                        tree@.lemma_post_order_stack_children(marked, top, 0);
                        assert(tree@.children(top).skip(0) =~= tree@.children(top));
                        assert(tree@.post_order(top) == tree@.post_order_from(top, 0).push(top));
                        assert(tree@.post_order_stack(self.stack@) =~= tree@.post_order(top)
                            + tree@.post_order_stack(rest));
                    }
                },
            }
        }
    }

    /// The next node in post-order.
    pub fn next(&mut self) -> (item: Option<&'a OptNode<T>>)
        requires
            old(self).wf(),
        ensures
            final(self).wf(),
            final(self).tree() == old(self).tree(),
            yields_node(
                old(self).tree(),
                old(self).remaining(),
                final(self).remaining(),
                view_of(item),
            ),
    {
        match self.next_id() {
            Some(id) => {
                let tree = self.tree;
                Some(tree.get_unchecked(&id))
            },
            None => None,
        }
    }
}

/// A walk over a subtree level by level, one node for each call. The
/// nodes waiting to be visited are kept in a first-in-first-out queue.
pub struct LevelOrder<'a, T> {
    pub(crate) tree: &'a OptTree<T>,
    pub(crate) queue: VecDeque<NodeId>,
}

impl<'a, T> LevelOrder<'a, T> {
    /// The tree that is walked.
    pub open(crate) spec fn tree(&self) -> OptTree<T> {
        *self.tree
    }

    /// The handles still to come, in order.
    pub open(crate) spec fn remaining(&self) -> Seq<NodeId> {
        self.tree@.level_order_from(self.queue@)
    }

    /// The tree is well formed and the queue holds nodes of it.
    pub open(crate) spec fn wf(&self) -> bool {
        &&& self.tree.wf()
        &&& self.tree@.contains_all(self.queue@)
    }

    /// The handle of the next node in level order.
    pub fn next_id(&mut self) -> (item: Option<NodeId>)
        requires
            old(self).wf(),
        ensures
            final(self).wf(),
            final(self).tree() == old(self).tree(),
            yields_id(old(self).tree(), old(self).remaining(), final(self).remaining(), item),
    {
        let ghost before = self.queue@;
        let tree = self.tree;
        match self.queue.pop_front() {
            None => {
                proof {
                    assert(tree@.level_order_from(before) =~= Seq::empty());
                }
                None
            },
            Some(head) => {
                proof {
                    assert(self.queue@ =~= before.skip(1));
                    assert(tree@.contains(before[0]));
                    tree@.lemma_level_step(before);
                }
                tree.enqueue_children(&head, &mut self.queue);
                proof {
                    assert(tree@.level_order_from(before) == seq![head] + tree@.level_order_from(
                        self.queue@,
                    ));
                    assert(tree@.level_order_from(before).skip(1) =~= tree@.level_order_from(
                        self.queue@,
                    ));
                }
                Some(head)
            },
        }
    }

    /// The next node in level order.
    pub fn next(&mut self) -> (item: Option<&'a OptNode<T>>)
        requires
            old(self).wf(),
        ensures
            final(self).wf(),
            final(self).tree() == old(self).tree(),
            yields_node(
                old(self).tree(),
                old(self).remaining(),
                final(self).remaining(),
                view_of(item),
            ),
    {
        match self.next_id() {
            Some(id) => {
                let tree = self.tree;
                Some(tree.get_unchecked(&id))
            },
            None => None,
        }
    }
}

impl<T> OptTree<T> {
    /// A walk from `node_id` up to the root, starting with the node
    /// itself, or `HandleInvalid` when it names no node.
    pub fn ancestors<'a>(&'a self, node_id: &NodeId) -> (res: Result<Ancestors<'a, T>, NodeIdError>)
        requires
            self.wf(),
        ensures
            match res {
                Ok(walk) => {
                    &&& self@.contains(*node_id)
                    &&& walk.wf()
                    &&& walk.tree() == *self
                    &&& walk.remaining() == self@.ancestors(*node_id)
                },
                Err(e) => !self@.contains(*node_id) && e == NodeIdError::HandleInvalid,
            },
    {
        match self.arena.validate_node_id(node_id) {
            Ok(_) => Ok(Ancestors { tree: self, next: Some(*node_id) }),
            Err(e) => Err(e),
        }
    }

    /// A walk over the children of `node_id`, first to last, or
    /// `HandleInvalid` when it names no node.
    pub fn children<'a>(&'a self, node_id: &NodeId) -> (res: Result<Children<'a, T>, NodeIdError>)
        requires
            self.wf(),
        ensures
            match res {
                Ok(walk) => {
                    &&& self@.contains(*node_id)
                    &&& walk.wf()
                    &&& walk.tree() == *self
                    &&& walk.remaining() == self@.children(*node_id)
                },
                Err(e) => !self@.contains(*node_id) && e == NodeIdError::HandleInvalid,
            },
    {
        match self.arena.validate_node_id(node_id) {
            Ok(_) => {
                proof {
                    let m = self@;
                    let ch = m.children(*node_id);
                    assert(self.head_links_ok(*node_id));
                    assert(m.node_wf(*node_id));
                    if ch.len() > 0 {
                        assert(m.contains(ch[0]));
                        assert(ch.contains(ch[0]));
                        let k = ch.index_of(ch[0]);
                        assert(0 <= k < ch.len() && ch[k] == ch[0]);
                        assert(ch.skip(0) =~= ch);
                    }
                }
                Ok(Children { tree: self, next: self.arena.get_unchecked(node_id).first_child })
            },
            Err(e) => Err(e),
        }
    }

    /// A walk over the subtree at `node_id` in pre-order, each node before
    /// its children, or `HandleInvalid` when it names no node.
    pub fn traverse_pre_order<'a>(&'a self, node_id: &NodeId) -> (res: Result<
        PreOrder<'a, T>,
        NodeIdError,
    >)
        requires
            self.wf(),
        ensures
            match res {
                Ok(walk) => {
                    &&& self@.contains(*node_id)
                    &&& walk.wf()
                    &&& walk.tree() == *self
                    &&& walk.remaining() == self@.pre_order(*node_id)
                },
                Err(e) => !self@.contains(*node_id) && e == NodeIdError::HandleInvalid,
            },
    {
        match self.arena.validate_node_id(node_id) {
            Ok(_) => {
                let mut stack: Vec<NodeId> = Vec::new();
                stack.push(*node_id);
                proof {
                    assert(stack@.last() == *node_id);
                    assert(stack@.drop_last().len() == 0);
                    assert(self@.pre_order_stack(stack@.drop_last()) =~= Seq::empty());
                    assert(self@.pre_order_stack(stack@) =~= self@.pre_order(*node_id));
                }
                Ok(PreOrder { tree: self, stack })
            },
            Err(e) => Err(e),
        }
    }

    /// A walk over the subtree at `node_id` in post-order, each node after
    /// its children, or `HandleInvalid` when it names no node.
    pub fn traverse_post_order<'a>(&'a self, node_id: &NodeId) -> (res: Result<
        PostOrder<'a, T>,
        NodeIdError,
    >)
        requires
            self.wf(),
        ensures
            match res {
                Ok(walk) => {
                    &&& self@.contains(*node_id)
                    &&& walk.wf()
                    &&& walk.tree() == *self
                    &&& walk.remaining() == self@.post_order(*node_id)
                },
                Err(e) => !self@.contains(*node_id) && e == NodeIdError::HandleInvalid,
            },
    {
        match self.arena.validate_node_id(node_id) {
            Ok(_) => {
                let mut stack: Vec<(NodeId, bool)> = Vec::new();
                stack.push((*node_id, false));
                proof {
                    assert(stack@.last() == (*node_id, false));
                    assert(stack@.drop_last().len() == 0);
                    assert(self@.post_order_stack(stack@.drop_last()) =~= Seq::empty());
                    assert(self@.post_order_stack(stack@) =~= self@.post_order(*node_id));
                }
                Ok(PostOrder { tree: self, stack })
            },
            Err(e) => Err(e),
        }
    }

    /// A walk over the subtree at `node_id` level by level, or
    /// `HandleInvalid` when it names no node.
    pub fn traverse_level_order<'a>(&'a self, node_id: &NodeId) -> (res: Result<
        LevelOrder<'a, T>,
        NodeIdError,
    >)
        requires
            self.wf(),
        ensures
            match res {
                Ok(walk) => {
                    &&& self@.contains(*node_id)
                    &&& walk.wf()
                    &&& walk.tree() == *self
                    &&& walk.remaining() == self@.level_order(*node_id)
                },
                Err(e) => !self@.contains(*node_id) && e == NodeIdError::HandleInvalid,
            },
    {
        match self.arena.validate_node_id(node_id) {
            Ok(_) => {
                let mut queue: VecDeque<NodeId> = VecDeque::new();
                queue.push_back(*node_id);
                proof {
                    assert(queue@ =~= seq![*node_id]);
                }
                Ok(LevelOrder { tree: self, queue })
            },
            Err(e) => Err(e),
        }
    }
}

} // verus!
