use vstd::prelude::*;
use crate::model::{NodeModel, TreeModel};
use crate::node_id::NodeId;
use crate::removal::{lemma_contains_later, lemma_without, without};

verus! {

/// The sequence `s` up to and including its element `id`.
pub open spec fn upto(s: Seq<NodeId>, id: NodeId) -> Seq<NodeId> {
    s.take(s.index_of(id) + 1)
}

/// Cutting a sequence after `id` keeps the element before it when `id`
/// comes later.
pub proof fn lemma_upto_later(x: NodeId, rest: Seq<NodeId>, id: NodeId)
    requires
        x != id,
        rest.contains(id),
        (seq![x] + rest).no_duplicates(),
    ensures
        upto(seq![x] + rest, id) == seq![x] + upto(rest, id),
{
    let s = seq![x] + rest;
    let k = rest.index_of(id);
    assert(0 <= k < rest.len() && rest[k] == id);
    assert(s[k + 1] == id);
    assert(s.contains(id));
    let q = s.index_of(id);
    assert(0 <= q < s.len() && s[q] == id);
    assert(q == k + 1);
    assert(upto(s, id) =~= seq![x] + upto(rest, id));
}

/// Cutting a sequence of distinct elements after its first element leaves
/// that element alone.
pub proof fn lemma_upto_first(id: NodeId, rest: Seq<NodeId>)
    requires
        (seq![id] + rest).no_duplicates(),
    ensures
        upto(seq![id] + rest, id) == seq![id],
{
    let s = seq![id] + rest;
    assert(s[0] == id);
    let q = s.index_of(id);
    assert(0 <= q < s.len() && s[q] == id);
    assert(q == 0);
    assert(upto(s, id) =~= seq![id]);
}

impl<T> TreeModel<T> {
    /// The tree in which the node `id`, with everything below it, has been
    /// taken from its place and appended to the children of `dest`.
    pub open spec fn move_under(self, id: NodeId, dest: NodeId) -> Self {
        TreeModel {
            nodes: Map::new(
                |x: NodeId| self.contains(x),
                |x: NodeId|
                    NodeModel {
                        data: self.data(x),
                        parent: if x == id {
                            Some(dest)
                        } else {
                            self.parent(x)
                        },
                        children: if x == dest {
                            self.children_without(x, id).push(id)
                        } else {
                            self.children_without(x, id)
                        },
                        ancestors: if self.ancestors(x).contains(id) {
                            upto(self.ancestors(x), id) + self.ancestors(dest)
                        } else {
                            self.ancestors(x)
                        },
                    },
            ),
            root: self.root,
        }
    }

    /// The children of `x` once `id` has been taken from its place.
    pub open spec fn children_without(self, x: NodeId, id: NodeId) -> Seq<NodeId> {
        if self.parent(id) == Some(x) {
            without(self.children(x), id)
        } else {
            self.children(x)
        }
    }

    /// The tree in which the node `id`, with everything below it, has
    /// become the root, and the former root its last child. A tree whose
    /// root is `id` already is left as it is.
    pub open spec fn move_to_root(self, id: NodeId) -> Self {
        if self.root == Some(id) {
            self
        } else {
            TreeModel {
                nodes: Map::new(
                    |x: NodeId| self.contains(x),
                    |x: NodeId|
                        NodeModel {
                            data: self.data(x),
                            parent: if x == id {
                                None
                            } else if self.root == Some(x) {
                                Some(id)
                            } else {
                                self.parent(x)
                            },
                            children: if x == id {
                                self.children(x).push(self.root->0)
                            } else {
                                self.children_without(x, id)
                            },
                            ancestors: if self.ancestors(x).contains(id) {
                                upto(self.ancestors(x), id)
                            } else {
                                self.ancestors(x).push(id)
                            },
                        },
                ),
                root: Some(id),
            }
        }
    }

    /// The children of a node without `id` are distinct nodes other than
    /// `id`, and hold every child but `id`.
    pub proof fn lemma_children_without(self, x: NodeId, id: NodeId)
        requires
            self.wf(),
            self.contains(x),
            self.contains(id),
        ensures
            self.children_without(x, id).no_duplicates(),
            !self.children_without(x, id).contains(id),
            forall|c: NodeId| #[trigger]
                self.children_without(x, id).contains(c) <==> self.children(x).contains(c) && c
                    != id,
    {
        assert(self.node_wf(x));
        assert(self.node_wf(id));
        if self.parent(id) == Some(x) {
            lemma_without(self.children(x), id);
        } else {
            if self.children(x).contains(id) {
                let k = choose|k: int| 0 <= k < self.children(x).len() && self.children(x)[k] == id;
                assert(self.contains(self.children(x)[k]));
            }
        }
    }

    /// Moving a node under a node that does not lie below it keeps the
    /// shape.
    pub proof fn lemma_move_under_wf(self, id: NodeId, dest: NodeId)
        requires
            self.wf(),
            self.contains(id),
            self.contains(dest),
            !self.in_subtree(dest, id),
        ensures
            self.move_under(id, dest).wf(),
    {
        let m = self.move_under(id, dest);
        assert(m.nodes.dom() =~= self.nodes.dom());
        assert(self.node_wf(id));
        assert(self.node_wf(dest));
        self.lemma_ancestors_acyclic(id);
        self.lemma_children_without(dest, id);
        if let Some(r) = self.root {
            assert(self.node_wf(r));
        }
        match self.parent(id) {
            None => {
                self.lemma_ancestors_acyclic(dest);
                let anc = self.ancestors(dest);
                assert(anc[anc.len() - 1] == id);
            },
            Some(p) => {
                lemma_upto_first(id, self.ancestors(p));
            },
        }
        assert forall|x: NodeId| m.contains(x) implies #[trigger] m.node_wf(x) by {
            assert(self.node_wf(x));
            self.lemma_ancestors_acyclic(x);
            self.lemma_children_without(x, id);
            let base = self.children_without(x, id);
            assert forall|k: int| 0 <= k < m.children(x).len() implies {
                &&& m.contains(#[trigger] m.children(x)[k])
                &&& m.nodes[m.children(x)[k]].parent == Some(x)
            } by {
                let c = m.children(x)[k];
                if k < base.len() {
                    assert(base[k] == c);
                    assert(base.contains(c));
                    let j = choose|j: int|
                        0 <= j < self.children(x).len() && self.children(x)[j] == c;
                    assert(self.contains(self.children(x)[j]));
                }
            }
            if x == dest {
                assert forall|i: int, j: int|
                    0 <= i < m.children(x).len() && 0 <= j < m.children(x).len() && i != j
                    implies m.children(x)[i] != m.children(x)[j] by {
                    if i < base.len() {
                        assert(base.contains(base[i]));
                    }
                    if j < base.len() {
                        assert(base.contains(base[j]));
                    }
                }
            }
            if x == id {
                assert(m.children(dest)[m.children(dest).len() - 1] == id);
            } else {
                match self.parent(x) {
                    None => {
                        lemma_contains_later(x, Seq::empty(), id);
                        assert(seq![x] + Seq::empty() =~= seq![x]);
                    },
                    Some(q) => {
                        assert(self.node_wf(q));
                        self.lemma_children_without(q, id);
                        let qbase = self.children_without(q, id);
                        assert(qbase.contains(x));
                        let j = choose|j: int| 0 <= j < qbase.len() && qbase[j] == x;
                        assert(m.children(q)[j] == x);
                        let rest = self.ancestors(q);
                        lemma_contains_later(x, rest, id);
                        if rest.contains(id) {
                            lemma_upto_later(x, rest, id);
                            assert(m.ancestors(x) =~= seq![x] + m.ancestors(q));
                        }
                    },
                }
            }
        }
    }

    /// Making a node the root keeps the shape.
    pub proof fn lemma_move_to_root_wf(self, id: NodeId)
        requires
            self.wf(),
            self.contains(id),
        ensures
            self.move_to_root(id).wf(),
    {
        if self.root != Some(id) {
            let m = self.move_to_root(id);
            assert(m.nodes.dom() =~= self.nodes.dom());
            assert(self.node_wf(id));
            let r = self.root->0;
            assert(self.node_wf(r));
            self.lemma_ancestors_acyclic(id);
            let p = self.parent(id)->0;
            lemma_upto_first(id, self.ancestors(p));
            assert forall|x: NodeId| m.contains(x) implies #[trigger] m.node_wf(x) by {
                assert(self.node_wf(x));
                self.lemma_ancestors_acyclic(x);
                self.lemma_children_without(x, id);
                let base = self.children_without(x, id);
                if x == id {
                    assert forall|i: int, j: int|
                        0 <= i < m.children(x).len() && 0 <= j < m.children(x).len() && i != j
                        implies m.children(x)[i] != m.children(x)[j] by {
                        if i < self.children(x).len() {
                            assert(self.contains(self.children(x)[i]));
                        }
                        if j < self.children(x).len() {
                            assert(self.contains(self.children(x)[j]));
                        }
                    }
                    assert forall|k: int| 0 <= k < m.children(x).len() implies {
                        &&& m.contains(#[trigger] m.children(x)[k])
                        &&& m.nodes[m.children(x)[k]].parent == Some(x)
                    } by {
                        if k < self.children(x).len() {
                            assert(self.contains(self.children(x)[k]));
                        }
                    }
                } else {
                    assert forall|k: int| 0 <= k < m.children(x).len() implies {
                        &&& m.contains(#[trigger] m.children(x)[k])
                        &&& m.nodes[m.children(x)[k]].parent == Some(x)
                    } by {
                        let c = m.children(x)[k];
                        assert(base.contains(c));
                        let j = choose|j: int|
                            0 <= j < self.children(x).len() && self.children(x)[j] == c;
                        assert(self.contains(self.children(x)[j]));
                    }
                    match self.parent(x) {
                        None => {
                            lemma_contains_later(x, Seq::empty(), id);
                            assert(seq![x] + Seq::empty() =~= seq![x]);
                            assert(m.children(id)[m.children(id).len() - 1] == x);
                            assert(m.ancestors(x) =~= seq![x] + m.ancestors(id));
                        },
                        Some(q) => {
                            assert(self.node_wf(q));
                            let rest = self.ancestors(q);
                            lemma_contains_later(x, rest, id);
                            if q == id {
                                let j = choose|j: int|
                                    0 <= j < self.children(q).len() && self.children(q)[j] == x;
                                assert(m.children(q)[j] == x);
                            } else {
                                self.lemma_children_without(q, id);
                                assert(self.children_without(q, id).contains(x));
                            }
                            if rest.contains(id) {
                                lemma_upto_later(x, rest, id);
                                assert(m.ancestors(x) =~= seq![x] + m.ancestors(q));
                            } else {
                                assert(m.ancestors(x) =~= seq![x] + m.ancestors(q));
                            }
                        },
                    }
                }
            }
        }
    }
}

} // verus!
