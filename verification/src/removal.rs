use vstd::prelude::*;
use vstd::set_lib::lemma_len_subset;
use crate::model::{NodeModel, TreeModel};
use crate::node_id::NodeId;

verus! {

/// The sequence `s` without its element `id`.
pub open spec fn without(s: Seq<NodeId>, id: NodeId) -> Seq<NodeId> {
    s.remove(s.index_of(id))
}

/// The sequence `s` with the sequence `mid` in the place of its element
/// `id`.
pub open spec fn spliced(s: Seq<NodeId>, id: NodeId, mid: Seq<NodeId>) -> Seq<NodeId> {
    s.take(s.index_of(id)) + mid + s.skip(s.index_of(id) + 1)
}

/// Taking one element out of a sequence of distinct elements leaves the
/// others, in their order.
pub proof fn lemma_without(s: Seq<NodeId>, id: NodeId)
    requires
        s.no_duplicates(),
        s.contains(id),
    ensures
        without(s, id).no_duplicates(),
        without(s, id).len() == s.len() - 1,
        0 <= s.index_of(id) < s.len(),
        s[s.index_of(id)] == id,
        forall|x: NodeId| #[trigger] without(s, id).contains(x) <==> s.contains(x) && x != id,
        forall|i: int|
            0 <= i < s.len() - 1 ==> #[trigger] without(s, id)[i] == if i < s.index_of(id) {
                s[i]
            } else {
                s[i + 1]
            },
{
    let k = s.index_of(id);
    let w = without(s, id);
    assert(0 <= k < s.len() && s[k] == id);
    assert forall|x: NodeId| #[trigger] w.contains(x) <==> s.contains(x) && x != id by {
        if w.contains(x) {
            let i = choose|i: int| 0 <= i < w.len() && w[i] == x;
            if i < k {
                assert(s[i] == x);
            } else {
                assert(s[i + 1] == x);
            }
        }
        if s.contains(x) && x != id {
            let i = choose|i: int| 0 <= i < s.len() && s[i] == x;
            if i < k {
                assert(w[i] == x);
            } else {
                assert(w[i - 1] == x);
            }
        }
    }
}

/// Taking `id` out of a sequence that starts with another element and
/// holds `id` further on leaves the start in place.
pub proof fn lemma_without_later(x: NodeId, rest: Seq<NodeId>, id: NodeId)
    requires
        x != id,
        rest.contains(id),
        (seq![x] + rest).no_duplicates(),
    ensures
        rest.no_duplicates(),
        without(seq![x] + rest, id) == seq![x] + without(rest, id),
{
    let s = seq![x] + rest;
    assert forall|i: int, j: int| 0 <= i < rest.len() && 0 <= j < rest.len() && i != j implies rest[i]
        != rest[j] by {
        assert(s[i + 1] == rest[i]);
        assert(s[j + 1] == rest[j]);
    }
    let k = rest.index_of(id);
    assert(0 <= k < rest.len() && rest[k] == id);
    assert(s[k + 1] == id);
    assert(s.contains(id));
    let q = s.index_of(id);
    assert(0 <= q < s.len() && s[q] == id);
    assert(q == k + 1);
    assert(without(s, id) =~= seq![x] + without(rest, id));
}

/// Taking the first element out of a sequence of distinct elements leaves
/// the rest.
pub proof fn lemma_without_first(id: NodeId, rest: Seq<NodeId>)
    requires
        (seq![id] + rest).no_duplicates(),
    ensures
        !rest.contains(id),
        without(seq![id] + rest, id) == rest,
{
    let s = seq![id] + rest;
    assert(s[0] == id);
    if rest.contains(id) {
        let k = choose|k: int| 0 <= k < rest.len() && rest[k] == id;
        assert(s[k + 1] == id);
    }
    let q = s.index_of(id);
    assert(0 <= q < s.len() && s[q] == id);
    assert(q == 0);
    assert(without(s, id) =~= rest);
}

/// Putting a sequence in the place of one element keeps the elements
/// distinct when the sequence shares none with the rest.
pub proof fn lemma_spliced(s: Seq<NodeId>, id: NodeId, mid: Seq<NodeId>)
    requires
        s.no_duplicates(),
        s.contains(id),
        mid.no_duplicates(),
        forall|i: int, j: int| 0 <= i < s.len() && 0 <= j < mid.len() ==> s[i] != mid[j],
    ensures
        spliced(s, id, mid).no_duplicates(),
        spliced(s, id, mid).len() == s.len() - 1 + mid.len(),
        0 <= s.index_of(id) < s.len(),
        s[s.index_of(id)] == id,
        forall|x: NodeId| #[trigger]
            spliced(s, id, mid).contains(x) <==> (s.contains(x) && x != id) || mid.contains(x),
        forall|i: int|
            0 <= i < s.len() - 1 + mid.len() ==> #[trigger] spliced(s, id, mid)[i] == if i
                < s.index_of(id) {
                s[i]
            } else if i < s.index_of(id) + mid.len() {
                mid[i - s.index_of(id)]
            } else {
                s[i - mid.len() + 1]
            },
{
    let k = s.index_of(id);
    let w = spliced(s, id, mid);
    assert(0 <= k < s.len() && s[k] == id);
    assert forall|x: NodeId| #[trigger] w.contains(x) <==> (s.contains(x) && x != id)
        || mid.contains(x) by {
        if w.contains(x) {
            let i = choose|i: int| 0 <= i < w.len() && w[i] == x;
            if i < k {
                assert(s[i] == x);
            } else if i < k + mid.len() {
                assert(mid[i - k] == x);
            } else {
                assert(s[i - mid.len() + 1] == x);
            }
        }
        if s.contains(x) && x != id {
            let i = choose|i: int| 0 <= i < s.len() && s[i] == x;
            if i < k {
                assert(w[i] == x);
            } else {
                assert(w[i - 1 + mid.len()] == x);
            }
        }
        if mid.contains(x) {
            let i = choose|i: int| 0 <= i < mid.len() && mid[i] == x;
            assert(w[k + i] == x);
        }
    }
}

/// Whether `v` occurs in `x` followed by `rest`.
pub proof fn lemma_contains_later(x: NodeId, rest: Seq<NodeId>, v: NodeId)
    ensures
        (seq![x] + rest).contains(v) <==> v == x || rest.contains(v),
{
    let s = seq![x] + rest;
    if s.contains(v) {
        let i = choose|i: int| 0 <= i < s.len() && s[i] == v;
        if i > 0 {
            assert(rest[i - 1] == v);
        }
    }
    if v == x {
        assert(s[0] == v);
    }
    if rest.contains(v) {
        let i = choose|i: int| 0 <= i < rest.len() && rest[i] == v;
        assert(s[i + 1] == v);
    }
}

impl<T> TreeModel<T> {
    /// The tree without the node `id` and everything below it.
    pub open spec fn remove_subtree(self, id: NodeId) -> Self {
        TreeModel {
            nodes: Map::new(
                |x: NodeId| self.contains(x) && !self.ancestors(x).contains(id),
                |x: NodeId|
                    if self.parent(id) == Some(x) {
                        NodeModel {
                            children: without(self.children(x), id),
                            ..self.nodes[x]
                        }
                    } else {
                        self.nodes[x]
                    },
            ),
            root: if self.root == Some(id) {
                None
            } else {
                self.root
            },
        }
    }

    /// The tree without the node `id`, whose children have taken its place
    /// among the children of its parent. Where `id` is the root, its only
    /// child, if it has one, is the new root.
    pub open spec fn remove_lift(self, id: NodeId) -> Self {
        TreeModel {
            nodes: Map::new(
                |x: NodeId| self.contains(x) && x != id,
                |x: NodeId|
                    NodeModel {
                        data: self.data(x),
                        parent: if self.parent(x) == Some(id) {
                            self.parent(id)
                        } else {
                            self.parent(x)
                        },
                        children: if self.parent(id) == Some(x) {
                            spliced(self.children(x), id, self.children(id))
                        } else {
                            self.children(x)
                        },
                        ancestors: if self.ancestors(x).contains(id) {
                            without(self.ancestors(x), id)
                        } else {
                            self.ancestors(x)
                        },
                    },
            ),
            root: if self.root == Some(id) {
                self.first_child(id)
            } else {
                self.root
            },
        }
    }

    /// Whether the children of `id` cannot be lifted: `id` is the root and
    /// has several children, which would all become roots.
    pub open spec fn lift_refused(self, id: NodeId) -> bool {
        self.root == Some(id) && self.children(id).len() > 1
    }

    /// A node lies below `id` exactly when it is `id` or its parent lies
    /// below `id`.
    pub proof fn lemma_in_subtree_step(self, x: NodeId, id: NodeId)
        requires
            self.wf(),
            self.contains(x),
        ensures
            self.in_subtree(x, id) <==> x == id || (self.parent(x) matches Some(p)
                && self.in_subtree(p, id)),
    {
        assert(self.node_wf(x));
        match self.parent(x) {
            None => {
                lemma_contains_later(x, Seq::empty(), id);
                assert(seq![x] + Seq::empty() =~= seq![x]);
            },
            Some(p) => {
                lemma_contains_later(x, self.ancestors(p), id);
            },
        }
    }

    /// Removing a subtree keeps the shape.
    pub proof fn lemma_remove_subtree_wf(self, id: NodeId)
        requires
            self.wf(),
            self.contains(id),
        ensures
            self.remove_subtree(id).wf(),
    {
        let m = self.remove_subtree(id);
        assert(m.nodes.dom().subset_of(self.nodes.dom()));
        lemma_len_subset(m.nodes.dom(), self.nodes.dom());
        assert(self.node_wf(id));
        self.lemma_in_subtree_step(id, id);
        if let Some(r) = self.root {
            assert(self.node_wf(r));
            self.lemma_in_subtree_step(r, id);
        }
        if let Some(p) = self.parent(id) {
            assert(self.node_wf(p));
            lemma_without(self.children(p), id);
        }
        assert forall|x: NodeId| m.contains(x) implies #[trigger] m.node_wf(x) by {
            assert(self.node_wf(x));
            self.lemma_in_subtree_step(x, id);
            self.lemma_ancestors_acyclic(x);
            assert(self.root != Some(id)) by {
                if self.root == Some(id) {
                    let anc = self.ancestors(x);
                    assert(anc[anc.len() - 1] == id);
                }
            }
            assert forall|k: int| 0 <= k < m.children(x).len() implies {
                &&& m.contains(#[trigger] m.children(x)[k])
                &&& m.nodes[m.children(x)[k]].parent == Some(x)
            } by {
                let c = m.children(x)[k];
                if self.parent(id) == Some(x) {
                    assert(without(self.children(x), id).contains(c));
                    assert(self.children(x).contains(c));
                    let j = choose|j: int|
                        0 <= j < self.children(x).len() && self.children(x)[j] == c;
                    assert(self.contains(self.children(x)[j]));
                } else {
                    assert(self.contains(self.children(x)[k]));
                }
                assert(self.node_wf(c));
                self.lemma_in_subtree_step(c, id);
            }
            match self.parent(x) {
                None => {},
                Some(q) => {
                    self.lemma_in_subtree_step(q, id);
                    assert(self.node_wf(q));
                },
            }
        }
    }

    /// Removing a node and lifting its children keeps the shape, unless
    /// the node is a root with several children.
    pub proof fn lemma_remove_lift_wf(self, id: NodeId)
        requires
            self.wf(),
            self.contains(id),
            self.root == Some(id) ==> self.children(id).len() <= 1,
        ensures
            self.remove_lift(id).wf(),
    {
        let m = self.remove_lift(id);
        let up = self.parent(id);
        let mid = self.children(id);
        assert(m.nodes.dom().subset_of(self.nodes.dom()));
        lemma_len_subset(m.nodes.dom(), self.nodes.dom());
        assert(self.node_wf(id));
        self.lemma_ancestors_acyclic(id);
        assert forall|j: int| 0 <= j < mid.len() implies mid[j] != id && self.contains(mid[j])
            && self.parent(#[trigger] mid[j]) == Some(id) by {
            assert(self.node_wf(mid[j]));
            assert(self.ancestors(mid[j]).len() == 1 + self.ancestors(id).len());
        }
        if let Some(p) = up {
            assert(self.node_wf(p));
            assert forall|i: int, j: int|
                0 <= i < self.children(p).len() && 0 <= j < mid.len() implies self.children(p)[i]
                != mid[j] by {
                assert(self.contains(self.children(p)[i]));
                assert(self.contains(mid[j]));
            }
            lemma_spliced(self.children(p), id, mid);
            lemma_without_first(id, self.ancestors(p));
        } else {
            if mid.len() == 1 {
                assert(self.contains(mid[0]));
                assert(mid.first() == mid[0]);
            }
        }
        assert forall|x: NodeId| m.contains(x) implies #[trigger] m.node_wf(x) by {
            assert(self.node_wf(x));
            self.lemma_ancestors_acyclic(x);
            if self.root == Some(id) {
                let anc = self.ancestors(x);
                assert(anc[anc.len() - 1] == id);
                self.lemma_branch(x, id);
            }
            assert forall|k: int| 0 <= k < m.children(x).len() implies {
                &&& m.contains(#[trigger] m.children(x)[k])
                &&& m.nodes[m.children(x)[k]].parent == Some(x)
            } by {
                let c = m.children(x)[k];
                if up == Some(x) {
                    assert(spliced(self.children(x), id, mid).contains(c));
                    if mid.contains(c) {
                        let j = choose|j: int| 0 <= j < mid.len() && mid[j] == c;
                        assert(self.parent(mid[j]) == Some(id));
                    } else {
                        let j = choose|j: int|
                            0 <= j < self.children(x).len() && self.children(x)[j] == c;
                        assert(self.contains(self.children(x)[j]));
                    }
                } else {
                    assert(self.contains(self.children(x)[k]));
                }
            }
            match self.parent(x) {
                None => {
                    lemma_contains_later(x, Seq::empty(), id);
                    assert(seq![x] + Seq::empty() =~= seq![x]);
                },
                Some(q) => {
                    assert(self.node_wf(q));
                    let rest = self.ancestors(q);
                    lemma_contains_later(x, rest, id);
                    if q == id {
                        let j = choose|j: int| 0 <= j < mid.len() && mid[j] == x;
                        match up {
                            None => {
                                assert(mid.len() == 1);
                                assert(j == 0);
                                assert(rest =~= seq![id]);
                                lemma_without_later(x, rest, id);
                                lemma_without_first(id, Seq::empty());
                                assert(seq![id] + Seq::<NodeId>::empty() =~= seq![id]);
                                assert(m.ancestors(x) =~= seq![x]);
                            },
                            Some(p) => {
                                lemma_without_later(x, rest, id);
                                assert(spliced(self.children(p), id, mid).contains(x));
                                assert(m.ancestors(x) =~= seq![x] + m.ancestors(p));
                            },
                        }
                    } else {
                        if up == Some(q) {
                            assert(spliced(self.children(q), id, mid).contains(x));
                        }
                        if rest.contains(id) {
                            lemma_without_later(x, rest, id);
                        }
                    }
                },
            }
        }
    }
}

} // verus!
