use vstd::prelude::*;
use crate::model::{NodeModel, TreeModel};
use crate::node::OptNode;
use crate::node_id::NodeId;
use crate::tree::OptTree;

verus! {

/// Whether the relation `rel` holds of `i` and `j`.
pub open spec fn holds(rel: spec_fn(int, int) -> bool, i: int, j: int) -> bool {
    rel(i, j)
}

/// Whether `perm` lists every index below `n` exactly once.
pub open spec fn lists_indices(perm: Seq<usize>, n: nat) -> bool {
    &&& perm.len() == n
    &&& forall|k: int| 0 <= k < n ==> (#[trigger] perm[k]) < n
    &&& forall|a: int, b: int| 0 <= a < b < n ==> perm[a] != perm[b]
    &&& forall|t: usize| t < n ==> #[trigger] perm.contains(t)
}

/// Whether two indices stand in `perm` against their natural order only
/// where `greater` holds of the one now later and the one now earlier.
pub open spec fn swaps_justified(perm: Seq<usize>, greater: spec_fn(int, int) -> bool) -> bool {
    forall|a: int, b: int|
        0 <= a < b < perm.len() && perm[a] > perm[b] ==> holds(
            greater,
            perm[b] as int,
            perm[a] as int,
        )
}

/// Whether `at_most` holds of every index in `perm` and every later one.
pub open spec fn ascending(perm: Seq<usize>, at_most: spec_fn(int, int) -> bool) -> bool {
    forall|a: int, b: int|
        0 <= a < b < perm.len() ==> holds(at_most, perm[a] as int, perm[b] as int)
}

/// Whether, on the indices below `n`, `at_most` is transitive and holds
/// the other way round wherever `greater` holds.
pub open spec fn total_on(
    greater: spec_fn(int, int) -> bool,
    at_most: spec_fn(int, int) -> bool,
    n: int,
) -> bool {
    &&& forall|i: int, j: int|
        0 <= i < n && 0 <= j < n && #[trigger] holds(greater, i, j) ==> holds(at_most, j, i)
    &&& forall|i: int, j: int, k: int|
        0 <= i < n && 0 <= j < n && 0 <= k < n && #[trigger] holds(at_most, i, j)
            && #[trigger] holds(at_most, j, k) ==> holds(at_most, i, k)
}

/// Sorts the indices below `n` by insertion, asking `greater` whether one
/// index is to stand after another. Two indices change their order only
/// when `greater` said so, which makes the order stable.
pub(crate) fn stable_order<G: Fn(usize, usize) -> bool>(
    n: usize,
    greater: G,
    Ghost(gt): Ghost<spec_fn(int, int) -> bool>,
    Ghost(le): Ghost<spec_fn(int, int) -> bool>,
) -> (perm: Vec<usize>)
    requires
        forall|i: usize, j: usize| i < n && j < n ==> call_requires(greater, (i, j)),
        forall|i: usize, j: usize, r: bool|
            i < n && j < n && call_ensures(greater, (i, j), r) ==> if r {
                holds(gt, i as int, j as int)
            } else {
                holds(le, i as int, j as int)
            },
    ensures
        lists_indices(perm@, n as nat),
        swaps_justified(perm@, gt),
        total_on(gt, le, n as int) ==> ascending(perm@, le),
{
    let mut perm: Vec<usize> = Vec::new();
    let mut k: usize = 0;
    while k < n
        invariant
            k <= n,
            perm.len() == k,
            forall|t: int| 0 <= t < k ==> perm@[t] == t,
        decreases n - k,
    {
        perm.push(k);
        k += 1;
    }
    let ghost mut inv: Seq<int> = Seq::new(n as nat, |t: int| t);
    let mut i: usize = 1;
    while i < n
        invariant
            1 <= i,
            i <= n || n == 0,
            perm.len() == n,
            inv.len() == n,
            forall|i: usize, j: usize| i < n && j < n ==> call_requires(greater, (i, j)),
            forall|i: usize, j: usize, r: bool|
                i < n && j < n && call_ensures(greater, (i, j), r) ==> if r {
                    holds(gt, i as int, j as int)
                } else {
                    holds(le, i as int, j as int)
                },
            forall|k: int| 0 <= k < n ==> (#[trigger] perm@[k]) < n && inv[perm@[k] as int] == k,
            forall|t: int| 0 <= t < n ==> 0 <= (#[trigger] inv[t]) < n && perm@[inv[t]] == t,
            forall|k: int| i <= k < n ==> perm@[k] == k,
            forall|k: int| 0 <= k < i && k < n ==> perm@[k] < i,
            forall|a: int, b: int|
                0 <= a < b < i && perm@[a] > perm@[b] ==> holds(
                    gt,
                    perm@[b] as int,
                    perm@[a] as int,
                ),
            total_on(gt, le, n as int) ==> forall|a: int, b: int|
                0 <= a < b < i ==> holds(le, perm@[a] as int, perm@[b] as int),
        decreases n - i,
    {
        let mut j: usize = i;
        let mut settled = false;
        while !settled
            invariant
                j <= i < n,
                perm.len() == n,
                inv.len() == n,
                forall|i: usize, j: usize| i < n && j < n ==> call_requires(greater, (i, j)),
                forall|i: usize, j: usize, r: bool|
                    i < n && j < n && call_ensures(greater, (i, j), r) ==> if r {
                        holds(gt, i as int, j as int)
                    } else {
                        holds(le, i as int, j as int)
                    },
                forall|k: int|
                    0 <= k < n ==> (#[trigger] perm@[k]) < n && inv[perm@[k] as int] == k,
                forall|t: int| 0 <= t < n ==> 0 <= (#[trigger] inv[t]) < n && perm@[inv[t]] == t,
                perm@[j as int] == i,
                forall|k: int| i < k < n ==> perm@[k] == k,
                forall|k: int| 0 <= k <= i ==> perm@[k] <= i,
                forall|a: int, b: int|
                    0 <= a < b <= i && perm@[a] > perm@[b] ==> holds(
                        gt,
                        perm@[b] as int,
                        perm@[a] as int,
                    ),
                total_on(gt, le, n as int) ==> forall|a: int, b: int|
                    0 <= a < b <= i && a != j && b != j ==> holds(
                        le,
                        perm@[a] as int,
                        perm@[b] as int,
                    ),
                total_on(gt, le, n as int) ==> forall|b: int|
                    j < b <= i ==> holds(le, i as int, (#[trigger] perm@[b]) as int),
                settled ==> j == 0 || holds(le, perm@[j - 1] as int, perm@[j as int] as int),
            decreases
                    (if settled {
                        0int
                    } else {
                        j + 1
                    }),
        {
            if j == 0 {
                settled = true;
            } else {
                let left = perm[j - 1];
                let moving = perm[j];
                if greater(left, moving) {
                    let ghost before = perm@;
                    perm[j - 1] = moving;
                    perm[j] = left;
                    proof {
                        inv = inv.update(moving as int, j - 1).update(left as int, j as int);
                        assert(holds(gt, left as int, moving as int));
                        assert forall|a: int, b: int|
                            0 <= a < b <= i && perm@[a] > perm@[b] implies holds(
                            gt,
                            perm@[b] as int,
                            perm@[a] as int,
                        ) by {
                            let a0 = if a == j - 1 {
                                j as int
                            } else if a == j {
                                j - 1
                            } else {
                                a
                            };
                            let b0 = if b == j - 1 {
                                j as int
                            } else if b == j {
                                j - 1
                            } else {
                                b
                            };
                            assert(perm@[a] == before[a0]);
                            assert(perm@[b] == before[b0]);
                            if a == j - 1 && b == j {
                            } else {
                                assert(a0 < b0);
                            }
                        }
                        if total_on(gt, le, n as int) {
                            assert(holds(le, moving as int, left as int));
                            assert forall|a: int, b: int|
                                0 <= a < b <= i && a != j - 1 && b != j - 1 implies holds(
                                le,
                                perm@[a] as int,
                                perm@[b] as int,
                            ) by {
                                let a0 = if a == j {
                                    j - 1
                                } else {
                                    a
                                };
                                let b0 = if b == j {
                                    j - 1
                                } else {
                                    b
                                };
                                assert(perm@[a] == before[a0]);
                                assert(perm@[b] == before[b0]);
                                assert(a0 < b0 && a0 != j && b0 != j);
                            }
                            assert forall|b: int| j - 1 < b <= i implies holds(
                                le,
                                moving as int,
                                (#[trigger] perm@[b]) as int,
                            ) by {
                                if b > j {
                                    assert(perm@[b] == before[b]);
                                }
                            }
                        }
                    }
                    j = j - 1;
                } else {
                    proof {
                        assert(holds(le, left as int, moving as int));
                    }
                    settled = true;
                }
            }
        }
        proof {
            if total_on(gt, le, n as int) {
                assert forall|a: int, b: int| 0 <= a < b < i + 1 implies holds(
                    le,
                    perm@[a] as int,
                    perm@[b] as int,
                ) by {
                    if b == j && a < j - 1 {
                        assert(holds(le, perm@[a] as int, perm@[j - 1] as int));
                        assert(holds(le, perm@[j - 1] as int, perm@[j as int] as int));
                    }
                }
            }
            assert forall|k: int| 0 <= k < i + 1 implies perm@[k] < i + 1 by {}
        }
        i += 1;
    }
    proof {
        assert forall|t: usize| t < n implies #[trigger] perm@.contains(t) by {
            assert(perm@[inv[t as int]] == t);
        }
        assert forall|a: int, b: int| 0 <= a < b < n implies perm@[a] != perm@[b] by {
            assert(inv[perm@[a] as int] == a);
            assert(inv[perm@[b] as int] == b);
        }
    }
    perm
}

/// The elements of `ids` in the order that `perm` gives.
pub open spec fn arranged(ids: Seq<NodeId>, perm: Seq<usize>) -> Seq<NodeId> {
    Seq::new(perm.len(), |k: int| ids[perm[k] as int])
}

/// Whether `order` holds the elements of `old`, each once.
pub open spec fn rearranges(order: Seq<NodeId>, old: Seq<NodeId>) -> bool {
    &&& order.no_duplicates()
    &&& order.len() == old.len()
    &&& forall|x: NodeId| #[trigger] order.contains(x) <==> old.contains(x)
}

/// Distinct elements arranged by a list of all their indices are the same
/// elements, each once, and each is found again at its old index.
pub proof fn lemma_arranged(ids: Seq<NodeId>, perm: Seq<usize>)
    requires
        ids.no_duplicates(),
        ids.len() <= usize::MAX,
        lists_indices(perm, ids.len()),
    ensures
        rearranges(arranged(ids, perm), ids),
        forall|k: int|
            0 <= k < ids.len() ==> ids.index_of(#[trigger] arranged(ids, perm)[k]) == perm[k],
{
    let out = arranged(ids, perm);
    assert forall|x: NodeId| #[trigger] out.contains(x) <==> ids.contains(x) by {
        if out.contains(x) {
            let k = choose|k: int| 0 <= k < out.len() && out[k] == x;
            assert(ids[perm[k] as int] == x);
        }
        if ids.contains(x) {
            let t = choose|t: int| 0 <= t < ids.len() && ids[t] == x;
            let tu = t as usize;
            assert(tu as int == t);
            assert(perm.contains(tu));
            let k = choose|k: int| 0 <= k < perm.len() && perm[k] == tu;
            assert(out[k] == x);
        }
    }
    assert forall|k: int| 0 <= k < ids.len() implies ids.index_of(#[trigger] out[k])
        == perm[k] by {
        let t = ids.index_of(out[k]);
        assert(ids[perm[k] as int] == out[k]);
        assert(ids.contains(out[k]));
        assert(0 <= t < ids.len() && ids[t] == out[k]);
    }
}

/// The `i`-th element of `ids`.
pub open spec fn nth(ids: Seq<NodeId>, i: usize) -> NodeId {
    ids[i as int]
}

/// Whether the relation `rel` holds of the handles `x` and `y`.
pub open spec fn holds_of(rel: spec_fn(NodeId, NodeId) -> bool, x: NodeId, y: NodeId) -> bool {
    rel(x, y)
}

/// Whether the relation behind `rel` holds of the handles `x` and `y`.
pub open spec fn borrowed_holds_of(
    rel: &spec_fn(NodeId, NodeId) -> bool,
    x: NodeId,
    y: NodeId,
) -> bool {
    (*rel)(x, y)
}

/// Whether two elements stand in `new` in another order than in `old` only
/// where `greater` holds of the one now later and the one now earlier.
pub open spec fn kept_stable(
    new: Seq<NodeId>,
    old: Seq<NodeId>,
    greater: spec_fn(NodeId, NodeId) -> bool,
) -> bool {
    forall|a: int, b: int|
        0 <= a < b < new.len() && old.index_of(new[a]) > old.index_of(new[b]) ==> holds_of(
            greater,
            #[trigger] new[b],
            #[trigger] new[a],
        )
}

/// Whether `at_most` holds of every element of `new` and every later one.
pub open spec fn in_order(new: Seq<NodeId>, at_most: spec_fn(NodeId, NodeId) -> bool) -> bool {
    forall|a: int, b: int|
        0 <= a < b < new.len() ==> holds_of(at_most, #[trigger] new[a], #[trigger] new[b])
}

/// The relation on indices that `rel` gives through the elements of
/// `ids`.
pub open spec fn by_index(ids: Seq<NodeId>, rel: spec_fn(NodeId, NodeId) -> bool) -> spec_fn(
    int,
    int,
) -> bool {
    |i: int, j: int| rel(ids[i], ids[j])
}

/// What a stable ordering of the indices of `ids` says of `ids` arranged
/// by it.
pub proof fn lemma_sorted(
    ids: Seq<NodeId>,
    perm: Seq<usize>,
    greater: spec_fn(NodeId, NodeId) -> bool,
    at_most: spec_fn(NodeId, NodeId) -> bool,
)
    requires
        ids.no_duplicates(),
        ids.len() <= usize::MAX,
        lists_indices(perm, ids.len()),
        swaps_justified(perm, by_index(ids, greater)),
    ensures
        rearranges(arranged(ids, perm), ids),
        kept_stable(arranged(ids, perm), ids, greater),
        ascending(perm, by_index(ids, at_most)) ==> in_order(arranged(ids, perm), at_most),
{
    let new = arranged(ids, perm);
    lemma_arranged(ids, perm);
    assert forall|a: int, b: int|
        0 <= a < b < new.len() && ids.index_of(new[a]) > ids.index_of(new[b]) implies holds_of(
        greater,
        #[trigger] new[b],
        #[trigger] new[a],
    ) by {
        assert(holds(by_index(ids, greater), perm[b] as int, perm[a] as int));
    }
    if ascending(perm, by_index(ids, at_most)) {
        assert forall|a: int, b: int| 0 <= a < b < new.len() implies holds_of(
            at_most,
            #[trigger] new[a],
            #[trigger] new[b],
        ) by {
            assert(holds(by_index(ids, at_most), perm[a] as int, perm[b] as int));
        }
    }
}

/// An element of a sequence of distinct elements is found again at its
/// index.
pub proof fn lemma_index_of_nth(ids: Seq<NodeId>, i: usize)
    requires
        ids.no_duplicates(),
        i < ids.len(),
    ensures
        ids.index_of(nth(ids, i)) == i,
{
    let k = ids.index_of(nth(ids, i));
    assert(ids[i as int] == nth(ids, i));
    assert(ids.contains(nth(ids, i)));
    assert(0 <= k < ids.len() && ids[k] == nth(ids, i));
}

/// Two sequences of distinct elements that hold the same elements, any two
/// of them in the same order, are the same sequence.
pub proof fn lemma_same_order(a: Seq<NodeId>, b: Seq<NodeId>)
    requires
        a.no_duplicates(),
        b.no_duplicates(),
        a.len() == b.len(),
        forall|x: NodeId| a.contains(x) <==> b.contains(x),
        forall|i: int, j: int, p: int, q: int|
            0 <= i < j < a.len() && 0 <= p < b.len() && 0 <= q < b.len() && b[p] == a[i] && b[q]
                == a[j] ==> p < q,
    ensures
        a == b,
    decreases a.len(),
{
    if a.len() == 0 {
        assert(a =~= b);
    } else {
        assert(a.contains(a[0]));
        assert(b.contains(b[0]));
        let p = choose|p: int| 0 <= p < b.len() && b[p] == a[0];
        let i = choose|i: int| 0 <= i < a.len() && a[i] == b[0];
        assert(i == 0);
        let a1 = a.skip(1);
        let b1 = b.skip(1);
        assert forall|x: NodeId| a1.contains(x) <==> b1.contains(x) by {
            if a1.contains(x) {
                let k = choose|k: int| 0 <= k < a1.len() && a1[k] == x;
                assert(a[k + 1] == x);
                assert(a.contains(x));
                let q = choose|q: int| 0 <= q < b.len() && b[q] == x;
                assert(q != 0);
                assert(b1[q - 1] == x);
            }
            if b1.contains(x) {
                let k = choose|k: int| 0 <= k < b1.len() && b1[k] == x;
                assert(b[k + 1] == x);
                assert(b.contains(x));
                let q = choose|q: int| 0 <= q < a.len() && a[q] == x;
                assert(q != 0);
                assert(a1[q - 1] == x);
            }
        }
        assert forall|i: int, j: int, p: int, q: int|
            0 <= i < j < a1.len() && 0 <= p < b1.len() && 0 <= q < b1.len() && b1[p] == a1[i]
                && b1[q] == a1[j] implies p < q by {
            assert(b[p + 1] == a[i + 1] && b[q + 1] == a[j + 1]);
        }
        lemma_same_order(a1, b1);
        assert(a =~= seq![a[0]] + a1);
        assert(b =~= seq![b[0]] + b1);
    }
}

/// A stable sort has one result: where `greater` and `at_most` never both
/// hold of a pair, two sequences that both hold the elements of `old`
/// stably and in order are the same sequence.
pub proof fn lemma_stable_sort_unique(
    old: Seq<NodeId>,
    first: Seq<NodeId>,
    second: Seq<NodeId>,
    greater: spec_fn(NodeId, NodeId) -> bool,
    at_most: spec_fn(NodeId, NodeId) -> bool,
)
    requires
        old.no_duplicates(),
        forall|x: NodeId, y: NodeId|
            !(#[trigger] holds_of(greater, x, y) && #[trigger] holds_of(at_most, x, y)),
        rearranges(first, old),
        rearranges(second, old),
        kept_stable(first, old, greater),
        kept_stable(second, old, greater),
        in_order(first, at_most),
        in_order(second, at_most),
    ensures
        first == second,
{
    assert forall|i: int, j: int, p: int, q: int|
        0 <= i < j < first.len() && 0 <= p < second.len() && 0 <= q < second.len() && second[p]
            == first[i] && second[q] == first[j] implies p < q by {
        let x = first[i];
        let y = first[j];
        assert(x != y);
        assert(holds_of(at_most, first[i], first[j]));
        if q < p {
            assert(holds_of(at_most, second[q], second[p]));
            assert(first.contains(x) && first.contains(y));
            let ox = old.index_of(x);
            let oy = old.index_of(y);
            assert(0 <= ox < old.len() && old[ox] == x);
            assert(0 <= oy < old.len() && old[oy] == y);
            if ox > oy {
                assert(holds_of(greater, first[j], first[i]));
            } else {
                assert(holds_of(greater, second[p], second[q]));
            }
        }
    }
    lemma_same_order(first, second);
}

/// The elements of `ids` in the order that `perm` gives.
pub(crate) fn arrange(ids: &Vec<NodeId>, perm: &Vec<usize>) -> (out: Vec<NodeId>)
    requires
        lists_indices(perm@, ids@.len()),
    ensures
        out@ == arranged(ids@, perm@),
{
    let mut out: Vec<NodeId> = Vec::new();
    let mut k: usize = 0;
    while k < perm.len()
        invariant
            k <= perm.len(),
            lists_indices(perm@, ids@.len()),
            out.len() == k,
            forall|t: int| 0 <= t < k ==> out@[t] == ids@[perm@[t] as int],
        decreases perm.len() - k,
    {
        out.push(ids[perm[k]]);
        k += 1;
    }
    proof {
        assert(out@ =~= arranged(ids@, perm@));
    }
    out
}

impl<T> TreeModel<T> {
    /// The tree in which the children of `id` stand in the order `order`.
    pub open spec fn with_children(self, id: NodeId, order: Seq<NodeId>) -> Self {
        TreeModel {
            nodes: self.nodes.insert(id, NodeModel { children: order, ..self.nodes[id] }),
            root: self.root,
        }
    }

    /// Putting the children of a node in another order keeps the shape.
    pub proof fn lemma_with_children_wf(self, id: NodeId, order: Seq<NodeId>)
        requires
            self.wf(),
            self.contains(id),
            rearranges(order, self.children(id)),
        ensures
            self.with_children(id, order).wf(),
    {
        let m = self.with_children(id, order);
        assert(m.nodes.dom() =~= self.nodes.dom());
        assert(self.node_wf(id));
        assert forall|x: NodeId| m.contains(x) implies #[trigger] m.node_wf(x) by {
            assert(self.node_wf(x));
            assert forall|k: int| 0 <= k < m.children(x).len() implies {
                &&& m.contains(#[trigger] m.children(x)[k])
                &&& m.nodes[m.children(x)[k]].parent == Some(x)
            } by {
                let c = m.children(x)[k];
                if x == id {
                    assert(order.contains(c));
                    let j = choose|j: int|
                        0 <= j < self.children(x).len() && self.children(x)[j] == c;
                    assert(self.contains(self.children(x)[j]));
                } else {
                    assert(self.contains(self.children(x)[k]));
                }
            }
            if let Some(q) = self.parent(x) {
                assert(self.node_wf(q));
            }
        }
    }
}

impl<T> OptTree<T> {
    /// Whether `keys` holds, for each node that `ids` names, a key that
    /// `f` may give for that node as it is stored.
    pub open spec fn keys_from<K, F: Fn(&OptNode<T>) -> K>(
        &self,
        f: F,
        ids: Seq<NodeId>,
        keys: Seq<K>,
    ) -> bool {
        &&& keys.len() == ids.len()
        &&& forall|t: int|
            0 <= t < ids.len() ==> call_ensures(f, (&self.spec_node(ids[t]),), #[trigger] keys[t])
    }

    /// The keys that `f` gives for the nodes that `ids` names, in order.
    pub(crate) fn keys_of<K, F: Fn(&OptNode<T>) -> K>(&self, ids: &Vec<NodeId>, f: F) -> (keys:
        Vec<K>)
        requires
            self.wf(),
            self@.contains_all(ids@),
            forall|t: int|
                0 <= t < ids@.len() ==> call_requires(f, (&self.spec_node(#[trigger] ids@[t]),)),
        ensures
            self.keys_from(f, ids@, keys@),
    {
        let mut keys: Vec<K> = Vec::new();
        let mut i: usize = 0;
        while i < ids.len()
            invariant
                self.wf(),
                self@.contains_all(ids@),
                forall|t: int|
                    0 <= t < ids@.len() ==> call_requires(
                        f,
                        (&self.spec_node(#[trigger] ids@[t]),),
                    ),
                i <= ids.len(),
                keys.len() == i,
                forall|t: int|
                    0 <= t < i ==> call_ensures(
                        f,
                        (&self.spec_node(ids@[t]),),
                        #[trigger] keys@[t],
                    ),
            decreases ids.len() - i,
        {
            assert(self@.contains(ids@[i as int]));
            let node = self.arena.get_unchecked(&ids[i]);
            let key = f(node);
            keys.push(key);
            i += 1;
        }
        keys
    }

    /// Links the children of `id` in the order `order`, which holds these
    /// children, each once.
    pub(crate) fn set_children_order(&mut self, id: &NodeId, order: &Vec<NodeId>)
        requires
            old(self).wf(),
            old(self)@.contains(*id),
            rearranges(order@, old(self)@.children(*id)),
        ensures
            final(self).wf(),
            final(self).free_slots() == old(self).free_slots(),
            final(self).spec_slot_count() == old(self).spec_slot_count(),
            final(self)@ == old(self)@.with_children(*id, order@),
    {
        let ghost before = *old(self);
        let ghost m = before@;
        let n = order.len();
        proof {
            m.lemma_with_children_wf(*id, order@);
            assert(m.node_wf(*id));
            assert forall|k: int| 0 <= k < n implies m.contains(#[trigger] order@[k]) && m.parent(
                order@[k],
            ) == Some(*id) && order@[k] != *id by {
                assert(order@.contains(order@[k]));
                let j = choose|j: int|
                    0 <= j < m.children(*id).len() && m.children(*id)[j] == order@[k];
                m.lemma_child_rank(*id, j);
            }
        }
        if n > 0 {
            let node = self.arena.get_unchecked_mut(id);
            node.first_child = Some(order[0]);
            node.last_child = Some(order[n - 1]);
        }
        let ghost mid = *self;
        let mut i: usize = 0;
        while i < n
            invariant
                i <= n,
                n == order@.len(),
                order@.no_duplicates(),
                forall|k: int| 0 <= k < n ==> mid.arena.contains(#[trigger] order@[k]),
                self.arena.wf(),
                self.arena.slots().len() == mid.arena.slots().len(),
                self.arena.free() == mid.arena.free(),
                self.arena.root == mid.arena.root,
                self.kids == mid.kids,
                self.paths == mid.paths,
                forall|x: NodeId|
                    #![trigger self.arena.contains(x)]
                    #![trigger mid.arena.contains(x)]
                    self.arena.contains(x) == mid.arena.contains(x),
                forall|k: int|
                    0 <= k < n ==> self.arena.node(#[trigger] order@[k]) == if k < i {
                        OptNode {
                            prev_sibling: if k == 0 {
                                None
                            } else {
                                Some(order@[k - 1])
                            },
                            next_sibling: if k + 1 == n {
                                None
                            } else {
                                Some(order@[k + 1])
                            },
                            ..mid.arena.node(order@[k])
                        }
                    } else {
                        mid.arena.node(order@[k])
                    },
                forall|x: NodeId|
                    #![trigger self.arena.node(x)]
                    #![trigger mid.arena.node(x)]
                    mid.arena.contains(x) && !order@.contains(x) ==> self.arena.node(x)
                        == mid.arena.node(x),
            decreases n - i,
        {
            let ghost cur = *self;
            let prev = if i == 0 {
                None
            } else {
                Some(order[i - 1])
            };
            let next = if i + 1 == n {
                None
            } else {
                Some(order[i + 1])
            };
            let c = order[i];
            let node = self.arena.get_unchecked_mut(&c);
            node.prev_sibling = prev;
            node.next_sibling = next;
            proof {
                assert forall|k: int| 0 <= k < n implies self.arena.node(#[trigger] order@[k])
                    == if k < i + 1 {
                    OptNode {
                        prev_sibling: if k == 0 {
                            None
                        } else {
                            Some(order@[k - 1])
                        },
                        next_sibling: if k + 1 == n {
                            None
                        } else {
                            Some(order@[k + 1])
                        },
                        ..mid.arena.node(order@[k])
                    }
                } else {
                    mid.arena.node(order@[k])
                } by {
                    assert(cur.arena.node(order@[k]) == if k < i {
                        OptNode {
                            prev_sibling: if k == 0 {
                                None
                            } else {
                                Some(order@[k - 1])
                            },
                            next_sibling: if k + 1 == n {
                                None
                            } else {
                                Some(order@[k + 1])
                            },
                            ..mid.arena.node(order@[k])
                        }
                    } else {
                        mid.arena.node(order@[k])
                    });
                    if k != i {
                        assert(order@[k] != order@[i as int]);
                    }
                }
                assert forall|x: NodeId|
                    #![trigger self.arena.node(x)]
                    mid.arena.contains(x) && !order@.contains(x) implies self.arena.node(x)
                    == mid.arena.node(x) by {
                    assert(cur.arena.node(x) == mid.arena.node(x));
                    assert(order@.contains(order@[i as int]));
                }
            }
            i += 1;
        }
        let ghost kids = before.kids@.insert(*id, order@);
        self.kids = Ghost(kids);
        proof {
            let m1 = self@;
            let goal = m.with_children(*id, order@);
            assert(m1.nodes.dom() =~= goal.nodes.dom());
            assert forall|x: NodeId| m1.contains(x) implies #[trigger] m1.nodes[x]
                == goal.nodes[x] by {
                if order@.contains(x) {
                    let k = choose|k: int| 0 <= k < n && order@[k] == x;
                    assert(self.arena.node(order@[k]).data == mid.arena.node(order@[k]).data);
                } else {
                    assert(self.arena.node(x) == mid.arena.node(x));
                }
            }
            assert(m1.nodes =~= goal.nodes);
            assert(m1 == goal);
            assert forall|x: NodeId| self.arena.contains(x) implies #[trigger] self.head_links_ok(
                x,
            ) by {
                assert(before.head_links_ok(x));
                assert(m.node_wf(x));
                if order@.contains(x) {
                    let k = choose|k: int| 0 <= k < n && order@[k] == x;
                    assert(self.arena.node(order@[k]).first_child == mid.arena.node(
                        order@[k],
                    ).first_child);
                } else {
                    assert(self.arena.node(x) == mid.arena.node(x));
                }
            }
            assert forall|q: NodeId, k: int|
                self.arena.contains(q) && 0 <= k < self.kids@[q].len() implies #[trigger]
                self.sibling_links_ok(q, k) by {
                if q == *id {
                    assert(self.arena.node(order@[k]).prev_sibling == if k == 0 {
                        None
                    } else {
                        Some(order@[k - 1])
                    });
                } else {
                    assert(before.sibling_links_ok(q, k));
                    assert(m.node_wf(q));
                    let c = m.children(q)[k];
                    assert(m.contains(c));
                    if order@.contains(c) {
                        let j = choose|j: int| 0 <= j < n && order@[j] == c;
                        assert(m.parent(order@[j]) == Some(*id));
                    }
                    assert(self.arena.node(c) == mid.arena.node(c));
                }
            }
        }
    }
}

} // verus!
