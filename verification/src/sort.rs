use vstd::prelude::*;
use std::cmp::Ordering;
use crate::error::NodeIdError;
use crate::node::OptNode;
use crate::node_id::NodeId;
use vstd::std_specs::cmp::OrdSpec;
use crate::sorting::{
    arrange, borrowed_holds_of, by_index, holds_of, in_order, kept_stable, lemma_index_of_nth,
    lemma_sorted, nth, rearranges, stable_order, total_on,
};
use crate::tree::OptTree;

verus! {

/// Whether `compare` may answer that `a` is greater than `b`.
pub open spec fn may_be_greater<T, F: Fn(&OptNode<T>, &OptNode<T>) -> Ordering>(
    compare: F,
    a: OptNode<T>,
    b: OptNode<T>,
) -> bool {
    call_ensures(compare, (&a, &b), Ordering::Greater)
}

/// Whether `compare` may answer that `a` is less than or equal to `b`.
pub open spec fn may_be_at_most<T, F: Fn(&OptNode<T>, &OptNode<T>) -> Ordering>(
    compare: F,
    a: OptNode<T>,
    b: OptNode<T>,
) -> bool {
    call_ensures(compare, (&a, &b), Ordering::Less) || call_ensures(
        compare,
        (&a, &b),
        Ordering::Equal,
    )
}

/// Whether the answers of `compare` order the nodes: where it may call
/// `a` greater than `b` it may call `b` at most `a`, and "at most" is
/// transitive.
pub open spec fn orders_totally<T, F: Fn(&OptNode<T>, &OptNode<T>) -> Ordering>(
    compare: F,
) -> bool {
    &&& forall|a: OptNode<T>, b: OptNode<T>| #[trigger]
        may_be_greater(compare, a, b) ==> may_be_at_most(compare, b, a)
    &&& forall|a: OptNode<T>, b: OptNode<T>, c: OptNode<T>|
        #[trigger] may_be_at_most(compare, a, b) && #[trigger] may_be_at_most(compare, b, c)
            ==> may_be_at_most(compare, a, c)
}

/// Whether comparison orders the values of `K`: it is specified, where
/// it calls one value greater than another it does not call the other
/// greater than the one, and "not greater" is transitive.
pub open spec fn cmp_orders_totally<K: Ord>() -> bool {
    &&& K::obeys_cmp_spec()
    &&& forall|x: K, y: K|
        (#[trigger] x.cmp_spec(&y)) == Ordering::Greater ==> y.cmp_spec(&x) != Ordering::Greater
    &&& forall|x: K, y: K, z: K|
        (#[trigger] x.cmp_spec(&y)) != Ordering::Greater && (#[trigger] y.cmp_spec(&z))
            != Ordering::Greater ==> x.cmp_spec(&z) != Ordering::Greater
}

/// The relation on handles that holds where the key of the first compares
/// greater than the key of the second; `keys` holds the keys of the nodes
/// that `old` names, in order.
pub open spec fn key_greater<K: Ord>(old: Seq<NodeId>, keys: Seq<K>) -> spec_fn(
    NodeId,
    NodeId,
) -> bool {
    |x: NodeId, y: NodeId|
        keys[old.index_of(x)].cmp_spec(&keys[old.index_of(y)]) == Ordering::Greater
}

/// The relation on handles that holds where the key of the first does not
/// compare greater than the key of the second.
pub open spec fn key_at_most<K: Ord>(old: Seq<NodeId>, keys: Seq<K>) -> spec_fn(
    NodeId,
    NodeId,
) -> bool {
    |x: NodeId, y: NodeId|
        keys[old.index_of(x)].cmp_spec(&keys[old.index_of(y)]) != Ordering::Greater
}

/// Whether `new` holds the elements of `old` stably sorted by `keys`, as
/// far as comparison of keys is specified and orders them.
pub open spec fn sorted_by_keys<K: Ord>(new: Seq<NodeId>, old: Seq<NodeId>, keys: Seq<K>) -> bool {
    &&& K::obeys_cmp_spec() ==> kept_stable(new, old, key_greater(old, keys))
    &&& cmp_orders_totally::<K>() ==> in_order(new, key_at_most(old, keys))
}

impl<T> OptTree<T> {
    /// The relation on handles that holds where `compare` may call the
    /// node of the first greater than the node of the second.
    pub open spec fn greater_by<F: Fn(&OptNode<T>, &OptNode<T>) -> Ordering>(
        &self,
        compare: F,
    ) -> spec_fn(NodeId, NodeId) -> bool {
        |x: NodeId, y: NodeId| may_be_greater(compare, self.spec_node(x), self.spec_node(y))
    }

    /// The relation on handles that holds where `compare` may call the
    /// node of the first at most the node of the second.
    pub open spec fn at_most_by<F: Fn(&OptNode<T>, &OptNode<T>) -> Ordering>(
        &self,
        compare: F,
    ) -> spec_fn(NodeId, NodeId) -> bool {
        |x: NodeId, y: NodeId| may_be_at_most(compare, self.spec_node(x), self.spec_node(y))
    }

    /// Whether `compare` may be called on any two children of `id`.
    pub open spec fn may_compare_children<F: Fn(&OptNode<T>, &OptNode<T>) -> Ordering>(
        &self,
        id: NodeId,
        compare: F,
    ) -> bool {
        forall|x: NodeId, y: NodeId|
            self@.contains(id) && self@.children(id).contains(x) && self@.children(id).contains(y)
                ==> call_requires(compare, (&self.spec_node(x), &self.spec_node(y)))
    }

    /// Sorts the children of `node_id` by `compare`, which is handed the
    /// nodes as they are stored. The sort is stable: two children change
    /// their order only where `compare` called the one now later greater.
    /// Where the answers of `compare` order the nodes, no child is
    /// greater than a later one.
    ///
    /// Fails with `HandleInvalid`, changing nothing, when `node_id` names
    /// no node.
    pub fn sort_children_by<F>(&mut self, node_id: &NodeId, compare: F) -> (res: Result<
        (),
        NodeIdError,
    >) where F: Fn(&OptNode<T>, &OptNode<T>) -> Ordering
        requires
            old(self).wf(),
            old(self).may_compare_children(*node_id, compare),
        ensures
            final(self).wf(),
            final(self).free_slots() == old(self).free_slots(),
            final(self).spec_slot_count() == old(self).spec_slot_count(),
            match res {
                Ok(_) => {
                    &&& old(self)@.contains(*node_id)
                    &&& final(self)@ == old(self)@.with_children(
                        *node_id,
                        final(self)@.children(*node_id),
                    )
                    &&& rearranges(final(self)@.children(*node_id), old(self)@.children(*node_id))
                    &&& kept_stable(
                        final(self)@.children(*node_id),
                        old(self)@.children(*node_id),
                        old(self).greater_by(compare),
                    )
                    &&& orders_totally(compare) ==> in_order(
                        final(self)@.children(*node_id),
                        old(self).at_most_by(compare),
                    )
                },
                Err(e) => {
                    &&& e == NodeIdError::HandleInvalid
                    &&& !old(self)@.contains(*node_id)
                    &&& *final(self) == *old(self)
                },
            },
    {
        let ids = match self.children_ids(node_id) {
            Ok(ids) => ids,
            Err(e) => {
                return Err(e);
            },
        };
        let n = ids.len();
        let ghost before = *old(self);
        let ghost greater = before.greater_by(compare);
        let ghost at_most = before.at_most_by(compare);
        let ghost callable = |x: NodeId, y: NodeId|
            call_requires(compare, (&before.spec_node(x), &before.spec_node(y)));
        proof {
            assert(before@.node_wf(*node_id));
            assert forall|x: NodeId, y: NodeId| ids@.contains(x) && ids@.contains(y) implies (
            #[trigger] holds_of(callable, x, y)) by {}
        }
        let perm = {
            let tree = &*self;
            let is_greater = |i: usize, j: usize| -> (r: bool)
                requires
                    i < n,
                    j < n,
                ensures
                    r ==> borrowed_holds_of(&greater, nth(ids@, i), nth(ids@, j)),
                    !r ==> borrowed_holds_of(&at_most, nth(ids@, i), nth(ids@, j)),
                {
                    assert(before@.contains(nth(ids@, i)));
                    assert(before@.contains(nth(ids@, j)));
                    assert(ids@.contains(nth(ids@, i)));
                    assert(ids@.contains(nth(ids@, j)));
                    assert(borrowed_holds_of(&callable, nth(ids@, i), nth(ids@, j)));
                    let a = tree.arena.get_unchecked(&ids[i]);
                    let b = tree.arena.get_unchecked(&ids[j]);
                    match compare(a, b) {
                        Ordering::Greater => true,
                        Ordering::Less => false,
                        Ordering::Equal => false,
                    }
                };
            stable_order(
                n,
                is_greater,
                Ghost(by_index(ids@, greater)),
                Ghost(by_index(ids@, at_most)),
            )
        };
        let sorted = arrange(&ids, &perm);
        proof {
            lemma_sorted(ids@, perm@, greater, at_most);
            if orders_totally(compare) {
                assert forall|m: int| total_on(
                    by_index(ids@, greater),
                    by_index(ids@, at_most),
                    m,
                ) by {}
            }
        }
        self.set_children_order(node_id, &sorted);
        Ok(())
    }

    /// The relation on handles that holds where the data of the first
    /// node compares greater than the data of the second.
    pub open spec fn data_greater(&self) -> spec_fn(NodeId, NodeId) -> bool where T: Ord {
        |x: NodeId, y: NodeId| self@.data(x).cmp_spec(&self@.data(y)) == Ordering::Greater
    }

    /// The relation on handles that holds where the data of the first
    /// node does not compare greater than the data of the second.
    pub open spec fn data_at_most(&self) -> spec_fn(NodeId, NodeId) -> bool where T: Ord {
        |x: NodeId, y: NodeId| self@.data(x).cmp_spec(&self@.data(y)) != Ordering::Greater
    }

    /// Sorts the children of `node_id` by their data. The sort is stable:
    /// where comparison of data is specified, two children change their
    /// order only where the data of the one now later is greater; and
    /// where comparison orders the data, no child has data greater than
    /// that of a later child.
    ///
    /// Fails with `HandleInvalid`, changing nothing, when `node_id` names
    /// no node.
    pub fn sort_children_by_data(&mut self, node_id: &NodeId) -> (res: Result<
        (),
        NodeIdError,
    >) where T: Ord
        requires
            old(self).wf(),
        ensures
            final(self).wf(),
            final(self).free_slots() == old(self).free_slots(),
            final(self).spec_slot_count() == old(self).spec_slot_count(),
            match res {
                Ok(_) => {
                    &&& old(self)@.contains(*node_id)
                    &&& final(self)@ == old(self)@.with_children(
                        *node_id,
                        final(self)@.children(*node_id),
                    )
                    &&& rearranges(final(self)@.children(*node_id), old(self)@.children(*node_id))
                    &&& T::obeys_cmp_spec() ==> kept_stable(
                        final(self)@.children(*node_id),
                        old(self)@.children(*node_id),
                        old(self).data_greater(),
                    )
                    &&& cmp_orders_totally::<T>() ==> in_order(
                        final(self)@.children(*node_id),
                        old(self).data_at_most(),
                    )
                },
                Err(e) => {
                    &&& e == NodeIdError::HandleInvalid
                    &&& !old(self)@.contains(*node_id)
                    &&& *final(self) == *old(self)
                },
            },
    {
        let ids = match self.children_ids(node_id) {
            Ok(ids) => ids,
            Err(e) => {
                return Err(e);
            },
        };
        let n = ids.len();
        let ghost before = *old(self);
        let ghost greater = |x: NodeId, y: NodeId|
            !T::obeys_cmp_spec() || before@.data(x).cmp_spec(&before@.data(y))
                == Ordering::Greater;
        let ghost at_most = |x: NodeId, y: NodeId|
            !T::obeys_cmp_spec() || before@.data(x).cmp_spec(&before@.data(y))
                != Ordering::Greater;
        proof {
            assert(before@.node_wf(*node_id));
        }
        let perm = {
            let tree = &*self;
            let is_greater = |i: usize, j: usize| -> (r: bool)
                requires
                    i < n,
                    j < n,
                ensures
                    r ==> borrowed_holds_of(&greater, nth(ids@, i), nth(ids@, j)),
                    !r ==> borrowed_holds_of(&at_most, nth(ids@, i), nth(ids@, j)),
                {
                    assert(before@.contains(nth(ids@, i)));
                    assert(before@.contains(nth(ids@, j)));
                    let a = tree.arena.get_unchecked(&ids[i]);
                    let b = tree.arena.get_unchecked(&ids[j]);
                    match a.data.cmp(&b.data) {
                        Ordering::Greater => true,
                        Ordering::Less => false,
                        Ordering::Equal => false,
                    }
                };
            stable_order(
                n,
                is_greater,
                Ghost(by_index(ids@, greater)),
                Ghost(by_index(ids@, at_most)),
            )
        };
        let sorted = arrange(&ids, &perm);
        proof {
            lemma_sorted(ids@, perm@, greater, at_most);
            if cmp_orders_totally::<T>() {
                assert forall|m: int| total_on(
                    by_index(ids@, greater),
                    by_index(ids@, at_most),
                    m,
                ) by {}
                assert(in_order(sorted@, before.data_at_most()));
            }
            if T::obeys_cmp_spec() {
                assert(kept_stable(sorted@, ids@, before.data_greater()));
            }
        }
        self.set_children_order(node_id, &sorted);
        Ok(())
    }

    /// Whether `f` may be called on every child of `id`.
    pub open spec fn may_key_children<K, F: Fn(&OptNode<T>) -> K>(&self, id: NodeId, f: F) -> bool {
        forall|x: NodeId|
            self@.contains(id) && self@.children(id).contains(x) ==> call_requires(
                f,
                (&self.spec_node(x),),
            )
    }

    /// Sorts the children of `node_id` by the keys that `f` gives for
    /// them; `f` is called once for each child, on the node as it is
    /// stored. The sort is stable: where comparison of keys is specified,
    /// two children change their order only where the key of the one now
    /// later is greater; and where comparison orders the keys, no child
    /// has a key greater than that of a later child.
    ///
    /// Fails with `HandleInvalid`, changing nothing, when `node_id` names
    /// no node.
    pub fn sort_children_by_key<K, F>(&mut self, node_id: &NodeId, f: F) -> (res: Result<
        (),
        NodeIdError,
    >) where K: Ord, F: Fn(&OptNode<T>) -> K
        requires
            old(self).wf(),
            old(self).may_key_children(*node_id, f),
        ensures
            final(self).wf(),
            final(self).free_slots() == old(self).free_slots(),
            final(self).spec_slot_count() == old(self).spec_slot_count(),
            match res {
                Ok(_) => {
                    &&& old(self)@.contains(*node_id)
                    &&& final(self)@ == old(self)@.with_children(
                        *node_id,
                        final(self)@.children(*node_id),
                    )
                    &&& rearranges(final(self)@.children(*node_id), old(self)@.children(*node_id))
                    &&& exists|keys: Seq<K>|
                        {
                            &&& #[trigger] old(self).keys_from(
                                f,
                                old(self)@.children(*node_id),
                                keys,
                            )
                            &&& sorted_by_keys(
                                final(self)@.children(*node_id),
                                old(self)@.children(*node_id),
                                keys,
                            )
                        }
                },
                Err(e) => {
                    &&& e == NodeIdError::HandleInvalid
                    &&& !old(self)@.contains(*node_id)
                    &&& *final(self) == *old(self)
                },
            },
    {
        let ids = match self.children_ids(node_id) {
            Ok(ids) => ids,
            Err(e) => {
                return Err(e);
            },
        };
        let n = ids.len();
        let ghost before = *old(self);
        proof {
            assert(before@.node_wf(*node_id));
        }
        proof {
            assert forall|t: int| 0 <= t < ids@.len() implies call_requires(
                f,
                (&self.spec_node(#[trigger] ids@[t]),),
            ) by {
                assert(ids@.contains(ids@[t]));
            }
        }
        let keys = self.keys_of(&ids, f);
        let ghost greater = |x: NodeId, y: NodeId|
            !K::obeys_cmp_spec() || keys@[ids@.index_of(x)].cmp_spec(&keys@[ids@.index_of(y)])
                == Ordering::Greater;
        let ghost at_most = |x: NodeId, y: NodeId|
            !K::obeys_cmp_spec() || keys@[ids@.index_of(x)].cmp_spec(&keys@[ids@.index_of(y)])
                != Ordering::Greater;
        let perm = {
            let is_greater = |i: usize, j: usize| -> (r: bool)
                requires
                    i < n,
                    j < n,
                ensures
                    r ==> borrowed_holds_of(&greater, nth(ids@, i), nth(ids@, j)),
                    !r ==> borrowed_holds_of(&at_most, nth(ids@, i), nth(ids@, j)),
                {
                    proof {
                        lemma_index_of_nth(ids@, i);
                        lemma_index_of_nth(ids@, j);
                    }
                    match keys[i].cmp(&keys[j]) {
                        Ordering::Greater => true,
                        Ordering::Less => false,
                        Ordering::Equal => false,
                    }
                };
            stable_order(
                n,
                is_greater,
                Ghost(by_index(ids@, greater)),
                Ghost(by_index(ids@, at_most)),
            )
        };
        let sorted = arrange(&ids, &perm);
        proof {
            lemma_sorted(ids@, perm@, greater, at_most);
            if cmp_orders_totally::<K>() {
                assert forall|m: int| total_on(
                    by_index(ids@, greater),
                    by_index(ids@, at_most),
                    m,
                ) by {}
                assert(in_order(sorted@, key_at_most(ids@, keys@)));
            }
            if K::obeys_cmp_spec() {
                assert(kept_stable(sorted@, ids@, key_greater(ids@, keys@)));
            }
            assert(sorted_by_keys(sorted@, ids@, keys@));
        }
        self.set_children_order(node_id, &sorted);
        Ok(())
    }
}

} // verus!
