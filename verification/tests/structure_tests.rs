use id_tree::InsertBehavior::{AsRoot, UnderNode};
use id_tree::MoveBehavior::{ToParent, ToRoot};
use id_tree::RemoveBehavior::{DropSubtree, LiftChildrenToParent};
use id_tree::{NodeId, NodeIdError, OptNode, OptTree};

struct Sample {
    tree: OptTree<i32>,
    root: NodeId,
    a: NodeId,
    b: NodeId,
    c: NodeId,
    d: NodeId,
    e: NodeId,
    f: NodeId,
}

//        1
//      / | \
//     2  3  4
//    / \    |
//   5   6   7
fn sample() -> Sample {
    let mut tree: OptTree<i32> = OptTree::new();
    let root = tree.insert(OptNode::new(1), AsRoot).unwrap();
    let a = tree.insert(OptNode::new(2), UnderNode(&root)).unwrap();
    let b = tree.insert(OptNode::new(3), UnderNode(&root)).unwrap();
    let c = tree.insert(OptNode::new(4), UnderNode(&root)).unwrap();
    let d = tree.insert(OptNode::new(5), UnderNode(&a)).unwrap();
    let e = tree.insert(OptNode::new(6), UnderNode(&a)).unwrap();
    let f = tree.insert(OptNode::new(7), UnderNode(&c)).unwrap();
    Sample { tree, root, a, b, c, d, e, f }
}

fn pre_data(tree: &OptTree<i32>, id: &NodeId) -> Vec<i32> {
    let mut walk = tree.traverse_pre_order(id).unwrap();
    let mut out = Vec::new();
    while let Some(n) = walk.next() {
        out.push(*n.data());
    }
    out
}

fn post_data(tree: &OptTree<i32>, id: &NodeId) -> Vec<i32> {
    let mut walk = tree.traverse_post_order(id).unwrap();
    let mut out = Vec::new();
    while let Some(n) = walk.next() {
        out.push(*n.data());
    }
    out
}

fn level_data(tree: &OptTree<i32>, id: &NodeId) -> Vec<i32> {
    let mut walk = tree.traverse_level_order(id).unwrap();
    let mut out = Vec::new();
    while let Some(n) = walk.next() {
        out.push(*n.data());
    }
    out
}

fn ancestor_data(tree: &OptTree<i32>, id: &NodeId) -> Vec<i32> {
    let mut walk = tree.ancestors(id).unwrap();
    let mut out = Vec::new();
    while let Some(n) = walk.next() {
        out.push(*n.data());
    }
    out
}

fn child_data(tree: &OptTree<i32>, id: &NodeId) -> Vec<i32> {
    let mut walk = tree.children(id).unwrap();
    let mut out = Vec::new();
    while let Some(n) = walk.next() {
        out.push(*n.data());
    }
    out
}

fn pre_order_data(tree: &OptTree<i32>) -> Vec<i32> {
    match tree.root_node_id() {
        Some(root) => pre_data(tree, root),
        None => Vec::new(),
    }
}

fn check_links(tree: &OptTree<i32>) {
    let root = match tree.root_node_id() {
        Some(root) => *root,
        None => return,
    };
    assert_eq!(tree.get(&root).unwrap().parent(), None);
    for id in tree.traverse_pre_order_ids(&root).unwrap() {
        let node = tree.get(&id).unwrap();
        let children = tree.children_ids(&id).unwrap();
        assert_eq!(node.first_child(), children.first());
        assert_eq!(node.last_child(), children.last());
        if id != root {
            assert!(node.parent().is_some());
        } else {
            assert_eq!(node.prev_sibling(), None);
            assert_eq!(node.next_sibling(), None);
        }
        let mut walked = Vec::new();
        let mut cur = node.first_child().cloned();
        while let Some(c) = cur {
            walked.push(c);
            cur = tree.get(&c).unwrap().next_sibling().cloned();
        }
        assert_eq!(walked, children);
        let mut back = Vec::new();
        let mut cur = node.last_child().cloned();
        while let Some(c) = cur {
            back.push(c);
            cur = tree.get(&c).unwrap().prev_sibling().cloned();
        }
        back.reverse();
        assert_eq!(back, children);
        for c in &children {
            assert_eq!(tree.get(c).unwrap().parent(), Some(&id));
        }
    }
}

#[test]
fn insert_under_appends_in_order() {
    let mut tree: OptTree<i32> = OptTree::new();
    let p = tree.insert(OptNode::new(0), AsRoot).unwrap();
    let c1 = tree.insert(OptNode::new(1), UnderNode(&p)).unwrap();
    let c2 = tree.insert(OptNode::new(2), UnderNode(&p)).unwrap();
    let c3 = tree.insert(OptNode::new(3), UnderNode(&p)).unwrap();
    assert_eq!(tree.children_ids(&p).unwrap(), vec![c1, c2, c3]);
    assert_eq!(child_data(&tree, &p), vec![1, 2, 3]);
    check_links(&tree);
}

#[test]
fn insert_as_root_wraps_former_root() {
    let mut tree: OptTree<i32> = OptTree::new();
    let r = tree.insert(OptNode::new(1), AsRoot).unwrap();
    let a = tree.insert(OptNode::new(2), UnderNode(&r)).unwrap();
    let b = tree.insert(OptNode::new(3), UnderNode(&r)).unwrap();
    let new_root = tree.insert(OptNode::new(0), AsRoot).unwrap();
    assert_eq!(tree.root_node_id(), Some(&new_root));
    assert_eq!(tree.children_ids(&new_root).unwrap(), vec![r]);
    assert_eq!(tree.children_ids(&r).unwrap(), vec![a, b]);
    assert_eq!(tree.get(&r).unwrap().parent(), Some(&new_root));
    check_links(&tree);
}

#[test]
fn insert_under_missing_parent_is_refused() {
    let mut s = sample();
    let gone = s.f;
    s.tree.remove(gone, DropSubtree).unwrap();
    let before = pre_order_data(&s.tree);
    assert_eq!(
        s.tree.insert(OptNode::new(9), UnderNode(&gone)),
        Err(NodeIdError::HandleInvalid)
    );
    assert_eq!(pre_order_data(&s.tree), before);
    assert_eq!(s.tree.free_slot_count(), 1);
}

#[test]
fn insert_ignores_links_of_the_given_node() {
    let mut s = sample();
    let removed = s.tree.remove(s.a, LiftChildrenToParent).unwrap();
    assert_eq!(removed.parent(), None);
    assert_eq!(removed.first_child(), None);
    let again = s.tree.insert(removed, UnderNode(&s.b)).unwrap();
    assert_eq!(again, s.a);
    assert_eq!(s.tree.children_ids(&s.b).unwrap(), vec![again]);
    assert_eq!(s.tree.children_ids(&again).unwrap(), Vec::<NodeId>::new());
    check_links(&s.tree);
}

#[test]
fn ancestors_run_from_node_to_root() {
    let s = sample();
    assert_eq!(s.tree.ancestor_ids(&s.e).unwrap(), vec![s.e, s.a, s.root]);
    assert_eq!(ancestor_data(&s.tree, &s.e), vec![6, 2, 1]);
    assert_eq!(s.tree.ancestor_ids(&s.root).unwrap(), vec![s.root]);
}

#[test]
fn children_of_a_leaf_are_none() {
    let s = sample();
    assert_eq!(s.tree.children_ids(&s.b).unwrap(), Vec::<NodeId>::new());
    assert!(child_data(&s.tree, &s.b).is_empty());
    assert!(s.tree.children(&s.b).unwrap().next_id().is_none());
}

#[test]
fn pre_order_visits_node_before_children() {
    let s = sample();
    assert_eq!(
        s.tree.traverse_pre_order_ids(&s.root).unwrap(),
        vec![s.root, s.a, s.d, s.e, s.b, s.c, s.f]
    );
    assert_eq!(pre_data(&s.tree, &s.root), vec![1, 2, 5, 6, 3, 4, 7]);
    assert_eq!(pre_data(&s.tree, &s.a), vec![2, 5, 6]);
}

#[test]
fn post_order_visits_children_before_node() {
    let s = sample();
    assert_eq!(
        s.tree.traverse_post_order_ids(&s.root).unwrap(),
        vec![s.d, s.e, s.a, s.b, s.f, s.c, s.root]
    );
    assert_eq!(post_data(&s.tree, &s.root), vec![5, 6, 2, 3, 7, 4, 1]);
    assert_eq!(post_data(&s.tree, &s.c), vec![7, 4]);
}

#[test]
fn level_order_visits_level_by_level() {
    let s = sample();
    assert_eq!(
        s.tree.traverse_level_order_ids(&s.root).unwrap(),
        vec![s.root, s.a, s.b, s.c, s.d, s.e, s.f]
    );
    assert_eq!(level_data(&s.tree, &s.root), vec![1, 2, 3, 4, 5, 6, 7]);
    assert_eq!(level_data(&s.tree, &s.a), vec![2, 5, 6]);
}

#[test]
fn walks_yield_handles_one_by_one() {
    let s = sample();
    let mut up = s.tree.ancestors(&s.d).unwrap();
    assert_eq!(up.next_id(), Some(s.d));
    assert_eq!(up.next_id(), Some(s.a));
    assert_eq!(up.next_id(), Some(s.root));
    assert_eq!(up.next_id(), None);
    assert_eq!(up.next_id(), None);
    let mut across = s.tree.children(&s.root).unwrap();
    assert_eq!(across.next_id(), Some(s.a));
    assert_eq!(across.next().map(|n| *n.data()), Some(3));
    assert_eq!(across.next_id(), Some(s.c));
    assert_eq!(across.next_id(), None);
    let mut pre = s.tree.traverse_pre_order(&s.c).unwrap();
    assert_eq!(pre.next_id(), Some(s.c));
    assert_eq!(pre.next_id(), Some(s.f));
    assert_eq!(pre.next_id(), None);
    let mut post = s.tree.traverse_post_order(&s.a).unwrap();
    assert_eq!(post.next_id(), Some(s.d));
    assert_eq!(post.next_id(), Some(s.e));
    assert_eq!(post.next_id(), Some(s.a));
    assert_eq!(post.next_id(), None);
    let mut level = s.tree.traverse_level_order(&s.c).unwrap();
    assert_eq!(level.next_id(), Some(s.c));
    assert_eq!(level.next_id(), Some(s.f));
    assert_eq!(level.next_id(), None);
}

#[test]
fn traversals_repeat_the_same_sequence() {
    let s = sample();
    assert_eq!(pre_data(&s.tree, &s.root), pre_data(&s.tree, &s.root));
    assert_eq!(post_data(&s.tree, &s.root), post_data(&s.tree, &s.root));
    assert_eq!(level_data(&s.tree, &s.root), level_data(&s.tree, &s.root));
    assert_eq!(
        s.tree.traverse_pre_order_ids(&s.root).unwrap(),
        s.tree.traverse_pre_order_ids(&s.root).unwrap()
    );
    assert_eq!(
        s.tree.traverse_post_order_ids(&s.root).unwrap(),
        s.tree.traverse_post_order_ids(&s.root).unwrap()
    );
    assert_eq!(
        s.tree.traverse_level_order_ids(&s.root).unwrap(),
        s.tree.traverse_level_order_ids(&s.root).unwrap()
    );
}

#[test]
fn readers_refuse_a_stale_handle() {
    let mut s = sample();
    s.tree.remove(s.a, DropSubtree).unwrap();
    assert_eq!(s.tree.get(&s.d).err(), Some(NodeIdError::HandleInvalid));
    assert_eq!(s.tree.get_mut(&s.d).err(), Some(NodeIdError::HandleInvalid));
    assert_eq!(s.tree.ancestor_ids(&s.d), Err(NodeIdError::HandleInvalid));
    assert_eq!(s.tree.ancestors(&s.d).err(), Some(NodeIdError::HandleInvalid));
    assert_eq!(s.tree.children_ids(&s.a), Err(NodeIdError::HandleInvalid));
    assert_eq!(s.tree.children(&s.a).err(), Some(NodeIdError::HandleInvalid));
    assert_eq!(s.tree.traverse_pre_order_ids(&s.e), Err(NodeIdError::HandleInvalid));
    assert_eq!(s.tree.traverse_post_order_ids(&s.e), Err(NodeIdError::HandleInvalid));
    assert_eq!(s.tree.traverse_level_order_ids(&s.e), Err(NodeIdError::HandleInvalid));
    assert_eq!(s.tree.traverse_pre_order(&s.e).err(), Some(NodeIdError::HandleInvalid));
    assert_eq!(s.tree.traverse_post_order(&s.e).err(), Some(NodeIdError::HandleInvalid));
    assert_eq!(s.tree.traverse_level_order(&s.e).err(), Some(NodeIdError::HandleInvalid));
}

#[test]
fn remove_drop_subtree_frees_every_descendant() {
    let mut s = sample();
    let removed = s.tree.remove(s.a, DropSubtree).unwrap();
    assert_eq!(removed.data(), &2);
    assert_eq!(removed.parent(), None);
    assert_eq!(removed.first_child(), None);
    assert_eq!(removed.last_child(), None);
    assert_eq!(removed.prev_sibling(), None);
    assert_eq!(removed.next_sibling(), None);
    assert_eq!(pre_order_data(&s.tree), vec![1, 3, 4, 7]);
    assert_eq!(s.tree.children_ids(&s.root).unwrap(), vec![s.b, s.c]);
    assert_eq!(s.tree.free_slot_count(), 3);
    assert_eq!(s.tree.slot_count(), 7);
    assert_eq!(s.tree.get(&s.a).err(), Some(NodeIdError::HandleInvalid));
    assert_eq!(s.tree.get(&s.d).err(), Some(NodeIdError::HandleInvalid));
    assert_eq!(s.tree.get(&s.e).err(), Some(NodeIdError::HandleInvalid));
    check_links(&s.tree);
}

#[test]
fn remove_drop_subtree_of_middle_and_last_child() {
    let mut s = sample();
    s.tree.remove(s.b, DropSubtree).unwrap();
    assert_eq!(s.tree.children_ids(&s.root).unwrap(), vec![s.a, s.c]);
    check_links(&s.tree);
    s.tree.remove(s.c, DropSubtree).unwrap();
    assert_eq!(s.tree.children_ids(&s.root).unwrap(), vec![s.a]);
    assert_eq!(pre_order_data(&s.tree), vec![1, 2, 5, 6]);
    check_links(&s.tree);
}

#[test]
fn remove_drop_subtree_of_root_empties_the_tree() {
    let mut s = sample();
    let removed = s.tree.remove(s.root, DropSubtree).unwrap();
    assert_eq!(removed.data(), &1);
    assert_eq!(s.tree.root_node_id(), None);
    assert_eq!(s.tree.free_slot_count(), 7);
    assert_eq!(s.tree.get(&s.root).err(), Some(NodeIdError::HandleInvalid));
    let again = s.tree.insert(OptNode::new(8), AsRoot).unwrap();
    assert_eq!(s.tree.root_node_id(), Some(&again));
    assert_eq!(pre_order_data(&s.tree), vec![8]);
}

#[test]
fn freed_slots_are_reused_last_freed_first() {
    let mut s = sample();
    s.tree.remove(s.a, DropSubtree).unwrap();
    // freed in pre-order: a, d, e; the last one freed is handed out first
    let x = s.tree.insert(OptNode::new(10), UnderNode(&s.root)).unwrap();
    let y = s.tree.insert(OptNode::new(11), UnderNode(&s.root)).unwrap();
    let z = s.tree.insert(OptNode::new(12), UnderNode(&s.root)).unwrap();
    let w = s.tree.insert(OptNode::new(13), UnderNode(&s.root)).unwrap();
    assert_eq!((x, y, z), (s.e, s.d, s.a));
    assert_ne!(w, s.a);
    assert_eq!(s.tree.slot_count(), 8);
    assert_eq!(s.tree.free_slot_count(), 0);
    check_links(&s.tree);
}

#[test]
fn remove_lift_puts_children_in_place() {
    let mut s = sample();
    let removed = s.tree.remove(s.a, LiftChildrenToParent).unwrap();
    assert_eq!(removed.data(), &2);
    assert_eq!(removed.first_child(), None);
    assert_eq!(s.tree.children_ids(&s.root).unwrap(), vec![s.d, s.e, s.b, s.c]);
    assert_eq!(s.tree.get(&s.d).unwrap().parent(), Some(&s.root));
    assert_eq!(s.tree.ancestor_ids(&s.e).unwrap(), vec![s.e, s.root]);
    assert_eq!(pre_order_data(&s.tree), vec![1, 5, 6, 3, 4, 7]);
    assert_eq!(s.tree.free_slot_count(), 1);
    check_links(&s.tree);
}

#[test]
fn remove_lift_of_last_and_middle_child() {
    let mut s = sample();
    s.tree.remove(s.c, LiftChildrenToParent).unwrap();
    assert_eq!(s.tree.children_ids(&s.root).unwrap(), vec![s.a, s.b, s.f]);
    check_links(&s.tree);
    s.tree.remove(s.b, LiftChildrenToParent).unwrap();
    assert_eq!(s.tree.children_ids(&s.root).unwrap(), vec![s.a, s.f]);
    check_links(&s.tree);
    s.tree.remove(s.a, LiftChildrenToParent).unwrap();
    assert_eq!(s.tree.children_ids(&s.root).unwrap(), vec![s.d, s.e, s.f]);
    check_links(&s.tree);
}

#[test]
fn remove_lift_of_root_with_several_children_is_refused() {
    let mut s = sample();
    let before = s.tree.traverse_pre_order_ids(&s.root).unwrap();
    assert_eq!(
        s.tree.remove(s.root, LiftChildrenToParent).err(),
        Some(NodeIdError::InvalidOperation)
    );
    assert_eq!(s.tree.traverse_pre_order_ids(&s.root).unwrap(), before);
    assert_eq!(s.tree.free_slot_count(), 0);
    check_links(&s.tree);
}

#[test]
fn remove_lift_of_root_promotes_only_child() {
    let mut tree: OptTree<i32> = OptTree::new();
    let r = tree.insert(OptNode::new(1), AsRoot).unwrap();
    let c = tree.insert(OptNode::new(2), UnderNode(&r)).unwrap();
    let g = tree.insert(OptNode::new(3), UnderNode(&c)).unwrap();
    tree.remove(r, LiftChildrenToParent).unwrap();
    assert_eq!(tree.root_node_id(), Some(&c));
    assert_eq!(tree.get(&c).unwrap().parent(), None);
    assert_eq!(tree.ancestor_ids(&g).unwrap(), vec![g, c]);
    check_links(&tree);
    tree.remove(g, LiftChildrenToParent).unwrap();
    tree.remove(c, LiftChildrenToParent).unwrap();
    assert_eq!(tree.root_node_id(), None);
    assert_eq!(tree.free_slot_count(), 3);
}

#[test]
fn remove_of_a_stale_handle_is_refused() {
    let mut s = sample();
    s.tree.remove(s.d, DropSubtree).unwrap();
    assert_eq!(s.tree.remove(s.d, DropSubtree).err(), Some(NodeIdError::HandleInvalid));
    assert_eq!(
        s.tree.remove(s.d, LiftChildrenToParent).err(),
        Some(NodeIdError::HandleInvalid)
    );
    assert_eq!(pre_order_data(&s.tree), vec![1, 2, 6, 3, 4, 7]);
}

#[test]
fn removed_leaf_reinserted_restores_the_tree() {
    let mut s = sample();
    let before_pre = s.tree.traverse_pre_order_ids(&s.root).unwrap();
    let before_data = pre_order_data(&s.tree);
    let removed = s.tree.remove(s.e, DropSubtree).unwrap();
    let again = s.tree.insert(OptNode::new(*removed.data()), UnderNode(&s.a)).unwrap();
    assert_eq!(again, s.e);
    assert_eq!(s.tree.traverse_pre_order_ids(&s.root).unwrap(), before_pre);
    assert_eq!(pre_order_data(&s.tree), before_data);
    assert_eq!(s.tree.free_slot_count(), 0);
    check_links(&s.tree);
}

#[test]
fn move_under_appends_to_destination() {
    let mut s = sample();
    assert_eq!(s.tree.move_node(&s.a, ToParent(&s.c)), Ok(()));
    assert_eq!(s.tree.children_ids(&s.root).unwrap(), vec![s.b, s.c]);
    assert_eq!(s.tree.children_ids(&s.c).unwrap(), vec![s.f, s.a]);
    assert_eq!(s.tree.ancestor_ids(&s.d).unwrap(), vec![s.d, s.a, s.c, s.root]);
    assert_eq!(pre_order_data(&s.tree), vec![1, 3, 4, 7, 2, 5, 6]);
    check_links(&s.tree);
}

#[test]
fn move_under_own_parent_moves_to_the_end() {
    let mut s = sample();
    assert_eq!(s.tree.move_node(&s.a, ToParent(&s.root)), Ok(()));
    assert_eq!(s.tree.children_ids(&s.root).unwrap(), vec![s.b, s.c, s.a]);
    check_links(&s.tree);
    assert_eq!(s.tree.move_node(&s.a, ToParent(&s.root)), Ok(()));
    assert_eq!(s.tree.children_ids(&s.root).unwrap(), vec![s.b, s.c, s.a]);
    check_links(&s.tree);
}

#[test]
fn move_into_own_subtree_is_refused() {
    let mut s = sample();
    let before = s.tree.traverse_pre_order_ids(&s.root).unwrap();
    assert_eq!(s.tree.move_node(&s.a, ToParent(&s.e)), Err(NodeIdError::InvalidOperation));
    assert_eq!(s.tree.move_node(&s.a, ToParent(&s.a)), Err(NodeIdError::InvalidOperation));
    assert_eq!(s.tree.move_node(&s.root, ToParent(&s.f)), Err(NodeIdError::InvalidOperation));
    assert_eq!(s.tree.traverse_pre_order_ids(&s.root).unwrap(), before);
    assert_eq!(s.tree.children_ids(&s.a).unwrap(), vec![s.d, s.e]);
    check_links(&s.tree);
}

#[test]
fn move_with_a_stale_handle_is_refused() {
    let mut s = sample();
    s.tree.remove(s.f, DropSubtree).unwrap();
    assert_eq!(s.tree.move_node(&s.f, ToParent(&s.a)), Err(NodeIdError::HandleInvalid));
    assert_eq!(s.tree.move_node(&s.a, ToParent(&s.f)), Err(NodeIdError::HandleInvalid));
    assert_eq!(s.tree.move_node(&s.f, ToRoot), Err(NodeIdError::HandleInvalid));
    assert_eq!(pre_order_data(&s.tree), vec![1, 2, 5, 6, 3, 4]);
}

#[test]
fn move_to_root_hangs_former_root_last() {
    let mut s = sample();
    assert_eq!(s.tree.move_node(&s.a, ToRoot), Ok(()));
    assert_eq!(s.tree.root_node_id(), Some(&s.a));
    assert_eq!(s.tree.get(&s.a).unwrap().parent(), None);
    assert_eq!(s.tree.children_ids(&s.a).unwrap(), vec![s.d, s.e, s.root]);
    assert_eq!(s.tree.children_ids(&s.root).unwrap(), vec![s.b, s.c]);
    assert_eq!(s.tree.ancestor_ids(&s.f).unwrap(), vec![s.f, s.c, s.root, s.a]);
    assert_eq!(pre_order_data(&s.tree), vec![2, 5, 6, 1, 3, 4, 7]);
    check_links(&s.tree);
}

#[test]
fn move_root_to_root_changes_nothing() {
    let mut s = sample();
    assert_eq!(s.tree.move_node(&s.root, ToRoot), Ok(()));
    assert_eq!(pre_order_data(&s.tree), vec![1, 2, 5, 6, 3, 4, 7]);
    check_links(&s.tree);
}

#[test]
fn move_leaf_to_root() {
    let mut s = sample();
    assert_eq!(s.tree.move_node(&s.f, ToRoot), Ok(()));
    assert_eq!(s.tree.children_ids(&s.f).unwrap(), vec![s.root]);
    assert_eq!(s.tree.children_ids(&s.c).unwrap(), Vec::<NodeId>::new());
    assert_eq!(pre_order_data(&s.tree), vec![7, 1, 2, 5, 6, 3, 4]);
    check_links(&s.tree);
}

#[test]
fn replace_data_hands_back_the_old_data() {
    let mut s = sample();
    let node = s.tree.get_mut(&s.b).unwrap();
    assert_eq!(node.replace_data(30), 3);
    assert_eq!(s.tree.get(&s.b).unwrap().data(), &30);
    check_links(&s.tree);
}

#[test]
fn error_messages_differ() {
    assert_ne!(NodeIdError::HandleInvalid.message(), NodeIdError::InvalidOperation.message());
}

#[test]
fn builder_without_root_builds_an_empty_tree() {
    let tree: OptTree<i32> = id_tree::OptTreeBuilder::new().with_node_capacity(4).build();
    assert_eq!(tree.root_node_id(), None);
    assert_eq!(tree.slot_count(), 0);
}

#[test]
fn builder_with_root_puts_it_in_the_first_slot() {
    let tree: OptTree<i32> = id_tree::OptTreeBuilder::new()
        .with_swap_capacity(2)
        .with_root(OptNode::new(5))
        .build();
    let root = *tree.root_node_id().unwrap();
    assert_eq!(tree.slot_count(), 1);
    assert_eq!(tree.free_slot_count(), 0);
    assert_eq!(tree.get(&root).unwrap().data(), &5);
    assert_eq!(tree.children_ids(&root).unwrap(), Vec::<NodeId>::new());
    assert_eq!(tree.ancestor_ids(&root).unwrap(), vec![root]);
}

#[test]
fn handles_compare_by_slot() {
    let s = sample();
    assert!(s.root < s.a);
    assert!(s.a < s.b);
    assert!(s.e < s.f);
    assert_eq!(s.d, s.d.clone());
    assert_ne!(s.d, s.e);
    let mut sorted = vec![s.f, s.b, s.root, s.e];
    sorted.sort();
    assert_eq!(sorted, vec![s.root, s.b, s.e, s.f]);
}

#[test]
fn a_new_node_is_linked_to_nothing() {
    let mut node = OptNode::new(4);
    assert_eq!(node.data(), &4);
    assert_eq!(node.parent(), None);
    assert_eq!(node.first_child(), None);
    assert_eq!(node.last_child(), None);
    assert_eq!(node.prev_sibling(), None);
    assert_eq!(node.next_sibling(), None);
    *node.data_mut() = 9;
    assert_eq!(node.replace_data(1), 9);
    assert_eq!(node.data(), &1);
}

#[test]
fn insert_as_root_into_empty_tree() {
    let mut tree: OptTree<i32> = OptTree::new();
    let r = tree.insert(OptNode::new(3), AsRoot).unwrap();
    assert_eq!(tree.root_node_id(), Some(&r));
    assert_eq!(tree.get(&r).unwrap().parent(), None);
    assert_eq!(tree.get(&r).unwrap().first_child(), None);
    assert_eq!(tree.get(&r).unwrap().last_child(), None);
    assert_eq!(tree.slot_count(), 1);
}

#[test]
fn removed_handle_stays_invalid_until_its_slot_is_reused() {
    let mut s = sample();
    s.tree.remove(s.f, DropSubtree).unwrap();
    assert_eq!(s.tree.get(&s.f).err(), Some(NodeIdError::HandleInvalid));
    assert_eq!(s.tree.get(&s.f).err(), Some(NodeIdError::HandleInvalid));
    let again = s.tree.insert(OptNode::new(70), UnderNode(&s.b)).unwrap();
    assert_eq!(again, s.f);
    assert_eq!(s.tree.get(&again).unwrap().data(), &70);
    assert_eq!(s.tree.get(&again).unwrap().parent(), Some(&s.b));
}
