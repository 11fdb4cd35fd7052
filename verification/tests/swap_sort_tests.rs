use id_tree::InsertBehavior::{AsRoot, UnderNode};
use id_tree::SwapBehavior::{SwapDataOnly, SwapSubtrees};
use id_tree::{NodeId, NodeIdError, OptNode, OptTree};

//        1
//      / | \
//     2  3  4
//    / \    |
//   5   6   7
fn build() -> (OptTree<i32>, Vec<NodeId>) {
    let mut tree: OptTree<i32> = OptTree::new();
    let root = tree.insert(OptNode::new(1), AsRoot).unwrap();
    let a = tree.insert(OptNode::new(2), UnderNode(&root)).unwrap();
    let b = tree.insert(OptNode::new(3), UnderNode(&root)).unwrap();
    let c = tree.insert(OptNode::new(4), UnderNode(&root)).unwrap();
    let d = tree.insert(OptNode::new(5), UnderNode(&a)).unwrap();
    let e = tree.insert(OptNode::new(6), UnderNode(&a)).unwrap();
    let f = tree.insert(OptNode::new(7), UnderNode(&c)).unwrap();
    (tree, vec![root, a, b, c, d, e, f])
}

fn pre_order(tree: &OptTree<i32>) -> Vec<i32> {
    let root = *tree.root_node_id().unwrap();
    let mut walk = tree.traverse_pre_order(&root).unwrap();
    let mut out = Vec::new();
    while let Some(n) = walk.next() {
        out.push(*n.data());
    }
    out
}

fn children_data(tree: &OptTree<i32>, id: &NodeId) -> Vec<i32> {
    let mut walk = tree.children(id).unwrap();
    let mut out = Vec::new();
    while let Some(n) = walk.next() {
        out.push(*n.data());
    }
    out
}

fn links_agree(tree: &OptTree<i32>) {
    let root = *tree.root_node_id().unwrap();
    assert_eq!(tree.get(&root).unwrap().parent(), None);
    for id in tree.traverse_level_order_ids(&root).unwrap() {
        let node = tree.get(&id).unwrap();
        let children = tree.children_ids(&id).unwrap();
        assert_eq!(node.first_child(), children.first());
        assert_eq!(node.last_child(), children.last());
        let mut back = Vec::new();
        let mut cur = node.last_child().cloned();
        while let Some(c) = cur {
            back.push(c);
            cur = tree.get(&c).unwrap().prev_sibling().cloned();
        }
        back.reverse();
        assert_eq!(back, children);
        for c in &children {
            assert_eq!(tree.get(c).unwrap().parent(), Some(&id));
            assert_eq!(tree.ancestor_ids(c).unwrap()[1], id);
        }
    }
}

#[test]
fn swap_data_only_exchanges_data() {
    let (mut tree, ids) = build();
    assert_eq!(tree.swap_nodes(&ids[1], &ids[6], SwapDataOnly), Ok(()));
    assert_eq!(tree.get(&ids[1]).unwrap().data(), &7);
    assert_eq!(tree.get(&ids[6]).unwrap().data(), &2);
    assert_eq!(tree.children_ids(&ids[1]).unwrap(), vec![ids[4], ids[5]]);
    assert_eq!(tree.get(&ids[6]).unwrap().parent(), Some(&ids[3]));
    assert_eq!(pre_order(&tree), vec![1, 7, 5, 6, 3, 4, 2]);
    links_agree(&tree);
}

#[test]
fn swap_data_only_of_ancestor_and_descendant() {
    let (mut tree, ids) = build();
    assert_eq!(tree.swap_nodes(&ids[0], &ids[4], SwapDataOnly), Ok(()));
    assert_eq!(pre_order(&tree), vec![5, 2, 1, 6, 3, 4, 7]);
    assert_eq!(tree.swap_nodes(&ids[2], &ids[2], SwapDataOnly), Ok(()));
    assert_eq!(pre_order(&tree), vec![5, 2, 1, 6, 3, 4, 7]);
    links_agree(&tree);
}

#[test]
fn swap_subtrees_exchanges_places() {
    let (mut tree, ids) = build();
    // b (a leaf, second child of the root) and d (first child of a)
    assert_eq!(tree.swap_nodes(&ids[2], &ids[4], SwapSubtrees), Ok(()));
    assert_eq!(tree.children_ids(&ids[0]).unwrap(), vec![ids[1], ids[4], ids[3]]);
    assert_eq!(tree.children_ids(&ids[1]).unwrap(), vec![ids[2], ids[5]]);
    assert_eq!(tree.get(&ids[2]).unwrap().parent(), Some(&ids[1]));
    assert_eq!(tree.get(&ids[4]).unwrap().parent(), Some(&ids[0]));
    assert_eq!(tree.get(&ids[2]).unwrap().data(), &3);
    assert_eq!(tree.get(&ids[4]).unwrap().data(), &5);
    assert_eq!(pre_order(&tree), vec![1, 2, 3, 6, 5, 4, 7]);
    links_agree(&tree);
}

#[test]
fn swap_subtrees_hands_over_the_children() {
    let (mut tree, ids) = build();
    // a has the children d and e, c has the child f
    assert_eq!(tree.swap_nodes(&ids[1], &ids[3], SwapSubtrees), Ok(()));
    assert_eq!(tree.children_ids(&ids[0]).unwrap(), vec![ids[3], ids[2], ids[1]]);
    assert_eq!(tree.children_ids(&ids[3]).unwrap(), vec![ids[4], ids[5]]);
    assert_eq!(tree.children_ids(&ids[1]).unwrap(), vec![ids[6]]);
    assert_eq!(tree.get(&ids[4]).unwrap().parent(), Some(&ids[3]));
    assert_eq!(tree.get(&ids[6]).unwrap().parent(), Some(&ids[1]));
    assert_eq!(tree.ancestor_ids(&ids[6]).unwrap(), vec![ids[6], ids[1], ids[0]]);
    assert_eq!(pre_order(&tree), vec![1, 4, 5, 6, 3, 2, 7]);
    links_agree(&tree);
}

#[test]
fn swap_subtrees_of_neighbouring_siblings() {
    let (mut tree, ids) = build();
    assert_eq!(tree.swap_nodes(&ids[1], &ids[2], SwapSubtrees), Ok(()));
    assert_eq!(tree.children_ids(&ids[0]).unwrap(), vec![ids[2], ids[1], ids[3]]);
    assert_eq!(tree.children_ids(&ids[2]).unwrap(), vec![ids[4], ids[5]]);
    assert_eq!(tree.children_ids(&ids[1]).unwrap(), Vec::<NodeId>::new());
    links_agree(&tree);
    assert_eq!(tree.swap_nodes(&ids[4], &ids[5], SwapSubtrees), Ok(()));
    assert_eq!(tree.children_ids(&ids[2]).unwrap(), vec![ids[5], ids[4]]);
    assert_eq!(pre_order(&tree), vec![1, 3, 6, 5, 2, 4, 7]);
    links_agree(&tree);
}

#[test]
fn swap_subtrees_of_a_node_with_itself_changes_nothing() {
    let (mut tree, ids) = build();
    assert_eq!(tree.swap_nodes(&ids[1], &ids[1], SwapSubtrees), Ok(()));
    assert_eq!(pre_order(&tree), vec![1, 2, 5, 6, 3, 4, 7]);
    links_agree(&tree);
}

#[test]
fn swap_subtrees_of_ancestor_and_descendant_is_refused() {
    let (mut tree, ids) = build();
    let before = tree.traverse_pre_order_ids(&ids[0]).unwrap();
    assert_eq!(
        tree.swap_nodes(&ids[1], &ids[4], SwapSubtrees),
        Err(NodeIdError::InvalidOperation)
    );
    assert_eq!(
        tree.swap_nodes(&ids[6], &ids[0], SwapSubtrees),
        Err(NodeIdError::InvalidOperation)
    );
    assert_eq!(tree.traverse_pre_order_ids(&ids[0]).unwrap(), before);
    assert_eq!(pre_order(&tree), vec![1, 2, 5, 6, 3, 4, 7]);
    links_agree(&tree);
}

#[test]
fn swap_with_a_stale_handle_is_refused() {
    let (mut tree, ids) = build();
    tree.remove(ids[6], id_tree::RemoveBehavior::DropSubtree).unwrap();
    assert_eq!(
        tree.swap_nodes(&ids[6], &ids[1], SwapDataOnly),
        Err(NodeIdError::HandleInvalid)
    );
    assert_eq!(
        tree.swap_nodes(&ids[1], &ids[6], SwapSubtrees),
        Err(NodeIdError::HandleInvalid)
    );
    assert_eq!(pre_order(&tree), vec![1, 2, 5, 6, 3, 4]);
}

fn unsorted() -> (OptTree<i32>, NodeId, Vec<NodeId>) {
    let mut tree: OptTree<i32> = OptTree::new();
    let root = tree.insert(OptNode::new(0), AsRoot).unwrap();
    let mut ids = Vec::new();
    for v in [50, 21, 40, 20, 41, 10] {
        ids.push(tree.insert(OptNode::new(v), UnderNode(&root)).unwrap());
    }
    let below = tree.insert(OptNode::new(99), UnderNode(&ids[0])).unwrap();
    ids.push(below);
    (tree, root, ids)
}

#[test]
fn sort_children_by_comparator() {
    let (mut tree, root, ids) = unsorted();
    assert_eq!(tree.sort_children_by(&root, |a, b| a.data().cmp(b.data())), Ok(()));
    assert_eq!(children_data(&tree, &root), vec![10, 20, 21, 40, 41, 50]);
    assert_eq!(
        tree.children_ids(&root).unwrap(),
        vec![ids[5], ids[3], ids[1], ids[2], ids[4], ids[0]]
    );
    assert_eq!(tree.children_ids(&ids[0]).unwrap(), vec![ids[6]]);
    links_agree(&tree);
    assert_eq!(tree.sort_children_by(&root, |a, b| b.data().cmp(a.data())), Ok(()));
    assert_eq!(children_data(&tree, &root), vec![50, 41, 40, 21, 20, 10]);
    links_agree(&tree);
}

#[test]
fn sort_children_by_comparator_is_stable() {
    let (mut tree, root, ids) = unsorted();
    // compare by tens only: 50 | 21 40 20 41 | 10 have ties among 20s and 40s
    assert_eq!(
        tree.sort_children_by(&root, |a, b| (a.data() / 10).cmp(&(b.data() / 10))),
        Ok(())
    );
    assert_eq!(children_data(&tree, &root), vec![10, 21, 20, 40, 41, 50]);
    assert_eq!(
        tree.children_ids(&root).unwrap(),
        vec![ids[5], ids[1], ids[3], ids[2], ids[4], ids[0]]
    );
    links_agree(&tree);
}

#[test]
fn sort_children_by_key_is_stable() {
    let (mut tree, root, _ids) = unsorted();
    assert_eq!(tree.sort_children_by_key(&root, |n| n.data() % 10), Ok(()));
    // keys: 50->0 21->1 40->0 20->0 41->1 10->0
    assert_eq!(children_data(&tree, &root), vec![50, 40, 20, 10, 21, 41]);
    links_agree(&tree);
    assert_eq!(tree.sort_children_by_key(&root, |n| -n.data()), Ok(()));
    assert_eq!(children_data(&tree, &root), vec![50, 41, 40, 21, 20, 10]);
    links_agree(&tree);
}

#[test]
fn sort_children_by_data_sorts_ascending() {
    let (mut tree, root, ids) = unsorted();
    assert_eq!(tree.sort_children_by_data(&root), Ok(()));
    assert_eq!(children_data(&tree, &root), vec![10, 20, 21, 40, 41, 50]);
    assert_eq!(pre_order(&tree), vec![0, 10, 20, 21, 40, 41, 50, 99]);
    links_agree(&tree);
    // a leaf and a node with one child have nothing to reorder
    assert_eq!(tree.sort_children_by_data(&ids[6]), Ok(()));
    assert_eq!(tree.sort_children_by_data(&ids[0]), Ok(()));
    assert_eq!(tree.children_ids(&ids[0]).unwrap(), vec![ids[6]]);
    links_agree(&tree);
}

#[test]
fn sort_with_a_stale_handle_is_refused() {
    let (mut tree, root, ids) = unsorted();
    tree.remove(ids[0], id_tree::RemoveBehavior::DropSubtree).unwrap();
    assert_eq!(tree.sort_children_by_data(&ids[0]), Err(NodeIdError::HandleInvalid));
    assert_eq!(tree.sort_children_by_data(&ids[6]), Err(NodeIdError::HandleInvalid));
    assert_eq!(
        tree.sort_children_by(&ids[0], |a, b| a.data().cmp(b.data())),
        Err(NodeIdError::HandleInvalid)
    );
    assert_eq!(
        tree.sort_children_by_key(&ids[0], |n| *n.data()),
        Err(NodeIdError::HandleInvalid)
    );
    assert_eq!(children_data(&tree, &root), vec![21, 40, 20, 41, 10]);
}
