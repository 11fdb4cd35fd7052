use id_tree::InsertBehavior::{AsRoot, UnderNode};
use id_tree::{NodeId, OptNode, OptTree, OptTreeBuilder};

fn new_tree() -> (NodeId, OptTree<i32>) {
    let tree = OptTreeBuilder::new()
        .with_root(OptNode::new(1))
        .with_node_capacity(2usize)
        .with_swap_capacity(3usize)
        .build();

    (tree.root_node_id().cloned().unwrap(), tree)
}

#[test]
fn new() {
    let tree: OptTree<i32> = OptTree::new();

    assert_eq!(tree.root_node_id(), None);
    assert_eq!(tree.slot_count(), 0);
    assert_eq!(tree.free_slot_count(), 0);
}

#[test]
fn get() {
    let (root_id, tree) = new_tree();

    let root = tree.get(&root_id).unwrap();

    assert_eq!(root.data(), &1);
}

#[test]
fn get_mut() {
    let (root_id, mut tree) = new_tree();

    {
        let root = tree.get(&root_id).unwrap();
        assert_eq!(root.data(), &1);
    }

    {
        let root = tree.get_mut(&root_id).unwrap();
        assert_eq!(root.data(), &1);
        *root.data_mut() = 6;
        assert_eq!(root.data(), &6);
    }

    let root = tree.get(&root_id).unwrap();
    assert_eq!(root.data(), &6);
}

#[test]
fn get_unchecked() {
    let (root_id, tree) = new_tree();

    let root = tree.get_unchecked(&root_id);

    assert_eq!(root.data(), &1);
}

#[test]
fn get_unchecked_mut() {
    let (root_id, mut tree) = new_tree();

    {
        let root = tree.get_unchecked(&root_id);
        assert_eq!(root.data(), &1);
    }

    {
        let root = tree.get_unchecked_mut(&root_id);
        assert_eq!(root.data(), &1);
        *root.data_mut() = 6;
        assert_eq!(root.data(), &6);
    }

    let root = tree.get_unchecked(&root_id);
    assert_eq!(root.data(), &6);
}

#[test]
fn insert() {
    let (root_id, mut tree) = new_tree();

    assert_eq!(tree.get(&root_id).unwrap().parent(), None);
    assert_eq!(tree.get(&root_id).unwrap().first_child(), None);
    assert_eq!(tree.get(&root_id).unwrap().last_child(), None);
    assert_eq!(tree.get(&root_id).unwrap().prev_sibling(), None);
    assert_eq!(tree.get(&root_id).unwrap().next_sibling(), None);

    let child_1 = tree.insert(OptNode::new(2), UnderNode(&root_id)).unwrap();

    assert_eq!(tree.get(&root_id).unwrap().parent(), None);
    assert_eq!(tree.get(&root_id).unwrap().first_child(), Some(&child_1));
    assert_eq!(tree.get(&root_id).unwrap().last_child(), Some(&child_1));
    assert_eq!(tree.get(&root_id).unwrap().prev_sibling(), None);
    assert_eq!(tree.get(&root_id).unwrap().next_sibling(), None);

    assert_eq!(tree.get(&child_1).unwrap().parent(), Some(&root_id));
    assert_eq!(tree.get(&child_1).unwrap().first_child(), None);
    assert_eq!(tree.get(&child_1).unwrap().last_child(), None);
    assert_eq!(tree.get(&child_1).unwrap().prev_sibling(), None);
    assert_eq!(tree.get(&child_1).unwrap().next_sibling(), None);

    let child_2 = tree.insert(OptNode::new(3), UnderNode(&root_id)).unwrap();

    assert_eq!(tree.get(&root_id).unwrap().parent(), None);
    assert_eq!(tree.get(&root_id).unwrap().first_child(), Some(&child_1));
    assert_eq!(tree.get(&root_id).unwrap().last_child(), Some(&child_2));
    assert_eq!(tree.get(&root_id).unwrap().prev_sibling(), None);
    assert_eq!(tree.get(&root_id).unwrap().next_sibling(), None);

    assert_eq!(tree.get(&child_1).unwrap().parent(), Some(&root_id));
    assert_eq!(tree.get(&child_1).unwrap().first_child(), None);
    assert_eq!(tree.get(&child_1).unwrap().last_child(), None);
    assert_eq!(tree.get(&child_1).unwrap().prev_sibling(), None);
    assert_eq!(tree.get(&child_1).unwrap().next_sibling(), Some(&child_2));

    assert_eq!(tree.get(&child_2).unwrap().parent(), Some(&root_id));
    assert_eq!(tree.get(&child_2).unwrap().first_child(), None);
    assert_eq!(tree.get(&child_2).unwrap().last_child(), None);
    assert_eq!(tree.get(&child_2).unwrap().prev_sibling(), Some(&child_1));
    assert_eq!(tree.get(&child_2).unwrap().next_sibling(), None);

    let new_root = tree.insert(OptNode::new(0), AsRoot).unwrap();
    let old_root = root_id;

    assert_eq!(tree.get(&old_root).unwrap().parent(), Some(&new_root));
    assert_eq!(tree.get(&old_root).unwrap().first_child(), Some(&child_1));
    assert_eq!(tree.get(&old_root).unwrap().last_child(), Some(&child_2));
    assert_eq!(tree.get(&old_root).unwrap().prev_sibling(), None);
    assert_eq!(tree.get(&old_root).unwrap().next_sibling(), None);

    assert_eq!(tree.get(&new_root).unwrap().parent(), None);
    assert_eq!(tree.get(&new_root).unwrap().first_child(), Some(&old_root));
    assert_eq!(tree.get(&new_root).unwrap().last_child(), Some(&old_root));
    assert_eq!(tree.get(&new_root).unwrap().prev_sibling(), None);
    assert_eq!(tree.get(&new_root).unwrap().next_sibling(), None);

    assert_eq!(tree.get(&child_1).unwrap().parent(), Some(&old_root));
    assert_eq!(tree.get(&child_1).unwrap().first_child(), None);
    assert_eq!(tree.get(&child_1).unwrap().last_child(), None);
    assert_eq!(tree.get(&child_1).unwrap().prev_sibling(), None);
    assert_eq!(tree.get(&child_1).unwrap().next_sibling(), Some(&child_2));

    assert_eq!(tree.get(&child_2).unwrap().parent(), Some(&old_root));
    assert_eq!(tree.get(&child_2).unwrap().first_child(), None);
    assert_eq!(tree.get(&child_2).unwrap().last_child(), None);
    assert_eq!(tree.get(&child_2).unwrap().prev_sibling(), Some(&child_1));
    assert_eq!(tree.get(&child_2).unwrap().next_sibling(), None);
}
