use boba::tree::{GetParentError, Node, NodeTree, SetParentError};

#[test]
fn add_node() {
    let mut tree = NodeTree::<u32>::new();
    let node1 = tree.insert(42);
    assert!(tree.contains(node1));
    assert_eq!(tree.get(node1), Some(&42));
}

#[test]
fn remove_node() {
    let mut tree = NodeTree::<u32>::new();
    let node1 = tree.insert(42);
    assert_eq!(tree.remove(node1), Some(42));
}

#[test]
fn tree_inserts() {
    // tree structure
    //
    //       / leaf1
    // root -
    //       \ stem - leaf2

    let mut tree = NodeTree::<&'static str>::new();
    let root = tree.insert("root");
    let leaf1 = tree.insert_with_parent("leaf1", root);
    let stem = tree.insert("stem");
    tree.set_parent(stem, Some(root)).unwrap();
    let leaf2 = tree.insert_with_parent("leaf2", stem);

    // test parent links
    assert_eq!(tree.parent_of(root), Err(GetParentError::NoParent));
    assert_eq!(tree.parent_of(leaf1), Ok(root));
    assert_eq!(tree.parent_of(stem), Ok(root));
    assert_eq!(tree.parent_of(leaf2), Ok(stem));

    // test child links
    let root_list = tree.children_of(root).unwrap();
    let mut root_children = root_list.iter();
    assert_eq!(root_children.next(), Some(&leaf1));
    assert_eq!(root_children.next(), Some(&stem));
    assert_eq!(root_children.next(), None);
    let stem_list = tree.children_of(stem).unwrap();
    let mut stem_children = stem_list.iter();
    assert_eq!(stem_children.next(), Some(&leaf2));
    assert_eq!(stem_children.next(), None);
    assert_eq!(tree.children_of(leaf1).unwrap().iter().next(), None);
    assert_eq!(tree.children_of(leaf2).unwrap().iter().next(), None);
}

#[test]
fn tree_removals() {
    // tree structure
    //
    //       / leaf1
    // root -
    //       \        / leaf2
    //        \ stem -
    //                \ leaf3

    let mut tree = NodeTree::<&'static str>::new();
    let root = tree.insert("root");
    let leaf1 = tree.insert_with_parent("leaf1", root);
    let stem = tree.insert_with_parent("stem", root);
    let leaf2 = tree.insert_with_parent("leaf2", stem);
    let leaf3 = tree.insert_with_parent("leaf3", stem);

    // remove the stem
    assert_eq!(tree.remove(stem), Some("stem"));
    assert!(!tree.contains(stem));

    // tree structure
    //
    //        / leaf1
    //       /
    // root --- leaf2
    //       \
    //        \ leaf3

    // check if parents were transferred
    assert_eq!(tree.parent_of(root), Err(GetParentError::NoParent));
    assert_eq!(tree.parent_of(leaf1), Ok(root));
    assert_eq!(tree.parent_of(leaf2), Ok(root));
    assert_eq!(tree.parent_of(leaf3), Ok(root));

    // check if children were transferred
    let root_list = tree.children_of(root).unwrap();
    let mut root_children = root_list.iter();
    assert_eq!(root_children.next(), Some(&leaf1));
    assert_eq!(root_children.next(), Some(&leaf2));
    assert_eq!(root_children.next(), Some(&leaf3));
    assert_eq!(root_children.next(), None);
    assert_eq!(tree.children_of(leaf1).unwrap().iter().next(), None);
    assert_eq!(tree.children_of(leaf2).unwrap().iter().next(), None);
    assert_eq!(tree.children_of(leaf3).unwrap().iter().next(), None);
    drop(root_children);

    // remove the root
    assert_eq!(tree.remove(root), Some("root"));
    assert!(!tree.contains(root));

    // tree structure
    //
    // - leaf1
    // - leaf2
    // - leaf3

    // check if parents were transferred
    assert_eq!(tree.parent_of(leaf1), Err(GetParentError::NoParent));
    assert_eq!(tree.parent_of(leaf2), Err(GetParentError::NoParent));
    assert_eq!(tree.parent_of(leaf3), Err(GetParentError::NoParent));

    // double check children
    assert_eq!(tree.children_of(leaf1).unwrap().iter().next(), None);
    assert_eq!(tree.children_of(leaf2).unwrap().iter().next(), None);
    assert_eq!(tree.children_of(leaf3).unwrap().iter().next(), None);
}

#[test]
fn re_parent() {
    // tree structure
    //
    //       / leaf1
    // root -
    //       \        / leaf2
    //        \ stem -
    //                \ leaf3

    let mut tree = NodeTree::<&'static str>::new();
    let root = tree.insert("root");
    let leaf1 = tree.insert_with_parent("leaf1", root);
    let stem = tree.insert_with_parent("stem", root);
    let leaf2 = tree.insert_with_parent("leaf2", stem);
    let leaf3 = tree.insert_with_parent("leaf3", stem);

    // reparent stem to the leaf1 node
    assert!(tree.set_parent(stem, Some(leaf1)).is_ok());

    // tree structure
    //
    //                      / leaf2
    // root - leaf1 - stem -
    //                      \ leaf3

    // check if parents were transferred
    assert_eq!(tree.parent_of(root), Err(GetParentError::NoParent));
    assert_eq!(tree.parent_of(leaf1), Ok(root));
    assert_eq!(tree.parent_of(stem), Ok(leaf1));
    assert_eq!(tree.parent_of(leaf2), Ok(stem));
    assert_eq!(tree.parent_of(leaf3), Ok(stem));

    // check if children were transferred
    let root_list = tree.children_of(root).unwrap();
    let mut root_children = root_list.iter();
    assert_eq!(root_children.next(), Some(&leaf1));
    assert_eq!(root_children.next(), None);
    let leaf1_list = tree.children_of(leaf1).unwrap();
    let mut leaf1_children = leaf1_list.iter();
    assert_eq!(leaf1_children.next(), Some(&stem));
    assert_eq!(leaf1_children.next(), None);
    let stem_list = tree.children_of(stem).unwrap();
    let mut stem_children = stem_list.iter();
    assert_eq!(stem_children.next(), Some(&leaf2));
    assert_eq!(stem_children.next(), Some(&leaf3));
    assert_eq!(stem_children.next(), None);
    assert_eq!(tree.children_of(leaf2).unwrap().iter().next(), None);
    assert_eq!(tree.children_of(leaf3).unwrap().iter().next(), None);
}

#[test]
fn recursive_reparent() {
    // tree structure
    //
    //       / leaf1
    // root -
    //       \        / leaf2
    //        \ stem -
    //                \ leaf3 -
    //                         \ leaf4

    let mut tree = NodeTree::<&'static str>::new();
    let root = tree.insert("root");
    let leaf1 = tree.insert_with_parent("leaf1", root);
    let stem = tree.insert_with_parent("stem", root);
    let leaf2 = tree.insert_with_parent("leaf2", stem);
    let leaf3 = tree.insert_with_parent("leaf3", stem);
    let leaf4 = tree.insert_with_parent("leaf4", leaf3);

    // set stem parent to leaf3 making a recursive loop
    assert!(tree.set_parent(stem, Some(leaf3)).is_ok());

    // tree structure
    //
    //       / leaf1
    // root -
    //       \         / leaf4
    //        \ leaf3 -
    //                 \ stem -
    //                         \ leaf2

    // check if parents were transferred
    assert_eq!(tree.parent_of(root), Err(GetParentError::NoParent));
    assert_eq!(tree.parent_of(leaf1), Ok(root));
    assert_eq!(tree.parent_of(leaf3), Ok(root));
    assert_eq!(tree.parent_of(leaf4), Ok(leaf3));
    assert_eq!(tree.parent_of(stem), Ok(leaf3));
    assert_eq!(tree.parent_of(leaf2), Ok(stem));

    // check if children were transferred
    let root_list = tree.children_of(root).unwrap();
    let mut root_children = root_list.iter();
    assert_eq!(root_children.next(), Some(&leaf1));
    assert_eq!(root_children.next(), Some(&leaf3));
    assert_eq!(root_children.next(), None);
    let leaf3_list = tree.children_of(leaf3).unwrap();
    let mut leaf3_children = leaf3_list.iter();
    assert_eq!(leaf3_children.next(), Some(&leaf4));
    assert_eq!(leaf3_children.next(), Some(&stem));
    assert_eq!(leaf3_children.next(), None);
    let stem_list = tree.children_of(stem).unwrap();
    let mut stem_children = stem_list.iter();
    assert_eq!(stem_children.next(), Some(&leaf2));
    assert_eq!(stem_children.next(), None);
    assert_eq!(tree.children_of(leaf1).unwrap().iter().next(), None);
    assert_eq!(tree.children_of(leaf4).unwrap().iter().next(), None);
    assert_eq!(tree.children_of(leaf2).unwrap().iter().next(), None);
}

fn children(tree: &NodeTree<&'static str>, node: Node<&'static str>) -> Vec<Node<&'static str>> {
    tree.children_of(node).unwrap()
}

fn is_own_ancestor(tree: &NodeTree<&'static str>, node: Node<&'static str>) -> bool {
    let mut current = node;
    let mut steps = 0;
    while let Ok(parent) = tree.parent_of(current) {
        if parent == node || steps > 100 {
            return true;
        }
        current = parent;
        steps += 1;
    }
    false
}

#[test]
fn scenario_reparent_under_sibling() {
    let mut tree = NodeTree::<&'static str>::new();
    let root = tree.insert("root");
    let leaf1 = tree.insert_with_parent("leaf1", root);
    let stem = tree.insert_with_parent("stem", root);
    let leaf2 = tree.insert_with_parent("leaf2", stem);
    assert_eq!(tree.set_parent(stem, Some(leaf1)), Ok(()));
    assert_eq!(children(&tree, root), vec![leaf1]);
    assert_eq!(children(&tree, leaf1), vec![stem]);
    assert_eq!(children(&tree, stem), vec![leaf2]);
    assert_eq!(tree.parent_of(stem), Ok(leaf1));
}

#[test]
fn scenario_cycle_is_broken() {
    let mut tree = NodeTree::<&'static str>::new();
    let root = tree.insert("root");
    let leaf1 = tree.insert_with_parent("leaf1", root);
    let stem = tree.insert_with_parent("stem", root);
    let leaf2 = tree.insert_with_parent("leaf2", stem);
    let leaf3 = tree.insert_with_parent("leaf3", stem);
    let leaf4 = tree.insert_with_parent("leaf4", leaf3);
    assert_eq!(tree.set_parent(stem, Some(leaf3)), Ok(()));
    assert_eq!(children(&tree, root), vec![leaf1, leaf3]);
    assert_eq!(children(&tree, leaf3), vec![leaf4, stem]);
    assert_eq!(children(&tree, stem), vec![leaf2]);
    for node in [root, leaf1, stem, leaf2, leaf3, leaf4] {
        assert!(!is_own_ancestor(&tree, node));
    }
}

#[test]
fn cycle_through_grandchild_moves_the_branch_to_the_root_level() {
    // a - b - c, then a is put under c: b takes the place of a
    let mut tree = NodeTree::<&'static str>::new();
    let a = tree.insert("a");
    let b = tree.insert_with_parent("b", a);
    let c = tree.insert_with_parent("c", b);
    assert_eq!(tree.set_parent(a, Some(c)), Ok(()));
    assert_eq!(tree.parent_of(b), Err(GetParentError::NoParent));
    assert_eq!(tree.parent_of(c), Ok(b));
    assert_eq!(tree.parent_of(a), Ok(c));
    assert_eq!(children(&tree, a), vec![]);
    assert_eq!(children(&tree, c), vec![a]);
    assert_eq!(children(&tree, b), vec![c]);
    for node in [a, b, c] {
        assert!(!is_own_ancestor(&tree, node));
    }
}

#[test]
fn node_under_itself_stays_where_it_was() {
    let mut tree = NodeTree::<&'static str>::new();
    let root = tree.insert("root");
    let first = tree.insert_with_parent("first", root);
    let second = tree.insert_with_parent("second", root);
    assert_eq!(tree.set_parent(first, Some(first)), Ok(()));
    assert_eq!(tree.parent_of(first), Ok(root));
    assert_eq!(children(&tree, first), vec![]);
    // the node left its parent's children and joined them again at the end
    assert_eq!(children(&tree, root), vec![second, first]);
    assert!(!is_own_ancestor(&tree, first));
}

#[test]
fn unparent_makes_a_root() {
    let mut tree = NodeTree::<&'static str>::new();
    let root = tree.insert("root");
    let a = tree.insert_with_parent("a", root);
    let b = tree.insert_with_parent("b", root);
    let c = tree.insert_with_parent("c", root);
    assert_eq!(tree.set_parent(a, None), Ok(()));
    assert_eq!(tree.parent_of(a), Err(GetParentError::NoParent));
    // the last child took the place of the one that left
    assert_eq!(children(&tree, root), vec![c, b]);
}

#[test]
fn set_parent_rejects_what_is_not_in_the_tree() {
    let mut tree = NodeTree::<&'static str>::new();
    let root = tree.insert("root");
    let leaf = tree.insert_with_parent("leaf", root);
    let gone = tree.insert("gone");
    assert_eq!(tree.remove(gone), Some("gone"));
    assert_eq!(tree.set_parent(leaf, Some(gone)), Err(SetParentError::InvalidParent));
    assert_eq!(tree.set_parent(gone, Some(root)), Err(SetParentError::InvalidChild));
    assert_eq!(tree.set_parent(gone, None), Err(SetParentError::InvalidChild));
    // both nodes missing: the parent is looked at first
    assert_eq!(tree.set_parent(gone, Some(gone)), Err(SetParentError::InvalidParent));
    assert_eq!(tree.parent_of(gone), Err(GetParentError::InvalidNode));
    assert_eq!(tree.parent_of(leaf), Ok(root));
    assert_eq!(children(&tree, root), vec![leaf]);
    assert!(tree.children_of(gone).is_none());
    assert_eq!(tree.get(gone), None);
}

#[test]
fn insert_with_missing_parent_makes_a_root() {
    let mut tree = NodeTree::<&'static str>::new();
    let gone = tree.insert("gone");
    tree.remove(gone);
    let node = tree.insert_with_parent("node", gone);
    assert_eq!(tree.parent_of(node), Err(GetParentError::NoParent));
    assert!(tree.contains(node));
}

#[test]
fn tree_data_can_be_changed_in_place() {
    let mut tree = NodeTree::<u32>::new();
    let root = tree.insert(1);
    let leaf = tree.insert_with_parent(2, root);
    *tree.get_mut(leaf).unwrap() = 20;
    assert_eq!(tree.get(leaf), Some(&20));
    assert_eq!(tree.get(root), Some(&1));
    assert_eq!(tree.parent_of(leaf), Ok(root));
    assert!(tree.has_room());
}

#[test]
fn arbitrary_reparenting_never_closes_a_loop() {
    let mut tree = NodeTree::<&'static str>::new();
    let mut nodes = Vec::new();
    for _ in 0..7 {
        nodes.push(tree.insert("n"));
    }
    // a fixed walk through pairs of nodes, loops included
    let mut seed: usize = 12345;
    for _ in 0..500 {
        seed = seed.wrapping_mul(1103515245).wrapping_add(12345) % 2147483648;
        let child = nodes[(seed / 7) % 7];
        let parent = nodes[(seed / 49) % 7];
        assert_eq!(tree.set_parent(child, Some(parent)), Ok(()));
        for &node in nodes.iter() {
            assert!(!is_own_ancestor(&tree, node));
            // parent and child links agree
            if let Ok(above) = tree.parent_of(node) {
                assert!(children(&tree, above).contains(&node));
            }
            for below in children(&tree, node) {
                assert_eq!(tree.parent_of(below), Ok(node));
            }
        }
    }
}

#[test]
fn subtree_lists_each_node_after_its_parent() {
    let mut tree = NodeTree::<&'static str>::new();
    let root = tree.insert("root");
    let leaf1 = tree.insert_with_parent("leaf1", root);
    let stem = tree.insert_with_parent("stem", root);
    let leaf2 = tree.insert_with_parent("leaf2", stem);
    let leaf3 = tree.insert_with_parent("leaf3", leaf1);
    let other = tree.insert("other");
    assert_eq!(tree.subtree(root), vec![root, leaf1, stem, leaf3, leaf2]);
    assert_eq!(tree.subtree(stem), vec![stem, leaf2]);
    assert_eq!(tree.subtree(leaf2), vec![leaf2]);
    assert_eq!(tree.subtree(other), vec![other]);
    tree.remove(other);
    assert_eq!(tree.subtree(other), vec![]);
}

#[test]
fn removal_hands_children_to_the_grandparent_in_order() {
    let mut tree = NodeTree::<&'static str>::new();
    let root = tree.insert("root");
    let a = tree.insert_with_parent("a", root);
    let b = tree.insert_with_parent("b", root);
    let c = tree.insert_with_parent("c", root);
    let a1 = tree.insert_with_parent("a1", a);
    let a2 = tree.insert_with_parent("a2", a);
    assert_eq!(tree.remove(a), Some("a"));
    assert_eq!(tree.remove(a), None);
    // the last child took the place of the removed one, its children follow
    assert_eq!(children(&tree, root), vec![c, b, a1, a2]);
    assert_eq!(tree.parent_of(a1), Ok(root));
    assert_eq!(tree.parent_of(a2), Ok(root));
    assert_eq!(tree.find_cycle_entry(root, a1), Some(a1));
    assert_eq!(tree.find_cycle_entry(a1, root), None);
    assert_eq!(tree.find_cycle_entry(b, b), Some(b));
}
