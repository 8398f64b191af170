use boba::tree::NodeTree;
use boba::walker::TreeWalker;

#[test]
fn walker_goes_up_and_down() {
    let mut tree = NodeTree::<u32>::new();
    let root = tree.insert(1);
    let a = tree.insert_with_parent(2, root);
    let b = tree.insert_with_parent(3, root);
    let a1 = tree.insert_with_parent(4, a);

    let mut walker = TreeWalker::new(&mut tree, a).unwrap();
    assert_eq!(walker.node(), a);
    assert_eq!(*walker.data(), 2);
    *walker.data_mut() = 20;
    {
        let mut parent = walker.parent().unwrap();
        assert_eq!(parent.node(), root);
        assert!(parent.parent().is_none());
        let mut children = parent.children();
        let mut seen = Vec::new();
        while let Some(mut child) = children.walk_next() {
            seen.push(child.node());
            *child.data_mut() += 100;
        }
        assert_eq!(seen, vec![a, b]);
        assert!(children.walk_next().is_none());
    }
    {
        let mut children = walker.children();
        assert_eq!(children.walk_next().unwrap().node(), a1);
        assert!(children.walk_next().is_none());
    }
    assert_eq!(tree.get(a), Some(&120));
    assert_eq!(tree.get(b), Some(&103));
    assert_eq!(tree.get(a1), Some(&4));
}

#[test]
fn walker_passes_by_children_that_left() {
    let mut tree = NodeTree::<u32>::new();
    let root = tree.insert(1);
    let a = tree.insert_with_parent(2, root);
    let b = tree.insert_with_parent(3, root);
    let c = tree.insert_with_parent(4, root);
    let mut walker = TreeWalker::new(&mut tree, root).unwrap();
    let mut children = walker.children();
    children.tree.remove(a);
    children.tree.remove(b);
    assert_eq!(children.walk_next().unwrap().node(), c);
    assert!(children.walk_next().is_none());
}

#[test]
fn walker_needs_a_node_of_the_tree() {
    let mut tree = NodeTree::<u32>::new();
    let root = tree.insert(1);
    tree.remove(root);
    assert!(TreeWalker::new(&mut tree, root).is_none());
}
