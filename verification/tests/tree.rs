use platform_trees::trees::no_recur::attach_impl;
use platform_trees::{New, NoRecur, NoRecurSzbTree, SzbTree, Tree};

#[test]
fn basic() {
    let mut tree = New::new(5);
    let mut root = 0;

    NoRecurSzbTree::attach(&mut tree, &mut root, 2);
    NoRecurSzbTree::attach(&mut tree, &mut root, 3);
    NoRecurSzbTree::attach(&mut tree, &mut root, 4);

    assert!(SzbTree::contains(&tree, 3, root));
    assert!(!SzbTree::contains(&tree, 5, root));
}

#[test]
fn new() {
    let mut tree = New::new(5);
    let mut root = None;

    root = NoRecur::attach(&mut tree, root, 2);
    root = NoRecur::attach(&mut tree, root, 3);
    root = NoRecur::attach(&mut tree, root, 4);

    let root = root.unwrap();

    assert!(Tree::is_contains(&tree, root, 3));
    assert!(!Tree::is_contains(&tree, root, 5));
}

#[test]
fn new_v2() {
    let mut tree = New::new(5);

    Tree::set_size(&mut tree, 2, 1);
    let mut root = Some(2);
    root = attach_impl(&mut tree, root.unwrap(), 3);
    root = attach_impl(&mut tree, root.unwrap(), 4);

    let root = root.unwrap();

    assert!(Tree::is_contains(&tree, root, 3));
    assert!(!Tree::is_contains(&tree, root, 5));
}
