use platform_trees::{New, Node, Tree};

/// An arena in which the handles one to `capacity` can be used.
fn arena(capacity: usize) -> New {
    New::new(capacity + 1)
}

#[test]
fn left_is_read_as_set() {
    let mut tree = arena(10);
    tree.set_left(1, Some(2));
    assert_eq!(tree.left(1), Some(2));
}

#[test]
fn right_is_read_as_set() {
    let mut tree = arena(10);
    tree.set_right(1, Some(3));
    assert_eq!(tree.right(1), Some(3));
}

#[test]
fn size_is_read_as_set() {
    let mut tree = arena(10);
    tree.set_size(1, 5);
    assert_eq!(tree.size(1), Some(5));
}

#[test]
fn inc_size_adds_one() {
    let mut tree = arena(10);
    tree.set_size(1, 5);
    tree.inc_size(1);
    assert_eq!(tree.size(1), Some(6));
}

#[test]
fn dec_size_takes_one() {
    let mut tree = arena(10);
    tree.set_size(1, 5);
    tree.dec_size(1);
    assert_eq!(tree.size(1), Some(4));
}

#[test]
fn left_size_is_the_size_of_the_left_child() {
    let mut tree = arena(10);
    tree.set_left(1, Some(2));
    tree.set_size(2, 3);
    assert_eq!(tree.left_size(1), Some(3));
}

#[test]
fn right_size_is_the_size_of_the_right_child() {
    let mut tree = arena(10);
    tree.set_right(1, Some(3));
    tree.set_size(3, 5);
    assert_eq!(tree.right_size(1), Some(5));
}

#[test]
fn fix_size_counts_the_children_and_one() {
    let mut tree = arena(10);
    // Tree: 1 -> (2, 3)
    tree.set_left(1, Some(2));
    tree.set_right(1, Some(3));
    tree.set_size(2, 1);
    tree.set_size(3, 2);

    tree.fix_size(1);
    assert_eq!(tree.size(1), Some(4)); // 1 + 2 + 1
}

#[test]
fn rotate_left_lifts_the_right_child() {
    let mut tree = arena(10);
    // Initial: 1 -> (_, 2) where 2 -> (3, _)
    tree.set_right(1, Some(2));
    tree.set_left(2, Some(3));
    tree.set_size(1, 3);
    tree.set_size(2, 2);
    tree.set_size(3, 1);

    let new_root = tree.rotate_left(1);

    assert_eq!(new_root, Some(2));
    assert_eq!(tree.left(2), Some(1));
    assert_eq!(tree.right(1), Some(3));
    assert_eq!(tree.size(2), Some(3));
}

#[test]
fn rotate_left_gives_the_new_root() {
    let mut tree = arena(10);
    tree.set_right(1, Some(2));
    tree.set_left(2, Some(3));
    tree.set_size(1, 3);
    tree.set_size(2, 2);
    tree.set_size(3, 1);

    let mut root: usize = 1;
    if let Some(pivot) = tree.rotate_left(root) {
        root = pivot;
    }

    assert_eq!(root, 2);
}

#[test]
fn rotate_right_lifts_the_left_child() {
    let mut tree = arena(10);
    // Initial: 1 -> (2, _) where 2 -> (_, 3)
    tree.set_left(1, Some(2));
    tree.set_right(2, Some(3));
    tree.set_size(1, 3);
    tree.set_size(2, 2);
    tree.set_size(3, 1);

    let new_root = tree.rotate_right(1);

    assert_eq!(new_root, Some(2));
    assert_eq!(tree.right(2), Some(1));
    assert_eq!(tree.left(1), Some(3));
    assert_eq!(tree.size(2), Some(3));
}

#[test]
fn rotate_right_gives_the_new_root() {
    let mut tree = arena(10);
    tree.set_left(1, Some(2));
    tree.set_right(2, Some(3));
    tree.set_size(1, 3);
    tree.set_size(2, 2);
    tree.set_size(3, 1);

    let mut root: usize = 1;
    if let Some(pivot) = tree.rotate_right(root) {
        root = pivot;
    }

    assert_eq!(root, 2);
}

#[test]
fn rightest_follows_the_right_children() {
    let mut tree = arena(10);
    // Tree: 1 -> (_, 2) where 2 -> (_, 3)
    tree.set(1, Node { size: 3, left: None, right: Some(2) });
    tree.set(2, Node { size: 2, left: None, right: Some(3) });
    tree.set(3, Node { size: 1, left: None, right: None });

    assert_eq!(tree.rightest(1), 3);
    assert_eq!(tree.rightest(3), 3);
}

#[test]
fn leftest_follows_the_left_children() {
    let mut tree = arena(10);
    // Tree: 3 -> (2, _) where 2 -> (1, _)
    tree.set(3, Node { size: 3, left: Some(2), right: None });
    tree.set(2, Node { size: 2, left: Some(1), right: None });
    tree.set(1, Node { size: 1, left: None, right: None });

    assert_eq!(tree.leftest(3), 1);
    assert_eq!(tree.leftest(1), 1);
}

#[test]
fn next_is_the_least_of_the_right_subtree() {
    let mut tree = arena(10);
    // 1 -> (_, 3) where 3 -> (2, _)
    tree.set(1, Node { size: 3, left: None, right: Some(3) });
    tree.set(3, Node { size: 2, left: Some(2), right: None });
    tree.set(2, Node { size: 1, left: None, right: None });

    assert_eq!(tree.next(1), Some(2));
}

#[test]
fn prev_is_the_greatest_of_the_left_subtree() {
    let mut tree = arena(10);
    // 3 -> (1, _) where 1 -> (_, 2)
    tree.set(3, Node { size: 3, left: Some(1), right: None });
    tree.set(1, Node { size: 2, left: None, right: Some(2) });
    tree.set(2, Node { size: 1, left: None, right: None });

    assert_eq!(tree.prev(3), Some(2));
}

#[test]
fn is_contains_finds_what_is_there() {
    let mut tree = arena(10);
    // Search tree: 5 -> (3, 7)
    tree.set(5, Node { size: 3, left: Some(3), right: Some(7) });
    tree.set(3, Node { size: 1, left: None, right: None });
    tree.set(7, Node { size: 1, left: None, right: None });

    assert!(tree.is_contains(5, 5));
    assert!(tree.is_contains(5, 3));
    assert!(tree.is_contains(5, 7));
}

#[test]
fn is_contains_misses_what_is_not_there() {
    let mut tree = arena(10);
    // Search tree: 5 -> (3, 7)
    tree.set(5, Node { size: 3, left: Some(3), right: Some(7) });
    tree.set(3, Node { size: 1, left: None, right: None });
    tree.set(7, Node { size: 1, left: None, right: None });

    assert!(!tree.is_contains(5, 2));
    assert!(!tree.is_contains(5, 4));
    assert!(!tree.is_contains(5, 8));
}

#[test]
fn is_contains_finds_the_root_alone_in_a_tree_of_one() {
    let mut tree = arena(10);
    tree.set_size(4, 1);
    assert!(tree.is_contains(4, 4));
    assert!(!tree.is_contains(4, 1));
    assert!(!tree.is_contains(4, 9));
    assert!(!tree.is_contains(4, 400));
}

#[test]
fn clear_leaves_the_slot_vacant() {
    let mut tree = arena(10);
    tree.set_left(1, Some(2));
    tree.set_right(1, Some(3));
    tree.set_size(1, 5);

    tree.clear(1);

    assert_eq!(tree.left(1), None);
    assert_eq!(tree.right(1), None);
    assert_eq!(tree.size(1), Some(0));
}

#[test]
fn is_left_of_is_less_than() {
    let tree = arena(10);
    assert!(tree.is_left_of(1, 2));
    assert!(!tree.is_left_of(2, 1));
    assert!(!tree.is_left_of(1, 1));
}

#[test]
fn is_right_of_is_greater_than() {
    let tree = arena(10);
    assert!(tree.is_right_of(2, 1));
    assert!(!tree.is_right_of(1, 2));
    assert!(!tree.is_right_of(1, 1));
}

#[test]
fn get_reads_a_slot_and_nothing_out_of_range() {
    let mut tree = New::new(4);
    assert_eq!(tree.get(3), Some(Node { size: 0, left: None, right: None }));
    assert_eq!(tree.get(4), None);
    tree.set(3, Node { size: 2, left: Some(1), right: None });
    assert_eq!(tree.get(3), Some(Node { size: 2, left: Some(1), right: None }));
}

#[test]
fn writes_out_of_range_change_nothing() {
    let mut tree = New::new(3);
    tree.set(3, Node { size: 9, left: Some(1), right: Some(2) });
    tree.set_size(7, 1);
    tree.set_left(7, Some(0));
    tree.set_right(7, Some(0));
    tree.inc_size(7);
    tree.dec_size(7);
    tree.fix_size(7);
    tree.clear(7);
    for idx in 0..3 {
        assert_eq!(tree.get(idx), Some(Node::default()));
    }
    assert_eq!(tree.size(3), None);
    assert_eq!(tree.left(3), None);
    assert_eq!(tree.right(3), None);
    assert_eq!(tree.left_size(3), None);
    assert_eq!(tree.right_size(3), None);
}

#[test]
fn sizes_of_children_are_absent_without_a_child() {
    let mut tree = New::new(4);
    tree.set_size(1, 1);
    assert_eq!(tree.left_size(1), None);
    assert_eq!(tree.right_size(1), None);
    tree.fix_size(1);
    assert_eq!(tree.size(1), Some(1));
}

#[test]
fn rotate_without_the_child_changes_nothing() {
    let mut tree = New::new(4);
    tree.set(1, Node { size: 2, left: Some(0), right: None });
    tree.set(0, Node { size: 1, left: None, right: None });
    assert_eq!(tree.rotate_left(1), None);
    assert_eq!(tree.get(1), Some(Node { size: 2, left: Some(0), right: None }));
    assert_eq!(tree.rotate_right(0), None);
    assert_eq!(tree.get(0), Some(Node { size: 1, left: None, right: None }));
    assert_eq!(tree.rotate_left(9), None);
}

#[test]
fn rotate_left_moves_the_inner_grandchild() {
    // 2 -> (1, 5), 5 -> (4, 6), 4 -> (3, _)
    let mut tree = New::new(8);
    tree.set(2, Node { size: 6, left: Some(1), right: Some(5) });
    tree.set(1, Node { size: 1, left: None, right: None });
    tree.set(5, Node { size: 4, left: Some(4), right: Some(6) });
    tree.set(4, Node { size: 2, left: Some(3), right: None });
    tree.set(3, Node { size: 1, left: None, right: None });
    tree.set(6, Node { size: 1, left: None, right: None });

    assert_eq!(tree.rotate_left(2), Some(5));

    assert_eq!(tree.get(5), Some(Node { size: 6, left: Some(2), right: Some(6) }));
    assert_eq!(tree.get(2), Some(Node { size: 4, left: Some(1), right: Some(4) }));
    assert_eq!(tree.get(4), Some(Node { size: 2, left: Some(3), right: None }));
    assert_eq!(tree.get(1), Some(Node { size: 1, left: None, right: None }));
    assert_eq!(tree.get(6), Some(Node { size: 1, left: None, right: None }));
}

#[test]
fn rotate_right_moves_the_inner_grandchild() {
    // 5 -> (2, 6), 2 -> (1, 3), 3 -> (_, 4)
    let mut tree = New::new(8);
    tree.set(5, Node { size: 6, left: Some(2), right: Some(6) });
    tree.set(6, Node { size: 1, left: None, right: None });
    tree.set(2, Node { size: 4, left: Some(1), right: Some(3) });
    tree.set(1, Node { size: 1, left: None, right: None });
    tree.set(3, Node { size: 2, left: None, right: Some(4) });
    tree.set(4, Node { size: 1, left: None, right: None });

    assert_eq!(tree.rotate_right(5), Some(2));

    assert_eq!(tree.get(2), Some(Node { size: 6, left: Some(1), right: Some(5) }));
    assert_eq!(tree.get(5), Some(Node { size: 4, left: Some(3), right: Some(6) }));
    assert_eq!(tree.get(3), Some(Node { size: 2, left: None, right: Some(4) }));
}

#[test]
fn next_and_prev_are_absent_without_the_subtree() {
    let mut tree = New::new(4);
    tree.set_size(2, 1);
    assert_eq!(tree.next(2), None);
    assert_eq!(tree.prev(2), None);
}

#[test]
fn default_node_is_vacant() {
    assert_eq!(Node::default(), Node { size: 0, left: None, right: None });
}
