use platform_trees::{New, NoRecurSzbTree, SzbTree};

/// An arena in which the handles one to `capacity` can be used, zero standing
/// for none.
fn arena(capacity: usize) -> New {
    New::new(capacity + 1)
}

#[test]
fn test_attach_to_empty_tree() {
    let mut tree = arena(10);
    let mut root: usize = 0;

    tree.attach(&mut root, 5);

    assert_eq!(root, 5);
    assert_eq!(tree.get_size(5), 1);
}

#[test]
fn test_attach_single_node_to_left() {
    let mut tree = arena(10);
    let mut root: usize = 0;

    tree.attach(&mut root, 5);
    tree.attach(&mut root, 3);

    assert_eq!(tree.get_left(5), 3);
    assert_eq!(tree.get_size(5), 2);
    assert_eq!(tree.get_size(3), 1);
}

#[test]
fn test_attach_single_node_to_right() {
    let mut tree = arena(10);
    let mut root: usize = 0;

    tree.attach(&mut root, 5);
    tree.attach(&mut root, 7);

    assert_eq!(tree.get_right(5), 7);
    assert_eq!(tree.get_size(5), 2);
    assert_eq!(tree.get_size(7), 1);
}

#[test]
fn test_attach_multiple_nodes() {
    let mut tree = arena(20);
    let mut root: usize = 0;

    tree.attach(&mut root, 10);
    tree.attach(&mut root, 5);
    tree.attach(&mut root, 15);
    tree.attach(&mut root, 3);
    tree.attach(&mut root, 7);

    assert!(tree.contains(10, root));
    assert!(tree.contains(5, root));
    assert!(tree.contains(15, root));
    assert!(tree.contains(3, root));
    assert!(tree.contains(7, root));
    assert_eq!(tree.get_size(root), 5);
}

#[test]
fn test_detach_from_single_node_tree() {
    let mut tree = arena(10);
    let mut root: usize = 0;

    tree.attach(&mut root, 5);
    tree.detach(&mut root, 5);

    assert_eq!(root, 0);
}

#[test]
fn test_detach_leaf_node() {
    let mut tree = arena(20);
    let mut root: usize = 0;

    tree.attach(&mut root, 10);
    tree.attach(&mut root, 5);
    tree.attach(&mut root, 15);

    tree.detach(&mut root, 5);

    assert!(!tree.contains(5, root));
    assert!(tree.contains(10, root));
    assert!(tree.contains(15, root));
}

#[test]
fn test_detach_node_with_one_child() {
    let mut tree = arena(20);
    let mut root: usize = 0;

    tree.attach(&mut root, 10);
    tree.attach(&mut root, 5);
    tree.attach(&mut root, 3);

    tree.detach(&mut root, 5);

    assert!(!tree.contains(5, root));
    assert!(tree.contains(10, root));
    assert!(tree.contains(3, root));
}

#[test]
fn test_detach_node_with_two_children() {
    let mut tree = arena(20);
    let mut root: usize = 0;

    tree.attach(&mut root, 10);
    tree.attach(&mut root, 5);
    tree.attach(&mut root, 15);
    tree.attach(&mut root, 3);
    tree.attach(&mut root, 7);

    tree.detach(&mut root, 5);

    assert!(!tree.contains(5, root));
    assert!(tree.contains(10, root));
    assert!(tree.contains(15, root));
    assert!(tree.contains(3, root));
    assert!(tree.contains(7, root));
}

#[test]
fn test_detach_root() {
    let mut tree = arena(20);
    let mut root: usize = 0;

    tree.attach(&mut root, 10);
    tree.attach(&mut root, 5);
    tree.attach(&mut root, 15);

    tree.detach(&mut root, 10);

    assert!(!tree.contains(10, root));
    assert!(tree.contains(5, root));
    assert!(tree.contains(15, root));
    assert_ne!(root, 0);
}

#[test]
fn test_attach_and_detach_sequence() {
    let mut tree = arena(30);
    let mut root: usize = 0;

    // Build tree
    for i in [10, 5, 15, 3, 7, 12, 17] {
        tree.attach(&mut root, i);
    }

    // Verify all nodes present
    for i in [10, 5, 15, 3, 7, 12, 17] {
        assert!(tree.contains(i, root), "Node {} should be present", i);
    }

    // Remove some nodes
    tree.detach(&mut root, 3);
    tree.detach(&mut root, 17);
    tree.detach(&mut root, 10);

    // Verify correct nodes present
    assert!(!tree.contains(3, root));
    assert!(!tree.contains(17, root));
    assert!(!tree.contains(10, root));
    assert!(tree.contains(5, root));
    assert!(tree.contains(15, root));
    assert!(tree.contains(7, root));
    assert!(tree.contains(12, root));
}

#[test]
fn test_tree_balancing() {
    let mut tree = arena(20);
    let mut root: usize = 0;

    // Insert in order that would cause imbalance without rotations
    for i in 1..=10 {
        tree.attach(&mut root, i);
    }

    // All nodes should be reachable
    for i in 1..=10 {
        assert!(tree.contains(i, root), "Node {} should be present", i);
    }

    assert_eq!(tree.get_size(root), 10);
}

#[test]
fn test_detach_all_nodes() {
    let mut tree = arena(20);
    let mut root: usize = 0;

    for i in 1..=5 {
        tree.attach(&mut root, i);
    }

    for i in 1..=5 {
        tree.detach(&mut root, i);
    }

    assert_eq!(root, 0);
}

#[test]
fn test_attach_left_right_rotation_edge_case() {
    // Tests the path where we need a left-right double rotation on left side
    let mut tree = arena(30);
    let mut root: usize = 0;

    // Build a tree that will trigger left-right rotation
    // Start with 10, then 5, then insert 8 (between 5 and 10)
    tree.attach(&mut root, 10);
    tree.attach(&mut root, 5);
    tree.attach(&mut root, 8); // This goes right of 5, should trigger LR rotation

    assert!(tree.contains(10, root));
    assert!(tree.contains(5, root));
    assert!(tree.contains(8, root));
    assert_eq!(tree.get_size(root), 3);
}

#[test]
fn test_attach_descend_left_without_rotation() {
    // Tests the case where we descend left without rotation
    let mut tree = arena(40);
    let mut root: usize = 0;

    // Build a more balanced tree first
    tree.attach(&mut root, 20);
    tree.attach(&mut root, 10);
    tree.attach(&mut root, 30);
    tree.attach(&mut root, 25);
    tree.attach(&mut root, 35);
    // Now insert something that needs to go left but doesn't trigger rotation
    tree.attach(&mut root, 5);
    tree.attach(&mut root, 2);

    assert!(tree.contains(2, root));
    assert_eq!(tree.get_size(root), 7);
}

#[test]
fn test_attach_special_case_left_right_empty() {
    // Tests the special case in attach_core where left_right_size == 0 and right_size == 0
    let mut tree = arena(20);
    let mut root: usize = 0;

    // Create specific tree structure
    tree.attach(&mut root, 10);
    tree.attach(&mut root, 5);
    // Now insert 7 which is right of 5 but left of 10
    // With just 2 nodes, this triggers the special case
    tree.attach(&mut root, 7);

    assert!(tree.contains(10, root));
    assert!(tree.contains(5, root));
    assert!(tree.contains(7, root));
}

#[test]
fn test_attach_right_left_rotation_edge_case() {
    // Tests the path where we need a right-left double rotation on right side
    let mut tree = arena(30);
    let mut root: usize = 0;

    // Build a tree that will trigger right-left rotation
    tree.attach(&mut root, 10);
    tree.attach(&mut root, 20);
    tree.attach(&mut root, 15); // Between 10 and 20, should trigger RL rotation

    assert!(tree.contains(10, root));
    assert!(tree.contains(15, root));
    assert!(tree.contains(20, root));
    assert_eq!(tree.get_size(root), 3);
}

#[test]
fn test_attach_descend_right_without_rotation() {
    // Tests the case where we descend right without rotation
    let mut tree = arena(40);
    let mut root: usize = 0;

    // Build a balanced tree
    tree.attach(&mut root, 20);
    tree.attach(&mut root, 30);
    tree.attach(&mut root, 10);
    tree.attach(&mut root, 5);
    tree.attach(&mut root, 15);
    // Insert on the right side, descending
    tree.attach(&mut root, 35);
    tree.attach(&mut root, 40);

    assert!(tree.contains(40, root));
    assert_eq!(tree.get_size(root), 7);
}

#[test]
fn test_detach_with_double_rotation_left() {
    // Tests detach causing double rotation on left side
    let mut tree = arena(40);
    let mut root: usize = 0;

    // Build larger tree
    for i in [20, 10, 30, 5, 15, 25, 35, 3, 8, 13, 17] {
        tree.attach(&mut root, i);
    }

    // Detach to trigger specific paths
    tree.detach(&mut root, 3);
    tree.detach(&mut root, 5);
    tree.detach(&mut root, 8);

    assert!(!tree.contains(3, root));
    assert!(!tree.contains(5, root));
    assert!(!tree.contains(8, root));
}

#[test]
fn test_detach_with_double_rotation_right() {
    // Tests detach causing double rotation on right side
    let mut tree = arena(50);
    let mut root: usize = 0;

    // Build larger tree
    for i in [20, 10, 30, 5, 15, 25, 35, 32, 38, 28, 27] {
        tree.attach(&mut root, i);
    }

    // Detach to trigger specific paths
    tree.detach(&mut root, 35);
    tree.detach(&mut root, 38);
    tree.detach(&mut root, 32);

    assert!(!tree.contains(35, root));
    assert!(!tree.contains(38, root));
    assert!(!tree.contains(32, root));
}

#[test]
fn test_detach_with_left_only_child() {
    // Tests detach where replacement comes from left subtree
    let mut tree = arena(30);
    let mut root: usize = 0;

    // Create tree where left subtree is larger
    tree.attach(&mut root, 10);
    tree.attach(&mut root, 5);
    tree.attach(&mut root, 15);
    tree.attach(&mut root, 3);
    tree.attach(&mut root, 7);
    tree.attach(&mut root, 2);
    tree.attach(&mut root, 4);

    // Detach a node that will use replacement from left (larger) subtree
    tree.detach(&mut root, 5);

    assert!(!tree.contains(5, root));
    assert!(tree.contains(3, root));
    assert!(tree.contains(7, root));
}

#[test]
fn test_detach_node_with_left_child_only() {
    // Tests the path where we set *root = *left
    let mut tree = arena(20);
    let mut root: usize = 0;

    tree.attach(&mut root, 10);
    tree.attach(&mut root, 5);
    tree.attach(&mut root, 15);
    tree.attach(&mut root, 3);

    // Remove 5, which has only left child (3)
    tree.detach(&mut root, 5);

    assert!(!tree.contains(5, root));
    assert!(tree.contains(3, root));
}

#[test]
fn test_large_sequential_insert() {
    // Tests inserting many nodes in ascending order
    let mut tree = arena(50);
    let mut root: usize = 0;

    for i in 1..=20 {
        tree.attach(&mut root, i);
    }

    for i in 1..=20 {
        assert!(tree.contains(i, root), "Node {} missing", i);
    }
    assert_eq!(tree.get_size(root), 20);
}

#[test]
fn test_large_reverse_insert() {
    // Tests inserting many nodes in descending order
    let mut tree = arena(50);
    let mut root: usize = 0;

    for i in (1..=20).rev() {
        tree.attach(&mut root, i);
    }

    for i in 1..=20 {
        assert!(tree.contains(i, root), "Node {} missing", i);
    }
    assert_eq!(tree.get_size(root), 20);
}

#[test]
fn test_alternating_insert() {
    // Tests inserting nodes in alternating pattern
    let mut tree = arena(50);
    let mut root: usize = 0;

    // Insert 10, 1, 20, 2, 19, 3, 18, etc.
    let mut low = 1;
    let mut high = 20;
    for i in 0..20 {
        if i % 2 == 0 {
            tree.attach(&mut root, high);
            high -= 1;
        } else {
            tree.attach(&mut root, low);
            low += 1;
        }
    }

    for i in 1..=20 {
        assert!(tree.contains(i, root), "Node {} missing", i);
    }
}

#[test]
fn test_detach_from_large_tree() {
    // Tests various detach patterns on large tree
    let mut tree = arena(100);
    let mut root: usize = 0;

    // Build tree with 50 nodes
    for i in 1..=50 {
        tree.attach(&mut root, i);
    }

    // Detach every other node
    for i in (1..=50).step_by(2) {
        tree.detach(&mut root, i);
    }

    // Check remaining nodes
    for i in (2..=50).step_by(2) {
        assert!(tree.contains(i, root), "Node {} should be present", i);
    }
    for i in (1..=49).step_by(2) {
        assert!(!tree.contains(i, root), "Node {} should be absent", i);
    }
}
