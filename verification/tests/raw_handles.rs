use platform_trees::trees::szb_tree::{link, raw};
use platform_trees::{BTree, New, Node, NoRecur, NoRecurSzbTree, SzbTree, Tree};

/// The handles of the tree at `root` in the order of an in-order traversal.
fn inorder(tree: &New, root: Option<usize>) -> Vec<usize> {
    match root {
        Some(idx) => {
            let mut out = inorder(tree, Tree::left(tree, idx));
            out.push(idx);
            out.extend(inorder(tree, Tree::right(tree, idx)));
            out
        },
        None => Vec::new(),
    }
}

/// The slots of the arena, one by one.
fn slots(tree: &New, len: usize) -> Vec<Node> {
    (0..len).map(|idx| tree.get(idx).unwrap()).collect()
}

/// A sequence of the numbers from one to `len` without repetition, in an
/// order that `seed` picks.
fn shuffled(len: usize, seed: u64) -> Vec<usize> {
    let mut items: Vec<usize> = (1..=len).collect();
    let mut state = seed.wrapping_mul(6364136223846793005).wrapping_add(1442695040888963407);
    for i in (1..len).rev() {
        state = state.wrapping_mul(6364136223846793005).wrapping_add(1442695040888963407);
        let j = ((state >> 33) as usize) % (i + 1);
        items.swap(i, j);
    }
    items
}

#[test]
fn zero_stands_for_no_link() {
    assert_eq!(link(0), None);
    assert_eq!(link(7), Some(7));
    assert_eq!(raw(None), 0);
    assert_eq!(raw(Some(7)), 7);
}

#[test]
fn raw_handles_and_links_agree() {
    for seed in 0..20u64 {
        let len = 25;
        let mut by_links = New::new(len);
        let mut by_raw = New::new(len);
        let mut link_root = None;
        let mut raw_root = 0;
        for item in shuffled(len - 1, seed) {
            link_root = NoRecur::attach(&mut by_links, link_root, item);
            NoRecurSzbTree::attach(&mut by_raw, &mut raw_root, item);
            assert_eq!(link(raw_root), link_root);
            assert_eq!(slots(&by_links, len), slots(&by_raw, len));
        }
        for probe in 0..len + 2 {
            assert_eq!(
                SzbTree::contains(&by_raw, probe, raw_root),
                Tree::is_contains(&by_links, link_root.unwrap(), probe)
            );
        }
        for item in shuffled(len - 1, seed + 9) {
            link_root = NoRecur::detach(&mut by_links, link_root, item);
            NoRecurSzbTree::detach(&mut by_raw, &mut raw_root, item);
            assert_eq!(link(raw_root), link_root);
            assert_eq!(slots(&by_links, len), slots(&by_raw, len));
        }
        assert_eq!(raw_root, 0);
    }
}

#[test]
fn raw_cores_work_below_a_root() {
    let mut tree = New::new(8);
    let mut root = 0;
    NoRecurSzbTree::attach(&mut tree, &mut root, 4);
    assert_eq!(root, 4);
    tree.attach_core(&mut root, 2);
    tree.attach_core(&mut root, 6);
    tree.attach_core(&mut root, 1);
    assert_eq!(inorder(&tree, Some(root)), vec![1, 2, 4, 6]);
    assert_eq!(SzbTree::get_size(&tree, root), 4);
    tree.detach_core(&mut root, 4);
    assert_eq!(inorder(&tree, Some(root)), vec![1, 2, 6]);
    tree.detach_core(&mut root, 1);
    tree.detach_core(&mut root, 6);
    tree.detach_core(&mut root, 2);
    assert_eq!(root, 0);
    assert!(BTree::is_empty(&tree));
}

#[test]
fn raw_sizes_read_zero_behind_zero() {
    let mut tree = New::new(6);
    SzbTree::set_size(&mut tree, 0, 9);
    SzbTree::set_left(&mut tree, 2, 3);
    SzbTree::set_size(&mut tree, 3, 4);
    assert_eq!(tree.get_left_size(2), 4);
    assert_eq!(tree.get_right_size(2), 0);
    assert_eq!(tree.get_left_size(0), 0);
    assert_eq!(tree.get_size_or_zero(0), 0);
    assert_eq!(SzbTree::get_size(&tree, 0), 9);
    assert_eq!(SzbTree::get_size(&tree, 6), 0);
    assert_eq!(tree.get_left(6), 0);
    assert_eq!(tree.get_right(6), 0);
    SzbTree::fix_size(&mut tree, 2);
    assert_eq!(SzbTree::get_size(&tree, 2), 5);
    SzbTree::set_left(&mut tree, 2, 0);
    assert_eq!(Tree::left(&tree, 2), None);
    assert_eq!(tree.left_rotate_core(2), 0);
    assert_eq!(tree.right_rotate_core(2), 0);
}

#[test]
fn raw_rotation_without_the_child_gives_zero() {
    let mut tree = New::new(4);
    SzbTree::set_size(&mut tree, 1, 1);
    let mut root = 1;
    tree.left_rotate(&mut root);
    assert_eq!(root, 0);
    let mut root = 1;
    tree.right_rotate(&mut root);
    assert_eq!(root, 0);
    assert_eq!(tree.get(1), Some(Node { size: 1, left: None, right: None }));
}
