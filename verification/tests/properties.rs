use platform_trees::{BTree, New, Node, NoRecur, Tree};

/// The handles of the tree at `root` in the order of an in-order traversal.
fn inorder(tree: &New, root: Option<usize>) -> Vec<usize> {
    let mut out = Vec::new();
    let mut stack = Vec::new();
    let mut at = root;
    while at.is_some() || !stack.is_empty() {
        while let Some(idx) = at {
            stack.push(idx);
            at = tree.left(idx);
        }
        let idx = stack.pop().unwrap();
        out.push(idx);
        at = tree.right(idx);
    }
    out
}

/// Number of handles on the longest path from `root` downwards.
fn height(tree: &New, root: Option<usize>) -> usize {
    match root {
        Some(idx) => 1 + height(tree, tree.left(idx)).max(height(tree, tree.right(idx))),
        None => 0,
    }
}

/// Checks at every handle below `root` that its size is one more than the
/// sizes of its children, and returns the number of handles.
fn check_sizes(tree: &New, root: Option<usize>) -> usize {
    match root {
        Some(idx) => {
            let left = check_sizes(tree, tree.left(idx));
            let right = check_sizes(tree, tree.right(idx));
            assert_eq!(tree.size(idx), Some(1 + left + right), "size at {}", idx);
            assert_eq!(tree.left_size(idx).unwrap_or(0), left);
            assert_eq!(tree.right_size(idx).unwrap_or(0), right);
            1 + left + right
        },
        None => 0,
    }
}

/// The slots of the arena, one by one.
fn slots(tree: &New, len: usize) -> Vec<Node> {
    (0..len).map(|idx| tree.get(idx).unwrap()).collect()
}

/// A sequence of the numbers below `len` without repetition, in an order
/// that `seed` picks.
fn shuffled(len: usize, seed: u64) -> Vec<usize> {
    let mut items: Vec<usize> = (0..len).collect();
    let mut state = seed.wrapping_mul(6364136223846793005).wrapping_add(1442695040888963407);
    for i in (1..len).rev() {
        state = state.wrapping_mul(6364136223846793005).wrapping_add(1442695040888963407);
        let j = ((state >> 33) as usize) % (i + 1);
        items.swap(i, j);
    }
    items
}

#[test]
fn scenario_attach_five_then_detach_one() {
    let mut tree = New::new(10);
    let mut root = None;
    for item in [5, 3, 8, 1, 4] {
        tree._attach(&mut root, item);
    }

    assert!(BTree::is_contains(&tree, root.unwrap(), 4));
    assert!(!BTree::is_contains(&tree, root.unwrap(), 9));
    assert_eq!(inorder(&tree, root), vec![1, 3, 4, 5, 8]);
    assert_eq!(tree.size(root.unwrap()), Some(5));

    tree._detach(&mut root, 3);

    assert!(!BTree::is_contains(&tree, root.unwrap(), 3));
    assert_eq!(inorder(&tree, root), vec![1, 4, 5, 8]);
    assert_eq!(tree.size(root.unwrap()), Some(4));
}

#[test]
fn scenario_slots_after_each_step() {
    let vacant = Node { size: 0, left: None, right: None };
    let mut tree = New::new(10);
    let mut root = None;

    tree._attach(&mut root, 5);
    assert_eq!(root, Some(5));
    assert_eq!(tree.get(5), Some(Node { size: 1, left: None, right: None }));

    tree._attach(&mut root, 3);
    assert_eq!(root, Some(5));
    assert_eq!(tree.get(5), Some(Node { size: 2, left: Some(3), right: None }));
    assert_eq!(tree.get(3), Some(Node { size: 1, left: None, right: None }));

    tree._attach(&mut root, 8);
    assert_eq!(root, Some(5));
    assert_eq!(tree.get(5), Some(Node { size: 3, left: Some(3), right: Some(8) }));

    // 1 belongs below the outer grandchild on the left, and the left child is
    // as large as the right one: a right rotation at 5, then 1 hangs below 3.
    tree._attach(&mut root, 1);
    assert_eq!(root, Some(3));
    assert_eq!(tree.get(3), Some(Node { size: 4, left: Some(1), right: Some(5) }));
    assert_eq!(tree.get(5), Some(Node { size: 2, left: None, right: Some(8) }));
    assert_eq!(tree.get(1), Some(Node { size: 1, left: None, right: None }));

    // 4 belongs below the inner grandchild on the right of 3, which is absent
    // and so smaller than the left child: one step down, then 4 hangs below 5.
    tree._attach(&mut root, 4);
    assert_eq!(root, Some(3));
    assert_eq!(tree.get(3), Some(Node { size: 5, left: Some(1), right: Some(5) }));
    assert_eq!(tree.get(5), Some(Node { size: 3, left: Some(4), right: Some(8) }));
    assert_eq!(tree.get(4), Some(Node { size: 1, left: None, right: None }));

    // 3 has two children and the right subtree is the larger one: its first
    // handle, 4, takes the place.
    tree._detach(&mut root, 3);
    assert_eq!(root, Some(4));
    assert_eq!(tree.get(4), Some(Node { size: 4, left: Some(1), right: Some(5) }));
    assert_eq!(tree.get(5), Some(Node { size: 2, left: None, right: Some(8) }));
    assert_eq!(tree.get(3), Some(vacant));
    for idx in [0, 2, 6, 7, 9] {
        assert_eq!(tree.get(idx), Some(vacant));
    }
}

#[test]
fn attach_lifts_the_handle_over_two() {
    let mut tree = New::new(11);
    let mut root = None;
    tree._attach(&mut root, 10);
    tree._attach(&mut root, 5);
    tree._attach(&mut root, 7);
    assert_eq!(root, Some(7));
    assert_eq!(tree.get(7), Some(Node { size: 3, left: Some(5), right: Some(10) }));
    assert_eq!(tree.get(5), Some(Node { size: 1, left: None, right: None }));
    assert_eq!(tree.get(10), Some(Node { size: 1, left: None, right: None }));

    let mut tree = New::new(21);
    let mut root = None;
    tree._attach(&mut root, 10);
    tree._attach(&mut root, 20);
    tree._attach(&mut root, 15);
    assert_eq!(root, Some(15));
    assert_eq!(tree.get(15), Some(Node { size: 3, left: Some(10), right: Some(20) }));
    assert_eq!(tree.get(10), Some(Node { size: 1, left: None, right: None }));
    assert_eq!(tree.get(20), Some(Node { size: 1, left: None, right: None }));
}

#[test]
fn attach_rotates_twice_where_the_inner_grandchild_is_large() {
    // 8 -> (4, 9), 4 -> (2, 6): 5 belongs below 6, the inner grandchild,
    // which is as large as 9.
    let mut tree = New::new(10);
    let mut root = None;
    for item in [8, 4, 9, 2, 6] {
        root = tree.attach(root, item);
    }
    assert_eq!(root, Some(4));
    assert_eq!(inorder(&tree, root), vec![2, 4, 6, 8, 9]);
    assert_eq!(tree.get(4), Some(Node { size: 5, left: Some(2), right: Some(8) }));
    assert_eq!(tree.get(8), Some(Node { size: 3, left: Some(6), right: Some(9) }));

    root = tree.attach(root, 5);
    assert_eq!(inorder(&tree, root), vec![2, 4, 5, 6, 8, 9]);
    assert_eq!(check_sizes(&tree, root), 6);
    assert_eq!(root, Some(6));
    assert_eq!(tree.get(6), Some(Node { size: 6, left: Some(4), right: Some(8) }));
    assert_eq!(tree.get(4), Some(Node { size: 3, left: Some(2), right: Some(5) }));
    assert_eq!(tree.get(8), Some(Node { size: 2, left: None, right: Some(9) }));
}

#[test]
fn inorder_is_ascending_after_attaches_in_any_order() {
    for seed in 0..40u64 {
        let len = 1 + (seed as usize * 7) % 60;
        let mut tree = New::new(len);
        let mut root = None;
        let mut there = Vec::new();
        for item in shuffled(len, seed) {
            root = tree.attach(root, item);
            there.push(item);
            let mut sorted = there.clone();
            sorted.sort();
            assert_eq!(inorder(&tree, root), sorted);
        }
    }
}

#[test]
fn sizes_are_right_after_every_attach_and_detach() {
    for seed in 0..40u64 {
        let len = 1 + (seed as usize * 5) % 50;
        let mut tree = New::new(len);
        let mut root = None;
        let items = shuffled(len, seed);
        for (done, item) in items.iter().enumerate() {
            root = tree.attach(root, *item);
            assert_eq!(check_sizes(&tree, root), done + 1);
        }
        for (done, item) in shuffled(len, seed + 1000).iter().enumerate() {
            root = tree.detach(root, *item);
            assert_eq!(check_sizes(&tree, root), len - done - 1);
        }
        assert_eq!(root, None);
    }
}

#[test]
fn contains_follows_attach_and_detach() {
    for seed in 0..30u64 {
        let len = 2 + (seed as usize * 3) % 40;
        let mut tree = New::new(len);
        let mut root = None;
        let items = shuffled(len, seed);
        let (kept, spare) = items.split_at(len / 2 + 1);
        for item in kept {
            tree._attach(&mut root, *item);
            assert!(BTree::is_contains(&tree, root.unwrap(), *item));
        }
        for item in kept {
            assert!(BTree::is_contains(&tree, root.unwrap(), *item));
        }
        for item in spare {
            assert!(!BTree::is_contains(&tree, root.unwrap(), *item));
        }
        for item in kept {
            tree._detach(&mut root, *item);
            if let Some(root) = root {
                assert!(!BTree::is_contains(&tree, root, *item));
            }
            assert_eq!(tree.get(*item), Some(Node::default()));
        }
        assert_eq!(root, None);
        assert!(tree.is_empty());
    }
}

#[test]
fn detach_keeps_the_order_of_the_rest() {
    for seed in 0..40u64 {
        let len = 1 + (seed as usize * 11) % 70;
        let mut tree = New::new(len);
        let mut root = None;
        for item in shuffled(len, seed) {
            root = tree.attach(root, item);
        }
        let mut there: Vec<usize> = (0..len).collect();
        for item in shuffled(len, seed + 77) {
            root = tree.detach(root, item);
            there.retain(|other| *other != item);
            assert_eq!(inorder(&tree, root), there);
        }
    }
}

#[test]
fn attach_out_of_range_changes_nothing() {
    let mut tree = New::new(4);
    let mut root = None;
    tree._attach(&mut root, 4);
    assert_eq!(root, None);
    assert!(tree.is_empty());

    tree._attach(&mut root, 2);
    tree._attach(&mut root, 1);
    let before = slots(&tree, 4);
    tree._attach(&mut root, 9);
    assert_eq!(root, Some(2));
    assert_eq!(slots(&tree, 4), before);
    assert_eq!(tree.attach(root, 4), root);
    assert_eq!(slots(&tree, 4), before);
}

#[test]
fn detach_without_a_tree_gives_no_root() {
    let mut tree = New::new(4);
    assert_eq!(tree.detach(None, 1), None);
    assert!(tree.is_empty());
}

#[test]
fn reset_gives_a_fresh_arena() {
    let mut used = New::new(16);
    let mut root = None;
    for item in [8, 3, 12, 1, 5, 10, 14] {
        used._attach(&mut root, item);
    }
    assert!(!used.is_empty());
    used.reset();
    assert!(used.is_empty());
    assert_eq!(slots(&used, 16), slots(&New::new(16), 16));

    let mut fresh = New::new(16);
    let mut used_root = None;
    let mut fresh_root = None;
    for item in shuffled(16, 5) {
        used._attach(&mut used_root, item);
        fresh._attach(&mut fresh_root, item);
        assert_eq!(used_root, fresh_root);
        assert_eq!(slots(&used, 16), slots(&fresh, 16));
    }
    for item in shuffled(16, 6) {
        used._detach(&mut used_root, item);
        fresh._detach(&mut fresh_root, item);
        assert_eq!(used_root, fresh_root);
        assert_eq!(slots(&used, 16), slots(&fresh, 16));
    }
}

#[test]
fn is_empty_sees_any_slot_that_is_not_vacant() {
    let mut tree = <New as BTree>::new(3);
    assert!(tree.is_empty());
    tree.set_size(2, 1);
    assert!(!tree.is_empty());
    tree.set_size(2, 0);
    assert!(tree.is_empty());
    tree.set_left(0, Some(1));
    assert!(!tree.is_empty());
    tree.set_left(0, None);
    tree.set_right(1, Some(0));
    assert!(!tree.is_empty());
    tree.reset();
    assert!(tree.is_empty());
    assert!(<New as BTree>::new(0).is_empty());
}

#[test]
fn two_trees_share_an_arena() {
    let mut tree = New::new(20);
    let mut low = None;
    let mut high = None;
    for item in [4, 2, 6, 1, 3] {
        low = tree.attach(low, item);
        high = tree.attach(high, item + 10);
    }
    assert_eq!(inorder(&tree, low), vec![1, 2, 3, 4, 6]);
    assert_eq!(inorder(&tree, high), vec![11, 12, 13, 14, 16]);
    low = tree.detach(low, 4);
    assert_eq!(inorder(&tree, low), vec![1, 2, 3, 6]);
    assert_eq!(inorder(&tree, high), vec![11, 12, 13, 14, 16]);
    assert_eq!(check_sizes(&tree, high), 5);
}

#[test]
fn the_interfaces_agree() {
    for seed in 0..20u64 {
        let len = 24;
        let mut by_store = New::new(len);
        let mut by_engine = New::new(len);
        let mut store_root = None;
        let mut engine_root = None;
        for item in shuffled(len, seed) {
            by_store._attach(&mut store_root, item);
            engine_root = by_engine.attach(engine_root, item);
            assert_eq!(store_root, engine_root);
            assert_eq!(slots(&by_store, len), slots(&by_engine, len));
        }
        for probe in 0..len + 3 {
            assert_eq!(
                BTree::is_contains(&by_store, store_root.unwrap(), probe),
                Tree::is_contains(&by_engine, engine_root.unwrap(), probe)
            );
        }
    }
}

#[test]
fn rightest_and_leftest_are_the_ends_of_the_order() {
    for seed in 0..20u64 {
        let len = 30;
        let mut tree = New::new(len);
        let mut root = None;
        let items = shuffled(len, seed);
        for item in &items[..12] {
            root = tree.attach(root, *item);
        }
        let order = inorder(&tree, root);
        assert_eq!(tree.leftest(root.unwrap()), order[0]);
        assert_eq!(tree.rightest(root.unwrap()), order[order.len() - 1]);
        for (place, item) in order.iter().enumerate() {
            if tree.right(*item).is_some() {
                assert_eq!(tree.next(*item), Some(order[place + 1]));
            } else {
                assert_eq!(tree.next(*item), None);
            }
            if tree.left(*item).is_some() {
                assert_eq!(tree.prev(*item), Some(order[place - 1]));
            } else {
                assert_eq!(tree.prev(*item), None);
            }
        }
    }
}

#[test]
fn height_stays_logarithmic() {
    for seed in 0..60u64 {
        let len = 1 + (seed as usize * 37) % 900;
        let mut tree = New::new(len);
        let mut root = None;
        for item in shuffled(len, seed) {
            root = tree.attach(root, item);
        }
        let bound = 2.0 * ((len + 1) as f64).log2();
        let high = height(&tree, root);
        assert!(high as f64 <= bound, "height {} of {} handles", high, len);
    }
}

#[test]
fn height_after_ordered_attaches() {
    for (len, expected) in [(1usize, 1usize), (2, 2), (3, 2), (10, 5), (100, 10), (1000, 15)] {
        let mut tree = New::new(len);
        let mut root = None;
        for item in 0..len {
            root = tree.attach(root, item);
        }
        assert_eq!(height(&tree, root), expected);

        let mut tree = New::new(len);
        let mut root = None;
        for item in (0..len).rev() {
            root = tree.attach(root, item);
        }
        assert_eq!(height(&tree, root), expected);
    }
}

#[test]
fn attach_in_order_rotates_towards_the_root() {
    // 1, 2, 3, 4, 5, 6 in order: each rotation lifts the right child.
    let mut tree = New::new(7);
    let mut root = None;
    for item in 1..=6 {
        root = tree.attach(root, item);
    }
    assert_eq!(root, Some(4));
    assert_eq!(tree.get(4), Some(Node { size: 6, left: Some(3), right: Some(5) }));
    assert_eq!(tree.get(3), Some(Node { size: 3, left: Some(2), right: None }));
    assert_eq!(tree.get(2), Some(Node { size: 2, left: Some(1), right: None }));
    assert_eq!(tree.get(1), Some(Node { size: 1, left: None, right: None }));
    assert_eq!(tree.get(5), Some(Node { size: 2, left: None, right: Some(6) }));
    assert_eq!(tree.get(6), Some(Node { size: 1, left: None, right: None }));
}

#[test]
fn detach_rotates_towards_the_handle() {
    // 4 -> (3 -> (2 -> (1)), 5 -> (_, 6)): detaching 6 finds the outer
    // grandchild on the left, 2, larger than what is left on the right, and
    // rotates right at 4 before it goes down.
    let mut tree = New::new(7);
    let mut root = None;
    for item in 1..=6 {
        root = tree.attach(root, item);
    }
    root = tree.detach(root, 6);
    assert_eq!(inorder(&tree, root), vec![1, 2, 3, 4, 5]);
    assert_eq!(check_sizes(&tree, root), 5);
    assert_eq!(root, Some(3));
    assert_eq!(tree.get(3), Some(Node { size: 5, left: Some(2), right: Some(4) }));
    assert_eq!(tree.get(4), Some(Node { size: 2, left: None, right: Some(5) }));
    assert_eq!(tree.get(5), Some(Node { size: 1, left: None, right: None }));
    assert_eq!(tree.get(6), Some(Node::default()));
}

#[test]
fn detach_takes_the_predecessor_where_the_left_side_is_as_large() {
    // 5 -> (3, 8): both sides have one handle, so the predecessor 3 takes
    // the place of 5.
    let mut tree = New::new(10);
    let mut root = None;
    for item in [5, 3, 8] {
        root = tree.attach(root, item);
    }
    root = tree.detach(root, 5);
    assert_eq!(root, Some(3));
    assert_eq!(tree.get(3), Some(Node { size: 2, left: None, right: Some(8) }));
    assert_eq!(tree.get(5), Some(Node::default()));
}

/// Attaches `items` in turn to a tree in a fresh arena of `len` slots and
/// says which of the `probes` it finds there.
fn found_after<B: BTree<Item = usize>>(len: usize, items: &[usize], probes: &[usize]) -> Vec<bool> {
    let mut store = B::new(len);
    let mut root = None;
    for item in items {
        store._attach(&mut root, *item);
    }
    probes.iter().map(|probe| store.is_contains(root.unwrap(), *probe)).collect()
}

#[test]
fn the_store_interface_is_enough_to_use_a_tree() {
    let found = found_after::<New>(12, &[6, 2, 9, 4, 11, 0], &[0, 1, 2, 4, 5, 6, 9, 10, 11, 12]);
    assert_eq!(found, vec![true, false, true, true, false, true, true, false, true, false]);
}
