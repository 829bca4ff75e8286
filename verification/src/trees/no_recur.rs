//! The engine: attaching and detaching a handle by one descent from the
//! root, which restructures the tree on its way and does not return.

use vstd::prelude::*;
use crate::trees::attach::{
    attaching, lemma_attach_down_left, lemma_attach_down_right, lemma_attach_hang_left,
    lemma_attach_hang_right, lemma_attach_lift_left, lemma_attach_lift_right, lemma_attach_reads,
    lemma_attach_start, lemma_attach_turn_left, lemma_attach_turn_right, lemma_attach_twice_left,
    lemma_attach_twice_right,
};
use crate::trees::detach::{
    detaching, lemma_detach_down_left, lemma_detach_down_right, lemma_detach_drop,
    lemma_detach_graft_left, lemma_detach_graft_right, lemma_detach_pick_left,
    lemma_detach_pick_right, lemma_detach_reads, lemma_detach_start, lemma_detach_turn_left,
    lemma_detach_turn_right, lemma_detach_twice_left, lemma_detach_twice_right,
};
use crate::trees::layout::{holds, is_tree, lemma_is_tree, lemma_shape_of, shape_of};
use crate::trees::node::Node;
use crate::trees::shape::Shape;
use crate::trees::tree::Tree;
use crate::trees::walk::{relinked, Cursor, Walk};

verus! {

/// What attaching the handle `idx` to the tree at `root` makes of an arena.
///
/// The arena holds at the new root the tree with `idx` attached, and no slot
/// but that of `idx` and those of the handles of the tree has changed. A
/// handle out of range is not attached: root and arena are as they were.
pub open spec fn attach_gives(
    before: Seq<Node>,
    root: Option<usize>,
    idx: usize,
    after: Seq<Node>,
    new_root: Option<usize>,
) -> bool {
    &&& after.len() == before.len()
    &&& if idx < before.len() {
        &&& is_tree(after, new_root)
        &&& shape_of(after, new_root) == shape_of(before, root).attached(idx)
        &&& forall|i: int|
            0 <= i < before.len() && i != idx && !shape_of(before, root).has_at(i)
                ==> #[trigger] after[i] == before[i]
    } else {
        &&& new_root == root
        &&& after == before
    }
}

/// What detaching the handle `idx` from the tree at `root` makes of an arena.
///
/// The arena holds at the new root the tree with `idx` detached, the slot of
/// `idx` is vacant, and no slot but those of the handles of the tree has
/// changed.
pub open spec fn detach_gives(
    before: Seq<Node>,
    root: Option<usize>,
    idx: usize,
    after: Seq<Node>,
    new_root: Option<usize>,
) -> bool {
    &&& after.len() == before.len()
    &&& is_tree(after, new_root)
    &&& shape_of(after, new_root) == shape_of(before, root).detached(idx)
    &&& idx < after.len()
    &&& after[idx as int] == Node::vacant()
    &&& forall|i: int|
        0 <= i < before.len() && !shape_of(before, root).has_at(i) ==> #[trigger] after[i]
            == before[i]
}

/// The size behind an optional reading, zero where there is none.
fn or_zero(size: Option<usize>) -> (value: usize)
    ensures
        value == (match size {
            Some(size) => size,
            None => 0,
        }),
{
    match size {
        Some(size) => size,
        None => 0,
    }
}

/// Sets the link that leads to the cursor: the root that the caller keeps
/// where the cursor is at the top, else the child of `parent` on the side of
/// the descent.
fn relink<S: Tree>(
    tree: &mut S,
    top: &mut Option<usize>,
    parent: Option<usize>,
    on_left: bool,
    link: Option<usize>,
)
    ensures
        final(tree).nodes() == relinked(old(tree).nodes(), parent, on_left, link),
        *final(top) == (if parent is None {
            link
        } else {
            *old(top)
        }),
{
    match parent {
        None => {
            *top = link;
        },
        Some(parent) => {
            if on_left {
                tree.set_left(parent, link);
            } else {
                tree.set_right(parent, link);
            }
        },
    }
}

/// Attaches the vacant handle `idx` to the tree at `root` and returns the new
/// root.
///
/// The cursor starts at the root and moves towards the place of `idx`. At
/// each handle it either hangs `idx` below it, or rotates there and goes on
/// from the handle that came up, or lifts `idx` over it and its child, or adds
/// one to its size and moves to its child.
pub fn attach_impl<S: Tree>(tree: &mut S, root: usize, idx: usize) -> (new_root: Option<usize>)
    requires
        is_tree(old(tree).nodes(), Some(root)),
        !shape_of(old(tree).nodes(), Some(root)).has(idx),
        idx < old(tree).nodes().len(),
        old(tree).nodes()[idx as int].left is None,
        old(tree).nodes()[idx as int].right is None,
    ensures
        attach_gives(old(tree).nodes(), Some(root), idx, final(tree).nodes(), new_root),
{
    let ghost before = tree.nodes();
    let ghost mut walk = Walk {
        origin: shape_of(before, Some(root)),
        whole: shape_of(before, Some(root)).attached(idx),
        depth: 0,
        rest: shape_of(before, Some(root)),
        lo: -1,
        hi: before.len() as int,
    };
    let mut top = Some(root);
    let mut parent: Option<usize> = None;
    let mut on_left = false;
    let mut cursor = root;
    proof {
        tree.lemma_capacity();
        lemma_attach_start(before, root, idx);
    }
    loop
        invariant
            before == old(tree).nodes(),
            walk.origin == shape_of(before, Some(root)),
            walk.whole == walk.origin.attached(idx),
            attaching(tree.nodes(), before, idx, Cursor { top, parent, on_left, at: cursor }, walk),
        decreases walk.rest.depth(idx),
    {
        let ghost nodes = tree.nodes();
        let ghost here = Cursor { top, parent, on_left, at: cursor };
        proof {
            lemma_attach_reads(nodes, before, idx, here, walk);
        }
        if tree.is_left_of(idx, cursor) {
            match tree.left(cursor) {
                None => {
                    proof {
                        lemma_attach_hang_left(nodes, before, idx, here, walk);
                    }
                    tree.inc_size(cursor);
                    tree.set_size(idx, 1);
                    tree.set_left(cursor, Some(idx));
                    proof {
                        lemma_shape_of(tree.nodes(), top, walk.whole);
                    }
                    return top;
                },
                Some(left) => {
                    let left_size = or_zero(tree.size(left));
                    let right_size = or_zero(tree.right_size(cursor));
                    if tree.is_left_of(idx, left) {
                        if left_size >= right_size {
                            proof {
                                lemma_attach_turn_right(nodes, before, idx, here, walk, left);
                            }
                            let pivot = tree.rotate_right(cursor).unwrap();
                            relink(tree, &mut top, parent, on_left, Some(pivot));
                            proof {
                                walk = Walk { rest: walk.rest.rotated_right(), ..walk };
                            }
                            cursor = pivot;
                        } else {
                            proof {
                                lemma_attach_down_left(nodes, before, idx, here, walk, left);
                            }
                            tree.inc_size(cursor);
                            proof {
                                walk = Walk {
                                    depth: walk.depth + 1,
                                    rest: walk.rest.left(),
                                    hi: cursor as int,
                                    ..walk
                                };
                            }
                            parent = Some(cursor);
                            on_left = true;
                            cursor = left;
                        }
                    } else {
                        let inner_size = or_zero(tree.right_size(left));
                        if inner_size >= right_size {
                            if inner_size == 0 && right_size == 0 {
                                proof {
                                    lemma_attach_lift_left(nodes, before, idx, here, walk, left);
                                }
                                tree.set_left(idx, Some(left));
                                tree.set_right(idx, Some(cursor));
                                tree.set_size(idx, left_size + 2);
                                tree.set_left(cursor, None);
                                tree.set_size(cursor, 1);
                                relink(tree, &mut top, parent, on_left, Some(idx));
                                proof {
                                    lemma_shape_of(tree.nodes(), top, walk.whole);
                                }
                                return top;
                            } else {
                                proof {
                                    lemma_attach_twice_left(nodes, before, idx, here, walk, left);
                                }
                                let turned = tree.rotate_left(left);
                                tree.set_left(cursor, turned);
                                let pivot = tree.rotate_right(cursor).unwrap();
                                relink(tree, &mut top, parent, on_left, Some(pivot));
                                proof {
                                    walk = Walk { rest: walk.rest.rotated_left_right(), ..walk };
                                }
                                cursor = pivot;
                            }
                        } else {
                            proof {
                                lemma_attach_down_left(nodes, before, idx, here, walk, left);
                            }
                            tree.inc_size(cursor);
                            proof {
                                walk = Walk {
                                    depth: walk.depth + 1,
                                    rest: walk.rest.left(),
                                    hi: cursor as int,
                                    ..walk
                                };
                            }
                            parent = Some(cursor);
                            on_left = true;
                            cursor = left;
                        }
                    }
                },
            }
        } else {
            match tree.right(cursor) {
                None => {
                    proof {
                        lemma_attach_hang_right(nodes, before, idx, here, walk);
                    }
                    tree.inc_size(cursor);
                    tree.set_size(idx, 1);
                    tree.set_right(cursor, Some(idx));
                    proof {
                        lemma_shape_of(tree.nodes(), top, walk.whole);
                    }
                    return top;
                },
                Some(right) => {
                    let right_size = or_zero(tree.size(right));
                    let left_size = or_zero(tree.left_size(cursor));
                    if tree.is_right_of(idx, right) {
                        if right_size >= left_size {
                            proof {
                                lemma_attach_turn_left(nodes, before, idx, here, walk, right);
                            }
                            let pivot = tree.rotate_left(cursor).unwrap();
                            relink(tree, &mut top, parent, on_left, Some(pivot));
                            proof {
                                walk = Walk { rest: walk.rest.rotated_left(), ..walk };
                            }
                            cursor = pivot;
                        } else {
                            proof {
                                lemma_attach_down_right(nodes, before, idx, here, walk, right);
                            }
                            tree.inc_size(cursor);
                            proof {
                                walk = Walk {
                                    depth: walk.depth + 1,
                                    rest: walk.rest.right(),
                                    lo: cursor as int,
                                    ..walk
                                };
                            }
                            parent = Some(cursor);
                            on_left = false;
                            cursor = right;
                        }
                    } else {
                        let inner_size = or_zero(tree.left_size(right));
                        if inner_size >= left_size {
                            if inner_size == 0 && left_size == 0 {
                                proof {
                                    lemma_attach_lift_right(nodes, before, idx, here, walk, right);
                                }
                                tree.set_left(idx, Some(cursor));
                                tree.set_right(idx, Some(right));
                                tree.set_size(idx, right_size + 2);
                                tree.set_right(cursor, None);
                                tree.set_size(cursor, 1);
                                relink(tree, &mut top, parent, on_left, Some(idx));
                                proof {
                                    lemma_shape_of(tree.nodes(), top, walk.whole);
                                }
                                return top;
                            } else {
                                proof {
                                    lemma_attach_twice_right(nodes, before, idx, here, walk, right);
                                }
                                let turned = tree.rotate_right(right);
                                tree.set_right(cursor, turned);
                                let pivot = tree.rotate_left(cursor).unwrap();
                                relink(tree, &mut top, parent, on_left, Some(pivot));
                                proof {
                                    walk = Walk { rest: walk.rest.rotated_right_left(), ..walk };
                                }
                                cursor = pivot;
                            }
                        } else {
                            proof {
                                lemma_attach_down_right(nodes, before, idx, here, walk, right);
                            }
                            tree.inc_size(cursor);
                            proof {
                                walk = Walk {
                                    depth: walk.depth + 1,
                                    rest: walk.rest.right(),
                                    lo: cursor as int,
                                    ..walk
                                };
                            }
                            parent = Some(cursor);
                            on_left = false;
                            cursor = right;
                        }
                    }
                },
            }
        }
    }
}

/// Detaches the handle `idx` from the tree at `root`, returns the new root,
/// absent where `idx` was the only handle, and leaves the slot of `idx`
/// vacant.
///
/// The cursor starts at the root and moves towards `idx`. Before each step
/// it looks at the other side: where a grandchild there is at least as large
/// as the side of `idx`, it rotates towards `idx` and goes on from the handle
/// that came up; else it takes one from the size of the handle at hand and
/// moves to its child. At `idx` its only child takes its place, or no handle;
/// where it has two, the neighbour of `idx` in the larger subtree is detached
/// from that subtree in the same way and takes the place.
pub fn detach_impl<S: Tree>(tree: &mut S, root: usize, idx: usize) -> (new_root: Option<usize>)
    requires
        is_tree(old(tree).nodes(), Some(root)),
        shape_of(old(tree).nodes(), Some(root)).has(idx),
    ensures
        detach_gives(old(tree).nodes(), Some(root), idx, final(tree).nodes(), new_root),
    decreases shape_of(old(tree).nodes(), Some(root)).size(),
{
    let ghost before = tree.nodes();
    let ghost mut walk = Walk {
        origin: shape_of(before, Some(root)),
        whole: shape_of(before, Some(root)).detached(idx),
        depth: 0,
        rest: shape_of(before, Some(root)),
        lo: -1,
        hi: before.len() as int,
    };
    let mut top = Some(root);
    let mut parent: Option<usize> = None;
    let mut on_left = false;
    let mut cursor = root;
    proof {
        tree.lemma_capacity();
        lemma_detach_start(before, root, idx);
    }
    loop
        invariant
            before == old(tree).nodes(),
            walk.origin == shape_of(before, Some(root)),
            walk.whole == walk.origin.detached(idx),
            detaching(tree.nodes(), before, idx, Cursor { top, parent, on_left, at: cursor }, walk),
        decreases walk.rest.size(), walk.rest.far_size(idx),
    {
        let ghost nodes = tree.nodes();
        let ghost here = Cursor { top, parent, on_left, at: cursor };
        proof {
            lemma_detach_reads(nodes, before, idx, here, walk);
        }
        let left = tree.left(cursor);
        let right = tree.right(cursor);
        let left_size = or_zero(tree.left_size(cursor));
        let right_size = or_zero(tree.right_size(cursor));
        if tree.is_left_of(idx, cursor) {
            let spare = left_size - 1;
            let outer_size = match right {
                Some(right) => or_zero(tree.right_size(right)),
                None => 0,
            };
            let inner_size = match right {
                Some(right) => or_zero(tree.left_size(right)),
                None => 0,
            };
            if outer_size > spare {
                proof {
                    lemma_detach_turn_left(nodes, before, idx, here, walk);
                }
                let pivot = tree.rotate_left(cursor).unwrap();
                relink(tree, &mut top, parent, on_left, Some(pivot));
                proof {
                    walk = Walk { rest: walk.rest.rotated_left(), ..walk };
                }
                cursor = pivot;
            } else if inner_size > spare {
                proof {
                    lemma_detach_twice_left(nodes, before, idx, here, walk);
                }
                let turned = tree.rotate_right(right.unwrap());
                tree.set_right(cursor, turned);
                let pivot = tree.rotate_left(cursor).unwrap();
                relink(tree, &mut top, parent, on_left, Some(pivot));
                proof {
                    walk = Walk { rest: walk.rest.rotated_right_left(), ..walk };
                }
                cursor = pivot;
            } else {
                proof {
                    lemma_detach_down_left(nodes, before, idx, here, walk);
                }
                tree.dec_size(cursor);
                proof {
                    walk = Walk {
                        depth: walk.depth + 1,
                        rest: walk.rest.left(),
                        hi: cursor as int,
                        ..walk
                    };
                }
                parent = Some(cursor);
                on_left = true;
                cursor = left.unwrap();
            }
        } else if tree.is_right_of(idx, cursor) {
            let spare = right_size - 1;
            let outer_size = match left {
                Some(left) => or_zero(tree.left_size(left)),
                None => 0,
            };
            let inner_size = match left {
                Some(left) => or_zero(tree.right_size(left)),
                None => 0,
            };
            if outer_size > spare {
                proof {
                    lemma_detach_turn_right(nodes, before, idx, here, walk);
                }
                let pivot = tree.rotate_right(cursor).unwrap();
                relink(tree, &mut top, parent, on_left, Some(pivot));
                proof {
                    walk = Walk { rest: walk.rest.rotated_right(), ..walk };
                }
                cursor = pivot;
            } else if inner_size > spare {
                proof {
                    lemma_detach_twice_right(nodes, before, idx, here, walk);
                }
                let turned = tree.rotate_left(left.unwrap());
                tree.set_left(cursor, turned);
                let pivot = tree.rotate_right(cursor).unwrap();
                relink(tree, &mut top, parent, on_left, Some(pivot));
                proof {
                    walk = Walk { rest: walk.rest.rotated_left_right(), ..walk };
                }
                cursor = pivot;
            } else {
                proof {
                    lemma_detach_down_right(nodes, before, idx, here, walk);
                }
                tree.dec_size(cursor);
                proof {
                    walk = Walk {
                        depth: walk.depth + 1,
                        rest: walk.rest.right(),
                        lo: cursor as int,
                        ..walk
                    };
                }
                parent = Some(cursor);
                on_left = false;
                cursor = right.unwrap();
            }
        } else {
            match (left, right) {
                (Some(below), Some(above)) => {
                    if left_size >= right_size {
                        proof {
                            lemma_detach_pick_left(nodes, before, idx, here, walk);
                        }
                        let last = tree.rightest(below);
                        let kept = detach_impl(tree, below, last);
                        let ghost pruned = tree.nodes();
                        proof {
                            lemma_is_tree(pruned, kept);
                            lemma_detach_graft_left(nodes, before, idx, here, walk, pruned, kept);
                        }
                        tree.set_left(last, kept);
                        tree.set_right(last, right);
                        tree.set_size(last, left_size + right_size);
                        tree.clear(idx);
                        relink(tree, &mut top, parent, on_left, Some(last));
                    } else {
                        proof {
                            lemma_detach_pick_right(nodes, before, idx, here, walk);
                        }
                        let first = tree.leftest(above);
                        let kept = detach_impl(tree, above, first);
                        let ghost pruned = tree.nodes();
                        proof {
                            lemma_is_tree(pruned, kept);
                            lemma_detach_graft_right(nodes, before, idx, here, walk, pruned, kept);
                        }
                        tree.set_left(first, left);
                        tree.set_right(first, kept);
                        tree.set_size(first, left_size + right_size);
                        tree.clear(idx);
                        relink(tree, &mut top, parent, on_left, Some(first));
                    }
                },
                (Some(below), None) => {
                    proof {
                        lemma_detach_drop(nodes, before, idx, here, walk, left);
                    }
                    tree.clear(idx);
                    relink(tree, &mut top, parent, on_left, left);
                },
                (None, _) => {
                    proof {
                        lemma_detach_drop(nodes, before, idx, here, walk, right);
                    }
                    tree.clear(idx);
                    relink(tree, &mut top, parent, on_left, right);
                },
            }
            proof {
                lemma_shape_of(tree.nodes(), top, walk.whole);
            }
            return top;
        }
    }
}

/// The engine on an arena: attach and detach that take and return the root
/// as it is kept outside the arena.
pub trait NoRecur: Tree {
    /// Attaches the vacant handle `idx` to the tree at `root` and returns the
    /// new root. A handle out of range is not attached: the root comes back
    /// as it was given and the arena is left as it is.
    fn attach(&mut self, root: Option<usize>, idx: usize) -> (new_root: Option<usize>)
        requires
            is_tree(old(self).nodes(), root),
            !shape_of(old(self).nodes(), root).has(idx),
            idx < old(self).nodes().len() ==> old(self).nodes()[idx as int].left is None && old(
                self,
            ).nodes()[idx as int].right is None,
        ensures
            attach_gives(old(self).nodes(), root, idx, final(self).nodes(), new_root),
    {
        if self.get(idx).is_none() {
            return root;
        }
        match root {
            Some(root) => attach_impl(self, root, idx),
            None => {
                self.set_size(idx, 1);
                proof {
                    let ghost before = old(self).nodes();
                    lemma_is_tree(before, None);
                    Shape::lemma_attached_empty(idx);
                    Shape::lemma_leaf(idx, -1, usize::MAX + 1);
                    assert(holds(self.nodes(), Some(idx), Shape::leaf(idx))) by {
                        reveal_with_fuel(holds, 3);
                    }
                    lemma_shape_of(self.nodes(), Some(idx), Shape::leaf(idx));
                }
                Some(idx)
            },
        }
    }

    /// Detaches the handle `idx` from the tree at `root`, returns the new
    /// root, absent where `idx` was the only handle, and leaves the slot of
    /// `idx` vacant.
    fn detach(&mut self, root: Option<usize>, idx: usize) -> (new_root: Option<usize>)
        requires
            is_tree(old(self).nodes(), root),
            shape_of(old(self).nodes(), root).has(idx),
        ensures
            detach_gives(old(self).nodes(), root, idx, final(self).nodes(), new_root),
    {
        match root {
            Some(root) => detach_impl(self, root, idx),
            None => {
                proof {
                    lemma_is_tree(old(self).nodes(), None);
                }
                None
            },
        }
    }
}

} // verus!
