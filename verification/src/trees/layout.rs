//! How an arena holds a tree: the slot of each handle records the size of its
//! subtree and the roots of its two children.

use vstd::prelude::*;
use crate::trees::node::{
    left_of, relinked_left, relinked_right, right_of, size_by_children, size_or_zero, turned_left,
    turned_right, Node,
};
use crate::trees::shape::Shape;

verus! {

/// Whether the arena holds the tree `shape` at `root`: the root handle is the
/// root of the shape, its slot records the number of handles of the shape,
/// and the children recorded there hold the two subtrees.
pub open spec fn holds(nodes: Seq<Node>, root: Option<usize>, shape: Shape) -> bool
    decreases shape,
{
    match shape {
        Shape::Empty => root is None,
        Shape::Fork { left, key, right } => {
            &&& root == Some(key)
            &&& key < nodes.len()
            &&& nodes[key as int].size == shape.size()
            &&& holds(nodes, nodes[key as int].left, *left)
            &&& holds(nodes, nodes[key as int].right, *right)
        },
    }
}

/// Whether the arena holds an ordered tree at `root`.
pub open spec fn is_tree(nodes: Seq<Node>, root: Option<usize>) -> bool {
    exists|shape: Shape| holds(nodes, root, shape) && shape.ordered()
}

/// The ordered tree that the arena holds at `root`.
pub open spec fn shape_of(nodes: Seq<Node>, root: Option<usize>) -> Shape {
    choose|shape: Shape| holds(nodes, root, shape) && shape.ordered()
}

/// What holding a tree says of the root slot.
pub proof fn lemma_holds_root(nodes: Seq<Node>, root: Option<usize>, shape: Shape)
    requires
        holds(nodes, root, shape),
    ensures
        root == shape.root(),
        size_or_zero(nodes, root) == shape.size(),
        root matches Some(key) ==> {
            &&& key < nodes.len()
            &&& nodes[key as int].size == shape.size()
            &&& shape.size() == 1 + shape.left().size() + shape.right().size()
            &&& holds(nodes, nodes[key as int].left, shape.left())
            &&& holds(nodes, nodes[key as int].right, shape.right())
        },
{
}

/// An arena holds at most one tree at a root.
pub proof fn lemma_holds_unique(nodes: Seq<Node>, root: Option<usize>, one: Shape, other: Shape)
    requires
        holds(nodes, root, one),
        holds(nodes, root, other),
    ensures
        one == other,
    decreases one,
{
    match one {
        Shape::Empty => {},
        Shape::Fork { left, key, right } => {
            lemma_holds_unique(nodes, nodes[key as int].left, *left, other.left());
            lemma_holds_unique(nodes, nodes[key as int].right, *right, other.right());
        },
    }
}

/// The tree that an arena holds at a root is the one `shape_of` names.
pub proof fn lemma_shape_of(nodes: Seq<Node>, root: Option<usize>, shape: Shape)
    requires
        holds(nodes, root, shape),
        shape.ordered(),
    ensures
        is_tree(nodes, root),
        shape_of(nodes, root) == shape,
{
    lemma_holds_unique(nodes, root, shape, shape_of(nodes, root));
}

/// Where an arena holds an ordered tree, it holds the one `shape_of` names.
pub proof fn lemma_is_tree(nodes: Seq<Node>, root: Option<usize>)
    requires
        is_tree(nodes, root),
    ensures
        holds(nodes, root, shape_of(nodes, root)),
        shape_of(nodes, root).ordered(),
{
}

/// A tree stays held when the slots of its handles stay as they are.
pub proof fn lemma_holds_kept(
    before: Seq<Node>,
    after: Seq<Node>,
    root: Option<usize>,
    shape: Shape,
)
    requires
        holds(before, root, shape),
        after.len() == before.len(),
        forall|x: usize| shape.has(x) ==> after[x as int] == before[x as int],
    ensures
        holds(after, root, shape),
    decreases shape,
{
    match shape {
        Shape::Empty => {},
        Shape::Fork { left, key, right } => {
            assert(shape.has(key));
            assert forall|x: usize| left.has(x) implies after[x as int] == before[x as int] by {
                assert(shape.has(x));
            }
            assert forall|x: usize| right.has(x) implies after[x as int] == before[x as int] by {
                assert(shape.has(x));
            }
            lemma_holds_kept(before, after, before[key as int].left, *left);
            lemma_holds_kept(before, after, before[key as int].right, *right);
        },
    }
}

/// A tree ordered between `lo` and `hi` stays held when the slots strictly
/// between `lo` and `hi` stay as they are.
pub proof fn lemma_holds_frame(
    before: Seq<Node>,
    after: Seq<Node>,
    root: Option<usize>,
    shape: Shape,
    lo: int,
    hi: int,
)
    requires
        holds(before, root, shape),
        shape.within(lo, hi),
        after.len() == before.len(),
        forall|i: int| lo < i < hi && 0 <= i < before.len() ==> after[i] == before[i],
    ensures
        holds(after, root, shape),
{
    assert forall|x: usize| shape.has(x) implies after[x as int] == before[x as int] by {
        shape.lemma_within_has(lo, hi, x);
        lemma_holds_has(before, root, shape, x);
    }
    lemma_holds_kept(before, after, root, shape);
}

/// Every handle of a held tree is a slot of the arena, and the size recorded
/// there is one more than the sizes recorded behind its two children.
pub proof fn lemma_holds_has(nodes: Seq<Node>, root: Option<usize>, shape: Shape, x: usize)
    requires
        holds(nodes, root, shape),
        shape.has(x),
    ensures
        x < nodes.len(),
        nodes[x as int].size == size_by_children(nodes, x),
    decreases shape,
{
    match shape {
        Shape::Empty => {},
        Shape::Fork { left, key, right } => {
            if x == key {
                lemma_holds_root(nodes, nodes[key as int].left, *left);
                lemma_holds_root(nodes, nodes[key as int].right, *right);
            } else if left.has(x) {
                lemma_holds_has(nodes, nodes[key as int].left, *left, x);
            } else {
                lemma_holds_has(nodes, nodes[key as int].right, *right, x);
            }
        },
    }
}

/// A held tree that is ordered lies within the arena: its handles are below
/// the arena's length, and there are no more of them than slots.
pub proof fn lemma_holds_bounded(
    nodes: Seq<Node>,
    root: Option<usize>,
    shape: Shape,
    lo: int,
    hi: int,
)
    requires
        holds(nodes, root, shape),
        shape.within(lo, hi),
    ensures
        shape.within(if lo < -1 { -1 } else { lo }, if hi > nodes.len() { nodes.len() as int } else { hi }),
        shape.size() <= nodes.len(),
{
    shape.lemma_within_ordered(lo, hi);
    let low = if lo < -1 { -1 } else { lo };
    let high = if hi > usize::MAX + 1 { usize::MAX + 1 } else { hi };
    assert forall|x: usize| shape.has(x) implies x < nodes.len() by {
        lemma_holds_has(nodes, root, shape, x);
    }
    shape.lemma_within_below(low, high, nodes.len() as int);
    if hi <= nodes.len() {
        shape.lemma_size_bound(low, hi);
    } else {
        shape.lemma_within_widen(low, nodes.len() as int, -1, nodes.len() as int);
        shape.lemma_size_bound(-1, nodes.len() as int);
    }
}

/// A left rotation at the root of a held tree with a right child makes the
/// arena hold the rotated tree at that child, and changes no other slot than
/// those two.
pub proof fn lemma_turned_left(nodes: Seq<Node>, root: usize, shape: Shape, lo: int, hi: int)
    requires
        holds(nodes, Some(root), shape),
        shape.within(lo, hi),
        shape.right().size() > 0,
    ensures
        right_of(nodes, root) == shape.right().root(),
        right_of(nodes, root) is Some,
        size_by_children(relinked_left(nodes, root), root) <= usize::MAX,
        holds(turned_left(nodes, root), right_of(nodes, root), shape.rotated_left()),
        turned_left(nodes, root).len() == nodes.len(),
        forall|i: int|
            0 <= i < nodes.len() && i != root && i != shape.right().root().unwrap()
                ==> turned_left(nodes, root)[i] == nodes[i],
{
    let left = shape.left();
    let right = shape.right();
    right.lemma_size_zero();
    let pivot = right.root().unwrap();
    let inner = right.left();
    let outer = right.right();
    lemma_holds_root(nodes, Some(root), shape);
    lemma_holds_root(nodes, nodes[root as int].right, right);
    lemma_holds_root(nodes, nodes[root as int].left, left);
    lemma_holds_root(nodes, nodes[pivot as int].left, inner);
    assert(right.within(root as int, hi));
    let mid = relinked_left(nodes, root);
    let after = turned_left(nodes, root);
    assert(mid.len() == nodes.len());
    assert(after.len() == nodes.len());
    assert forall|i: int| 0 <= i < nodes.len() && i != root && i != pivot implies mid[i] == nodes[i]
        && after[i] == nodes[i] by {}
    lemma_holds_frame(nodes, mid, nodes[root as int].left, left, lo, root as int);
    lemma_holds_frame(nodes, mid, nodes[pivot as int].left, inner, root as int, pivot as int);
    lemma_holds_root(mid, nodes[root as int].left, left);
    lemma_holds_root(mid, nodes[pivot as int].left, inner);
    assert(mid[root as int].left == nodes[root as int].left);
    assert(mid[root as int].right == nodes[pivot as int].left);
    assert(size_by_children(mid, root) == left.size() + inner.size() + 1);
    lemma_holds_bounded(nodes, Some(root), shape, lo, hi);
    lemma_holds_frame(nodes, after, nodes[root as int].left, left, lo, root as int);
    lemma_holds_frame(nodes, after, nodes[pivot as int].left, inner, root as int, pivot as int);
    lemma_holds_frame(nodes, after, nodes[pivot as int].right, outer, pivot as int, hi);
    let low = Shape::fork(left, root, inner);
    assert(holds(after, Some(root), low));
    assert(shape.rotated_left() == Shape::fork(low, pivot, outer));
    assert(holds(after, Some(pivot), shape.rotated_left()));
}

/// A right rotation at the root of a held tree with a left child makes the
/// arena hold the rotated tree at that child, and changes no other slot than
/// those two.
pub proof fn lemma_turned_right(nodes: Seq<Node>, root: usize, shape: Shape, lo: int, hi: int)
    requires
        holds(nodes, Some(root), shape),
        shape.within(lo, hi),
        shape.left().size() > 0,
    ensures
        left_of(nodes, root) == shape.left().root(),
        left_of(nodes, root) is Some,
        size_by_children(relinked_right(nodes, root), root) <= usize::MAX,
        holds(turned_right(nodes, root), left_of(nodes, root), shape.rotated_right()),
        turned_right(nodes, root).len() == nodes.len(),
        forall|i: int|
            0 <= i < nodes.len() && i != root && i != shape.left().root().unwrap()
                ==> turned_right(nodes, root)[i] == nodes[i],
{
    let left = shape.left();
    let right = shape.right();
    left.lemma_size_zero();
    let pivot = left.root().unwrap();
    let inner = left.right();
    let outer = left.left();
    lemma_holds_root(nodes, Some(root), shape);
    lemma_holds_root(nodes, nodes[root as int].left, left);
    lemma_holds_root(nodes, nodes[root as int].right, right);
    lemma_holds_root(nodes, nodes[pivot as int].right, inner);
    assert(left.within(lo, root as int));
    let mid = relinked_right(nodes, root);
    let after = turned_right(nodes, root);
    assert(mid.len() == nodes.len());
    assert(after.len() == nodes.len());
    assert forall|i: int| 0 <= i < nodes.len() && i != root && i != pivot implies mid[i] == nodes[i]
        && after[i] == nodes[i] by {}
    lemma_holds_frame(nodes, mid, nodes[root as int].right, right, root as int, hi);
    lemma_holds_frame(nodes, mid, nodes[pivot as int].right, inner, pivot as int, root as int);
    lemma_holds_root(mid, nodes[root as int].right, right);
    lemma_holds_root(mid, nodes[pivot as int].right, inner);
    assert(mid[root as int].right == nodes[root as int].right);
    assert(mid[root as int].left == nodes[pivot as int].right);
    assert(size_by_children(mid, root) == right.size() + inner.size() + 1);
    lemma_holds_bounded(nodes, Some(root), shape, lo, hi);
    lemma_holds_frame(nodes, after, nodes[root as int].right, right, root as int, hi);
    lemma_holds_frame(nodes, after, nodes[pivot as int].right, inner, pivot as int, root as int);
    lemma_holds_frame(nodes, after, nodes[pivot as int].left, outer, lo, pivot as int);
    let high = Shape::fork(inner, root, right);
    assert(holds(after, Some(root), high));
    assert(shape.rotated_right() == Shape::fork(outer, pivot, high));
    assert(holds(after, Some(pivot), shape.rotated_right()));
}

} // verus!
