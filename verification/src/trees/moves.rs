//! The local restructurings of the engine, each as a statement about the
//! tree that the arena holds at the place where it was made.

use vstd::prelude::*;
use crate::trees::layout::{
    holds, lemma_holds_bounded, lemma_holds_frame, lemma_holds_root, lemma_turned_left,
    lemma_turned_right,
};
use crate::trees::node::{
    left_of, put_left, put_right, put_size, relinked_left, relinked_right, right_of,
    size_by_children, turned_left, turned_right, Node,
};
use crate::trees::shape::Shape;

verus! {

/// The arena after a handle was hung below a root as its left child.
pub open spec fn hung_left(nodes: Seq<Node>, root: usize, k: usize) -> Seq<Node> {
    let grown = put_size(nodes, root, (nodes[root as int].size + 1) as usize);
    put_left(put_size(grown, k, 1), root, Some(k))
}

/// The arena after a handle was hung below a root as its right child.
pub open spec fn hung_right(nodes: Seq<Node>, root: usize, k: usize) -> Seq<Node> {
    let grown = put_size(nodes, root, (nodes[root as int].size + 1) as usize);
    put_right(put_size(grown, k, 1), root, Some(k))
}

/// The arena after a handle was lifted over a root and its left child, which
/// become its right and left child.
pub open spec fn lifted_left(nodes: Seq<Node>, root: usize, child: usize, k: usize) -> Seq<Node> {
    let linked = put_right(put_left(nodes, k, Some(child)), k, Some(root));
    let sized = put_size(linked, k, (nodes[child as int].size + 2) as usize);
    put_size(put_left(sized, root, None), root, 1)
}

/// The arena after a handle was lifted over a root and its right child, which
/// become its left and right child.
pub open spec fn lifted_right(nodes: Seq<Node>, root: usize, child: usize, k: usize) -> Seq<Node> {
    let linked = put_right(put_left(nodes, k, Some(root)), k, Some(child));
    let sized = put_size(linked, k, (nodes[child as int].size + 2) as usize);
    put_size(put_right(sized, root, None), root, 1)
}

/// The arena after a left rotation at the left child of a root, the new link
/// to that side, and a right rotation at the root.
pub open spec fn turned_left_right(nodes: Seq<Node>, root: usize, child: usize) -> Seq<Node> {
    let first = turned_left(nodes, child);
    turned_right(put_left(first, root, right_of(nodes, child)), root)
}

/// The arena after a right rotation at the right child of a root, the new
/// link to that side, and a left rotation at the root.
pub open spec fn turned_right_left(nodes: Seq<Node>, root: usize, child: usize) -> Seq<Node> {
    let first = turned_right(nodes, child);
    turned_left(put_right(first, root, left_of(nodes, child)), root)
}

/// A vacant handle hung to the left of a root without a left child.
pub proof fn lemma_hung_left(
    nodes: Seq<Node>,
    root: usize,
    k: usize,
    shape: Shape,
    lo: int,
    hi: int,
)
    requires
        holds(nodes, Some(root), shape),
        shape.within(lo, hi),
        shape.left().size() == 0,
        lo < k < root,
        k < nodes.len(),
        nodes[k as int].left is None,
        nodes[k as int].right is None,
        shape.size() < usize::MAX,
    ensures
        holds(hung_left(nodes, root, k), Some(root), Shape::fork(Shape::leaf(k), root, shape.right())),
        hung_left(nodes, root, k).len() == nodes.len(),
        forall|i: int|
            0 <= i < nodes.len() && i != root && i != k ==> hung_left(nodes, root, k)[i] == nodes[i],
{
    reveal_with_fuel(holds, 3);
    reveal_with_fuel(Shape::size, 3);
    let after = hung_left(nodes, root, k);
    lemma_holds_root(nodes, Some(root), shape);
    shape.left().lemma_size_zero();
    lemma_holds_frame(nodes, after, nodes[root as int].right, shape.right(), root as int, hi);
    assert(after[k as int] == Node { size: 1, left: None, right: None });
    assert(holds(after, Some(k), Shape::leaf(k)));
    assert(after[root as int].left == Some(k));
    assert(after[root as int].right == nodes[root as int].right);
    assert(after[root as int].size == shape.size() + 1);
}

/// A vacant handle hung to the right of a root without a right child.
pub proof fn lemma_hung_right(
    nodes: Seq<Node>,
    root: usize,
    k: usize,
    shape: Shape,
    lo: int,
    hi: int,
)
    requires
        holds(nodes, Some(root), shape),
        shape.within(lo, hi),
        shape.right().size() == 0,
        root < k < hi,
        k < nodes.len(),
        nodes[k as int].left is None,
        nodes[k as int].right is None,
        shape.size() < usize::MAX,
    ensures
        holds(hung_right(nodes, root, k), Some(root), Shape::fork(shape.left(), root, Shape::leaf(k))),
        hung_right(nodes, root, k).len() == nodes.len(),
        forall|i: int|
            0 <= i < nodes.len() && i != root && i != k ==> hung_right(nodes, root, k)[i] == nodes[i],
{
    reveal_with_fuel(holds, 3);
    reveal_with_fuel(Shape::size, 3);
    let after = hung_right(nodes, root, k);
    lemma_holds_root(nodes, Some(root), shape);
    shape.right().lemma_size_zero();
    lemma_holds_frame(nodes, after, nodes[root as int].left, shape.left(), lo, root as int);
    assert(after[k as int] == Node { size: 1, left: None, right: None });
    assert(holds(after, Some(k), Shape::leaf(k)));
    assert(after[root as int].right == Some(k));
    assert(after[root as int].left == nodes[root as int].left);
    assert(after[root as int].size == shape.size() + 1);
}

/// A handle lifted over a root without a right child and its left child
/// without a right child.
pub proof fn lemma_lifted_left(
    nodes: Seq<Node>,
    root: usize,
    k: usize,
    shape: Shape,
    lo: int,
    hi: int,
)
    requires
        holds(nodes, Some(root), shape),
        shape.within(lo, hi),
        shape.left().size() > 0,
        shape.left().right().size() == 0,
        shape.right().size() == 0,
        shape.left().root().unwrap() < k < root,
        k < nodes.len(),
        shape.size() < usize::MAX,
    ensures
        left_of(nodes, root) == shape.left().root(),
        holds(
            lifted_left(nodes, root, shape.left().root().unwrap(), k),
            Some(k),
            Shape::fork(shape.left(), k, Shape::leaf(root)),
        ),
        lifted_left(nodes, root, shape.left().root().unwrap(), k).len() == nodes.len(),
        forall|i: int|
            0 <= i < nodes.len() && i != root && i != k ==> lifted_left(
                nodes,
                root,
                shape.left().root().unwrap(),
                k,
            )[i] == nodes[i],
{
    reveal_with_fuel(Shape::size, 3);
    reveal_with_fuel(Shape::within, 2);
    let left = shape.left();
    left.lemma_size_zero();
    left.right().lemma_size_zero();
    shape.right().lemma_size_zero();
    let child = left.root().unwrap();
    let after = lifted_left(nodes, root, child, k);
    lemma_holds_root(nodes, Some(root), shape);
    lemma_holds_root(nodes, nodes[root as int].left, left);
    lemma_holds_root(nodes, nodes[root as int].right, shape.right());
    lemma_holds_root(nodes, nodes[child as int].right, left.right());
    lemma_holds_bounded(nodes, Some(root), shape, lo, hi);
    assert(after[child as int] == nodes[child as int]);
    lemma_holds_frame(nodes, after, nodes[child as int].left, left.left(), lo, child as int);
    assert(holds(after, after[child as int].right, left.right()));
    assert(holds(after, Some(child), left));
    assert(after[root as int] == Node { size: 1, left: None, right: None });
    assert(holds(after, Some(root), Shape::leaf(root))) by {
        reveal_with_fuel(holds, 3);
    }
    assert(after[k as int] == Node {
        size: (left.size() + 2) as usize,
        left: Some(child),
        right: Some(root),
    });
    assert(Shape::leaf(root).size() == 1);
}

/// A handle lifted over a root without a left child and its right child
/// without a left child.
pub proof fn lemma_lifted_right(
    nodes: Seq<Node>,
    root: usize,
    k: usize,
    shape: Shape,
    lo: int,
    hi: int,
)
    requires
        holds(nodes, Some(root), shape),
        shape.within(lo, hi),
        shape.right().size() > 0,
        shape.right().left().size() == 0,
        shape.left().size() == 0,
        root < k < shape.right().root().unwrap(),
        k < nodes.len(),
        shape.size() < usize::MAX,
    ensures
        right_of(nodes, root) == shape.right().root(),
        holds(
            lifted_right(nodes, root, shape.right().root().unwrap(), k),
            Some(k),
            Shape::fork(Shape::leaf(root), k, shape.right()),
        ),
        lifted_right(nodes, root, shape.right().root().unwrap(), k).len() == nodes.len(),
        forall|i: int|
            0 <= i < nodes.len() && i != root && i != k ==> lifted_right(
                nodes,
                root,
                shape.right().root().unwrap(),
                k,
            )[i] == nodes[i],
{
    reveal_with_fuel(Shape::size, 3);
    reveal_with_fuel(Shape::within, 2);
    let right = shape.right();
    right.lemma_size_zero();
    right.left().lemma_size_zero();
    shape.left().lemma_size_zero();
    let child = right.root().unwrap();
    let after = lifted_right(nodes, root, child, k);
    lemma_holds_root(nodes, Some(root), shape);
    lemma_holds_root(nodes, nodes[root as int].right, right);
    lemma_holds_root(nodes, nodes[root as int].left, shape.left());
    lemma_holds_root(nodes, nodes[child as int].left, right.left());
    lemma_holds_bounded(nodes, Some(root), shape, lo, hi);
    assert(after[child as int] == nodes[child as int]);
    lemma_holds_frame(nodes, after, nodes[child as int].right, right.right(), child as int, hi);
    assert(holds(after, after[child as int].left, right.left()));
    assert(holds(after, Some(child), right));
    assert(after[root as int] == Node { size: 1, left: None, right: None });
    assert(holds(after, Some(root), Shape::leaf(root))) by {
        reveal_with_fuel(holds, 3);
    }
    assert(after[k as int] == Node {
        size: (right.size() + 2) as usize,
        left: Some(root),
        right: Some(child),
    });
    assert(Shape::leaf(root).size() == 1);
}

/// A double rotation that lifts the inner grandchild on the left.
pub proof fn lemma_turned_left_right(nodes: Seq<Node>, root: usize, shape: Shape, lo: int, hi: int)
    requires
        holds(nodes, Some(root), shape),
        shape.within(lo, hi),
        shape.left().right().size() > 0,
    ensures
        left_of(nodes, root) == shape.left().root(),
        left_of(nodes, root) matches Some(child) && {
            let pivot = shape.left().right().root().unwrap();
            let first = turned_left(nodes, child);
            let linked = put_left(first, root, Some(pivot));
            &&& right_of(nodes, child) == Some(pivot)
            &&& size_by_children(relinked_left(nodes, child), child) <= usize::MAX
            &&& size_by_children(relinked_right(linked, root), root) <= usize::MAX
            &&& left_of(linked, root) == Some(pivot)
            &&& holds(turned_left_right(nodes, root, child), Some(pivot), shape.rotated_left_right())
            &&& turned_left_right(nodes, root, child).len() == nodes.len()
            &&& forall|i: int|
                0 <= i < nodes.len() && i != root && i != child && i != pivot ==> turned_left_right(
                    nodes,
                    root,
                    child,
                )[i] == nodes[i]
        },
{
    let left = shape.left();
    let right = shape.right();
    left.right().lemma_size_zero();
    left.lemma_size_zero();
    let child = left.root().unwrap();
    let pivot = left.right().root().unwrap();
    lemma_holds_root(nodes, Some(root), shape);
    lemma_holds_root(nodes, nodes[root as int].left, left);
    assert(left.within(lo, root as int));
    assert(left.right().within(child as int, root as int));
    lemma_turned_left(nodes, child, left, lo, root as int);
    left.lemma_rotated(lo, root as int);
    let first = turned_left(nodes, child);
    let linked = put_left(first, root, Some(pivot));
    lemma_holds_frame(first, linked, Some(pivot), left.rotated_left(), lo, root as int);
    lemma_holds_frame(nodes, linked, nodes[root as int].right, right, root as int, hi);
    let middle = Shape::fork(left.rotated_left(), root, right);
    assert(left.within(lo, root as int));
    assert(left.right().within(child as int, root as int));
    assert(holds(linked, Some(root), middle));
    assert(middle.left().root() == Some(pivot));
    lemma_turned_right(linked, root, middle, lo, hi);
    assert(shape.rotated_left_right() == middle.rotated_right());
}

/// A double rotation that lifts the inner grandchild on the right.
pub proof fn lemma_turned_right_left(nodes: Seq<Node>, root: usize, shape: Shape, lo: int, hi: int)
    requires
        holds(nodes, Some(root), shape),
        shape.within(lo, hi),
        shape.right().left().size() > 0,
    ensures
        right_of(nodes, root) == shape.right().root(),
        right_of(nodes, root) matches Some(child) && {
            let pivot = shape.right().left().root().unwrap();
            let first = turned_right(nodes, child);
            let linked = put_right(first, root, Some(pivot));
            &&& left_of(nodes, child) == Some(pivot)
            &&& size_by_children(relinked_right(nodes, child), child) <= usize::MAX
            &&& size_by_children(relinked_left(linked, root), root) <= usize::MAX
            &&& right_of(linked, root) == Some(pivot)
            &&& holds(turned_right_left(nodes, root, child), Some(pivot), shape.rotated_right_left())
            &&& turned_right_left(nodes, root, child).len() == nodes.len()
            &&& forall|i: int|
                0 <= i < nodes.len() && i != root && i != child && i != pivot ==> turned_right_left(
                    nodes,
                    root,
                    child,
                )[i] == nodes[i]
        },
{
    let left = shape.left();
    let right = shape.right();
    right.left().lemma_size_zero();
    right.lemma_size_zero();
    let child = right.root().unwrap();
    let pivot = right.left().root().unwrap();
    lemma_holds_root(nodes, Some(root), shape);
    lemma_holds_root(nodes, nodes[root as int].right, right);
    assert(right.within(root as int, hi));
    assert(right.left().within(root as int, child as int));
    lemma_turned_right(nodes, child, right, root as int, hi);
    right.lemma_rotated(root as int, hi);
    let first = turned_right(nodes, child);
    let linked = put_right(first, root, Some(pivot));
    lemma_holds_frame(first, linked, Some(pivot), right.rotated_right(), root as int, hi);
    lemma_holds_frame(nodes, linked, nodes[root as int].left, left, lo, root as int);
    let middle = Shape::fork(left, root, right.rotated_right());
    assert(right.within(root as int, hi));
    assert(right.left().within(root as int, child as int));
    assert(holds(linked, Some(root), middle));
    assert(middle.right().root() == Some(pivot));
    lemma_turned_left(linked, root, middle, lo, hi);
    assert(shape.rotated_right_left() == middle.rotated_left());
}

} // verus!
