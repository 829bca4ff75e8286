//! A tree with one subtree left open: what an arena holds of a tree while a
//! descent towards a handle has reached some depth and still works below it.

use vstd::prelude::*;
use crate::trees::layout::{holds, lemma_holds_frame};
use crate::trees::node::Node;
use crate::trees::shape::Shape;

verus! {

/// The subtree that a descent towards `k` has reached after `depth` steps.
pub open spec fn descended(shape: Shape, k: usize, depth: nat) -> Shape
    decreases depth,
{
    if depth == 0 {
        shape
    } else {
        match shape {
            Shape::Empty => Shape::Empty,
            Shape::Fork { left, key, right } => {
                if k < key {
                    descended(*left, k, (depth - 1) as nat)
                } else {
                    descended(*right, k, (depth - 1) as nat)
                }
            },
        }
    }
}

/// The bounds between which the subtree reached after `depth` steps lies,
/// where the whole tree lies between `lo` and `hi`.
pub open spec fn span(shape: Shape, k: usize, depth: nat, lo: int, hi: int) -> (int, int)
    decreases depth,
{
    if depth == 0 {
        (lo, hi)
    } else {
        match shape {
            Shape::Empty => (lo, hi),
            Shape::Fork { left, key, right } => {
                if k < key {
                    span(*left, k, (depth - 1) as nat, lo, key as int)
                } else {
                    span(*right, k, (depth - 1) as nat, key as int, hi)
                }
            },
        }
    }
}

/// The handle from which the descent made its last step; none before the
/// first.
pub open spec fn above(shape: Shape, k: usize, depth: nat) -> Option<usize>
    decreases depth,
{
    if depth == 0 {
        None
    } else {
        match shape {
            Shape::Empty => None,
            Shape::Fork { left, key, right } => {
                if depth == 1 {
                    Some(key)
                } else if k < key {
                    above(*left, k, (depth - 1) as nat)
                } else {
                    above(*right, k, (depth - 1) as nat)
                }
            },
        }
    }
}

/// Whether the arena holds `shape` at `root` but for the subtree that a
/// descent towards `k` reaches after `depth` steps, in whose place the link
/// `link` stands.
pub open spec fn holds_around(
    nodes: Seq<Node>,
    root: Option<usize>,
    shape: Shape,
    k: usize,
    depth: nat,
    link: Option<usize>,
) -> bool
    decreases depth,
{
    if depth == 0 {
        root == link
    } else {
        match shape {
            Shape::Empty => false,
            Shape::Fork { left, key, right } => {
                &&& root == Some(key)
                &&& key < nodes.len()
                &&& nodes[key as int].size == shape.size()
                &&& if k < key {
                    &&& holds(nodes, nodes[key as int].right, *right)
                    &&& holds_around(nodes, nodes[key as int].left, *left, k, (depth - 1) as nat, link)
                } else {
                    &&& holds(nodes, nodes[key as int].left, *left)
                    &&& holds_around(nodes, nodes[key as int].right, *right, k, (depth - 1) as nat, link)
                }
            },
        }
    }
}

/// The subtree that a descent reaches lies between bounds that are within
/// those of the whole tree, and the handle above it lies outside them.
pub proof fn lemma_span(shape: Shape, k: usize, depth: nat, lo: int, hi: int)
    requires
        shape.within(lo, hi),
        lo < hi,
    ensures
        lo <= span(shape, k, depth, lo, hi).0,
        span(shape, k, depth, lo, hi).0 < span(shape, k, depth, lo, hi).1,
        span(shape, k, depth, lo, hi).1 <= hi,
        descended(shape, k, depth).within(span(shape, k, depth, lo, hi).0, span(shape, k, depth, lo, hi).1),
        above(shape, k, depth) matches Some(p) ==> lo < p < hi && (p <= span(shape, k, depth, lo, hi).0
            || span(shape, k, depth, lo, hi).1 <= p),
    decreases depth,
{
    if depth > 0 {
        match shape {
            Shape::Empty => {},
            Shape::Fork { left, key, right } => {
                if k < key {
                    lemma_span(*left, k, (depth - 1) as nat, lo, key as int);
                } else {
                    lemma_span(*right, k, (depth - 1) as nat, key as int, hi);
                }
            },
        }
    }
}

/// A descent that the arena holds a tree around has a handle above it from
/// the first step on.
pub proof fn lemma_above(
    nodes: Seq<Node>,
    root: Option<usize>,
    shape: Shape,
    k: usize,
    depth: nat,
    link: Option<usize>,
)
    requires
        holds_around(nodes, root, shape, k, depth, link),
    ensures
        depth == 0 <==> above(shape, k, depth) is None,
        above(shape, k, depth) matches Some(p) ==> p < nodes.len(),
    decreases depth,
{
    if depth > 0 {
        match shape {
            Shape::Empty => {},
            Shape::Fork { left, key, right } => {
                if k < key {
                    lemma_above(nodes, nodes[key as int].left, *left, k, (depth - 1) as nat, link);
                } else {
                    lemma_above(
                        nodes,
                        nodes[key as int].right,
                        *right,
                        k,
                        (depth - 1) as nat,
                        link,
                    );
                }
            },
        }
    }
}

/// One more step of the descent: where the subtree reached so far is held
/// with its root `cursor` and the side away from `k` in place, the tree is
/// held around the child of `cursor` towards `k`.
pub proof fn lemma_around_step(
    nodes: Seq<Node>,
    root: Option<usize>,
    shape: Shape,
    k: usize,
    depth: nat,
    cursor: usize,
    lo: int,
    hi: int,
)
    requires
        holds_around(nodes, root, shape, k, depth, Some(cursor)),
        descended(shape, k, depth).root() == Some(cursor),
        k != cursor,
        cursor < nodes.len(),
        nodes[cursor as int].size == descended(shape, k, depth).size(),
        k < cursor ==> holds(nodes, nodes[cursor as int].right, descended(shape, k, depth).right()),
        k > cursor ==> holds(nodes, nodes[cursor as int].left, descended(shape, k, depth).left()),
    ensures
        holds_around(
            nodes,
            root,
            shape,
            k,
            depth + 1,
            if k < cursor {
                nodes[cursor as int].left
            } else {
                nodes[cursor as int].right
            },
        ),
        descended(shape, k, depth + 1) == (if k < cursor {
            descended(shape, k, depth).left()
        } else {
            descended(shape, k, depth).right()
        }),
        span(shape, k, depth + 1, lo, hi) == (if k < cursor {
            (span(shape, k, depth, lo, hi).0, cursor as int)
        } else {
            (cursor as int, span(shape, k, depth, lo, hi).1)
        }),
        above(shape, k, depth + 1) == Some(cursor),
    decreases depth,
{
    reveal_with_fuel(holds_around, 2);
    reveal_with_fuel(descended, 2);
    reveal_with_fuel(span, 2);
    reveal_with_fuel(above, 2);
    if depth > 0 {
        match shape {
            Shape::Empty => {},
            Shape::Fork { left, key, right } => {
                if k < key {
                    lemma_around_step(
                        nodes,
                        nodes[key as int].left,
                        *left,
                        k,
                        (depth - 1) as nat,
                        cursor,
                        lo,
                        key as int,
                    );
                } else {
                    lemma_around_step(
                        nodes,
                        nodes[key as int].right,
                        *right,
                        k,
                        (depth - 1) as nat,
                        cursor,
                        key as int,
                        hi,
                    );
                }
            },
        }
    }
}

/// The part of the tree around the open subtree stays held when the arena
/// changes only between the bounds of that subtree and in the link that
/// stands in its place.
pub proof fn lemma_around_kept(
    before: Seq<Node>,
    after: Seq<Node>,
    root: Option<usize>,
    shape: Shape,
    k: usize,
    depth: nat,
    link: Option<usize>,
    new_link: Option<usize>,
    lo: int,
    hi: int,
)
    requires
        shape.within(lo, hi),
        lo < hi,
        holds_around(before, root, shape, k, depth, link),
        after.len() == before.len(),
        forall|i: int|
            0 <= i < before.len() && !(span(shape, k, depth, lo, hi).0 < i < span(
                shape,
                k,
                depth,
                lo,
                hi,
            ).1) && (above(shape, k, depth) matches Some(p) ==> p != i) ==> #[trigger] after[i]
                == before[i],
        above(shape, k, depth) matches Some(p) ==> after[p as int] == (if k < p {
            Node { left: new_link, ..before[p as int] }
        } else {
            Node { right: new_link, ..before[p as int] }
        }),
    ensures
        holds_around(after, if depth == 0 { new_link } else { root }, shape, k, depth, new_link),
    decreases depth,
{
    reveal_with_fuel(holds_around, 2);
    reveal_with_fuel(span, 2);
    reveal_with_fuel(above, 2);
    if depth > 0 {
        match shape {
            Shape::Empty => {},
            Shape::Fork { left, key, right } => {
                let below = (depth - 1) as nat;
                if k < key {
                    lemma_span(*left, k, below, lo, key as int);
                    assert forall|i: int| key < i < hi && 0 <= i < before.len() implies after[i]
                        == before[i] by {}
                    lemma_holds_frame(
                        before,
                        after,
                        before[key as int].right,
                        *right,
                        key as int,
                        hi,
                    );
                    if depth > 1 {
                        assert(after[key as int] == before[key as int]);
                        lemma_around_kept(
                            before,
                            after,
                            before[key as int].left,
                            *left,
                            k,
                            below,
                            link,
                            new_link,
                            lo,
                            key as int,
                        );
                    }
                } else {
                    lemma_span(*right, k, below, key as int, hi);
                    assert forall|i: int| lo < i < key && 0 <= i < before.len() implies after[i]
                        == before[i] by {}
                    lemma_holds_frame(
                        before,
                        after,
                        before[key as int].left,
                        *left,
                        lo,
                        key as int,
                    );
                    if depth > 1 {
                        assert(after[key as int] == before[key as int]);
                        lemma_around_kept(
                            before,
                            after,
                            before[key as int].right,
                            *right,
                            k,
                            below,
                            link,
                            new_link,
                            key as int,
                            hi,
                        );
                    }
                }
            },
        }
    }
}

/// Where the tree is held around a subtree and that subtree is held behind
/// the link that stands in its place, the whole tree is held.
pub proof fn lemma_around_close(
    nodes: Seq<Node>,
    root: Option<usize>,
    shape: Shape,
    k: usize,
    depth: nat,
    link: Option<usize>,
)
    requires
        holds_around(nodes, root, shape, k, depth, link),
        holds(nodes, link, descended(shape, k, depth)),
    ensures
        holds(nodes, root, shape),
    decreases depth,
{
    if depth > 0 {
        match shape {
            Shape::Empty => {},
            Shape::Fork { left, key, right } => {
                if k < key {
                    lemma_around_close(
                        nodes,
                        nodes[key as int].left,
                        *left,
                        k,
                        (depth - 1) as nat,
                        link,
                    );
                } else {
                    lemma_around_close(
                        nodes,
                        nodes[key as int].right,
                        *right,
                        k,
                        (depth - 1) as nat,
                        link,
                    );
                }
            },
        }
    }
}

} // verus!
