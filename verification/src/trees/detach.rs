//! The rounds of a detaching descent, each as a statement about the arena
//! before and after it.

use vstd::prelude::*;
use crate::trees::layout::{
    holds, is_tree, lemma_holds_bounded, lemma_holds_frame, lemma_holds_has, lemma_holds_root,
    lemma_shape_of, lemma_turned_left, lemma_turned_right, shape_of,
};
use crate::trees::moves::{
    lemma_turned_left_right, lemma_turned_right_left, turned_left_right, turned_right_left,
};
use crate::trees::node::{
    left_of, put, put_left, put_right, put_size, relinked_left, relinked_right, right_of,
    size_by_children, size_or_zero, turned_left, turned_right, Node,
};
use crate::trees::shape::Shape;
use crate::trees::walk::{
    kept_outside, lemma_walk_done, lemma_walk_down, lemma_walk_goal, lemma_walk_start,
    lemma_walk_turned, relinked, walking, Cursor, Walk,
};

verus! {

/// The size recorded behind the left child of the slot that `link` refers
/// to, zero where either is absent.
pub open spec fn left_size_behind(nodes: Seq<Node>, link: Option<usize>) -> nat {
    match link {
        Some(idx) => size_or_zero(nodes, left_of(nodes, idx)),
        None => 0,
    }
}

/// The size recorded behind the right child of the slot that `link` refers
/// to, zero where either is absent.
pub open spec fn right_size_behind(nodes: Seq<Node>, link: Option<usize>) -> nat {
    match link {
        Some(idx) => size_or_zero(nodes, right_of(nodes, idx)),
        None => 0,
    }
}

/// What holds at the head of every round of a descent that detaches `k`.
#[verifier::opaque]
pub open spec fn detaching(
    nodes: Seq<Node>,
    before: Seq<Node>,
    k: usize,
    cursor: Cursor,
    walk: Walk,
) -> bool {
    &&& walking(
        nodes,
        before,
        k,
        cursor.top,
        cursor.parent,
        cursor.on_left,
        cursor.at,
        walk,
        walk.rest.detached(k),
    )
    &&& walk.whole == walk.origin.detached(k)
    &&& walk.rest.has(k)
    &&& walk.origin.has(k)
    &&& walk.rest.size() <= walk.origin.size()
}

/// The descent starts at the root of the tree.
pub proof fn lemma_detach_start(nodes: Seq<Node>, root: usize, k: usize)
    requires
        is_tree(nodes, Some(root)),
        shape_of(nodes, Some(root)).has(k),
        nodes.len() <= usize::MAX,
    ensures
        k < nodes.len(),
        detaching(
            nodes,
            nodes,
            k,
            Cursor { top: Some(root), parent: None, on_left: false, at: root },
            Walk {
                origin: shape_of(nodes, Some(root)),
                whole: shape_of(nodes, Some(root)).detached(k),
                depth: 0,
                rest: shape_of(nodes, Some(root)),
                lo: -1,
                hi: nodes.len() as int,
            },
        ),
{
    reveal(detaching);
    let origin = shape_of(nodes, Some(root));
    lemma_holds_bounded(nodes, Some(root), origin, -1, usize::MAX + 1);
    lemma_holds_has(nodes, Some(root), origin, k);
    origin.lemma_detached(k, -1, nodes.len() as int);
    lemma_walk_start(nodes, root, k, origin, origin.detached(k));
}

/// What the sizes and links that a round reads say of the tree at the
/// cursor.
pub proof fn lemma_detach_reads(
    nodes: Seq<Node>,
    before: Seq<Node>,
    k: usize,
    cursor: Cursor,
    walk: Walk,
)
    requires
        detaching(nodes, before, k, cursor, walk),
    ensures
        walk.rest.within(walk.lo, walk.hi),
        walk.rest.ordered(),
        walk.whole.within(-1, nodes.len() as int),
        walk.rest.has(k),
        walk.origin.has_at(k as int),
        holds(nodes, Some(cursor.at), walk.rest),
        walk.rest.root() == Some(cursor.at),
        cursor.at < nodes.len(),
        k < nodes.len(),
        nodes.len() <= usize::MAX,
        nodes[cursor.at as int].size == walk.rest.size(),
        walk.rest.size() <= walk.origin.size(),
        left_of(nodes, cursor.at) == walk.rest.left().root(),
        right_of(nodes, cursor.at) == walk.rest.right().root(),
        size_or_zero(nodes, left_of(nodes, cursor.at)) == walk.rest.left().size(),
        size_or_zero(nodes, right_of(nodes, cursor.at)) == walk.rest.right().size(),
        left_size_behind(nodes, left_of(nodes, cursor.at)) == walk.rest.left().left().size(),
        right_size_behind(nodes, left_of(nodes, cursor.at)) == walk.rest.left().right().size(),
        left_size_behind(nodes, right_of(nodes, cursor.at)) == walk.rest.right().left().size(),
        right_size_behind(nodes, right_of(nodes, cursor.at)) == walk.rest.right().right().size(),
        k < cursor.at ==> walk.rest.left().has(k) && walk.rest.left().size() > 0,
        k > cursor.at ==> walk.rest.right().has(k) && walk.rest.right().size() > 0,
{
    reveal(detaching);
    let rest = walk.rest;
    let at = cursor.at;
    lemma_walk_goal(
        nodes,
        before,
        k,
        cursor.top,
        cursor.parent,
        cursor.on_left,
        at,
        walk,
        rest.detached(k),
    );
    rest.lemma_within_ordered(walk.lo, walk.hi);
    lemma_holds_has(nodes, Some(at), rest, k);
    lemma_holds_root(nodes, Some(at), rest);
    lemma_holds_root(nodes, nodes[at as int].left, rest.left());
    lemma_holds_root(nodes, nodes[at as int].right, rest.right());
    if nodes[at as int].left is Some {
        let left = nodes[at as int].left.unwrap();
        lemma_holds_root(nodes, nodes[left as int].left, rest.left().left());
        lemma_holds_root(nodes, nodes[left as int].right, rest.left().right());
    }
    if nodes[at as int].right is Some {
        let right = nodes[at as int].right.unwrap();
        lemma_holds_root(nodes, nodes[right as int].left, rest.right().left());
        lemma_holds_root(nodes, nodes[right as int].right, rest.right().right());
    }
    assert(rest.has(k) == (k == at || rest.left().has(k) || rest.right().has(k)));
    if rest.left().has(k) {
        rest.left().lemma_within_has(walk.lo, at as int, k);
        rest.left().lemma_size_zero();
    }
    if rest.right().has(k) {
        rest.right().lemma_within_has(at as int, walk.hi, k);
        rest.right().lemma_size_zero();
    }
}

/// A left rotation at the cursor: the handle is below on the left, and the
/// outer grandchild on the right is at least as large as the left child.
pub proof fn lemma_detach_turn_left(
    nodes: Seq<Node>,
    before: Seq<Node>,
    k: usize,
    cursor: Cursor,
    walk: Walk,
)
    requires
        detaching(nodes, before, k, cursor, walk),
        k < cursor.at,
        right_size_behind(nodes, right_of(nodes, cursor.at)) >= size_or_zero(
            nodes,
            left_of(nodes, cursor.at),
        ),
    ensures
        size_by_children(relinked_left(nodes, cursor.at), cursor.at) <= usize::MAX,
        right_of(nodes, cursor.at) matches Some(pivot) && detaching(
            relinked(turned_left(nodes, cursor.at), cursor.parent, cursor.on_left, Some(pivot)),
            before,
            k,
            cursor.turned(pivot),
            Walk { rest: walk.rest.rotated_left(), ..walk },
        ),
        walk.rest.rotated_left().size() == walk.rest.size(),
        walk.rest.rotated_left().far_size(k) < walk.rest.far_size(k),
{
    lemma_detach_reads(nodes, before, k, cursor, walk);
    reveal(detaching);
    let rest = walk.rest;
    let at = cursor.at;
    rest.right().right().lemma_size_zero();
    rest.right().lemma_size_zero();
    rest.lemma_detached_below(k);
    rest.lemma_detached_turn_left(k, walk.lo, walk.hi);
    lemma_turned_left(nodes, at, rest, walk.lo, walk.hi);
    let pivot = rest.right().root().unwrap();
    assert(rest.has(at));
    assert(rest.right().has(pivot));
    lemma_walk_turned(
        nodes,
        before,
        k,
        cursor.top,
        cursor.parent,
        cursor.on_left,
        at,
        walk,
        rest.detached(k),
        turned_left(nodes, at),
        pivot,
        rest.rotated_left(),
    );
}

/// A right rotation at the cursor: the handle is below on the right, and the
/// outer grandchild on the left is at least as large as the right child.
pub proof fn lemma_detach_turn_right(
    nodes: Seq<Node>,
    before: Seq<Node>,
    k: usize,
    cursor: Cursor,
    walk: Walk,
)
    requires
        detaching(nodes, before, k, cursor, walk),
        k > cursor.at,
        left_size_behind(nodes, left_of(nodes, cursor.at)) >= size_or_zero(
            nodes,
            right_of(nodes, cursor.at),
        ),
    ensures
        size_by_children(relinked_right(nodes, cursor.at), cursor.at) <= usize::MAX,
        left_of(nodes, cursor.at) matches Some(pivot) && detaching(
            relinked(turned_right(nodes, cursor.at), cursor.parent, cursor.on_left, Some(pivot)),
            before,
            k,
            cursor.turned(pivot),
            Walk { rest: walk.rest.rotated_right(), ..walk },
        ),
        walk.rest.rotated_right().size() == walk.rest.size(),
        walk.rest.rotated_right().far_size(k) < walk.rest.far_size(k),
{
    lemma_detach_reads(nodes, before, k, cursor, walk);
    reveal(detaching);
    let rest = walk.rest;
    let at = cursor.at;
    rest.left().left().lemma_size_zero();
    rest.left().lemma_size_zero();
    rest.lemma_detached_above(k);
    rest.lemma_detached_turn_right(k, walk.lo, walk.hi);
    lemma_turned_right(nodes, at, rest, walk.lo, walk.hi);
    let pivot = rest.left().root().unwrap();
    assert(rest.has(at));
    assert(rest.left().has(pivot));
    lemma_walk_turned(
        nodes,
        before,
        k,
        cursor.top,
        cursor.parent,
        cursor.on_left,
        at,
        walk,
        rest.detached(k),
        turned_right(nodes, at),
        pivot,
        rest.rotated_right(),
    );
}

/// A double rotation that lifts the inner grandchild on the right: the
/// handle is below on the left, and that grandchild, not the outer one, is
/// at least as large as the left child.
pub proof fn lemma_detach_twice_left(
    nodes: Seq<Node>,
    before: Seq<Node>,
    k: usize,
    cursor: Cursor,
    walk: Walk,
)
    requires
        detaching(nodes, before, k, cursor, walk),
        k < cursor.at,
        right_size_behind(nodes, right_of(nodes, cursor.at)) < size_or_zero(
            nodes,
            left_of(nodes, cursor.at),
        ),
        left_size_behind(nodes, right_of(nodes, cursor.at)) >= size_or_zero(
            nodes,
            left_of(nodes, cursor.at),
        ),
    ensures
        right_of(nodes, cursor.at) matches Some(right) && left_of(nodes, right) matches Some(pivot)
            && {
            let linked = put_right(turned_right(nodes, right), cursor.at, Some(pivot));
            &&& size_by_children(relinked_right(nodes, right), right) <= usize::MAX
            &&& size_by_children(relinked_left(linked, cursor.at), cursor.at) <= usize::MAX
            &&& right_of(linked, cursor.at) == Some(pivot)
            &&& detaching(
                relinked(
                    turned_right_left(nodes, cursor.at, right),
                    cursor.parent,
                    cursor.on_left,
                    Some(pivot),
                ),
                before,
                k,
                cursor.turned(pivot),
                Walk { rest: walk.rest.rotated_right_left(), ..walk },
            )
        },
        walk.rest.rotated_right_left().size() == walk.rest.size(),
        walk.rest.rotated_right_left().far_size(k) < walk.rest.far_size(k),
{
    lemma_detach_reads(nodes, before, k, cursor, walk);
    reveal(detaching);
    let rest = walk.rest;
    let at = cursor.at;
    rest.right().left().lemma_size_zero();
    rest.right().lemma_size_zero();
    rest.lemma_detached_below(k);
    rest.lemma_detached_turn_left(k, walk.lo, walk.hi);
    lemma_turned_right_left(nodes, at, rest, walk.lo, walk.hi);
    let right = rest.right().root().unwrap();
    let pivot = rest.right().left().root().unwrap();
    assert(rest.has(at));
    assert(rest.right().has(right));
    assert(rest.right().left().has(pivot));
    assert(rest.right().has(pivot));
    lemma_walk_turned(
        nodes,
        before,
        k,
        cursor.top,
        cursor.parent,
        cursor.on_left,
        at,
        walk,
        rest.detached(k),
        turned_right_left(nodes, at, right),
        pivot,
        rest.rotated_right_left(),
    );
}

/// A double rotation that lifts the inner grandchild on the left: the handle
/// is below on the right, and that grandchild, not the outer one, is at
/// least as large as the right child.
pub proof fn lemma_detach_twice_right(
    nodes: Seq<Node>,
    before: Seq<Node>,
    k: usize,
    cursor: Cursor,
    walk: Walk,
)
    requires
        detaching(nodes, before, k, cursor, walk),
        k > cursor.at,
        left_size_behind(nodes, left_of(nodes, cursor.at)) < size_or_zero(
            nodes,
            right_of(nodes, cursor.at),
        ),
        right_size_behind(nodes, left_of(nodes, cursor.at)) >= size_or_zero(
            nodes,
            right_of(nodes, cursor.at),
        ),
    ensures
        left_of(nodes, cursor.at) matches Some(left) && right_of(nodes, left) matches Some(pivot)
            && {
            let linked = put_left(turned_left(nodes, left), cursor.at, Some(pivot));
            &&& size_by_children(relinked_left(nodes, left), left) <= usize::MAX
            &&& size_by_children(relinked_right(linked, cursor.at), cursor.at) <= usize::MAX
            &&& left_of(linked, cursor.at) == Some(pivot)
            &&& detaching(
                relinked(
                    turned_left_right(nodes, cursor.at, left),
                    cursor.parent,
                    cursor.on_left,
                    Some(pivot),
                ),
                before,
                k,
                cursor.turned(pivot),
                Walk { rest: walk.rest.rotated_left_right(), ..walk },
            )
        },
        walk.rest.rotated_left_right().size() == walk.rest.size(),
        walk.rest.rotated_left_right().far_size(k) < walk.rest.far_size(k),
{
    lemma_detach_reads(nodes, before, k, cursor, walk);
    reveal(detaching);
    let rest = walk.rest;
    let at = cursor.at;
    rest.left().right().lemma_size_zero();
    rest.left().lemma_size_zero();
    rest.lemma_detached_above(k);
    rest.lemma_detached_turn_right(k, walk.lo, walk.hi);
    lemma_turned_left_right(nodes, at, rest, walk.lo, walk.hi);
    let left = rest.left().root().unwrap();
    let pivot = rest.left().right().root().unwrap();
    assert(rest.has(at));
    assert(rest.left().has(left));
    assert(rest.left().right().has(pivot));
    assert(rest.left().has(pivot));
    lemma_walk_turned(
        nodes,
        before,
        k,
        cursor.top,
        cursor.parent,
        cursor.on_left,
        at,
        walk,
        rest.detached(k),
        turned_left_right(nodes, at, left),
        pivot,
        rest.rotated_left_right(),
    );
}

/// A step down to the left child: no rotation is due.
pub proof fn lemma_detach_down_left(
    nodes: Seq<Node>,
    before: Seq<Node>,
    k: usize,
    cursor: Cursor,
    walk: Walk,
)
    requires
        detaching(nodes, before, k, cursor, walk),
        k < cursor.at,
        right_size_behind(nodes, right_of(nodes, cursor.at)) < size_or_zero(
            nodes,
            left_of(nodes, cursor.at),
        ),
        left_size_behind(nodes, right_of(nodes, cursor.at)) < size_or_zero(
            nodes,
            left_of(nodes, cursor.at),
        ),
    ensures
        nodes[cursor.at as int].size > 0,
        left_of(nodes, cursor.at) matches Some(left) && detaching(
            put_size(nodes, cursor.at, (nodes[cursor.at as int].size - 1) as usize),
            before,
            k,
            cursor.down(left, true),
            Walk { depth: walk.depth + 1, rest: walk.rest.left(), hi: cursor.at as int, ..walk },
        ),
        walk.rest.left().size() < walk.rest.size(),
{
    lemma_detach_reads(nodes, before, k, cursor, walk);
    reveal(detaching);
    let rest = walk.rest;
    let at = cursor.at;
    rest.lemma_detached_below(k);
    rest.lemma_detached(k, walk.lo, walk.hi);
    rest.left().lemma_size_zero();
    let left = rest.left().root().unwrap();
    lemma_walk_down(
        nodes,
        before,
        k,
        cursor.top,
        cursor.parent,
        cursor.on_left,
        at,
        walk,
        rest.detached(k),
        left,
    );
}

/// A step down to the right child: no rotation is due.
pub proof fn lemma_detach_down_right(
    nodes: Seq<Node>,
    before: Seq<Node>,
    k: usize,
    cursor: Cursor,
    walk: Walk,
)
    requires
        detaching(nodes, before, k, cursor, walk),
        k > cursor.at,
        left_size_behind(nodes, left_of(nodes, cursor.at)) < size_or_zero(
            nodes,
            right_of(nodes, cursor.at),
        ),
        right_size_behind(nodes, left_of(nodes, cursor.at)) < size_or_zero(
            nodes,
            right_of(nodes, cursor.at),
        ),
    ensures
        nodes[cursor.at as int].size > 0,
        right_of(nodes, cursor.at) matches Some(right) && detaching(
            put_size(nodes, cursor.at, (nodes[cursor.at as int].size - 1) as usize),
            before,
            k,
            cursor.down(right, false),
            Walk { depth: walk.depth + 1, rest: walk.rest.right(), lo: cursor.at as int, ..walk },
        ),
        walk.rest.right().size() < walk.rest.size(),
{
    lemma_detach_reads(nodes, before, k, cursor, walk);
    reveal(detaching);
    let rest = walk.rest;
    let at = cursor.at;
    rest.lemma_detached_above(k);
    rest.lemma_detached(k, walk.lo, walk.hi);
    rest.right().lemma_size_zero();
    let right = rest.right().root().unwrap();
    lemma_walk_down(
        nodes,
        before,
        k,
        cursor.top,
        cursor.parent,
        cursor.on_left,
        at,
        walk,
        rest.detached(k),
        right,
    );
}

/// The handle at the cursor has at most one child, which takes its place.
pub proof fn lemma_detach_drop(
    nodes: Seq<Node>,
    before: Seq<Node>,
    k: usize,
    cursor: Cursor,
    walk: Walk,
    link: Option<usize>,
)
    requires
        detaching(nodes, before, k, cursor, walk),
        k == cursor.at,
        left_of(nodes, k) is None || right_of(nodes, k) is None,
        link == (if left_of(nodes, k) is Some {
            left_of(nodes, k)
        } else {
            right_of(nodes, k)
        }),
    ensures
        ({
            let after = relinked(put(nodes, k, Node::vacant()), cursor.parent, cursor.on_left, link);
            &&& holds(after, if cursor.parent is None { link } else { cursor.top }, walk.whole)
            &&& kept_outside(after, before, walk.origin, k)
            &&& after[k as int] == Node::vacant()
        }),
        walk.whole.ordered(),
{
    lemma_detach_reads(nodes, before, k, cursor, walk);
    reveal(detaching);
    let rest = walk.rest;
    rest.left().lemma_size_zero();
    rest.right().lemma_size_zero();
    rest.lemma_detached_root();
    let mid = put(nodes, k, Node::vacant());
    lemma_holds_root(nodes, Some(k), rest);
    lemma_holds_frame(nodes, mid, nodes[k as int].left, rest.left(), walk.lo, k as int);
    lemma_holds_frame(nodes, mid, nodes[k as int].right, rest.right(), k as int, walk.hi);
    lemma_walk_done(
        nodes,
        before,
        k,
        cursor.top,
        cursor.parent,
        cursor.on_left,
        k,
        walk,
        rest.detached(k),
        mid,
        link,
    );
    walk.whole.lemma_within_ordered(-1, nodes.len() as int);
}

/// The handle at the cursor has two children and the left subtree is at
/// least as large as the right one: its last handle will take the place.
pub proof fn lemma_detach_pick_left(
    nodes: Seq<Node>,
    before: Seq<Node>,
    k: usize,
    cursor: Cursor,
    walk: Walk,
)
    requires
        detaching(nodes, before, k, cursor, walk),
        k == cursor.at,
        left_of(nodes, k) is Some,
        right_of(nodes, k) is Some,
    ensures
        is_tree(nodes, left_of(nodes, k)),
        shape_of(nodes, left_of(nodes, k)) == walk.rest.left(),
        walk.rest.left().has(walk.rest.left().rightest()),
        walk.rest.left().size() < walk.origin.size(),
        size_or_zero(nodes, left_of(nodes, k)) + size_or_zero(nodes, right_of(nodes, k)) < usize::MAX,
{
    lemma_detach_reads(nodes, before, k, cursor, walk);
    let rest = walk.rest;
    rest.left().lemma_size_zero();
    lemma_holds_root(nodes, Some(k), rest);
    assert(rest.within(walk.lo, walk.hi));
    rest.left().lemma_within_ordered(walk.lo, k as int);
    lemma_shape_of(nodes, nodes[k as int].left, rest.left());
    rest.left().lemma_rightest(walk.lo, k as int);
}

/// The handle at the cursor has two children and the right subtree is
/// larger than the left one: its first handle will take the place.
pub proof fn lemma_detach_pick_right(
    nodes: Seq<Node>,
    before: Seq<Node>,
    k: usize,
    cursor: Cursor,
    walk: Walk,
)
    requires
        detaching(nodes, before, k, cursor, walk),
        k == cursor.at,
        left_of(nodes, k) is Some,
        right_of(nodes, k) is Some,
    ensures
        is_tree(nodes, right_of(nodes, k)),
        shape_of(nodes, right_of(nodes, k)) == walk.rest.right(),
        walk.rest.right().has(walk.rest.right().leftest()),
        walk.rest.right().size() < walk.origin.size(),
        size_or_zero(nodes, left_of(nodes, k)) + size_or_zero(nodes, right_of(nodes, k)) < usize::MAX,
{
    lemma_detach_reads(nodes, before, k, cursor, walk);
    let rest = walk.rest;
    rest.right().lemma_size_zero();
    lemma_holds_root(nodes, Some(k), rest);
    assert(rest.within(walk.lo, walk.hi));
    rest.right().lemma_within_ordered(k as int, walk.hi);
    lemma_shape_of(nodes, nodes[k as int].right, rest.right());
    rest.right().lemma_leftest(k as int, walk.hi);
}

/// The arena after the last handle of the left subtree, detached from it,
/// was put in the place of the handle at the cursor.
pub open spec fn grafted_left(
    nodes: Seq<Node>,
    pruned: Seq<Node>,
    k: usize,
    last: usize,
    kept: Option<usize>,
) -> Seq<Node> {
    let linked = put_right(put_left(pruned, last, kept), last, right_of(nodes, k));
    let size = size_or_zero(nodes, left_of(nodes, k)) + size_or_zero(nodes, right_of(nodes, k));
    put(put_size(linked, last, size as usize), k, Node::vacant())
}

/// The arena after the first handle of the right subtree, detached from it,
/// was put in the place of the handle at the cursor.
pub open spec fn grafted_right(
    nodes: Seq<Node>,
    pruned: Seq<Node>,
    k: usize,
    first: usize,
    kept: Option<usize>,
) -> Seq<Node> {
    let linked = put_right(put_left(pruned, first, left_of(nodes, k)), first, kept);
    let size = size_or_zero(nodes, left_of(nodes, k)) + size_or_zero(nodes, right_of(nodes, k));
    put(put_size(linked, first, size as usize), k, Node::vacant())
}

/// The last handle of the left subtree was detached from it and takes the
/// place of the handle at the cursor, over what is left of that subtree and
/// the right one.
pub proof fn lemma_detach_graft_left(
    nodes: Seq<Node>,
    before: Seq<Node>,
    k: usize,
    cursor: Cursor,
    walk: Walk,
    pruned: Seq<Node>,
    kept: Option<usize>,
)
    requires
        detaching(nodes, before, k, cursor, walk),
        k == cursor.at,
        left_of(nodes, k) is Some,
        right_of(nodes, k) is Some,
        size_or_zero(nodes, left_of(nodes, k)) >= size_or_zero(nodes, right_of(nodes, k)),
        pruned.len() == nodes.len(),
        holds(pruned, kept, walk.rest.left().detached(walk.rest.left().rightest())),
        forall|i: int|
            0 <= i < nodes.len() && !walk.rest.left().has_at(i) ==> #[trigger] pruned[i] == nodes[i],
    ensures
        ({
            let last = walk.rest.left().rightest();
            let after = relinked(
                grafted_left(nodes, pruned, k, last, kept),
                cursor.parent,
                cursor.on_left,
                Some(last),
            );
            &&& holds(after, cursor.turned(last).top, walk.whole)
            &&& kept_outside(after, before, walk.origin, k)
            &&& after[k as int] == Node::vacant()
        }),
        walk.whole.ordered(),
{
    lemma_detach_reads(nodes, before, k, cursor, walk);
    reveal(detaching);
    let rest = walk.rest;
    let left = rest.left();
    let right = rest.right();
    let last = left.rightest();
    left.lemma_size_zero();
    right.lemma_size_zero();
    rest.lemma_detached_root();
    rest.lemma_detached(k, walk.lo, walk.hi);
    lemma_holds_root(nodes, Some(k), rest);
    assert(rest.within(walk.lo, walk.hi));
    left.lemma_rightest(walk.lo, k as int);
    left.lemma_within_has(walk.lo, k as int, last);
    left.lemma_detached(last, walk.lo, k as int);
    assert forall|x: usize| left.detached(last).has(x) implies x < last by {
        assert(left.has(x) && x != last);
    }
    left.detached(last).lemma_within_below(walk.lo, k as int, last as int);
    lemma_holds_has(nodes, nodes[k as int].left, left, last);
    let mid = grafted_left(nodes, pruned, k, last, kept);
    assert forall|i: int| k < i < walk.hi && 0 <= i < nodes.len() implies pruned[i] == nodes[i] by {
        if left.has_at(i) {
            left.lemma_within_has(walk.lo, k as int, i as usize);
        }
    }
    lemma_holds_frame(nodes, pruned, nodes[k as int].right, right, k as int, walk.hi);
    lemma_holds_frame(pruned, mid, nodes[k as int].right, right, k as int, walk.hi);
    lemma_holds_frame(pruned, mid, kept, left.detached(last), walk.lo, last as int);
    let goal = Shape::fork(left.detached(last), last, right);
    assert(mid[last as int] == Node {
        size: (left.size() + right.size()) as usize,
        left: kept,
        right: nodes[k as int].right,
    });
    assert(holds(mid, Some(last), goal));
    assert forall|i: int|
        0 <= i < nodes.len() && !rest.has_at(i) && i != k implies #[trigger] mid[i]
        == nodes[i] by {
        if left.has_at(i) {
            assert(rest.has(i as usize));
        }
        assert(rest.has(last));
    }
    lemma_walk_done(
        nodes,
        before,
        k,
        cursor.top,
        cursor.parent,
        cursor.on_left,
        k,
        walk,
        rest.detached(k),
        mid,
        Some(last),
    );
    walk.whole.lemma_within_ordered(-1, nodes.len() as int);
}

/// The first handle of the right subtree was detached from it and takes the
/// place of the handle at the cursor, over the left subtree and what is left
/// of the right one.
pub proof fn lemma_detach_graft_right(
    nodes: Seq<Node>,
    before: Seq<Node>,
    k: usize,
    cursor: Cursor,
    walk: Walk,
    pruned: Seq<Node>,
    kept: Option<usize>,
)
    requires
        detaching(nodes, before, k, cursor, walk),
        k == cursor.at,
        left_of(nodes, k) is Some,
        right_of(nodes, k) is Some,
        size_or_zero(nodes, left_of(nodes, k)) < size_or_zero(nodes, right_of(nodes, k)),
        pruned.len() == nodes.len(),
        holds(pruned, kept, walk.rest.right().detached(walk.rest.right().leftest())),
        forall|i: int|
            0 <= i < nodes.len() && !walk.rest.right().has_at(i) ==> #[trigger] pruned[i] == nodes[i],
    ensures
        ({
            let first = walk.rest.right().leftest();
            let after = relinked(
                grafted_right(nodes, pruned, k, first, kept),
                cursor.parent,
                cursor.on_left,
                Some(first),
            );
            &&& holds(after, cursor.turned(first).top, walk.whole)
            &&& kept_outside(after, before, walk.origin, k)
            &&& after[k as int] == Node::vacant()
        }),
        walk.whole.ordered(),
{
    lemma_detach_reads(nodes, before, k, cursor, walk);
    reveal(detaching);
    let rest = walk.rest;
    let left = rest.left();
    let right = rest.right();
    let first = right.leftest();
    left.lemma_size_zero();
    right.lemma_size_zero();
    rest.lemma_detached_root();
    rest.lemma_detached(k, walk.lo, walk.hi);
    lemma_holds_root(nodes, Some(k), rest);
    assert(rest.within(walk.lo, walk.hi));
    right.lemma_leftest(k as int, walk.hi);
    right.lemma_within_has(k as int, walk.hi, first);
    right.lemma_detached(first, k as int, walk.hi);
    assert forall|x: usize| right.detached(first).has(x) implies first < x by {
        assert(right.has(x) && x != first);
    }
    right.detached(first).lemma_within_above(k as int, walk.hi, first as int);
    lemma_holds_has(nodes, nodes[k as int].right, right, first);
    let mid = grafted_right(nodes, pruned, k, first, kept);
    assert forall|i: int| walk.lo < i < k && 0 <= i < nodes.len() implies pruned[i] == nodes[i] by {
        if right.has_at(i) {
            right.lemma_within_has(k as int, walk.hi, i as usize);
        }
    }
    lemma_holds_frame(nodes, pruned, nodes[k as int].left, left, walk.lo, k as int);
    lemma_holds_frame(pruned, mid, nodes[k as int].left, left, walk.lo, k as int);
    lemma_holds_frame(pruned, mid, kept, right.detached(first), first as int, walk.hi);
    let goal = Shape::fork(left, first, right.detached(first));
    assert(mid[first as int] == Node {
        size: (left.size() + right.size()) as usize,
        left: nodes[k as int].left,
        right: kept,
    });
    assert(holds(mid, Some(first), goal));
    assert forall|i: int|
        0 <= i < nodes.len() && !rest.has_at(i) && i != k implies #[trigger] mid[i]
        == nodes[i] by {
        if right.has_at(i) {
            assert(rest.has(i as usize));
        }
        assert(rest.has(first));
    }
    lemma_walk_done(
        nodes,
        before,
        k,
        cursor.top,
        cursor.parent,
        cursor.on_left,
        k,
        walk,
        rest.detached(k),
        mid,
        Some(first),
    );
    walk.whole.lemma_within_ordered(-1, nodes.len() as int);
}

} // verus!
