//! The rounds of an attaching descent, each as a statement about the arena
//! before and after it.

use vstd::prelude::*;
use crate::trees::layout::{
    holds, is_tree, lemma_holds_bounded, lemma_holds_root, lemma_turned_left, lemma_turned_right,
    shape_of,
};
use crate::trees::moves::{
    hung_left, hung_right, lemma_hung_left, lemma_hung_right, lemma_lifted_left,
    lemma_lifted_right, lemma_turned_left_right, lemma_turned_right_left, lifted_left,
    lifted_right, turned_left_right, turned_right_left,
};
use crate::trees::node::{
    left_of, put_left, put_right, put_size, relinked_left, relinked_right, right_of,
    size_by_children, size_or_zero, turned_left, turned_right, Node,
};
use crate::trees::walk::{
    kept_outside, lemma_walk_done, lemma_walk_down, lemma_walk_goal, lemma_walk_start,
    lemma_walk_turned, relinked, walking, Cursor, Walk,
};

verus! {

/// What holds at the head of every round of a descent that attaches `k`.
#[verifier::opaque]
pub open spec fn attaching(
    nodes: Seq<Node>,
    before: Seq<Node>,
    k: usize,
    cursor: Cursor,
    walk: Walk,
) -> bool {
    &&& walking(
        nodes,
        before,
        k,
        cursor.top,
        cursor.parent,
        cursor.on_left,
        cursor.at,
        walk,
        walk.rest.attached(k),
    )
    &&& walk.whole == walk.origin.attached(k)
    &&& !walk.rest.has(k)
    &&& !walk.origin.has(k)
    &&& k < before.len()
    &&& before[k as int].left is None
    &&& before[k as int].right is None
}

/// The descent starts at the root of the tree.
pub proof fn lemma_attach_start(nodes: Seq<Node>, root: usize, k: usize)
    requires
        is_tree(nodes, Some(root)),
        !shape_of(nodes, Some(root)).has(k),
        k < nodes.len(),
        nodes.len() <= usize::MAX,
        nodes[k as int].left is None,
        nodes[k as int].right is None,
    ensures
        attaching(
            nodes,
            nodes,
            k,
            Cursor { top: Some(root), parent: None, on_left: false, at: root },
            Walk {
                origin: shape_of(nodes, Some(root)),
                whole: shape_of(nodes, Some(root)).attached(k),
                depth: 0,
                rest: shape_of(nodes, Some(root)),
                lo: -1,
                hi: nodes.len() as int,
            },
        ),
{
    reveal(attaching);
    let origin = shape_of(nodes, Some(root));
    lemma_holds_bounded(nodes, Some(root), origin, -1, usize::MAX + 1);
    origin.lemma_attached(k, -1, nodes.len() as int);
    lemma_walk_start(nodes, root, k, origin, origin.attached(k));
}

/// What the cursor reads where it stands.
pub proof fn lemma_attach_reads(
    nodes: Seq<Node>,
    before: Seq<Node>,
    k: usize,
    cursor: Cursor,
    walk: Walk,
)
    requires
        attaching(nodes, before, k, cursor, walk),
    ensures
        cursor.at < nodes.len(),
        k != cursor.at,
        k < nodes.len(),
        left_of(nodes, cursor.at) == walk.rest.left().root(),
        right_of(nodes, cursor.at) == walk.rest.right().root(),
        left_of(nodes, cursor.at) matches Some(left) ==> left < nodes.len() && left != k,
        right_of(nodes, cursor.at) matches Some(right) ==> right < nodes.len() && right != k,
{
    reveal(attaching);
    let rest = walk.rest;
    lemma_walk_goal(
        nodes,
        before,
        k,
        cursor.top,
        cursor.parent,
        cursor.on_left,
        cursor.at,
        walk,
        rest.attached(k),
    );
    lemma_holds_root(nodes, Some(cursor.at), rest);
    lemma_holds_root(nodes, nodes[cursor.at as int].left, rest.left());
    lemma_holds_root(nodes, nodes[cursor.at as int].right, rest.right());
    assert(rest.has(cursor.at));
    if rest.left().root() is Some {
        assert(rest.left().has(rest.left().root().unwrap()));
    }
    if rest.right().root() is Some {
        assert(rest.right().has(rest.right().root().unwrap()));
    }
}

/// The handle is hung to the left of the cursor, which has no left child.
pub proof fn lemma_attach_hang_left(
    nodes: Seq<Node>,
    before: Seq<Node>,
    k: usize,
    cursor: Cursor,
    walk: Walk,
)
    requires
        attaching(nodes, before, k, cursor, walk),
        k < cursor.at,
        left_of(nodes, cursor.at) is None,
    ensures
        nodes[cursor.at as int].size < usize::MAX,
        holds(hung_left(nodes, cursor.at, k), cursor.top, walk.whole),
        walk.whole.ordered(),
        kept_outside(hung_left(nodes, cursor.at, k), before, walk.origin, k),
{
    reveal(attaching);
    let rest = walk.rest;
    let goal = rest.attached(k);
    let at = cursor.at;
    lemma_walk_goal(nodes, before, k, cursor.top, cursor.parent, cursor.on_left, at, walk, goal);
    rest.lemma_attached(k, walk.lo, walk.hi);
    lemma_holds_root(nodes, Some(at), rest);
    lemma_holds_root(nodes, nodes[at as int].left, rest.left());
    rest.left().lemma_size_zero();
    rest.lemma_attached_below(k);
    lemma_hung_left(nodes, at, k, rest, walk.lo, walk.hi);
    let mid = hung_left(nodes, at, k);
    assert(rest.has(at));
    lemma_walk_done(
        nodes,
        before,
        k,
        cursor.top,
        cursor.parent,
        cursor.on_left,
        at,
        walk,
        goal,
        mid,
        Some(at),
    );
    walk.whole.lemma_within_ordered(-1, nodes.len() as int);
}

/// The handle is hung to the right of the cursor, which has no right child.
pub proof fn lemma_attach_hang_right(
    nodes: Seq<Node>,
    before: Seq<Node>,
    k: usize,
    cursor: Cursor,
    walk: Walk,
)
    requires
        attaching(nodes, before, k, cursor, walk),
        k > cursor.at,
        right_of(nodes, cursor.at) is None,
    ensures
        nodes[cursor.at as int].size < usize::MAX,
        holds(hung_right(nodes, cursor.at, k), cursor.top, walk.whole),
        walk.whole.ordered(),
        kept_outside(hung_right(nodes, cursor.at, k), before, walk.origin, k),
{
    reveal(attaching);
    let rest = walk.rest;
    let goal = rest.attached(k);
    let at = cursor.at;
    lemma_walk_goal(nodes, before, k, cursor.top, cursor.parent, cursor.on_left, at, walk, goal);
    rest.lemma_attached(k, walk.lo, walk.hi);
    lemma_holds_root(nodes, Some(at), rest);
    lemma_holds_root(nodes, nodes[at as int].right, rest.right());
    rest.right().lemma_size_zero();
    rest.lemma_attached_above(k);
    lemma_hung_right(nodes, at, k, rest, walk.lo, walk.hi);
    let mid = hung_right(nodes, at, k);
    assert(rest.has(at));
    lemma_walk_done(
        nodes,
        before,
        k,
        cursor.top,
        cursor.parent,
        cursor.on_left,
        at,
        walk,
        goal,
        mid,
        Some(at),
    );
    walk.whole.lemma_within_ordered(-1, nodes.len() as int);
}

/// The inner size that the round on the left reads: that of the right child
/// of the left child.
pub open spec fn inner_left(nodes: Seq<Node>, at: usize) -> nat {
    match left_of(nodes, at) {
        Some(left) => size_or_zero(nodes, right_of(nodes, left)),
        None => 0,
    }
}

/// The inner size that the round on the right reads: that of the left child
/// of the right child.
pub open spec fn inner_right(nodes: Seq<Node>, at: usize) -> nat {
    match right_of(nodes, at) {
        Some(right) => size_or_zero(nodes, left_of(nodes, right)),
        None => 0,
    }
}

/// What the sizes that a round reads say of the tree at the cursor.
pub proof fn lemma_attach_sizes(
    nodes: Seq<Node>,
    before: Seq<Node>,
    k: usize,
    cursor: Cursor,
    walk: Walk,
)
    requires
        attaching(nodes, before, k, cursor, walk),
    ensures
        walk.rest.within(walk.lo, walk.hi),
        walk.whole.within(-1, nodes.len() as int),
        walk.lo < k < walk.hi,
        !walk.rest.has(k),
        holds(nodes, Some(cursor.at), walk.rest),
        walk.rest.root() == Some(cursor.at),
        walk.rest.size() < usize::MAX,
        size_or_zero(nodes, left_of(nodes, cursor.at)) == walk.rest.left().size(),
        size_or_zero(nodes, right_of(nodes, cursor.at)) == walk.rest.right().size(),
        inner_left(nodes, cursor.at) == walk.rest.left().right().size(),
        inner_right(nodes, cursor.at) == walk.rest.right().left().size(),
        left_of(nodes, cursor.at) == walk.rest.left().root(),
        right_of(nodes, cursor.at) == walk.rest.right().root(),
        walk.rest.left().root() matches Some(left) ==> left != k,
        walk.rest.right().root() matches Some(right) ==> right != k,
{
    reveal(attaching);
    let rest = walk.rest;
    let at = cursor.at;
    lemma_walk_goal(
        nodes,
        before,
        k,
        cursor.top,
        cursor.parent,
        cursor.on_left,
        at,
        walk,
        rest.attached(k),
    );
    rest.lemma_attached(k, walk.lo, walk.hi);
    lemma_holds_root(nodes, Some(at), rest);
    lemma_holds_root(nodes, nodes[at as int].left, rest.left());
    lemma_holds_root(nodes, nodes[at as int].right, rest.right());
    if nodes[at as int].left is Some {
        let left = nodes[at as int].left.unwrap();
        lemma_holds_root(nodes, nodes[left as int].right, rest.left().right());
        assert(rest.left().has(left));
    }
    if nodes[at as int].right is Some {
        let right = nodes[at as int].right.unwrap();
        lemma_holds_root(nodes, nodes[right as int].left, rest.right().left());
        assert(rest.right().has(right));
    }
}

/// A right rotation at the cursor: the handle belongs below the outer
/// grandchild on the left, and the left child is at least as large as the
/// right one.
pub proof fn lemma_attach_turn_right(
    nodes: Seq<Node>,
    before: Seq<Node>,
    k: usize,
    cursor: Cursor,
    walk: Walk,
    left: usize,
)
    requires
        attaching(nodes, before, k, cursor, walk),
        left_of(nodes, cursor.at) == Some(left),
        k < left,
        k < cursor.at,
        size_or_zero(nodes, Some(left)) >= size_or_zero(nodes, right_of(nodes, cursor.at)),
    ensures
        size_by_children(relinked_right(nodes, cursor.at), cursor.at) <= usize::MAX,
        attaching(
            relinked(turned_right(nodes, cursor.at), cursor.parent, cursor.on_left, Some(left)),
            before,
            k,
            cursor.turned(left),
            Walk { rest: walk.rest.rotated_right(), ..walk },
        ),
        walk.rest.rotated_right().depth(k) < walk.rest.depth(k),
{
    lemma_attach_sizes(nodes, before, k, cursor, walk);
    reveal(attaching);
    let rest = walk.rest;
    let at = cursor.at;
    rest.left().lemma_size_zero();
    rest.lemma_attached_below(k);
    lemma_turned_right(nodes, at, rest, walk.lo, walk.hi);
    rest.lemma_rotated(walk.lo, walk.hi);
    assert(rest.has(at));
    assert(rest.left().has(left));
    lemma_walk_turned(
        nodes,
        before,
        k,
        cursor.top,
        cursor.parent,
        cursor.on_left,
        at,
        walk,
        rest.attached(k),
        turned_right(nodes, at),
        left,
        rest.rotated_right(),
    );
}

/// A left rotation at the cursor: the handle belongs below the outer
/// grandchild on the right, and the right child is at least as large as the
/// left one.
pub proof fn lemma_attach_turn_left(
    nodes: Seq<Node>,
    before: Seq<Node>,
    k: usize,
    cursor: Cursor,
    walk: Walk,
    right: usize,
)
    requires
        attaching(nodes, before, k, cursor, walk),
        right_of(nodes, cursor.at) == Some(right),
        k > right,
        k > cursor.at,
        size_or_zero(nodes, Some(right)) >= size_or_zero(nodes, left_of(nodes, cursor.at)),
    ensures
        size_by_children(relinked_left(nodes, cursor.at), cursor.at) <= usize::MAX,
        attaching(
            relinked(turned_left(nodes, cursor.at), cursor.parent, cursor.on_left, Some(right)),
            before,
            k,
            cursor.turned(right),
            Walk { rest: walk.rest.rotated_left(), ..walk },
        ),
        walk.rest.rotated_left().depth(k) < walk.rest.depth(k),
{
    lemma_attach_sizes(nodes, before, k, cursor, walk);
    reveal(attaching);
    let rest = walk.rest;
    let at = cursor.at;
    rest.right().lemma_size_zero();
    rest.lemma_attached_above(k);
    lemma_turned_left(nodes, at, rest, walk.lo, walk.hi);
    rest.lemma_rotated(walk.lo, walk.hi);
    assert(rest.has(at));
    assert(rest.right().has(right));
    lemma_walk_turned(
        nodes,
        before,
        k,
        cursor.top,
        cursor.parent,
        cursor.on_left,
        at,
        walk,
        rest.attached(k),
        turned_left(nodes, at),
        right,
        rest.rotated_left(),
    );
}

/// A step down to the left child: no restructuring is due.
pub proof fn lemma_attach_down_left(
    nodes: Seq<Node>,
    before: Seq<Node>,
    k: usize,
    cursor: Cursor,
    walk: Walk,
    left: usize,
)
    requires
        attaching(nodes, before, k, cursor, walk),
        left_of(nodes, cursor.at) == Some(left),
        k < cursor.at,
        if k < left {
            size_or_zero(nodes, Some(left)) < size_or_zero(nodes, right_of(nodes, cursor.at))
        } else {
            inner_left(nodes, cursor.at) < size_or_zero(nodes, right_of(nodes, cursor.at))
        },
    ensures
        nodes[cursor.at as int].size < usize::MAX,
        attaching(
            put_size(nodes, cursor.at, (nodes[cursor.at as int].size + 1) as usize),
            before,
            k,
            cursor.down(left, true),
            Walk { depth: walk.depth + 1, rest: walk.rest.left(), hi: cursor.at as int, ..walk },
        ),
        walk.rest.left().depth(k) < walk.rest.depth(k),
{
    lemma_attach_sizes(nodes, before, k, cursor, walk);
    reveal(attaching);
    let rest = walk.rest;
    let at = cursor.at;
    rest.left().lemma_size_zero();
    rest.lemma_attached_below(k);
    rest.lemma_attached(k, walk.lo, walk.hi);
    lemma_walk_down(
        nodes,
        before,
        k,
        cursor.top,
        cursor.parent,
        cursor.on_left,
        at,
        walk,
        rest.attached(k),
        left,
    );
}

/// A step down to the right child: no restructuring is due.
pub proof fn lemma_attach_down_right(
    nodes: Seq<Node>,
    before: Seq<Node>,
    k: usize,
    cursor: Cursor,
    walk: Walk,
    right: usize,
)
    requires
        attaching(nodes, before, k, cursor, walk),
        right_of(nodes, cursor.at) == Some(right),
        k > cursor.at,
        if k > right {
            size_or_zero(nodes, Some(right)) < size_or_zero(nodes, left_of(nodes, cursor.at))
        } else {
            inner_right(nodes, cursor.at) < size_or_zero(nodes, left_of(nodes, cursor.at))
        },
    ensures
        nodes[cursor.at as int].size < usize::MAX,
        attaching(
            put_size(nodes, cursor.at, (nodes[cursor.at as int].size + 1) as usize),
            before,
            k,
            cursor.down(right, false),
            Walk { depth: walk.depth + 1, rest: walk.rest.right(), lo: cursor.at as int, ..walk },
        ),
        walk.rest.right().depth(k) < walk.rest.depth(k),
{
    lemma_attach_sizes(nodes, before, k, cursor, walk);
    reveal(attaching);
    let rest = walk.rest;
    let at = cursor.at;
    rest.right().lemma_size_zero();
    rest.lemma_attached_above(k);
    rest.lemma_attached(k, walk.lo, walk.hi);
    lemma_walk_down(
        nodes,
        before,
        k,
        cursor.top,
        cursor.parent,
        cursor.on_left,
        at,
        walk,
        rest.attached(k),
        right,
    );
}

/// The handle is lifted over the cursor and its left child: it belongs
/// between them, and neither the inner grandchild nor the right child is
/// there.
pub proof fn lemma_attach_lift_left(
    nodes: Seq<Node>,
    before: Seq<Node>,
    k: usize,
    cursor: Cursor,
    walk: Walk,
    left: usize,
)
    requires
        attaching(nodes, before, k, cursor, walk),
        left_of(nodes, cursor.at) == Some(left),
        k < cursor.at,
        !(k < left),
        inner_left(nodes, cursor.at) == 0,
        size_or_zero(nodes, right_of(nodes, cursor.at)) == 0,
    ensures
        nodes[left as int].size + 2 <= usize::MAX,
        holds(
            relinked(lifted_left(nodes, cursor.at, left, k), cursor.parent, cursor.on_left, Some(k)),
            cursor.turned(k).top,
            walk.whole,
        ),
        walk.whole.ordered(),
        kept_outside(
            relinked(lifted_left(nodes, cursor.at, left, k), cursor.parent, cursor.on_left, Some(k)),
            before,
            walk.origin,
            k,
        ),
{
    lemma_attach_sizes(nodes, before, k, cursor, walk);
    reveal(attaching);
    let rest = walk.rest;
    let at = cursor.at;
    rest.left().lemma_size_zero();
    rest.lemma_attached_below(k);
    lemma_lifted_left(nodes, at, k, rest, walk.lo, walk.hi);
    assert(rest.has(at));
    lemma_walk_done(
        nodes,
        before,
        k,
        cursor.top,
        cursor.parent,
        cursor.on_left,
        at,
        walk,
        rest.attached(k),
        lifted_left(nodes, at, left, k),
        Some(k),
    );
    walk.whole.lemma_within_ordered(-1, nodes.len() as int);
}

/// The handle is lifted over the cursor and its right child: it belongs
/// between them, and neither the inner grandchild nor the left child is
/// there.
pub proof fn lemma_attach_lift_right(
    nodes: Seq<Node>,
    before: Seq<Node>,
    k: usize,
    cursor: Cursor,
    walk: Walk,
    right: usize,
)
    requires
        attaching(nodes, before, k, cursor, walk),
        right_of(nodes, cursor.at) == Some(right),
        k > cursor.at,
        !(k > right),
        inner_right(nodes, cursor.at) == 0,
        size_or_zero(nodes, left_of(nodes, cursor.at)) == 0,
    ensures
        nodes[right as int].size + 2 <= usize::MAX,
        holds(
            relinked(lifted_right(nodes, cursor.at, right, k), cursor.parent, cursor.on_left, Some(k)),
            cursor.turned(k).top,
            walk.whole,
        ),
        walk.whole.ordered(),
        kept_outside(
            relinked(lifted_right(nodes, cursor.at, right, k), cursor.parent, cursor.on_left, Some(k)),
            before,
            walk.origin,
            k,
        ),
{
    lemma_attach_sizes(nodes, before, k, cursor, walk);
    reveal(attaching);
    let rest = walk.rest;
    let at = cursor.at;
    rest.right().lemma_size_zero();
    rest.lemma_attached_above(k);
    lemma_lifted_right(nodes, at, k, rest, walk.lo, walk.hi);
    assert(rest.has(at));
    lemma_walk_done(
        nodes,
        before,
        k,
        cursor.top,
        cursor.parent,
        cursor.on_left,
        at,
        walk,
        rest.attached(k),
        lifted_right(nodes, at, right, k),
        Some(k),
    );
    walk.whole.lemma_within_ordered(-1, nodes.len() as int);
}

/// A double rotation that lifts the inner grandchild on the left: the handle
/// belongs below it, and it is at least as large as the right child.
pub proof fn lemma_attach_twice_left(
    nodes: Seq<Node>,
    before: Seq<Node>,
    k: usize,
    cursor: Cursor,
    walk: Walk,
    left: usize,
)
    requires
        attaching(nodes, before, k, cursor, walk),
        left_of(nodes, cursor.at) == Some(left),
        k < cursor.at,
        !(k < left),
        inner_left(nodes, cursor.at) >= size_or_zero(nodes, right_of(nodes, cursor.at)),
        inner_left(nodes, cursor.at) > 0,
    ensures
        size_by_children(relinked_left(nodes, left), left) <= usize::MAX,
        right_of(nodes, left) matches Some(pivot) && {
            let linked = put_left(turned_left(nodes, left), cursor.at, Some(pivot));
            &&& size_by_children(relinked_right(linked, cursor.at), cursor.at) <= usize::MAX
            &&& left_of(linked, cursor.at) == Some(pivot)
            &&& attaching(
                relinked(
                    turned_left_right(nodes, cursor.at, left),
                    cursor.parent,
                    cursor.on_left,
                    Some(pivot),
                ),
                before,
                k,
                cursor.turned(pivot),
                Walk { rest: walk.rest.rotated_left_right(), ..walk },
            )
        },
        walk.rest.rotated_left_right().depth(k) < walk.rest.depth(k),
{
    lemma_attach_sizes(nodes, before, k, cursor, walk);
    reveal(attaching);
    let rest = walk.rest;
    let at = cursor.at;
    rest.left().lemma_size_zero();
    rest.left().right().lemma_size_zero();
    rest.lemma_attached_below(k);
    lemma_turned_left_right(nodes, at, rest, walk.lo, walk.hi);
    rest.lemma_rotated_twice(walk.lo, walk.hi);
    let pivot = rest.left().right().root().unwrap();
    assert(rest.has(at));
    assert(rest.left().has(left));
    assert(rest.left().right().has(pivot));
    assert(rest.left().has(pivot));
    lemma_walk_turned(
        nodes,
        before,
        k,
        cursor.top,
        cursor.parent,
        cursor.on_left,
        at,
        walk,
        rest.attached(k),
        turned_left_right(nodes, at, left),
        pivot,
        rest.rotated_left_right(),
    );
}

/// A double rotation that lifts the inner grandchild on the right: the
/// handle belongs below it, and it is at least as large as the left child.
pub proof fn lemma_attach_twice_right(
    nodes: Seq<Node>,
    before: Seq<Node>,
    k: usize,
    cursor: Cursor,
    walk: Walk,
    right: usize,
)
    requires
        attaching(nodes, before, k, cursor, walk),
        right_of(nodes, cursor.at) == Some(right),
        k > cursor.at,
        !(k > right),
        inner_right(nodes, cursor.at) >= size_or_zero(nodes, left_of(nodes, cursor.at)),
        inner_right(nodes, cursor.at) > 0,
    ensures
        size_by_children(relinked_right(nodes, right), right) <= usize::MAX,
        left_of(nodes, right) matches Some(pivot) && {
            let linked = put_right(turned_right(nodes, right), cursor.at, Some(pivot));
            &&& size_by_children(relinked_left(linked, cursor.at), cursor.at) <= usize::MAX
            &&& right_of(linked, cursor.at) == Some(pivot)
            &&& attaching(
                relinked(
                    turned_right_left(nodes, cursor.at, right),
                    cursor.parent,
                    cursor.on_left,
                    Some(pivot),
                ),
                before,
                k,
                cursor.turned(pivot),
                Walk { rest: walk.rest.rotated_right_left(), ..walk },
            )
        },
        walk.rest.rotated_right_left().depth(k) < walk.rest.depth(k),
{
    lemma_attach_sizes(nodes, before, k, cursor, walk);
    reveal(attaching);
    let rest = walk.rest;
    let at = cursor.at;
    rest.right().lemma_size_zero();
    rest.right().left().lemma_size_zero();
    rest.lemma_attached_above(k);
    lemma_turned_right_left(nodes, at, rest, walk.lo, walk.hi);
    rest.lemma_rotated_twice(walk.lo, walk.hi);
    let pivot = rest.right().left().root().unwrap();
    assert(rest.has(at));
    assert(rest.right().has(right));
    assert(rest.right().left().has(pivot));
    assert(rest.right().has(pivot));
    lemma_walk_turned(
        nodes,
        before,
        k,
        cursor.top,
        cursor.parent,
        cursor.on_left,
        at,
        walk,
        rest.attached(k),
        turned_right_left(nodes, at, right),
        pivot,
        rest.rotated_right_left(),
    );
}

} // verus!
