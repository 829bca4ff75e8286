//! The state of a descent that restructures as it goes: what the arena holds
//! above the cursor, what it holds at the cursor, and what is still owed
//! there.

use vstd::prelude::*;
use crate::trees::layout::{holds, lemma_holds_frame, lemma_holds_root};
use crate::trees::node::{left_of, put_left, put_right, put_size, right_of, Node};
use crate::trees::path::{
    above, descended, holds_around, lemma_above, lemma_around_close, lemma_around_kept,
    lemma_around_step, lemma_span, span,
};
use crate::trees::shape::Shape;

verus! {

/// The arena with the link that leads to the cursor replaced: the child of
/// `parent` on the side of the descent. Unchanged where the cursor is at the
/// top, whose link the caller keeps.
pub open spec fn relinked(
    nodes: Seq<Node>,
    parent: Option<usize>,
    on_left: bool,
    link: Option<usize>,
) -> Seq<Node> {
    match parent {
        None => nodes,
        Some(p) => if on_left {
            put_left(nodes, p, link)
        } else {
            put_right(nodes, p, link)
        },
    }
}

/// The trees that a descent speaks of.
pub struct Walk {
    /// The tree that the arena held at the start.
    pub origin: Shape,
    /// The tree that the arena is to hold at the end.
    pub whole: Shape,
    /// Number of steps made.
    pub depth: nat,
    /// The tree that the arena holds at the cursor.
    pub rest: Shape,
    /// The bounds between which the tree at the cursor lies.
    pub lo: int,
    pub hi: int,
}

/// Where a descent stands: the root that the caller keeps, the handle from
/// which the last step was made with its side, and the handle at hand.
pub struct Cursor {
    pub top: Option<usize>,
    pub parent: Option<usize>,
    pub on_left: bool,
    pub at: usize,
}

impl Cursor {
    /// The cursor after the tree at hand was restructured and `pivot` came
    /// up in its place.
    pub open spec fn turned(self, pivot: usize) -> Cursor {
        Cursor {
            top: if self.parent is None {
                Some(pivot)
            } else {
                self.top
            },
            at: pivot,
            ..self
        }
    }

    /// The cursor after a step down to `child`.
    pub open spec fn down(self, child: usize, on_left: bool) -> Cursor {
        Cursor { top: self.top, parent: Some(self.at), on_left, at: child }
    }
}

/// No slot but that of `k` and those of the handles of `origin` differs
/// between the two arenas.
pub open spec fn kept_outside(
    after: Seq<Node>,
    before: Seq<Node>,
    origin: Shape,
    k: usize,
) -> bool {
    &&& after.len() == before.len()
    &&& forall|i: int|
        0 <= i < before.len() && i != k && !origin.has_at(i) ==> #[trigger] after[i] == before[i]
}

/// What holds at the head of every round of a descent towards `k`: above the
/// cursor the arena holds the final tree already, at the cursor it holds
/// `rest`, in whose place `goal` is owed, and no slot outside the tree was
/// touched.
#[verifier::opaque]
pub open spec fn walking(
    nodes: Seq<Node>,
    before: Seq<Node>,
    k: usize,
    top: Option<usize>,
    parent: Option<usize>,
    on_left: bool,
    cursor: usize,
    walk: Walk,
    goal: Shape,
) -> bool {
    &&& nodes.len() == before.len()
    &&& nodes.len() <= usize::MAX
    &&& -1 <= walk.lo < k < walk.hi <= nodes.len()
    &&& walk.whole.within(-1, nodes.len() as int)
    &&& walk.rest.within(walk.lo, walk.hi)
    &&& holds(nodes, Some(cursor), walk.rest)
    &&& holds_around(nodes, top, walk.whole, k, walk.depth, Some(cursor))
    &&& descended(walk.whole, k, walk.depth) == goal
    &&& span(walk.whole, k, walk.depth, -1, nodes.len() as int) == (walk.lo, walk.hi)
    &&& above(walk.whole, k, walk.depth) == parent
    &&& parent matches Some(p) ==> {
        &&& on_left == (k < p)
        &&& walk.origin.has(p)
        &&& (if on_left {
            left_of(nodes, p)
        } else {
            right_of(nodes, p)
        }) == Some(cursor)
    }
    &&& forall|i: int|
        0 <= i < nodes.len() && !walk.origin.has_at(i) ==> #[trigger] nodes[i] == before[i]
    &&& forall|x: usize| #[trigger] walk.rest.has(x) ==> walk.origin.has(x)
}

/// A descent starts at the root of a held tree with the whole arena as its
/// bounds and the final tree as its goal.
pub proof fn lemma_walk_start(nodes: Seq<Node>, root: usize, k: usize, origin: Shape, whole: Shape)
    requires
        holds(nodes, Some(root), origin),
        origin.within(-1, nodes.len() as int),
        whole.within(-1, nodes.len() as int),
        nodes.len() <= usize::MAX,
        k < nodes.len(),
    ensures
        walking(
            nodes,
            nodes,
            k,
            Some(root),
            None,
            false,
            root,
            Walk { origin, whole, depth: 0, rest: origin, lo: -1, hi: nodes.len() as int },
            whole,
        ),
{
    reveal(walking);
}

/// What the state of a descent says of the cursor and of what is owed
/// there.
pub proof fn lemma_walk_goal(
    nodes: Seq<Node>,
    before: Seq<Node>,
    k: usize,
    top: Option<usize>,
    parent: Option<usize>,
    on_left: bool,
    cursor: usize,
    walk: Walk,
    goal: Shape,
)
    requires
        walking(nodes, before, k, top, parent, on_left, cursor, walk, goal),
    ensures
        nodes.len() == before.len(),
        nodes.len() <= usize::MAX,
        -1 <= walk.lo < k < walk.hi <= nodes.len(),
        walk.rest.within(walk.lo, walk.hi),
        walk.whole.within(-1, nodes.len() as int),
        holds(nodes, Some(cursor), walk.rest),
        descended(walk.whole, k, walk.depth) == goal,
        !walk.origin.has(k) ==> nodes[k as int] == before[k as int],
        goal.within(walk.lo, walk.hi),
        goal.size() <= usize::MAX,
        cursor < nodes.len(),
        walk.rest.root() == Some(cursor),
        nodes[cursor as int].size == walk.rest.size(),
        walk.lo < cursor < walk.hi,
        parent matches Some(p) ==> p < nodes.len() && (p <= walk.lo || walk.hi <= p),
        walk.depth == 0 <==> parent is None,
{
    reveal(walking);
    let len = nodes.len() as int;
    lemma_span(walk.whole, k, walk.depth, -1, len);
    lemma_above(nodes, top, walk.whole, k, walk.depth, Some(cursor));
    if !walk.origin.has(k) {
        assert(!walk.origin.has_at(k as int));
    }
    goal.lemma_size_bound(walk.lo, walk.hi);
    lemma_holds_root(nodes, Some(cursor), walk.rest);
}

/// After a restructuring at the cursor that keeps the handles of the tree
/// there, and the new link to it, the descent goes on from the new root of
/// that tree with the same goal.
pub proof fn lemma_walk_turned(
    nodes: Seq<Node>,
    before: Seq<Node>,
    k: usize,
    top: Option<usize>,
    parent: Option<usize>,
    on_left: bool,
    cursor: usize,
    walk: Walk,
    goal: Shape,
    mid: Seq<Node>,
    pivot: usize,
    turned: Shape,
)
    requires
        walking(nodes, before, k, top, parent, on_left, cursor, walk, goal),
        holds(mid, Some(pivot), turned),
        turned.within(walk.lo, walk.hi),
        mid.len() == nodes.len(),
        forall|x: usize| #[trigger] turned.has(x) == walk.rest.has(x),
        forall|i: int| 0 <= i < nodes.len() && !walk.rest.has_at(i) ==> #[trigger] mid[i] == nodes[i],
    ensures
        walking(
            relinked(mid, parent, on_left, Some(pivot)),
            before,
            k,
            if parent is None {
                Some(pivot)
            } else {
                top
            },
            parent,
            on_left,
            pivot,
            Walk { rest: turned, ..walk },
            goal,
        ),
{
    reveal(walking);
    let len = nodes.len() as int;
    let after = relinked(mid, parent, on_left, Some(pivot));
    lemma_walk_goal(nodes, before, k, top, parent, on_left, cursor, walk, goal);
    assert forall|i: int| 0 <= i < len && !(walk.lo < i < walk.hi) implies mid[i] == nodes[i] by {
        if walk.rest.has_at(i) {
            walk.rest.lemma_within_has(walk.lo, walk.hi, i as usize);
        }
    }
    assert forall|i: int| 0 <= i < len && !walk.origin.has_at(i) implies mid[i] == nodes[i] by {
        if walk.rest.has_at(i) {
            assert(walk.rest.has(i as usize));
        }
    }
    lemma_holds_frame(mid, after, Some(pivot), turned, walk.lo, walk.hi);
    lemma_around_kept(
        nodes,
        after,
        top,
        walk.whole,
        k,
        walk.depth,
        Some(cursor),
        Some(pivot),
        -1,
        len,
    );
    assert forall|i: int| 0 <= i < len && !walk.origin.has_at(i) implies #[trigger] after[i]
        == before[i] by {
        assert(mid[i] == nodes[i]);
    }
    assert forall|x: usize| #[trigger] turned.has(x) implies walk.origin.has(x) by {
        assert(walk.rest.has(x));
    }
}

/// After the size of the cursor was set to what is owed there, the descent
/// goes on from its child on the side of `k`, with the subtree owed there as
/// the goal.
pub proof fn lemma_walk_down(
    nodes: Seq<Node>,
    before: Seq<Node>,
    k: usize,
    top: Option<usize>,
    parent: Option<usize>,
    on_left: bool,
    cursor: usize,
    walk: Walk,
    goal: Shape,
    child: usize,
)
    requires
        walking(nodes, before, k, top, parent, on_left, cursor, walk, goal),
        k != cursor,
        goal.root() == Some(cursor),
        k < cursor ==> goal.right() == walk.rest.right() && left_of(nodes, cursor) == Some(child),
        k > cursor ==> goal.left() == walk.rest.left() && right_of(nodes, cursor) == Some(child),
    ensures
        goal.size() <= usize::MAX,
        walking(
            put_size(nodes, cursor, goal.size() as usize),
            before,
            k,
            top,
            Some(cursor),
            k < cursor,
            child,
            Walk {
                depth: walk.depth + 1,
                rest: if k < cursor {
                    walk.rest.left()
                } else {
                    walk.rest.right()
                },
                lo: if k < cursor {
                    walk.lo
                } else {
                    cursor as int
                },
                hi: if k < cursor {
                    cursor as int
                } else {
                    walk.hi
                },
                ..walk
            },
            if k < cursor {
                goal.left()
            } else {
                goal.right()
            },
        ),
{
    reveal(walking);
    let len = nodes.len() as int;
    lemma_walk_goal(nodes, before, k, top, parent, on_left, cursor, walk, goal);
    let after = put_size(nodes, cursor, goal.size() as usize);
    lemma_holds_root(nodes, Some(cursor), walk.rest);
    assert(walk.rest.has(cursor));
    lemma_around_kept(
        nodes,
        after,
        top,
        walk.whole,
        k,
        walk.depth,
        Some(cursor),
        Some(cursor),
        -1,
        len,
    );
    lemma_holds_frame(
        nodes,
        after,
        nodes[cursor as int].left,
        walk.rest.left(),
        walk.lo,
        cursor as int,
    );
    lemma_holds_frame(
        nodes,
        after,
        nodes[cursor as int].right,
        walk.rest.right(),
        cursor as int,
        walk.hi,
    );
    lemma_around_step(after, top, walk.whole, k, walk.depth, cursor, -1, len);
    let rest = if k < cursor {
        walk.rest.left()
    } else {
        walk.rest.right()
    };
    assert forall|x: usize| #[trigger] rest.has(x) implies walk.origin.has(x) by {
        assert(walk.rest.has(x));
    }
    assert forall|i: int| 0 <= i < len && !walk.origin.has_at(i) implies #[trigger] after[i]
        == before[i] by {
        assert(nodes[i] == before[i]);
    }
}

/// After the tree at the cursor was replaced by what is owed there, and the
/// link to it was set, the arena holds the final tree, and no slot outside
/// the first tree but that of `k` was touched.
pub proof fn lemma_walk_done(
    nodes: Seq<Node>,
    before: Seq<Node>,
    k: usize,
    top: Option<usize>,
    parent: Option<usize>,
    on_left: bool,
    cursor: usize,
    walk: Walk,
    goal: Shape,
    mid: Seq<Node>,
    link: Option<usize>,
)
    requires
        walking(nodes, before, k, top, parent, on_left, cursor, walk, goal),
        holds(mid, link, goal),
        mid.len() == nodes.len(),
        forall|i: int|
            0 <= i < nodes.len() && !walk.rest.has_at(i) && i != k ==> #[trigger] mid[i] == nodes[i],
    ensures
        holds(relinked(mid, parent, on_left, link), if parent is None { link } else { top }, walk.whole),
        relinked(mid, parent, on_left, link).len() == before.len(),
        relinked(mid, parent, on_left, link)[k as int] == mid[k as int],
        link == Some(cursor) ==> relinked(mid, parent, on_left, link) == mid && (parent is None ==> top
            == link),
        forall|i: int|
            0 <= i < before.len() && !walk.origin.has_at(i) && i != k ==> #[trigger] relinked(
                mid,
                parent,
                on_left,
                link,
            )[i] == before[i],
{
    reveal(walking);
    let len = nodes.len() as int;
    let after = relinked(mid, parent, on_left, link);
    let new_top = if parent is None {
        link
    } else {
        top
    };
    lemma_walk_goal(nodes, before, k, top, parent, on_left, cursor, walk, goal);
    assert forall|i: int| 0 <= i < len && !(walk.lo < i < walk.hi) implies mid[i] == nodes[i] by {
        if walk.rest.has_at(i) {
            walk.rest.lemma_within_has(walk.lo, walk.hi, i as usize);
        }
    }
    lemma_holds_frame(mid, after, link, goal, walk.lo, walk.hi);
    lemma_around_kept(nodes, after, top, walk.whole, k, walk.depth, Some(cursor), link, -1, len);
    lemma_around_close(after, new_top, walk.whole, k, walk.depth, link);
    if link == Some(cursor) {
        assert(after =~= mid);
    }
    assert forall|i: int|
        0 <= i < len && !walk.origin.has_at(i) && i != k implies #[trigger] after[i]
        == before[i] by {
        if walk.rest.has_at(i) {
            assert(walk.rest.has(i as usize));
        }
        assert(mid[i] == nodes[i]);
        assert(nodes[i] == before[i]);
    }
}

} // verus!
