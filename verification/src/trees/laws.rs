//! What holds of the engine whatever the handles and the order in which they
//! come.

use vstd::prelude::*;
use crate::store::vacant_arena;
use crate::trees::layout::{
    holds, is_tree, lemma_holds_has, lemma_holds_root, lemma_is_tree, lemma_shape_of, shape_of,
};
use crate::trees::no_recur::{attach_gives, detach_gives};
use crate::trees::node::{size_or_zero, Node};
use crate::trees::shape::Shape;

verus! {

/// One call of the engine.
pub enum Op {
    Attach(usize),
    Detach(usize),
}

/// The tree that a sequence of calls makes of the empty tree.
pub open spec fn played(ops: Seq<Op>) -> Shape
    decreases ops.len(),
{
    if ops.len() == 0 {
        Shape::Empty
    } else {
        match ops.last() {
            Op::Attach(k) => played(ops.drop_last()).attached(k),
            Op::Detach(k) => played(ops.drop_last()).detached(k),
        }
    }
}

/// The handles that a sequence of calls has attached and not detached since.
pub open spec fn live(ops: Seq<Op>) -> Set<usize>
    decreases ops.len(),
{
    if ops.len() == 0 {
        Set::empty()
    } else {
        match ops.last() {
            Op::Attach(k) => live(ops.drop_last()).insert(k),
            Op::Detach(k) => live(ops.drop_last()).remove(k),
        }
    }
}

/// Whether each call of the sequence is one that the engine allows: a handle
/// is attached where it is not in the tree, and detached where it is.
pub open spec fn allowed(ops: Seq<Op>) -> bool
    decreases ops.len(),
{
    ops.len() == 0 || {
        &&& allowed(ops.drop_last())
        &&& match ops.last() {
            Op::Attach(k) => !live(ops.drop_last()).contains(k),
            Op::Detach(k) => live(ops.drop_last()).contains(k),
        }
    }
}

/// The calls that attach the handles of `items` one after the other.
pub open spec fn attaches(items: Seq<usize>) -> Seq<Op> {
    Seq::new(items.len(), |i: int| Op::Attach(items[i]))
}

/// Whether a sequence of handles ascends strictly.
pub open spec fn ascending(items: Seq<usize>) -> bool {
    forall|i: int, j: int| 0 <= i < j < items.len() ==> items[i] < items[j]
}

/// After any sequence of allowed calls the tree is a search tree that has
/// the handles attached and not detached since, and no others: each of them
/// is found, a detached one is not, and the in-order traversal lists them in
/// ascending order.
pub proof fn lemma_played(ops: Seq<Op>)
    requires
        allowed(ops),
    ensures
        played(ops).ordered(),
        forall|x: usize| played(ops).has(x) <==> live(ops).contains(x),
        forall|x: usize| played(ops).finds(x) <==> live(ops).contains(x),
        ascending(played(ops).inorder()),
        forall|x: usize| played(ops).inorder().contains(x) <==> live(ops).contains(x),
    decreases ops.len(),
{
    let tree = played(ops);
    if ops.len() == 0 {
    } else {
        let earlier = played(ops.drop_last());
        lemma_played(ops.drop_last());
        match ops.last() {
            Op::Attach(k) => {
                earlier.lemma_attached(k, -1, usize::MAX + 1);
                assert forall|x: usize| tree.has(x) <==> live(ops).contains(x) by {
                    assert(tree.has(x) == (x == k || earlier.has(x)));
                }
            },
            Op::Detach(k) => {
                earlier.lemma_detached(k, -1, usize::MAX + 1);
                assert forall|x: usize| tree.has(x) <==> live(ops).contains(x) by {
                    assert(tree.has(x) == (x != k && earlier.has(x)));
                }
            },
        }
    }
    tree.lemma_inorder(-1, usize::MAX + 1);
    assert forall|x: usize| tree.finds(x) <==> live(ops).contains(x) by {
        tree.lemma_finds(-1, usize::MAX + 1, x);
    }
    assert forall|x: usize| tree.inorder().contains(x) <==> live(ops).contains(x) by {
        assert(tree.has(x) <==> tree.inorder().contains(x));
        assert(tree.has(x) <==> live(ops).contains(x));
    }
}

/// Handles that differ from each other, attached in any order, give a tree
/// whose in-order traversal lists exactly these handles in ascending order.
pub proof fn lemma_attached_in_order(items: Seq<usize>)
    requires
        items.no_duplicates(),
    ensures
        played(attaches(items)).ordered(),
        ascending(played(attaches(items)).inorder()),
        played(attaches(items)).inorder().len() == items.len(),
        forall|x: usize| played(attaches(items)).inorder().contains(x) <==> items.contains(x),
{
    lemma_attaches(items);
    lemma_played(attaches(items));
    played(attaches(items)).lemma_inorder(-1, usize::MAX + 1);
    lemma_attaches_size(items);
}

/// Attaching handles that differ from each other is allowed, and these
/// handles are the ones in the tree.
proof fn lemma_attaches(items: Seq<usize>)
    requires
        items.no_duplicates(),
    ensures
        allowed(attaches(items)),
        forall|x: usize| live(attaches(items)).contains(x) <==> items.contains(x),
    decreases items.len(),
{
    let ops = attaches(items);
    if items.len() > 0 {
        let front = items.drop_last();
        assert(ops.drop_last() =~= attaches(front));
        lemma_attaches(front);
        assert(ops.last() == Op::Attach(items.last()));
        if front.contains(items.last()) {
            let i = choose|i: int| 0 <= i < front.len() && front[i] == items.last();
            assert(items[i] == items[items.len() - 1]);
        }
        assert forall|x: usize| live(ops).contains(x) <==> items.contains(x) by {
            if items.contains(x) {
                let i = choose|i: int| 0 <= i < items.len() && items[i] == x;
                if i < front.len() {
                    assert(front[i] == x);
                }
            }
            if front.contains(x) {
                let i = choose|i: int| 0 <= i < front.len() && front[i] == x;
                assert(items[i] == x);
            }
            assert(items[items.len() - 1] == items.last());
        }
    }
}

/// Each attach of a handle that differs from the earlier ones adds one to the
/// number of handles.
proof fn lemma_attaches_size(items: Seq<usize>)
    requires
        items.no_duplicates(),
    ensures
        played(attaches(items)).size() == items.len(),
    decreases items.len(),
{
    let ops = attaches(items);
    if items.len() > 0 {
        let front = items.drop_last();
        assert(ops.drop_last() =~= attaches(front));
        lemma_attaches_size(front);
        lemma_attaches(front);
        lemma_played(attaches(front));
        assert(ops.last() == Op::Attach(items.last()));
        if front.contains(items.last()) {
            let i = choose|i: int| 0 <= i < front.len() && front[i] == items.last();
            assert(items[i] == items[items.len() - 1]);
        }
        played(attaches(front)).lemma_attached(items.last(), -1, usize::MAX + 1);
    }
}

/// In an arena that holds a tree, the size recorded at each handle of the
/// tree is one more than the sizes recorded at its children, an absent child
/// counting as zero.
pub proof fn lemma_sizes(nodes: Seq<Node>, root: Option<usize>, x: usize)
    requires
        is_tree(nodes, root),
        shape_of(nodes, root).has(x),
    ensures
        x < nodes.len(),
        nodes[x as int].size == 1 + size_or_zero(nodes, nodes[x as int].left) + size_or_zero(
            nodes,
            nodes[x as int].right,
        ),
{
    lemma_is_tree(nodes, root);
    lemma_holds_has(nodes, root, shape_of(nodes, root), x);
}

/// The size recorded at the root of a tree is the number of its handles.
pub proof fn lemma_size_at_root(nodes: Seq<Node>, root: Option<usize>)
    requires
        is_tree(nodes, root),
    ensures
        size_or_zero(nodes, root) == shape_of(nodes, root).size(),
        shape_of(nodes, root).inorder().len() == shape_of(nodes, root).size(),
{
    lemma_is_tree(nodes, root);
    lemma_holds_root(nodes, root, shape_of(nodes, root));
    shape_of(nodes, root).lemma_inorder(-1, usize::MAX + 1);
}

/// Two arenas that hold the same tree have the same root and the same record
/// at each handle of the tree, however each of them keeps its records.
pub proof fn lemma_held_alike(
    first: Seq<Node>,
    first_root: Option<usize>,
    second: Seq<Node>,
    second_root: Option<usize>,
    shape: Shape,
)
    requires
        holds(first, first_root, shape),
        holds(second, second_root, shape),
    ensures
        first_root == second_root,
        forall|x: usize| shape.has(x) ==> first[x as int] == second[x as int],
    decreases shape,
{
    match shape {
        Shape::Empty => {},
        Shape::Fork { left, key, right } => {
            lemma_held_alike(
                first,
                first[key as int].left,
                second,
                second[key as int].left,
                *left,
            );
            lemma_held_alike(
                first,
                first[key as int].right,
                second,
                second[key as int].right,
                *right,
            );
            assert forall|x: usize| shape.has(x) implies first[x as int] == second[x as int] by {
                assert(x == key || left.has(x) || right.has(x));
            }
        },
    }
}

/// Two engines that start from arenas with the same tree agree on every
/// handle they are probed for: what `is_contains` reports is said of the tree
/// alone.
pub proof fn lemma_engines_agree(
    first: Seq<Node>,
    first_root: Option<usize>,
    second: Seq<Node>,
    second_root: Option<usize>,
    ops: Seq<Op>,
    probe: usize,
)
    requires
        is_tree(first, first_root),
        is_tree(second, second_root),
        shape_of(first, first_root) == played(ops),
        shape_of(second, second_root) == played(ops),
    ensures
        first_root == second_root,
        shape_of(first, first_root).has(probe) == shape_of(second, second_root).has(probe),
        forall|x: usize| played(ops).has(x) ==> first[x as int] == second[x as int],
{
    lemma_is_tree(first, first_root);
    lemma_is_tree(second, second_root);
    lemma_held_alike(first, first_root, second, second_root, played(ops));
}

/// What attaching makes of an arena is one thing: two arenas that it could
/// have made of the same arena are the same, slot by slot, with the same
/// root.
pub proof fn lemma_attach_unique(
    before: Seq<Node>,
    root: Option<usize>,
    idx: usize,
    one: Seq<Node>,
    one_root: Option<usize>,
    other: Seq<Node>,
    other_root: Option<usize>,
)
    requires
        is_tree(before, root),
        !shape_of(before, root).has(idx),
        attach_gives(before, root, idx, one, one_root),
        attach_gives(before, root, idx, other, other_root),
    ensures
        one == other,
        one_root == other_root,
{
    if idx < before.len() {
        let origin = shape_of(before, root);
        let shape = origin.attached(idx);
        lemma_is_tree(before, root);
        lemma_is_tree(one, one_root);
        lemma_is_tree(other, other_root);
        origin.lemma_attached(idx, -1, usize::MAX + 1);
        lemma_held_alike(one, one_root, other, other_root, shape);
        assert forall|i: int| 0 <= i < before.len() implies one[i] == other[i] by {
            if i == idx || origin.has_at(i) {
                assert(shape.has(i as usize));
            } else {
                assert(one[i] == before[i]);
                assert(other[i] == before[i]);
            }
        }
        assert(one =~= other);
    }
}

/// What detaching makes of an arena is one thing: two arenas that it could
/// have made of the same arena are the same, slot by slot, with the same
/// root.
pub proof fn lemma_detach_unique(
    before: Seq<Node>,
    root: Option<usize>,
    idx: usize,
    one: Seq<Node>,
    one_root: Option<usize>,
    other: Seq<Node>,
    other_root: Option<usize>,
)
    requires
        is_tree(before, root),
        shape_of(before, root).has(idx),
        detach_gives(before, root, idx, one, one_root),
        detach_gives(before, root, idx, other, other_root),
    ensures
        one == other,
        one_root == other_root,
{
    let origin = shape_of(before, root);
    let shape = origin.detached(idx);
    lemma_is_tree(before, root);
    lemma_is_tree(one, one_root);
    lemma_is_tree(other, other_root);
    origin.lemma_detached(idx, -1, usize::MAX + 1);
    lemma_held_alike(one, one_root, other, other_root, shape);
    assert forall|i: int| 0 <= i < before.len() implies one[i] == other[i] by {
        if i == idx {
        } else if origin.has_at(i) {
            assert(shape.has(i as usize));
        } else {
            assert(one[i] == before[i]);
            assert(other[i] == before[i]);
        }
    }
    assert(one =~= other);
}

/// Whether the engine allows the call `op` on the tree at `root`: the arena
/// holds a tree there, an attached handle is not in it and names a slot
/// without children, a detached handle is in it.
pub open spec fn call_allowed(nodes: Seq<Node>, root: Option<usize>, op: Op) -> bool {
    &&& is_tree(nodes, root)
    &&& match op {
        Op::Attach(k) => {
            &&& !shape_of(nodes, root).has(k)
            &&& k < nodes.len() ==> nodes[k as int].left is None && nodes[k as int].right is None
        },
        Op::Detach(k) => shape_of(nodes, root).has(k),
    }
}

/// What the call `op` makes of an arena and a root.
pub open spec fn call_gives(
    before: Seq<Node>,
    root: Option<usize>,
    op: Op,
    after: Seq<Node>,
    new_root: Option<usize>,
) -> bool {
    match op {
        Op::Attach(k) => attach_gives(before, root, k, after, new_root),
        Op::Detach(k) => detach_gives(before, root, k, after, new_root),
    }
}

/// Whether `states` are the arenas and roots that the calls `ops` pass
/// through from the arena `before` with the root `root`: each call is allowed
/// where it is made and gives the next state.
pub open spec fn calls_pass(
    before: Seq<Node>,
    root: Option<usize>,
    ops: Seq<Op>,
    states: Seq<(Seq<Node>, Option<usize>)>,
) -> bool {
    &&& states.len() == ops.len() + 1
    &&& states[0] == (before, root)
    &&& forall|i: int|
        0 <= i < ops.len() ==> {
            &&& call_allowed(states[i].0, states[i].1, #[trigger] ops[i])
            &&& call_gives(states[i].0, states[i].1, ops[i], states[i + 1].0, states[i + 1].1)
        }
}

/// Whether the calls `ops`, each allowed where it is made, can lead from the
/// arena `before` with the root `root` to the arena `after` with the root
/// `new_root`.
pub open spec fn calls_give(
    before: Seq<Node>,
    root: Option<usize>,
    ops: Seq<Op>,
    after: Seq<Node>,
    new_root: Option<usize>,
) -> bool {
    exists|states: Seq<(Seq<Node>, Option<usize>)>|
        #[trigger] calls_pass(before, root, ops, states) && states.last() == (after, new_root)
}

/// Two passes of the same calls from the same arena are in the same state
/// after each call.
proof fn lemma_passes_agree(
    before: Seq<Node>,
    root: Option<usize>,
    ops: Seq<Op>,
    one: Seq<(Seq<Node>, Option<usize>)>,
    other: Seq<(Seq<Node>, Option<usize>)>,
    done: int,
)
    requires
        calls_pass(before, root, ops, one),
        calls_pass(before, root, ops, other),
        0 <= done <= ops.len(),
    ensures
        one[done] == other[done],
    decreases done,
{
    if done > 0 {
        lemma_passes_agree(before, root, ops, one, other, done - 1);
        let at = one[done - 1];
        assert(call_allowed(at.0, at.1, ops[done - 1]));
        assert(call_gives(at.0, at.1, ops[done - 1], one[done].0, one[done].1));
        assert(call_gives(at.0, at.1, ops[done - 1], other[done].0, other[done].1));
        match ops[done - 1] {
            Op::Attach(k) => {
                lemma_attach_unique(
                    at.0,
                    at.1,
                    k,
                    one[done].0,
                    one[done].1,
                    other[done].0,
                    other[done].1,
                );
            },
            Op::Detach(k) => {
                lemma_detach_unique(
                    at.0,
                    at.1,
                    k,
                    one[done].0,
                    one[done].1,
                    other[done].0,
                    other[done].1,
                );
            },
        }
    }
}

/// A sequence of calls leads from an arena to one arena and one root only:
/// whichever engine makes the calls, and whether the arena was made for them
/// or reset before them, the slots and the root are the same in the end, and
/// so is what is found there.
pub proof fn lemma_calls_unique(
    before: Seq<Node>,
    root: Option<usize>,
    ops: Seq<Op>,
    one: Seq<Node>,
    one_root: Option<usize>,
    other: Seq<Node>,
    other_root: Option<usize>,
)
    requires
        calls_give(before, root, ops, one, one_root),
        calls_give(before, root, ops, other, other_root),
    ensures
        one == other,
        one_root == other_root,
{
    let first = choose|states: Seq<(Seq<Node>, Option<usize>)>|
        #[trigger] calls_pass(before, root, ops, states) && states.last() == (one, one_root);
    let second = choose|states: Seq<(Seq<Node>, Option<usize>)>|
        #[trigger] calls_pass(before, root, ops, states) && states.last() == (other, other_root);
    lemma_passes_agree(before, root, ops, first, second, ops.len() as int);
}

/// Whether every handle that the calls attach names a slot of an arena of
/// `len` slots.
pub open spec fn attaches_in_range(ops: Seq<Op>, len: nat) -> bool {
    forall|i: int| 0 <= i < ops.len() ==> (#[trigger] ops[i] matches Op::Attach(k) ==> k < len)
}

/// After each call of a pass that starts without a root, the arena holds the
/// tree that the calls so far make of the empty tree.
proof fn lemma_pass_plays(
    before: Seq<Node>,
    ops: Seq<Op>,
    states: Seq<(Seq<Node>, Option<usize>)>,
    done: int,
)
    requires
        calls_pass(before, None, ops, states),
        attaches_in_range(ops, before.len()),
        0 <= done <= ops.len(),
    ensures
        states[done].0.len() == before.len(),
        is_tree(states[done].0, states[done].1),
        shape_of(states[done].0, states[done].1) == played(ops.take(done)),
        allowed(ops.take(done)),
    decreases done,
{
    if done == 0 {
        lemma_shape_of(before, None, Shape::Empty);
    } else {
        lemma_pass_plays(before, ops, states, done - 1);
        let earlier = ops.take(done - 1);
        let at = states[done - 1];
        assert(ops.take(done).drop_last() =~= earlier);
        assert(ops.take(done).last() == ops[done - 1]);
        assert(call_allowed(at.0, at.1, ops[done - 1]));
        assert(call_gives(at.0, at.1, ops[done - 1], states[done].0, states[done].1));
        lemma_played(earlier);
    }
}

/// Calls that start on an arena without a root, each allowed where it is
/// made, leave in the arena the search tree of the handles attached and not
/// detached since: its in-order traversal lists them in ascending order, and
/// a descent finds each of them and no other.
pub proof fn lemma_calls_play(
    before: Seq<Node>,
    ops: Seq<Op>,
    after: Seq<Node>,
    new_root: Option<usize>,
)
    requires
        calls_give(before, None, ops, after, new_root),
        attaches_in_range(ops, before.len()),
    ensures
        is_tree(after, new_root),
        shape_of(after, new_root) == played(ops),
        ascending(shape_of(after, new_root).inorder()),
        forall|x: usize| shape_of(after, new_root).has(x) <==> live(ops).contains(x),
        forall|x: usize| shape_of(after, new_root).inorder().contains(x) <==> live(ops).contains(x),
{
    let states = choose|states: Seq<(Seq<Node>, Option<usize>)>|
        #[trigger] calls_pass(before, None, ops, states) && states.last() == (after, new_root);
    lemma_pass_plays(before, ops, states, ops.len() as int);
    assert(ops.take(ops.len() as int) =~= ops);
    lemma_played(ops);
}

/// An arena of vacant slots, fresh or reset, holds the empty tree, and every
/// handle in its range can be attached to it.
pub proof fn lemma_vacant_arena(len: nat, idx: usize)
    ensures
        is_tree(vacant_arena(len), None),
        shape_of(vacant_arena(len), None) == Shape::Empty,
        !shape_of(vacant_arena(len), None).has(idx),
        idx < len ==> vacant_arena(len)[idx as int].left is None && vacant_arena(
            len,
        )[idx as int].right is None,
{
    lemma_shape_of(vacant_arena(len), None, Shape::Empty);
}

} // verus!
