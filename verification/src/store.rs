//! Arenas: fixed-length stores of node records, and the interface under which
//! a tree kept in one is used.

use vstd::prelude::*;
use crate::trees::layout::{is_tree, shape_of};
use crate::trees::leaf::Leaf;
use crate::trees::no_recur::{attach_gives, detach_gives, NoRecur};
use crate::trees::no_recur_szb_tree::NoRecurSzbTree;
use crate::trees::szb_tree::SzbTree;
use crate::trees::node::Node;
use crate::trees::tree::Tree;

verus! {

/// The arena of `len` vacant slots.
pub open spec fn vacant_arena(len: nat) -> Seq<Node> {
    Seq::new(len, |i: int| Node::vacant())
}

/// The slot that an optional handle refers to.
pub open spec fn slot<T: Leaf>(root: Option<T>) -> Option<usize> {
    match root {
        Some(item) => Some(item.address()),
        None => None,
    }
}

/// A tree engine as its users see it: an arena made once with its capacity,
/// and trees in it that are known by the root which the caller keeps.
pub trait BTree: Sized {
    /// The handles by which the nodes of a tree are known.
    type Item: Leaf;

    /// The slots of the arena.
    spec fn slots(&self) -> Seq<Node>;

    /// Makes an arena of `len` vacant slots.
    fn new(len: usize) -> (store: Self)
        ensures
            store.slots() == vacant_arena(len as nat),
    ;

    /// Attaches the vacant handle `node` to the tree at `root` and sets
    /// `root` to the new root. A handle out of range is not attached and
    /// nothing changes.
    fn _attach(&mut self, root: &mut Option<Self::Item>, node: Self::Item)
        requires
            is_tree(old(self).slots(), slot(*old(root))),
            !shape_of(old(self).slots(), slot(*old(root))).has(node.address()),
            node.address() < old(self).slots().len() ==> {
                &&& old(self).slots()[node.address() as int].left is None
                &&& old(self).slots()[node.address() as int].right is None
            },
        ensures
            attach_gives(
                old(self).slots(),
                slot(*old(root)),
                node.address(),
                final(self).slots(),
                slot(*final(root)),
            ),
    ;

    /// Detaches the handle `node` from the tree at `root`, sets `root` to the
    /// new root, absent where the tree is empty now, and leaves the slot of
    /// `node` vacant.
    fn _detach(&mut self, root: &mut Option<Self::Item>, node: Self::Item)
        requires
            is_tree(old(self).slots(), slot(*old(root))),
            shape_of(old(self).slots(), slot(*old(root))).has(node.address()),
        ensures
            detach_gives(
                old(self).slots(),
                slot(*old(root)),
                node.address(),
                final(self).slots(),
                slot(*final(root)),
            ),
    ;

    /// Whether the tree at `root` has the handle `node`.
    fn is_contains(&self, root: Self::Item, node: Self::Item) -> (found: bool)
        requires
            is_tree(self.slots(), Some(root.address())),
        ensures
            found == shape_of(self.slots(), Some(root.address())).has(node.address()),
    ;

    /// Whether every slot is vacant.
    fn is_empty(&self) -> (empty: bool)
        ensures
            empty == (self.slots() == vacant_arena(self.slots().len())),
    ;

    /// Returns every slot to the vacant state.
    fn reset(&mut self)
        ensures
            final(self).slots() == vacant_arena(old(self).slots().len()),
    ;
}


/// An arena that keeps its node records in a vector, with the absence of a
/// child recorded as such.
pub struct New {
    slots: Vec<Node>,
}

impl New {
    /// Makes an arena of `len` vacant slots.
    pub fn new(len: usize) -> (store: Self)
        ensures
            store.nodes() == vacant_arena(len as nat),
    {
        let mut slots: Vec<Node> = Vec::new();
        let mut filled: usize = 0;
        while filled < len
            invariant
                filled <= len,
                slots@ == vacant_arena(filled as nat),
            decreases len - filled,
        {
            slots.push(Node { size: 0, left: None, right: None });
            filled = filled + 1;
            assert(slots@ =~= vacant_arena(filled as nat));
        }
        New { slots }
    }
}

impl Tree for New {
    closed spec fn nodes(&self) -> Seq<Node> {
        self.slots@
    }

    proof fn lemma_capacity(&self) {
        assert(self.slots@.len() == self.slots.len());
    }

    fn get(&self, idx: usize) -> (node: Option<Node>) {
        if idx < self.slots.len() {
            Some(self.slots[idx])
        } else {
            None
        }
    }

    fn set(&mut self, idx: usize, node: Node) {
        if idx < self.slots.len() {
            self.slots.set(idx, node);
        }
    }
}

impl NoRecur for New {

}

impl SzbTree for New {

}

impl NoRecurSzbTree for New {

}

impl BTree for New {
    type Item = usize;

    open spec fn slots(&self) -> Seq<Node> {
        self.nodes()
    }

    fn new(len: usize) -> (store: Self) {
        New::new(len)
    }

    fn _attach(&mut self, root: &mut Option<usize>, node: usize) {
        *root = NoRecur::attach(self, *root, node);
    }

    fn _detach(&mut self, root: &mut Option<usize>, node: usize) {
        *root = NoRecur::detach(self, *root, node);
    }

    fn is_contains(&self, root: usize, node: usize) -> (found: bool) {
        Tree::is_contains(self, root, node)
    }

    fn is_empty(&self) -> (empty: bool) {
        let mut idx: usize = 0;
        while idx < self.slots.len()
            invariant
                idx <= self.slots.len(),
                forall|i: int| 0 <= i < idx ==> self.slots@[i] == Node::vacant(),
            decreases self.slots.len() - idx,
        {
            let node = self.slots[idx];
            if node.size != 0 || node.left.is_some() || node.right.is_some() {
                assert(self.slots@[idx as int] != vacant_arena(self.slots@.len())[idx as int]);
                return false;
            }
            idx = idx + 1;
        }
        assert(self.slots@ =~= vacant_arena(self.slots@.len()));
        true
    }

    fn reset(&mut self) {
        let mut idx: usize = 0;
        while idx < self.slots.len()
            invariant
                idx <= self.slots.len(),
                self.slots.len() == old(self).slots.len(),
                forall|i: int| 0 <= i < idx ==> self.slots@[i] == Node::vacant(),
            decreases self.slots.len() - idx,
        {
            self.slots.set(idx, Node { size: 0, left: None, right: None });
            idx = idx + 1;
        }
        assert(self.slots@ =~= vacant_arena(self.slots@.len()));
    }
}

} // verus!
