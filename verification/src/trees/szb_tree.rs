//! The arena read with raw handles: a handle is a number, and zero stands
//! for the absence of one.

use vstd::prelude::*;
use crate::trees::layout::{is_tree, lemma_holds_has, lemma_holds_root, lemma_is_tree, shape_of};
use crate::trees::node::{
    left_of, put, put_left, put_right, put_size, relinked_left, relinked_right, right_of,
    size_by_children, size_of, size_or_zero, turned_left, turned_right, Node,
};
use crate::trees::tree::Tree;

verus! {

/// The link that a raw handle stands for: none for zero.
pub open spec fn link_of(raw: usize) -> Option<usize> {
    if raw == 0 {
        None
    } else {
        Some(raw)
    }
}

/// The raw handle that stands for a link: zero for none.
pub open spec fn raw_of(link: Option<usize>) -> usize {
    match link {
        Some(idx) => idx,
        None => 0,
    }
}

/// Whether the arena holds, at the root that `raw` stands for, a tree that
/// raw handles can speak of: one without the handle zero.
pub open spec fn is_raw_tree(nodes: Seq<Node>, raw: usize) -> bool {
    &&& is_tree(nodes, link_of(raw))
    &&& !shape_of(nodes, link_of(raw)).has(0)
}

/// The link that a raw handle stands for.
pub fn link(raw: usize) -> (link: Option<usize>)
    ensures
        link == link_of(raw),
{
    if raw == 0 {
        None
    } else {
        Some(raw)
    }
}

/// The raw handle that stands for a link.
pub fn raw(link: Option<usize>) -> (raw: usize)
    ensures
        raw == raw_of(link),
{
    match link {
        Some(idx) => idx,
        None => 0,
    }
}

/// The root of a tree without the handle zero is not zero, so that the raw
/// handle of the root stands for the root again.
pub proof fn lemma_raw_root(nodes: Seq<Node>, root: Option<usize>)
    requires
        is_tree(nodes, root),
        !shape_of(nodes, root).has(0),
    ensures
        link_of(raw_of(root)) == root,
        is_raw_tree(nodes, raw_of(root)),
{
    lemma_is_tree(nodes, root);
    lemma_holds_root(nodes, root, shape_of(nodes, root));
    if root is Some {
        assert(shape_of(nodes, root).has(root.unwrap()));
    }
}

/// The accessors and primitives of an arena for callers that name handles by
/// raw numbers. Each is the one of [`Tree`] with zero read and written for an
/// absent handle.
pub trait SzbTree: Tree {
    /// The left child recorded in slot `node`; zero where there is none or the
    /// slot is out of range.
    fn get_left(&self, node: usize) -> (left: usize)
        ensures
            left == raw_of(left_of(self.nodes(), node)),
    {
        raw(Tree::left(self, node))
    }

    /// The right child recorded in slot `node`; zero where there is none or
    /// the slot is out of range.
    fn get_right(&self, node: usize) -> (right: usize)
        ensures
            right == raw_of(right_of(self.nodes(), node)),
    {
        raw(Tree::right(self, node))
    }

    /// The size recorded in slot `node`; zero where the slot is out of range.
    fn get_size(&self, node: usize) -> (size: usize)
        ensures
            size == raw_of(size_of(self.nodes(), node)),
    {
        raw(Tree::size(self, node))
    }

    /// Replaces the left child recorded in slot `node`; zero records that
    /// there is none.
    fn set_left(&mut self, node: usize, left: usize)
        ensures
            final(self).nodes() == put_left(old(self).nodes(), node, link_of(left)),
    {
        Tree::set_left(self, node, link(left))
    }

    /// Replaces the right child recorded in slot `node`; zero records that
    /// there is none.
    fn set_right(&mut self, node: usize, right: usize)
        ensures
            final(self).nodes() == put_right(old(self).nodes(), node, link_of(right)),
    {
        Tree::set_right(self, node, link(right))
    }

    /// Replaces the size recorded in slot `node`.
    fn set_size(&mut self, node: usize, size: usize)
        ensures
            final(self).nodes() == put_size(old(self).nodes(), node, size),
    {
        Tree::set_size(self, node, size)
    }

    /// Whether `first` orders before `second`.
    fn first_is_to_the_left_of_second(&self, first: usize, second: usize) -> (before: bool)
        ensures
            before == (first < second),
    {
        Tree::is_left_of(self, first, second)
    }

    /// Whether `first` orders after `second`.
    fn first_is_to_the_right_of_second(&self, first: usize, second: usize) -> (after: bool)
        ensures
            after == (first > second),
    {
        Tree::is_right_of(self, first, second)
    }

    /// The left child of `node`, zero where `node` is zero.
    fn get_left_or_default(&self, node: usize) -> (left: usize)
        ensures
            left == (if node == 0 {
                0
            } else {
                raw_of(left_of(self.nodes(), node))
            }),
    {
        if node == 0 {
            0
        } else {
            self.get_left(node)
        }
    }

    /// The right child of `node`, zero where `node` is zero.
    fn get_right_or_default(&self, node: usize) -> (right: usize)
        ensures
            right == (if node == 0 {
                0
            } else {
                raw_of(right_of(self.nodes(), node))
            }),
    {
        if node == 0 {
            0
        } else {
            self.get_right(node)
        }
    }

    /// The size of `node`, zero where `node` is zero.
    fn get_size_or_zero(&self, node: usize) -> (size: usize)
        ensures
            size == size_or_zero(self.nodes(), link_of(node)),
    {
        if node == 0 {
            0
        } else {
            self.get_size(node)
        }
    }

    /// Adds one to the size recorded in slot `node`.
    fn inc_size(&mut self, node: usize)
        requires
            size_of(old(self).nodes(), node) matches Some(size) ==> size < usize::MAX,
        ensures
            final(self).nodes() == (match size_of(old(self).nodes(), node) {
                Some(size) => put_size(old(self).nodes(), node, (size + 1) as usize),
                None => old(self).nodes(),
            }),
    {
        Tree::inc_size(self, node)
    }

    /// Takes one from the size recorded in slot `node`.
    fn dec_size(&mut self, node: usize)
        requires
            size_of(old(self).nodes(), node) matches Some(size) ==> size > 0,
        ensures
            final(self).nodes() == (match size_of(old(self).nodes(), node) {
                Some(size) => put_size(old(self).nodes(), node, (size - 1) as usize),
                None => old(self).nodes(),
            }),
    {
        Tree::dec_size(self, node)
    }

    /// The size of the left child of `node`, zero where either is zero.
    fn get_left_size(&self, node: usize) -> (size: usize)
        ensures
            size == raw_size_by(self.nodes(), node, true),
    {
        let left = self.get_left_or_default(node);
        self.get_size_or_zero(left)
    }

    /// The size of the right child of `node`, zero where either is zero.
    fn get_right_size(&self, node: usize) -> (size: usize)
        ensures
            size == raw_size_by(self.nodes(), node, false),
    {
        let right = self.get_right_or_default(node);
        self.get_size_or_zero(right)
    }

    /// Sets the size recorded in slot `node` from its children: theirs, each
    /// zero where it is zero, and one.
    fn fix_size(&mut self, node: usize)
        requires
            raw_size_by(old(self).nodes(), node, true) + raw_size_by(old(self).nodes(), node, false)
                < usize::MAX,
        ensures
            final(self).nodes() == put_size(
                old(self).nodes(),
                node,
                (raw_size_by(old(self).nodes(), node, true) + raw_size_by(
                    old(self).nodes(),
                    node,
                    false,
                ) + 1) as usize,
            ),
    {
        let left_size = self.get_left_size(node);
        let right_size = self.get_right_size(node);
        SzbTree::set_size(self, node, left_size + right_size + 1)
    }

    /// Rotates left at the handle in `root` and puts the handle that came up
    /// in its place: zero, with nothing changed, where it had no right child.
    fn left_rotate(&mut self, root: &mut usize)
        requires
            size_by_children(relinked_left(old(self).nodes(), *old(root)), *old(root))
                <= usize::MAX,
        ensures
            *final(root) == raw_of(right_of(old(self).nodes(), *old(root))),
            final(self).nodes() == turned_left(old(self).nodes(), *old(root)),
            is_tree(old(self).nodes(), Some(*old(root))) && right_of(old(self).nodes(), *old(root)) is Some ==> {
                &&& is_tree(final(self).nodes(), right_of(old(self).nodes(), *old(root)))
                &&& shape_of(final(self).nodes(), right_of(old(self).nodes(), *old(root))) == shape_of(
                    old(self).nodes(),
                    Some(*old(root)),
                ).rotated_left()
            },
    {
        *root = self.left_rotate_core(*root);
    }

    /// Rotates left at `root` and returns the handle that came up: zero, with
    /// nothing changed, where `root` has no right child.
    fn left_rotate_core(&mut self, root: usize) -> (pivot: usize)
        requires
            size_by_children(relinked_left(old(self).nodes(), root), root) <= usize::MAX,
        ensures
            pivot == raw_of(right_of(old(self).nodes(), root)),
            final(self).nodes() == turned_left(old(self).nodes(), root),
            is_tree(old(self).nodes(), Some(root)) && right_of(old(self).nodes(), root) is Some ==> {
                &&& is_tree(final(self).nodes(), right_of(old(self).nodes(), root))
                &&& shape_of(final(self).nodes(), right_of(old(self).nodes(), root)) == shape_of(
                    old(self).nodes(),
                    Some(root),
                ).rotated_left()
            },
    {
        raw(Tree::rotate_left(self, root))
    }

    /// Rotates right at the handle in `root` and puts the handle that came up
    /// in its place: zero, with nothing changed, where it had no left child.
    fn right_rotate(&mut self, root: &mut usize)
        requires
            size_by_children(relinked_right(old(self).nodes(), *old(root)), *old(root))
                <= usize::MAX,
        ensures
            *final(root) == raw_of(left_of(old(self).nodes(), *old(root))),
            final(self).nodes() == turned_right(old(self).nodes(), *old(root)),
            is_tree(old(self).nodes(), Some(*old(root))) && left_of(old(self).nodes(), *old(root)) is Some ==> {
                &&& is_tree(final(self).nodes(), left_of(old(self).nodes(), *old(root)))
                &&& shape_of(final(self).nodes(), left_of(old(self).nodes(), *old(root))) == shape_of(
                    old(self).nodes(),
                    Some(*old(root)),
                ).rotated_right()
            },
    {
        *root = self.right_rotate_core(*root);
    }

    /// Rotates right at `root` and returns the handle that came up: zero,
    /// with nothing changed, where `root` has no left child.
    fn right_rotate_core(&mut self, root: usize) -> (pivot: usize)
        requires
            size_by_children(relinked_right(old(self).nodes(), root), root) <= usize::MAX,
        ensures
            pivot == raw_of(left_of(old(self).nodes(), root)),
            final(self).nodes() == turned_right(old(self).nodes(), root),
            is_tree(old(self).nodes(), Some(root)) && left_of(old(self).nodes(), root) is Some ==> {
                &&& is_tree(final(self).nodes(), left_of(old(self).nodes(), root))
                &&& shape_of(final(self).nodes(), left_of(old(self).nodes(), root)) == shape_of(
                    old(self).nodes(),
                    Some(root),
                ).rotated_right()
            },
    {
        raw(Tree::rotate_right(self, root))
    }

    /// The greatest handle of the tree at `current`.
    fn get_rightest(&self, current: usize) -> (last: usize)
        requires
            is_tree(self.nodes(), Some(current)),
        ensures
            last == shape_of(self.nodes(), Some(current)).rightest(),
    {
        Tree::rightest(self, current)
    }

    /// The least handle of the tree at `current`.
    fn get_leftest(&self, current: usize) -> (first: usize)
        requires
            is_tree(self.nodes(), Some(current)),
        ensures
            first == shape_of(self.nodes(), Some(current)).leftest(),
    {
        Tree::leftest(self, current)
    }

    /// The handle that follows `node` among those below it: the least of its
    /// right subtree, zero where it has none.
    fn get_next(&self, node: usize) -> (next: usize)
        requires
            is_tree(self.nodes(), Some(node)),
        ensures
            next == (if shape_of(self.nodes(), Some(node)).right().size() == 0 {
                0
            } else {
                shape_of(self.nodes(), Some(node)).right().leftest()
            }),
    {
        raw(Tree::next(self, node))
    }

    /// The handle that precedes `node` among those below it: the greatest of
    /// its left subtree, zero where it has none.
    fn get_previous(&self, node: usize) -> (previous: usize)
        requires
            is_tree(self.nodes(), Some(node)),
        ensures
            previous == (if shape_of(self.nodes(), Some(node)).left().size() == 0 {
                0
            } else {
                shape_of(self.nodes(), Some(node)).left().rightest()
            }),
    {
        raw(Tree::prev(self, node))
    }

    /// Whether the tree at `root` has the handle `node`; no tree at zero has
    /// any.
    fn contains(&self, node: usize, root: usize) -> (found: bool)
        requires
            is_tree(self.nodes(), link_of(root)),
        ensures
            found == shape_of(self.nodes(), link_of(root)).has(node),
    {
        if root == 0 {
            proof {
                lemma_is_tree(self.nodes(), None);
            }
            false
        } else {
            Tree::is_contains(self, root, node)
        }
    }

    /// Returns slot `node` to the vacant state.
    fn clear_node(&mut self, node: usize)
        ensures
            final(self).nodes() == put(old(self).nodes(), node, Node::vacant()),
    {
        Tree::clear(self, node)
    }
}

/// The size that raw handles read behind a child of `node`: zero where
/// `node` or the child is zero.
pub open spec fn raw_size_by(nodes: Seq<Node>, node: usize, left: bool) -> nat {
    if node == 0 {
        0
    } else if left {
        size_or_zero(nodes, link_of(raw_of(left_of(nodes, node))))
    } else {
        size_or_zero(nodes, link_of(raw_of(right_of(nodes, node))))
    }
}

} // verus!
