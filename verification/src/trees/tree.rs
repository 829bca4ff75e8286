//! The accessors every arena offers, and the primitives of the engine that
//! are built on them: sizes, links, rotations, descents.

use vstd::prelude::*;
use crate::trees::layout::{
    holds, is_tree, lemma_holds_root, lemma_is_tree, lemma_shape_of, lemma_turned_left,
    lemma_turned_right, shape_of,
};
use crate::trees::node::{
    fixed_size, left_of, linked_size, put, put_left, put_right, put_size, relinked_left,
    relinked_right, right_of, size_by_children, size_of, turned_left, turned_right, Node,
};

verus! {

/// An arena of node records addressed by handle. An implementation says how
/// one slot is read and written; everything else is built on that.
///
/// Handles are ordered as the integers they are: a handle is to the left of
/// every greater one.
pub trait Tree: Sized {
    /// The slots of the arena, by handle.
    spec fn nodes(&self) -> Seq<Node>;

    /// Every slot has a handle: the arena is no longer than handles reach.
    proof fn lemma_capacity(&self)
        ensures
            self.nodes().len() <= usize::MAX,
    ;

    /// Reads slot `idx`; `None` where `idx` is out of range.
    fn get(&self, idx: usize) -> (node: Option<Node>)
        ensures
            node == (if idx < self.nodes().len() {
                Some(self.nodes()[idx as int])
            } else {
                None
            }),
    ;

    /// Overwrites slot `idx`; does nothing where `idx` is out of range.
    fn set(&mut self, idx: usize, node: Node)
        ensures
            final(self).nodes() == put(old(self).nodes(), idx, node),
    ;

    /// The size recorded in slot `idx`.
    fn size(&self, idx: usize) -> (size: Option<usize>)
        ensures
            size == size_of(self.nodes(), idx),
    {
        match self.get(idx) {
            Some(node) => Some(node.size),
            None => None,
        }
    }

    /// The left child recorded in slot `idx`.
    fn left(&self, idx: usize) -> (left: Option<usize>)
        ensures
            left == left_of(self.nodes(), idx),
    {
        match self.get(idx) {
            Some(node) => node.left,
            None => None,
        }
    }

    /// The right child recorded in slot `idx`.
    fn right(&self, idx: usize) -> (right: Option<usize>)
        ensures
            right == right_of(self.nodes(), idx),
    {
        match self.get(idx) {
            Some(node) => node.right,
            None => None,
        }
    }

    /// Replaces the size recorded in slot `idx`.
    fn set_size(&mut self, idx: usize, size: usize)
        ensures
            final(self).nodes() == put_size(old(self).nodes(), idx, size),
    {
        if let Some(node) = self.get(idx) {
            self.set(idx, Node { size, ..node });
        }
    }

    /// Replaces the left child recorded in slot `idx`.
    fn set_left(&mut self, idx: usize, left: Option<usize>)
        ensures
            final(self).nodes() == put_left(old(self).nodes(), idx, left),
    {
        if let Some(node) = self.get(idx) {
            self.set(idx, Node { left, ..node });
        }
    }

    /// Replaces the right child recorded in slot `idx`.
    fn set_right(&mut self, idx: usize, right: Option<usize>)
        ensures
            final(self).nodes() == put_right(old(self).nodes(), idx, right),
    {
        if let Some(node) = self.get(idx) {
            self.set(idx, Node { right, ..node });
        }
    }

    /// Whether `first` orders before `second`.
    fn is_left_of(&self, first: usize, second: usize) -> (before: bool)
        ensures
            before == (first < second),
    {
        first < second
    }

    /// Whether `first` orders after `second`.
    fn is_right_of(&self, first: usize, second: usize) -> (after: bool)
        ensures
            after == (first > second),
    {
        first != second && !self.is_left_of(first, second)
    }

    /// The size recorded in the left child of slot `idx`; absent where the
    /// slot or the child is.
    fn left_size(&self, idx: usize) -> (size: Option<usize>)
        ensures
            size == linked_size(self.nodes(), left_of(self.nodes(), idx)),
    {
        match self.left(idx) {
            Some(left) => self.size(left),
            None => None,
        }
    }

    /// The size recorded in the right child of slot `idx`; absent where the
    /// slot or the child is.
    fn right_size(&self, idx: usize) -> (size: Option<usize>)
        ensures
            size == linked_size(self.nodes(), right_of(self.nodes(), idx)),
    {
        match self.right(idx) {
            Some(right) => self.size(right),
            None => None,
        }
    }

    /// The greatest handle of the tree at `current`: the end of its chain of
    /// right children.
    fn rightest(&self, current: usize) -> (last: usize)
        requires
            is_tree(self.nodes(), Some(current)),
        ensures
            last == shape_of(self.nodes(), Some(current)).rightest(),
    {
        let ghost whole = shape_of(self.nodes(), Some(current));
        let ghost mut rest = whole;
        let mut cursor = current;
        proof {
            lemma_is_tree(self.nodes(), Some(current));
        }
        loop
            invariant
                whole == shape_of(self.nodes(), Some(current)),
                holds(self.nodes(), Some(cursor), rest),
                rest.rightest() == whole.rightest(),
            decreases rest.size(),
        {
            proof {
                lemma_holds_root(self.nodes(), Some(cursor), rest);
                lemma_holds_root(self.nodes(), self.nodes()[cursor as int].right, rest.right());
                rest.right().lemma_size_zero();
            }
            match self.right(cursor) {
                Some(next) => {
                    cursor = next;
                    proof {
                        rest = rest.right();
                    }
                },
                None => {
                    return cursor;
                },
            }
        }
    }

    /// The least handle of the tree at `current`: the end of its chain of
    /// left children.
    fn leftest(&self, current: usize) -> (first: usize)
        requires
            is_tree(self.nodes(), Some(current)),
        ensures
            first == shape_of(self.nodes(), Some(current)).leftest(),
    {
        let ghost whole = shape_of(self.nodes(), Some(current));
        let ghost mut rest = whole;
        let mut cursor = current;
        proof {
            lemma_is_tree(self.nodes(), Some(current));
        }
        loop
            invariant
                whole == shape_of(self.nodes(), Some(current)),
                holds(self.nodes(), Some(cursor), rest),
                rest.leftest() == whole.leftest(),
            decreases rest.size(),
        {
            proof {
                lemma_holds_root(self.nodes(), Some(cursor), rest);
                lemma_holds_root(self.nodes(), self.nodes()[cursor as int].left, rest.left());
                rest.left().lemma_size_zero();
            }
            match self.left(cursor) {
                Some(next) => {
                    cursor = next;
                    proof {
                        rest = rest.left();
                    }
                },
                None => {
                    return cursor;
                },
            }
        }
    }

    /// The handle that follows `idx` among those below it: the least of its
    /// right subtree, absent where it has none.
    fn next(&self, idx: usize) -> (next: Option<usize>)
        requires
            is_tree(self.nodes(), Some(idx)),
        ensures
            next == (if shape_of(self.nodes(), Some(idx)).right().size() == 0 {
                None
            } else {
                Some(shape_of(self.nodes(), Some(idx)).right().leftest())
            }),
    {
        let ghost shape = shape_of(self.nodes(), Some(idx));
        proof {
            lemma_is_tree(self.nodes(), Some(idx));
            lemma_holds_root(self.nodes(), Some(idx), shape);
            lemma_holds_root(self.nodes(), self.nodes()[idx as int].right, shape.right());
            shape.right().lemma_size_zero();
            shape.right().lemma_within_ordered(idx as int, usize::MAX + 1);
            lemma_shape_of(self.nodes(), self.nodes()[idx as int].right, shape.right());
        }
        match self.right(idx) {
            Some(right) => Some(self.leftest(right)),
            None => None,
        }
    }

    /// The handle that precedes `idx` among those below it: the greatest of
    /// its left subtree, absent where it has none.
    fn prev(&self, idx: usize) -> (prev: Option<usize>)
        requires
            is_tree(self.nodes(), Some(idx)),
        ensures
            prev == (if shape_of(self.nodes(), Some(idx)).left().size() == 0 {
                None
            } else {
                Some(shape_of(self.nodes(), Some(idx)).left().rightest())
            }),
    {
        let ghost shape = shape_of(self.nodes(), Some(idx));
        proof {
            lemma_is_tree(self.nodes(), Some(idx));
            lemma_holds_root(self.nodes(), Some(idx), shape);
            lemma_holds_root(self.nodes(), self.nodes()[idx as int].left, shape.left());
            shape.left().lemma_size_zero();
            shape.left().lemma_within_ordered(-1, idx as int);
            lemma_shape_of(self.nodes(), self.nodes()[idx as int].left, shape.left());
        }
        match self.left(idx) {
            Some(left) => Some(self.rightest(left)),
            None => None,
        }
    }

    /// Whether the tree at `root` has the handle `idx`: a descent from the
    /// root, left where `idx` orders before the handle at hand and right where
    /// it orders after, that ends at `idx` or at an absent child.
    fn is_contains(&self, root: usize, idx: usize) -> (found: bool)
        requires
            is_tree(self.nodes(), Some(root)),
        ensures
            found == shape_of(self.nodes(), Some(root)).has(idx),
    {
        let ghost whole = shape_of(self.nodes(), Some(root));
        let ghost mut rest = whole;
        let mut cursor = root;
        proof {
            lemma_is_tree(self.nodes(), Some(root));
            whole.lemma_finds(-1, usize::MAX + 1, idx);
        }
        loop
            invariant
                whole == shape_of(self.nodes(), Some(root)),
                holds(self.nodes(), Some(cursor), rest),
                rest.finds(idx) == whole.has(idx),
            decreases rest.size(),
        {
            proof {
                lemma_holds_root(self.nodes(), Some(cursor), rest);
                lemma_holds_root(self.nodes(), self.nodes()[cursor as int].left, rest.left());
                lemma_holds_root(self.nodes(), self.nodes()[cursor as int].right, rest.right());
            }
            if self.is_left_of(idx, cursor) {
                match self.left(cursor) {
                    Some(next) => {
                        cursor = next;
                        proof {
                            rest = rest.left();
                        }
                    },
                    None => {
                        assert(!rest.left().finds(idx));
                        return false;
                    },
                }
            } else if self.is_right_of(idx, cursor) {
                match self.right(cursor) {
                    Some(next) => {
                        cursor = next;
                        proof {
                            rest = rest.right();
                        }
                    },
                    None => {
                        assert(!rest.right().finds(idx));
                        return false;
                    },
                }
            } else {
                return true;
            }
        }
    }

    /// Adds one to the size recorded in slot `idx`.
    fn inc_size(&mut self, idx: usize)
        requires
            size_of(old(self).nodes(), idx) matches Some(size) ==> size < usize::MAX,
        ensures
            final(self).nodes() == (match size_of(old(self).nodes(), idx) {
                Some(size) => put_size(old(self).nodes(), idx, (size + 1) as usize),
                None => old(self).nodes(),
            }),
    {
        if let Some(size) = self.size(idx) {
            self.set_size(idx, size + 1)
        }
    }

    /// Takes one from the size recorded in slot `idx`.
    fn dec_size(&mut self, idx: usize)
        requires
            size_of(old(self).nodes(), idx) matches Some(size) ==> size > 0,
        ensures
            final(self).nodes() == (match size_of(old(self).nodes(), idx) {
                Some(size) => put_size(old(self).nodes(), idx, (size - 1) as usize),
                None => old(self).nodes(),
            }),
    {
        if let Some(size) = self.size(idx) {
            self.set_size(idx, size - 1)
        }
    }

    /// Sets the size recorded in slot `idx` from its children: theirs, each
    /// zero where absent, and one.
    fn fix_size(&mut self, idx: usize)
        requires
            size_by_children(old(self).nodes(), idx) <= usize::MAX,
        ensures
            final(self).nodes() == fixed_size(old(self).nodes(), idx),
    {
        let left_size = match self.left_size(idx) {
            Some(size) => size,
            None => 0,
        };
        let right_size = match self.right_size(idx) {
            Some(size) => size,
            None => 0,
        };
        self.set_size(idx, left_size + right_size + 1)
    }

    /// Returns slot `idx` to the vacant state.
    fn clear(&mut self, idx: usize)
        ensures
            final(self).nodes() == put(old(self).nodes(), idx, Node::vacant()),
    {
        self.set(idx, Node { size: 0, left: None, right: None })
    }

    /// Rotates left at `root`: its right child takes its place and its size,
    /// the inner grandchild becomes its right child, and its own size is set
    /// from its new children. Returns the new root; `None`, with nothing
    /// changed, where `root` has no right child. Of a tree the rotation keeps
    /// the handles and their order.
    fn rotate_left(&mut self, root: usize) -> (pivot: Option<usize>)
        requires
            size_by_children(relinked_left(old(self).nodes(), root), root) <= usize::MAX,
        ensures
            pivot == right_of(old(self).nodes(), root),
            final(self).nodes() == turned_left(old(self).nodes(), root),
            is_tree(old(self).nodes(), Some(root)) && pivot is Some ==> {
                &&& is_tree(final(self).nodes(), pivot)
                &&& shape_of(final(self).nodes(), pivot) == shape_of(
                    old(self).nodes(),
                    Some(root),
                ).rotated_left()
                &&& shape_of(final(self).nodes(), pivot).inorder() == shape_of(
                    old(self).nodes(),
                    Some(root),
                ).inorder()
            },
    {
        proof {
            let before = self.nodes();
            if is_tree(before, Some(root)) && right_of(before, root) is Some {
                let shape = shape_of(before, Some(root));
                lemma_is_tree(before, Some(root));
                lemma_holds_root(before, Some(root), shape);
                lemma_holds_root(before, before[root as int].right, shape.right());
                shape.right().lemma_size_zero();
                lemma_turned_left(before, root, shape, -1, usize::MAX + 1);
                shape.lemma_rotated(-1, usize::MAX + 1);
                lemma_shape_of(
                    turned_left(before, root),
                    right_of(before, root),
                    shape.rotated_left(),
                );
            }
        }
        match self.right(root) {
            Some(right) => {
                let inner = self.left(right);
                self.set_right(root, inner);
                self.set_left(right, Some(root));
                if let Some(size) = self.size(root) {
                    self.set_size(right, size);
                }
                self.fix_size(root);
                Some(right)
            },
            None => None,
        }
    }

    /// Rotates right at `root`, the mirror image of [`Tree::rotate_left`].
    fn rotate_right(&mut self, root: usize) -> (pivot: Option<usize>)
        requires
            size_by_children(relinked_right(old(self).nodes(), root), root) <= usize::MAX,
        ensures
            pivot == left_of(old(self).nodes(), root),
            final(self).nodes() == turned_right(old(self).nodes(), root),
            is_tree(old(self).nodes(), Some(root)) && pivot is Some ==> {
                &&& is_tree(final(self).nodes(), pivot)
                &&& shape_of(final(self).nodes(), pivot) == shape_of(
                    old(self).nodes(),
                    Some(root),
                ).rotated_right()
                &&& shape_of(final(self).nodes(), pivot).inorder() == shape_of(
                    old(self).nodes(),
                    Some(root),
                ).inorder()
            },
    {
        proof {
            let before = self.nodes();
            if is_tree(before, Some(root)) && left_of(before, root) is Some {
                let shape = shape_of(before, Some(root));
                lemma_is_tree(before, Some(root));
                lemma_holds_root(before, Some(root), shape);
                lemma_holds_root(before, before[root as int].left, shape.left());
                shape.left().lemma_size_zero();
                lemma_turned_right(before, root, shape, -1, usize::MAX + 1);
                shape.lemma_rotated(-1, usize::MAX + 1);
                lemma_shape_of(
                    turned_right(before, root),
                    left_of(before, root),
                    shape.rotated_right(),
                );
            }
        }
        match self.left(root) {
            Some(left) => {
                let inner = self.right(left);
                self.set_left(root, inner);
                self.set_right(left, Some(root));
                if let Some(size) = self.size(root) {
                    self.set_size(left, size);
                }
                self.fix_size(root);
                Some(left)
            },
            None => None,
        }
    }
}

} // verus!
