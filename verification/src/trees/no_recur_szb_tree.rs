//! The engine for callers that name handles by raw numbers and keep the root
//! as one, zero for the empty tree.

use vstd::prelude::*;
use crate::trees::layout::{is_tree, lemma_is_tree, shape_of};
use crate::trees::no_recur::{attach_gives, attach_impl, detach_gives, detach_impl, NoRecur};
use crate::trees::szb_tree::{is_raw_tree, lemma_raw_root, link, link_of, raw, SzbTree};

verus! {

/// The engine of [`NoRecur`] with raw handles: the root is kept in a number
/// that is zero while the tree is empty, and no tree has the handle zero.
pub trait NoRecurSzbTree: SzbTree + NoRecur {
    /// Attaches the vacant handle `node` to the tree at the root in `root`
    /// and puts the new root there.
    fn attach(&mut self, root: &mut usize, node: usize)
        requires
            is_raw_tree(old(self).nodes(), *old(root)),
            node != 0,
            !shape_of(old(self).nodes(), link_of(*old(root))).has(node),
            node < old(self).nodes().len() ==> old(self).nodes()[node as int].left is None && old(
                self,
            ).nodes()[node as int].right is None,
        ensures
            attach_gives(
                old(self).nodes(),
                link_of(*old(root)),
                node,
                final(self).nodes(),
                link_of(*final(root)),
            ),
            node < old(self).nodes().len() ==> is_raw_tree(final(self).nodes(), *final(root)),
    {
        let ghost before = self.nodes();
        let ghost origin = shape_of(before, link_of(*root));
        let grown = NoRecur::attach(self, link(*root), node);
        proof {
            if node < before.len() {
                lemma_is_tree(before, link_of(*root));
                origin.lemma_attached(node, -1, usize::MAX + 1);
                lemma_raw_root(self.nodes(), grown);
            }
        }
        *root = raw(grown);
    }

    /// Detaches the handle `node` from the tree at the root in `root` and
    /// puts the new root there, zero where the tree is empty now.
    fn detach(&mut self, root: &mut usize, node: usize)
        requires
            is_raw_tree(old(self).nodes(), *old(root)),
            shape_of(old(self).nodes(), link_of(*old(root))).has(node),
        ensures
            detach_gives(
                old(self).nodes(),
                link_of(*old(root)),
                node,
                final(self).nodes(),
                link_of(*final(root)),
            ),
            is_raw_tree(final(self).nodes(), *final(root)),
    {
        let ghost before = self.nodes();
        let ghost origin = shape_of(before, link_of(*root));
        let pruned = NoRecur::detach(self, link(*root), node);
        proof {
            lemma_is_tree(before, link_of(*root));
            origin.lemma_detached(node, -1, usize::MAX + 1);
            lemma_raw_root(self.nodes(), pruned);
        }
        *root = raw(pruned);
    }

    /// Attaches the vacant handle `node` to the tree at the root in `root`,
    /// which is not empty, and puts the new root there.
    fn attach_core(&mut self, root: &mut usize, node: usize)
        requires
            *old(root) != 0,
            is_raw_tree(old(self).nodes(), *old(root)),
            node != 0,
            !shape_of(old(self).nodes(), link_of(*old(root))).has(node),
            node < old(self).nodes().len(),
            old(self).nodes()[node as int].left is None,
            old(self).nodes()[node as int].right is None,
        ensures
            attach_gives(
                old(self).nodes(),
                link_of(*old(root)),
                node,
                final(self).nodes(),
                link_of(*final(root)),
            ),
            is_raw_tree(final(self).nodes(), *final(root)),
    {
        let ghost before = self.nodes();
        let ghost origin = shape_of(before, link_of(*root));
        let grown = attach_impl(self, *root, node);
        proof {
            lemma_is_tree(before, link_of(*root));
            origin.lemma_attached(node, -1, usize::MAX + 1);
            lemma_raw_root(self.nodes(), grown);
        }
        *root = raw(grown);
    }

    /// Detaches the handle `node` from the tree at the root in `root`, which
    /// is not empty, and puts the new root there, zero where the tree is
    /// empty now.
    fn detach_core(&mut self, root: &mut usize, node: usize)
        requires
            *old(root) != 0,
            is_raw_tree(old(self).nodes(), *old(root)),
            shape_of(old(self).nodes(), link_of(*old(root))).has(node),
        ensures
            detach_gives(
                old(self).nodes(),
                link_of(*old(root)),
                node,
                final(self).nodes(),
                link_of(*final(root)),
            ),
            is_raw_tree(final(self).nodes(), *final(root)),
    {
        let ghost before = self.nodes();
        let ghost origin = shape_of(before, link_of(*root));
        let pruned = detach_impl(self, *root, node);
        proof {
            lemma_is_tree(before, link_of(*root));
            origin.lemma_detached(node, -1, usize::MAX + 1);
            lemma_raw_root(self.nodes(), pruned);
        }
        *root = raw(pruned);
    }
}

} // verus!
