//! Node records, and arenas of them as plain sequences.

use vstd::prelude::*;

verus! {

/// One slot of an arena: the size of the subtree rooted here and the two
/// children, each absent or the handle of another slot.
#[derive(Debug, Clone, Copy, PartialEq, Eq, Structural)]
pub struct Node {
    pub size: usize,
    pub left: Option<usize>,
    pub right: Option<usize>,
}

impl Node {
    /// The state of a slot that no tree occupies.
    pub open spec fn vacant() -> Node {
        Node { size: 0, left: None, right: None }
    }
}

impl Default for Node {
    fn default() -> (node: Self)
        ensures
            node == Node::vacant(),
    {
        Node { size: 0, left: None, right: None }
    }
}

/// The arena with slot `idx` overwritten; unchanged where `idx` is out of
/// range.
pub open spec fn put(nodes: Seq<Node>, idx: usize, node: Node) -> Seq<Node> {
    if idx < nodes.len() {
        nodes.update(idx as int, node)
    } else {
        nodes
    }
}

/// The arena with the size of slot `idx` replaced.
pub open spec fn put_size(nodes: Seq<Node>, idx: usize, size: usize) -> Seq<Node> {
    if idx < nodes.len() {
        nodes.update(idx as int, Node { size, ..nodes[idx as int] })
    } else {
        nodes
    }
}

/// The arena with the left child of slot `idx` replaced.
pub open spec fn put_left(nodes: Seq<Node>, idx: usize, left: Option<usize>) -> Seq<Node> {
    if idx < nodes.len() {
        nodes.update(idx as int, Node { left, ..nodes[idx as int] })
    } else {
        nodes
    }
}

/// The arena with the right child of slot `idx` replaced.
pub open spec fn put_right(nodes: Seq<Node>, idx: usize, right: Option<usize>) -> Seq<Node> {
    if idx < nodes.len() {
        nodes.update(idx as int, Node { right, ..nodes[idx as int] })
    } else {
        nodes
    }
}

/// The size recorded in slot `idx`; absent where `idx` is out of range.
pub open spec fn size_of(nodes: Seq<Node>, idx: usize) -> Option<usize> {
    if idx < nodes.len() {
        Some(nodes[idx as int].size)
    } else {
        None
    }
}

/// The left child recorded in slot `idx`; absent where `idx` is out of range.
pub open spec fn left_of(nodes: Seq<Node>, idx: usize) -> Option<usize> {
    if idx < nodes.len() {
        nodes[idx as int].left
    } else {
        None
    }
}

/// The right child recorded in slot `idx`; absent where `idx` is out of
/// range.
pub open spec fn right_of(nodes: Seq<Node>, idx: usize) -> Option<usize> {
    if idx < nodes.len() {
        nodes[idx as int].right
    } else {
        None
    }
}

/// The size recorded in the slot that `link` refers to; absent where the link
/// is absent or out of range.
pub open spec fn linked_size(nodes: Seq<Node>, link: Option<usize>) -> Option<usize> {
    match link {
        Some(idx) => size_of(nodes, idx),
        None => None,
    }
}

/// The size recorded behind `link`, zero where there is none.
pub open spec fn size_or_zero(nodes: Seq<Node>, link: Option<usize>) -> nat {
    match linked_size(nodes, link) {
        Some(size) => size as nat,
        None => 0,
    }
}

/// What the size of slot `idx` should be by its children: theirs and one.
pub open spec fn size_by_children(nodes: Seq<Node>, idx: usize) -> nat {
    size_or_zero(nodes, left_of(nodes, idx)) + size_or_zero(nodes, right_of(nodes, idx)) + 1
}

/// The arena with the size of slot `idx` set from its children.
pub open spec fn fixed_size(nodes: Seq<Node>, idx: usize) -> Seq<Node> {
    put_size(nodes, idx, size_by_children(nodes, idx) as usize)
}

/// The links and the size of the new root after a left rotation at `root`,
/// before the size of the old root is set again.
pub open spec fn relinked_left(nodes: Seq<Node>, root: usize) -> Seq<Node> {
    match right_of(nodes, root) {
        None => nodes,
        Some(pivot) => {
            let moved = put_right(nodes, root, left_of(nodes, pivot));
            let linked = put_left(moved, pivot, Some(root));
            put_size(linked, pivot, linked[root as int].size)
        },
    }
}

/// The arena after a left rotation at `root`; unchanged where `root` has no
/// right child.
pub open spec fn turned_left(nodes: Seq<Node>, root: usize) -> Seq<Node> {
    match right_of(nodes, root) {
        None => nodes,
        Some(pivot) => fixed_size(relinked_left(nodes, root), root),
    }
}

/// The links and the size of the new root after a right rotation at `root`,
/// before the size of the old root is set again.
pub open spec fn relinked_right(nodes: Seq<Node>, root: usize) -> Seq<Node> {
    match left_of(nodes, root) {
        None => nodes,
        Some(pivot) => {
            let moved = put_left(nodes, root, right_of(nodes, pivot));
            let linked = put_right(moved, pivot, Some(root));
            put_size(linked, pivot, linked[root as int].size)
        },
    }
}

/// The arena after a right rotation at `root`; unchanged where `root` has no
/// left child.
pub open spec fn turned_right(nodes: Seq<Node>, root: usize) -> Seq<Node> {
    match left_of(nodes, root) {
        None => nodes,
        Some(pivot) => fixed_size(relinked_right(nodes, root), root),
    }
}

} // verus!
