//! The mathematical model of a tree: a binary tree of handles, with the
//! rotations and the attach and detach procedures as functions on it.

use vstd::prelude::*;

verus! {

/// A binary tree of handles, as the contracts of the engine see it.
pub enum Shape {
    Empty,
    Fork { left: Box<Shape>, key: usize, right: Box<Shape> },
}

impl Shape {
    /// The tree that holds the single handle `key`.
    pub open spec fn leaf(key: usize) -> Shape {
        Shape::Fork { left: Box::new(Shape::Empty), key, right: Box::new(Shape::Empty) }
    }

    /// The tree with root `key` over the two given subtrees.
    pub open spec fn fork(left: Shape, key: usize, right: Shape) -> Shape {
        Shape::Fork { left: Box::new(left), key, right: Box::new(right) }
    }

    /// The root handle, absent for the empty tree.
    pub open spec fn root(self) -> Option<usize> {
        match self {
            Shape::Empty => None,
            Shape::Fork { left, key, right } => Some(key),
        }
    }

    /// The left subtree; empty for the empty tree.
    pub open spec fn left(self) -> Shape {
        match self {
            Shape::Empty => Shape::Empty,
            Shape::Fork { left, key, right } => *left,
        }
    }

    /// The right subtree; empty for the empty tree.
    pub open spec fn right(self) -> Shape {
        match self {
            Shape::Empty => Shape::Empty,
            Shape::Fork { left, key, right } => *right,
        }
    }

    /// Number of handles in the tree.
    pub open spec fn size(self) -> nat
        decreases self,
    {
        match self {
            Shape::Empty => 0,
            Shape::Fork { left, key, right } => 1 + left.size() + right.size(),
        }
    }

    /// Whether `x` occurs anywhere in the tree.
    pub open spec fn has(self, x: usize) -> bool
        decreases self,
    {
        match self {
            Shape::Empty => false,
            Shape::Fork { left, key, right } => x == key || left.has(x) || right.has(x),
        }
    }

    /// Whether the integer `i` is a handle of the tree.
    pub open spec fn has_at(self, i: int) -> bool {
        0 <= i <= usize::MAX && self.has(i as usize)
    }

    /// The handles of the tree in the order of an in-order traversal.
    pub open spec fn inorder(self) -> Seq<usize>
        decreases self,
    {
        match self {
            Shape::Empty => Seq::empty(),
            Shape::Fork { left, key, right } => left.inorder().push(key) + right.inorder(),
        }
    }

    /// Search-tree order, with every handle strictly between `lo` and `hi`:
    /// at each fork the left subtree lies below the key and the right
    /// subtree above it.
    pub open spec fn within(self, lo: int, hi: int) -> bool
        decreases self,
    {
        match self {
            Shape::Empty => true,
            Shape::Fork { left, key, right } => {
                &&& lo < key < hi
                &&& left.within(lo, key as int)
                &&& right.within(key as int, hi)
            },
        }
    }

    /// Search-tree order with no bound on the handles.
    pub open spec fn ordered(self) -> bool {
        self.within(-1, usize::MAX + 1)
    }

    /// Whether a descent from the root, going left below a larger key and
    /// right above a smaller one, arrives at `x`.
    pub open spec fn finds(self, x: usize) -> bool
        decreases self,
    {
        match self {
            Shape::Empty => false,
            Shape::Fork { left, key, right } => {
                if x < key {
                    left.finds(x)
                } else if x > key {
                    right.finds(x)
                } else {
                    true
                }
            },
        }
    }

    /// Number of forks that a descent towards `x` passes before it falls off
    /// the tree.
    pub open spec fn depth(self, x: usize) -> nat
        decreases self,
    {
        match self {
            Shape::Empty => 0,
            Shape::Fork { left, key, right } => {
                if x < key {
                    1 + left.depth(x)
                } else {
                    1 + right.depth(x)
                }
            },
        }
    }

    /// The last handle of the in-order traversal: the end of the chain of
    /// right children. Zero, by convention, for the empty tree.
    pub open spec fn rightest(self) -> usize
        decreases self,
    {
        match self {
            Shape::Empty => 0,
            Shape::Fork { left, key, right } => {
                if right.size() == 0 {
                    key
                } else {
                    right.rightest()
                }
            },
        }
    }

    /// The first handle of the in-order traversal: the end of the chain of
    /// left children. Zero, by convention, for the empty tree.
    pub open spec fn leftest(self) -> usize
        decreases self,
    {
        match self {
            Shape::Empty => 0,
            Shape::Fork { left, key, right } => {
                if left.size() == 0 {
                    key
                } else {
                    left.leftest()
                }
            },
        }
    }

    /// The tree after a left rotation at the root: the right child becomes the
    /// root and the old root its left child. A tree without a right child is
    /// left as it is.
    pub open spec fn rotated_left(self) -> Shape {
        match self.right() {
            Shape::Empty => self,
            Shape::Fork { left: inner, key: pivot, right: outer } => Shape::fork(
                Shape::fork(self.left(), self.root().unwrap(), *inner),
                pivot,
                *outer,
            ),
        }
    }

    /// The tree after a right rotation at the root, the mirror image of
    /// [`Shape::rotated_left`].
    pub open spec fn rotated_right(self) -> Shape {
        match self.left() {
            Shape::Empty => self,
            Shape::Fork { left: outer, key: pivot, right: inner } => Shape::fork(
                *outer,
                pivot,
                Shape::fork(*inner, self.root().unwrap(), self.right()),
            ),
        }
    }

    /// The tree after a left rotation at the left child followed by a right
    /// rotation at the root.
    pub open spec fn rotated_left_right(self) -> Shape {
        match self {
            Shape::Empty => self,
            Shape::Fork { left, key, right } => Shape::fork(
                left.rotated_left(),
                key,
                *right,
            ).rotated_right(),
        }
    }

    /// The tree after a right rotation at the right child followed by a left
    /// rotation at the root.
    pub open spec fn rotated_right_left(self) -> Shape {
        match self {
            Shape::Empty => self,
            Shape::Fork { left, key, right } => Shape::fork(
                *left,
                key,
                right.rotated_right(),
            ).rotated_left(),
        }
    }

    /// The tree after attaching the handle `k`.
    ///
    /// The descent starts at the root. Where the child on the side of `k` is
    /// absent, `k` becomes that child. Where `k` belongs below the outer
    /// grandchild and the child is at least as large as its sibling, the tree
    /// is rotated away from the child and the descent starts again at the new
    /// root. Where `k` belongs below the inner grandchild and that grandchild
    /// is at least as large as the sibling, either both are empty and `k`
    /// becomes the root over the child and the old root, or a double rotation
    /// lifts the inner grandchild and the descent starts again. In every other
    /// case the descent moves to the child. A handle that the descent meets is
    /// not attached a second time.
    #[verifier::opaque]
    pub open spec fn attached(self, k: usize) -> Shape
        decreases self.depth(k),
        via Self::attached_decreases
    {
        match self {
            Shape::Empty => Shape::leaf(k),
            Shape::Fork { left, key, right } => {
                if k < key {
                    match *left {
                        Shape::Empty => Shape::fork(Shape::leaf(k), key, *right),
                        Shape::Fork { left: outer, key: child, right: inner } => {
                            if k < child {
                                if left.size() >= right.size() {
                                    self.rotated_right().attached(k)
                                } else {
                                    Shape::fork(left.attached(k), key, *right)
                                }
                            } else if k > child {
                                if inner.size() >= right.size() {
                                    if inner.size() == 0 && right.size() == 0 {
                                        Shape::fork(*left, k, Shape::leaf(key))
                                    } else {
                                        self.rotated_left_right().attached(k)
                                    }
                                } else {
                                    Shape::fork(left.attached(k), key, *right)
                                }
                            } else {
                                self
                            }
                        },
                    }
                } else if k > key {
                    match *right {
                        Shape::Empty => Shape::fork(*left, key, Shape::leaf(k)),
                        Shape::Fork { left: inner, key: child, right: outer } => {
                            if k > child {
                                if right.size() >= left.size() {
                                    self.rotated_left().attached(k)
                                } else {
                                    Shape::fork(*left, key, right.attached(k))
                                }
                            } else if k < child {
                                if inner.size() >= left.size() {
                                    if inner.size() == 0 && left.size() == 0 {
                                        Shape::fork(Shape::leaf(key), k, *right)
                                    } else {
                                        self.rotated_right_left().attached(k)
                                    }
                                } else {
                                    Shape::fork(*left, key, right.attached(k))
                                }
                            } else {
                                self
                            }
                        },
                    }
                } else {
                    self
                }
            },
        }
    }

    #[via_fn]
    proof fn attached_decreases(self, k: usize) {
        reveal_with_fuel(Shape::depth, 4);
    }

    /// What attaching does to the empty tree.
    pub proof fn lemma_attached_empty(k: usize)
        ensures
            Shape::Empty.attached(k) == Shape::leaf(k),
    {
        reveal(Shape::attached);
    }

    /// What attaching does at a root above `k`, case by case, and that the
    /// descent is shorter after each rotation.
    pub proof fn lemma_attached_below(self, k: usize)
        requires
            self.root() is Some,
            k < self.root().unwrap(),
        ensures
            self.left().size() == 0 ==> self.attached(k) == Shape::fork(
                Shape::leaf(k),
                self.root().unwrap(),
                self.right(),
            ),
            self.left().root() matches Some(child) ==> {
                &&& k < child && self.left().size() >= self.right().size() ==> {
                    &&& self.attached(k) == self.rotated_right().attached(k)
                    &&& self.rotated_right().depth(k) < self.depth(k)
                }
                &&& k < child && self.left().size() < self.right().size() ==> self.attached(k)
                    == Shape::fork(self.left().attached(k), self.root().unwrap(), self.right())
                &&& k > child && self.left().right().size() == 0 && self.right().size() == 0
                    ==> self.attached(k) == Shape::fork(
                    self.left(),
                    k,
                    Shape::leaf(self.root().unwrap()),
                )
                &&& k > child && self.left().right().size() >= self.right().size()
                    && self.left().right().size() > 0 ==> {
                    &&& self.attached(k) == self.rotated_left_right().attached(k)
                    &&& self.rotated_left_right().depth(k) < self.depth(k)
                }
                &&& k > child && self.left().right().size() < self.right().size()
                    ==> self.attached(k) == Shape::fork(
                    self.left().attached(k),
                    self.root().unwrap(),
                    self.right(),
                )
            },
    {
        reveal(Shape::attached);
        reveal_with_fuel(Shape::depth, 4);
        self.left().lemma_size_zero();
        self.right().lemma_size_zero();
        self.left().right().lemma_size_zero();
    }

    /// What attaching does at a root below `k`, case by case, and that the
    /// descent is shorter after each rotation.
    pub proof fn lemma_attached_above(self, k: usize)
        requires
            self.root() is Some,
            k > self.root().unwrap(),
        ensures
            self.right().size() == 0 ==> self.attached(k) == Shape::fork(
                self.left(),
                self.root().unwrap(),
                Shape::leaf(k),
            ),
            self.right().root() matches Some(child) ==> {
                &&& k > child && self.right().size() >= self.left().size() ==> {
                    &&& self.attached(k) == self.rotated_left().attached(k)
                    &&& self.rotated_left().depth(k) < self.depth(k)
                }
                &&& k > child && self.right().size() < self.left().size() ==> self.attached(k)
                    == Shape::fork(self.left(), self.root().unwrap(), self.right().attached(k))
                &&& k < child && self.right().left().size() == 0 && self.left().size() == 0
                    ==> self.attached(k) == Shape::fork(
                    Shape::leaf(self.root().unwrap()),
                    k,
                    self.right(),
                )
                &&& k < child && self.right().left().size() >= self.left().size()
                    && self.right().left().size() > 0 ==> {
                    &&& self.attached(k) == self.rotated_right_left().attached(k)
                    &&& self.rotated_right_left().depth(k) < self.depth(k)
                }
                &&& k < child && self.right().left().size() < self.left().size()
                    ==> self.attached(k) == Shape::fork(
                    self.left(),
                    self.root().unwrap(),
                    self.right().attached(k),
                )
            },
    {
        reveal(Shape::attached);
        reveal_with_fuel(Shape::depth, 4);
        self.left().lemma_size_zero();
        self.right().lemma_size_zero();
        self.right().left().lemma_size_zero();
    }

    /// Size of the subtree on the other side of the root than `k`.
    pub open spec fn far_size(self, k: usize) -> nat {
        match self {
            Shape::Empty => 0,
            Shape::Fork { left, key, right } => {
                if k < key {
                    right.size()
                } else {
                    left.size()
                }
            },
        }
    }

    /// The tree after detaching the handle `k`.
    ///
    /// The descent starts at the root and moves towards `k`. Before it moves
    /// into a subtree it looks at the subtree on the other side: where the
    /// outer grandchild there is at least as large as the subtree with `k`,
    /// one rotation towards `k` is made; else, where the inner grandchild is,
    /// a double rotation; after either the descent starts again at the new
    /// root. At `k` itself: a fork without two children is replaced by its
    /// only child, or by nothing. A fork with two children is replaced by its
    /// in-order predecessor where the left subtree is at least as large as
    /// the right one, else by its successor; the replacement is detached from
    /// its subtree first. A handle that the search-tree descent does not meet
    /// is not detached.
    #[verifier::opaque]
    pub open spec fn detached(self, k: usize) -> Shape
        decreases self.size(), self.far_size(k),
        when self.ordered()
        via Self::detached_decreases
    {
        match self {
            Shape::Empty => Shape::Empty,
            Shape::Fork { left, key, right } => {
                if k < key {
                    if left.size() == 0 {
                        self
                    } else if right.right().size() >= left.size() {
                        self.rotated_left().detached(k)
                    } else if right.left().size() >= left.size() {
                        self.rotated_right_left().detached(k)
                    } else {
                        Shape::fork(left.detached(k), key, *right)
                    }
                } else if k > key {
                    if right.size() == 0 {
                        self
                    } else if left.left().size() >= right.size() {
                        self.rotated_right().detached(k)
                    } else if left.right().size() >= right.size() {
                        self.rotated_left_right().detached(k)
                    } else {
                        Shape::fork(*left, key, right.detached(k))
                    }
                } else {
                    if left.size() > 0 && right.size() > 0 {
                        if left.size() >= right.size() {
                            Shape::fork(left.detached(left.rightest()), left.rightest(), *right)
                        } else {
                            Shape::fork(*left, right.leftest(), right.detached(right.leftest()))
                        }
                    } else if left.size() > 0 {
                        *left
                    } else {
                        *right
                    }
                }
            },
        }
    }

    #[via_fn]
    proof fn detached_decreases(self, k: usize) {
        match self {
            Shape::Empty => {},
            Shape::Fork { left, key, right } => {
                if k < key && left.size() > 0 {
                    self.lemma_detached_turn_left(k, -1, usize::MAX + 1);
                } else if k > key && right.size() > 0 {
                    self.lemma_detached_turn_right(k, -1, usize::MAX + 1);
                }
            },
        }
    }

    /// What detaching does at a root above `k`, case by case.
    pub proof fn lemma_detached_below(self, k: usize)
        requires
            self.ordered(),
            self.root() is Some,
            k < self.root().unwrap(),
        ensures
            self.left().size() == 0 ==> self.detached(k) == self,
            self.left().size() > 0 && self.right().right().size() >= self.left().size()
                ==> self.detached(k) == self.rotated_left().detached(k),
            self.left().size() > 0 && self.right().right().size() < self.left().size()
                && self.right().left().size() >= self.left().size() ==> self.detached(k)
                == self.rotated_right_left().detached(k),
            self.left().size() > 0 && self.right().right().size() < self.left().size()
                && self.right().left().size() < self.left().size() ==> self.detached(k)
                == Shape::fork(self.left().detached(k), self.root().unwrap(), self.right()),
    {
        reveal(Shape::detached);
        self.lemma_rotated(-1, usize::MAX + 1);
        self.lemma_rotated_twice(-1, usize::MAX + 1);
        self.left().lemma_within_ordered(-1, self.root().unwrap() as int);
    }

    /// What detaching does at a root below `k`, case by case.
    pub proof fn lemma_detached_above(self, k: usize)
        requires
            self.ordered(),
            self.root() is Some,
            k > self.root().unwrap(),
        ensures
            self.right().size() == 0 ==> self.detached(k) == self,
            self.right().size() > 0 && self.left().left().size() >= self.right().size()
                ==> self.detached(k) == self.rotated_right().detached(k),
            self.right().size() > 0 && self.left().left().size() < self.right().size()
                && self.left().right().size() >= self.right().size() ==> self.detached(k)
                == self.rotated_left_right().detached(k),
            self.right().size() > 0 && self.left().left().size() < self.right().size()
                && self.left().right().size() < self.right().size() ==> self.detached(k)
                == Shape::fork(self.left(), self.root().unwrap(), self.right().detached(k)),
    {
        reveal(Shape::detached);
        self.lemma_rotated(-1, usize::MAX + 1);
        self.lemma_rotated_twice(-1, usize::MAX + 1);
        self.right().lemma_within_ordered(self.root().unwrap() as int, usize::MAX + 1);
    }

    /// What detaching the root handle does, case by case.
    pub proof fn lemma_detached_root(self)
        requires
            self.ordered(),
            self.root() is Some,
        ensures
            self.left().size() > 0 && self.right().size() > 0 && self.left().size()
                >= self.right().size() ==> self.detached(self.root().unwrap()) == Shape::fork(
                self.left().detached(self.left().rightest()),
                self.left().rightest(),
                self.right(),
            ),
            self.left().size() > 0 && self.right().size() > 0 && self.left().size()
                < self.right().size() ==> self.detached(self.root().unwrap()) == Shape::fork(
                self.left(),
                self.right().leftest(),
                self.right().detached(self.right().leftest()),
            ),
            self.left().size() > 0 && self.right().size() == 0 ==> self.detached(
                self.root().unwrap(),
            ) == self.left(),
            self.left().size() == 0 ==> self.detached(self.root().unwrap()) == self.right(),
    {
        reveal(Shape::detached);
        self.left().lemma_within_ordered(-1, self.root().unwrap() as int);
        self.right().lemma_within_ordered(self.root().unwrap() as int, usize::MAX + 1);
        self.left().lemma_size_zero();
        self.right().lemma_size_zero();
    }
}


impl Shape {
    /// Search-tree order survives a widening of the bounds.
    pub proof fn lemma_within_widen(self, lo: int, hi: int, lo2: int, hi2: int)
        requires
            self.within(lo, hi),
            lo2 <= lo,
            hi <= hi2,
        ensures
            self.within(lo2, hi2),
        decreases self,
    {
        match self {
            Shape::Empty => {},
            Shape::Fork { left, key, right } => {
                left.lemma_within_widen(lo, key as int, lo2, key as int);
                right.lemma_within_widen(key as int, hi, key as int, hi2);
            },
        }
    }

    /// An ordered tree is ordered whatever the bounds it was given with.
    pub proof fn lemma_within_ordered(self, lo: int, hi: int)
        requires
            self.within(lo, hi),
        ensures
            self.ordered(),
            self.within(if lo < -1 { -1 } else { lo }, if hi > usize::MAX + 1 { usize::MAX + 1 } else { hi }),
        decreases self,
    {
        match self {
            Shape::Empty => {},
            Shape::Fork { left, key, right } => {
                left.lemma_within_ordered(lo, key as int);
                right.lemma_within_ordered(key as int, hi);
                left.lemma_within_widen(if lo < -1 { -1 } else { lo }, key as int, -1, key as int);
                right.lemma_within_widen(
                    key as int,
                    if hi > usize::MAX + 1 { usize::MAX + 1 } else { hi },
                    key as int,
                    usize::MAX + 1,
                );
            },
        }
    }

    /// Every handle of a tree lies between the bounds of its order.
    pub proof fn lemma_within_has(self, lo: int, hi: int, x: usize)
        requires
            self.within(lo, hi),
            self.has(x),
        ensures
            lo < x < hi,
        decreases self,
    {
        match self {
            Shape::Empty => {},
            Shape::Fork { left, key, right } => {
                if left.has(x) {
                    left.lemma_within_has(lo, key as int, x);
                } else if right.has(x) {
                    right.lemma_within_has(key as int, hi, x);
                }
            },
        }
    }

    /// A tree ordered between `lo` and `hi` all of whose handles lie below
    /// `top` is ordered between `lo` and `top`.
    pub proof fn lemma_within_below(self, lo: int, hi: int, top: int)
        requires
            self.within(lo, hi),
            forall|x: usize| self.has(x) ==> x < top,
        ensures
            self.within(lo, top),
        decreases self,
    {
        match self {
            Shape::Empty => {},
            Shape::Fork { left, key, right } => {
                assert(self.has(key));
                assert forall|x: usize| right.has(x) implies x < top by {
                    assert(self.has(x));
                }
                right.lemma_within_below(key as int, hi, top);
            },
        }
    }

    /// A tree ordered between `lo` and `hi` all of whose handles lie above
    /// `bottom` is ordered between `bottom` and `hi`.
    pub proof fn lemma_within_above(self, lo: int, hi: int, bottom: int)
        requires
            self.within(lo, hi),
            forall|x: usize| self.has(x) ==> bottom < x,
        ensures
            self.within(bottom, hi),
        decreases self,
    {
        match self {
            Shape::Empty => {},
            Shape::Fork { left, key, right } => {
                assert(self.has(key));
                assert forall|x: usize| left.has(x) implies bottom < x by {
                    assert(self.has(x));
                }
                left.lemma_within_above(lo, key as int, bottom);
            },
        }
    }

    /// In an ordered tree the search-tree descent finds exactly the handles
    /// that the tree has.
    pub proof fn lemma_finds(self, lo: int, hi: int, x: usize)
        requires
            self.within(lo, hi),
        ensures
            self.finds(x) == self.has(x),
        decreases self,
    {
        match self {
            Shape::Empty => {},
            Shape::Fork { left, key, right } => {
                left.lemma_finds(lo, key as int, x);
                right.lemma_finds(key as int, hi, x);
                if left.has(x) {
                    left.lemma_within_has(lo, key as int, x);
                }
                if right.has(x) {
                    right.lemma_within_has(key as int, hi, x);
                }
            },
        }
    }

    /// An ordered tree has no more handles than there are integers strictly
    /// between its bounds.
    pub proof fn lemma_size_bound(self, lo: int, hi: int)
        requires
            self.within(lo, hi),
        ensures
            self.size() == 0 || self.size() <= hi - lo - 1,
        decreases self,
    {
        match self {
            Shape::Empty => {},
            Shape::Fork { left, key, right } => {
                left.lemma_size_bound(lo, key as int);
                right.lemma_size_bound(key as int, hi);
            },
        }
    }

    /// A rotation keeps the order, the handles and their number.
    pub proof fn lemma_rotated(self, lo: int, hi: int)
        requires
            self.within(lo, hi),
        ensures
            self.rotated_left().within(lo, hi),
            self.rotated_left().size() == self.size(),
            self.rotated_left().inorder() == self.inorder(),
            forall|x: usize| #[trigger] self.rotated_left().has(x) == self.has(x),
            self.rotated_right().within(lo, hi),
            self.rotated_right().size() == self.size(),
            self.rotated_right().inorder() == self.inorder(),
            forall|x: usize| #[trigger] self.rotated_right().has(x) == self.has(x),
    {
        reveal_with_fuel(Shape::within, 3);
        reveal_with_fuel(Shape::size, 3);
        reveal_with_fuel(Shape::has, 3);
        reveal_with_fuel(Shape::inorder, 3);
        match self.right() {
            Shape::Empty => {},
            Shape::Fork { left: inner, key: pivot, right: outer } => {
                let key = self.root().unwrap();
                self.left().lemma_within_widen(lo, key as int, lo, pivot as int);
                assert(self.rotated_left().inorder() =~= self.inorder());
            },
        }
        match self.left() {
            Shape::Empty => {},
            Shape::Fork { left: outer, key: pivot, right: inner } => {
                let key = self.root().unwrap();
                self.right().lemma_within_widen(key as int, hi, pivot as int, hi);
                assert(self.rotated_right().inorder() =~= self.inorder());
            },
        }
    }

    /// A double rotation keeps the order, the handles and their number.
    pub proof fn lemma_rotated_twice(self, lo: int, hi: int)
        requires
            self.within(lo, hi),
        ensures
            self.rotated_left_right().within(lo, hi),
            self.rotated_left_right().size() == self.size(),
            self.rotated_left_right().inorder() == self.inorder(),
            forall|x: usize| #[trigger] self.rotated_left_right().has(x) == self.has(x),
            self.rotated_right_left().within(lo, hi),
            self.rotated_right_left().size() == self.size(),
            self.rotated_right_left().inorder() == self.inorder(),
            forall|x: usize| #[trigger] self.rotated_right_left().has(x) == self.has(x),
    {
        match self {
            Shape::Empty => {},
            Shape::Fork { left, key, right } => {
                left.lemma_rotated(lo, key as int);
                let turned = Shape::fork(left.rotated_left(), key, *right);
                turned.lemma_rotated(lo, hi);
                assert forall|x: usize|
                    #[trigger] self.rotated_left_right().has(x) == self.has(x) by {
                    assert(turned.rotated_right().has(x) == turned.has(x));
                    assert(left.rotated_left().has(x) == left.has(x));
                }
                right.lemma_rotated(key as int, hi);
                let turned = Shape::fork(*left, key, right.rotated_right());
                turned.lemma_rotated(lo, hi);
                assert forall|x: usize|
                    #[trigger] self.rotated_right_left().has(x) == self.has(x) by {
                    assert(turned.rotated_left().has(x) == turned.has(x));
                    assert(right.rotated_right().has(x) == right.has(x));
                }
            },
        }
    }
}


impl Shape {
    /// The tree of one handle is ordered between any bounds around it.
    pub proof fn lemma_leaf(k: usize, lo: int, hi: int)
        requires
            lo < k < hi,
        ensures
            Shape::leaf(k).within(lo, hi),
            Shape::leaf(k).size() == 1,
            forall|x: usize| #[trigger] Shape::leaf(k).has(x) == (x == k),
    {
        reveal_with_fuel(Shape::size, 2);
        reveal_with_fuel(Shape::has, 2);
        reveal_with_fuel(Shape::within, 2);
    }

    /// Attaching a handle that an ordered tree lacks keeps the order, adds
    /// that handle and no other, and takes none away.
    pub proof fn lemma_attached(self, k: usize, lo: int, hi: int)
        requires
            self.within(lo, hi),
            lo < k < hi,
            !self.has(k),
        ensures
            self.attached(k).within(lo, hi),
            self.attached(k).size() == self.size() + 1,
            forall|x: usize| #[trigger] self.attached(k).has(x) == (x == k || self.has(x)),
        decreases self.depth(k),
    {
        let after = self.attached(k);
        match self {
            Shape::Empty => {
                Shape::lemma_attached_empty(k);
                Shape::lemma_leaf(k, lo, hi);
            },
            Shape::Fork { left, key, right } => {
                left.lemma_size_zero();
                right.lemma_size_zero();
                assert(!left.has(k) && !right.has(k) && k != key);
                if k < key {
                    self.lemma_attached_below(k);
                    match *left {
                        Shape::Empty => {
                            Shape::lemma_leaf(k, lo, key as int);
                            assert(after == Shape::fork(Shape::leaf(k), key, *right));
                            assert forall|x: usize|
                                #[trigger] after.has(x) == (x == k || self.has(x)) by {
                                assert(Shape::leaf(k).has(x) == (x == k));
                            }
                        },
                        Shape::Fork { left: outer, key: child, right: inner } => {
                            inner.lemma_size_zero();
                            assert(k != child);
                            assert(left.within(lo, key as int));
                            if k < child && left.size() >= right.size() {
                                self.lemma_rotated(lo, hi);
                                self.rotated_right().lemma_attached(k, lo, hi);
                                assert forall|x: usize|
                                    #[trigger] after.has(x) == (x == k || self.has(x)) by {
                                    assert(self.rotated_right().has(x) == self.has(x));
                                }
                            } else if k > child && inner.size() >= right.size() {
                                if inner.size() == 0 {
                                    assert(after == Shape::fork(*left, k, Shape::leaf(key)));
                                    Shape::lemma_leaf(key, k as int, hi);
                                    assert forall|x: usize| left.has(x) implies x < k by {
                                        assert(x == child || outer.has(x) || inner.has(x));
                                        if outer.has(x) {
                                            outer.lemma_within_has(lo, child as int, x);
                                        }
                                    }
                                    left.lemma_within_below(lo, key as int, k as int);
                                    assert forall|x: usize|
                                        #[trigger] after.has(x) == (x == k || self.has(x)) by {
                                        assert(Shape::leaf(key).has(x) == (x == key));
                                    }
                                } else {
                                    self.lemma_rotated_twice(lo, hi);
                                    self.rotated_left_right().lemma_attached(k, lo, hi);
                                    assert forall|x: usize|
                                        #[trigger] after.has(x) == (x == k || self.has(x)) by {
                                        assert(self.rotated_left_right().has(x) == self.has(x));
                                    }
                                }
                            } else {
                                left.lemma_attached(k, lo, key as int);
                                assert(after == Shape::fork(left.attached(k), key, *right));
                                assert forall|x: usize|
                                    #[trigger] after.has(x) == (x == k || self.has(x)) by {
                                    assert(left.attached(k).has(x) == (x == k || left.has(x)));
                                }
                            }
                        },
                    }
                } else {
                    self.lemma_attached_above(k);
                    match *right {
                        Shape::Empty => {
                            Shape::lemma_leaf(k, key as int, hi);
                            assert(after == Shape::fork(*left, key, Shape::leaf(k)));
                            assert forall|x: usize|
                                #[trigger] after.has(x) == (x == k || self.has(x)) by {
                                assert(Shape::leaf(k).has(x) == (x == k));
                            }
                        },
                        Shape::Fork { left: inner, key: child, right: outer } => {
                            inner.lemma_size_zero();
                            assert(k != child);
                            assert(right.within(key as int, hi));
                            if k > child && right.size() >= left.size() {
                                self.lemma_rotated(lo, hi);
                                self.rotated_left().lemma_attached(k, lo, hi);
                                assert forall|x: usize|
                                    #[trigger] after.has(x) == (x == k || self.has(x)) by {
                                    assert(self.rotated_left().has(x) == self.has(x));
                                }
                            } else if k < child && inner.size() >= left.size() {
                                if inner.size() == 0 {
                                    assert(after == Shape::fork(Shape::leaf(key), k, *right));
                                    Shape::lemma_leaf(key, lo, k as int);
                                    assert forall|x: usize| right.has(x) implies k < x by {
                                        assert(x == child || outer.has(x) || inner.has(x));
                                        if outer.has(x) {
                                            outer.lemma_within_has(child as int, hi, x);
                                        }
                                    }
                                    right.lemma_within_above(key as int, hi, k as int);
                                    assert forall|x: usize|
                                        #[trigger] after.has(x) == (x == k || self.has(x)) by {
                                        assert(Shape::leaf(key).has(x) == (x == key));
                                    }
                                } else {
                                    self.lemma_rotated_twice(lo, hi);
                                    self.rotated_right_left().lemma_attached(k, lo, hi);
                                    assert forall|x: usize|
                                        #[trigger] after.has(x) == (x == k || self.has(x)) by {
                                        assert(self.rotated_right_left().has(x) == self.has(x));
                                    }
                                }
                            } else {
                                right.lemma_attached(k, key as int, hi);
                                assert(after == Shape::fork(*left, key, right.attached(k)));
                                assert forall|x: usize|
                                    #[trigger] after.has(x) == (x == k || self.has(x)) by {
                                    assert(right.attached(k).has(x) == (x == k || right.has(x)));
                                }
                            }
                        },
                    }
                }
            },
        }
    }

    /// Only the empty tree has no handles.
    pub proof fn lemma_size_zero(self)
        ensures
            self.size() == 0 <==> self == Shape::Empty,
            self.size() == 0 ==> forall|x: usize| !self.has(x),
    {
    }

    /// In a non-empty ordered tree the end of the chain of right children is
    /// a handle of the tree and the greatest of them.
    pub proof fn lemma_rightest(self, lo: int, hi: int)
        requires
            self.within(lo, hi),
            self.size() > 0,
        ensures
            self.has(self.rightest()),
            forall|x: usize| self.has(x) ==> x <= self.rightest(),
        decreases self,
    {
        match self {
            Shape::Empty => {},
            Shape::Fork { left, key, right } => {
                if right.size() == 0 {
                    right.lemma_size_zero();
                    assert forall|x: usize| self.has(x) implies x <= key by {
                        assert(x == key || left.has(x) || right.has(x));
                        assert(!right.has(x));
                        if left.has(x) {
                            left.lemma_within_has(lo, key as int, x);
                        }
                    }
                } else {
                    right.lemma_rightest(key as int, hi);
                    right.lemma_within_has(key as int, hi, right.rightest());
                    assert forall|x: usize| self.has(x) implies x <= right.rightest() by {
                        assert(x == key || left.has(x) || right.has(x));
                        if left.has(x) {
                            left.lemma_within_has(lo, key as int, x);
                        }
                    }
                }
            },
        }
    }

    /// In a non-empty ordered tree the end of the chain of left children is a
    /// handle of the tree and the least of them.
    pub proof fn lemma_leftest(self, lo: int, hi: int)
        requires
            self.within(lo, hi),
            self.size() > 0,
        ensures
            self.has(self.leftest()),
            forall|x: usize| self.has(x) ==> self.leftest() <= x,
        decreases self,
    {
        match self {
            Shape::Empty => {},
            Shape::Fork { left, key, right } => {
                if left.size() == 0 {
                    left.lemma_size_zero();
                    assert forall|x: usize| self.has(x) implies key <= x by {
                        assert(x == key || left.has(x) || right.has(x));
                        assert(!left.has(x));
                        if right.has(x) {
                            right.lemma_within_has(key as int, hi, x);
                        }
                    }
                } else {
                    left.lemma_leftest(lo, key as int);
                    left.lemma_within_has(lo, key as int, left.leftest());
                    assert forall|x: usize| self.has(x) implies left.leftest() <= x by {
                        assert(x == key || left.has(x) || right.has(x));
                        if right.has(x) {
                            right.lemma_within_has(key as int, hi, x);
                        }
                    }
                }
            },
        }
    }

    /// Detaching a handle of an ordered tree keeps the order, takes that
    /// handle away and no other, and adds none.
    pub proof fn lemma_detached(self, k: usize, lo: int, hi: int)
        requires
            self.within(lo, hi),
            self.has(k),
        ensures
            self.detached(k).within(lo, hi),
            self.detached(k).size() + 1 == self.size(),
            forall|x: usize| #[trigger] self.detached(k).has(x) == (x != k && self.has(x)),
        decreases self.size(), self.far_size(k),
    {
        self.lemma_within_ordered(lo, hi);
        let after = self.detached(k);
        match self {
            Shape::Empty => {},
            Shape::Fork { left, key, right } => {
                left.lemma_size_zero();
                right.lemma_size_zero();
                assert forall|x: usize| left.has(x) implies x < key by {
                    left.lemma_within_has(lo, key as int, x);
                }
                assert forall|x: usize| right.has(x) implies key < x by {
                    right.lemma_within_has(key as int, hi, x);
                }
                assert(self.has(k) == (k == key || left.has(k) || right.has(k)));
                if k < key {
                    assert(left.has(k));
                    self.lemma_detached_below(k);
                    self.lemma_detached_turn_left(k, lo, hi);
                    if right.right().size() >= left.size() {
                        self.rotated_left().lemma_detached(k, lo, hi);
                        assert forall|x: usize|
                            #[trigger] after.has(x) == (x != k && self.has(x)) by {
                            assert(self.rotated_left().has(x) == self.has(x));
                        }
                    } else if right.left().size() >= left.size() {
                        self.rotated_right_left().lemma_detached(k, lo, hi);
                        assert forall|x: usize|
                            #[trigger] after.has(x) == (x != k && self.has(x)) by {
                            assert(self.rotated_right_left().has(x) == self.has(x));
                        }
                    } else {
                        left.lemma_detached(k, lo, key as int);
                        assert(after == Shape::fork(left.detached(k), key, *right));
                        assert forall|x: usize|
                            #[trigger] after.has(x) == (x != k && self.has(x)) by {
                            assert(self.has(x) == (x == key || left.has(x) || right.has(x)));
                            assert(left.detached(k).has(x) == (x != k && left.has(x)));
                            assert(after.has(x) == (x == key || left.detached(k).has(x) || right.has(x)));
                            if right.has(x) {
                                assert(key < x);
                            }
                        }
                    }
                } else if k > key {
                    assert(right.has(k));
                    self.lemma_detached_above(k);
                    self.lemma_detached_turn_right(k, lo, hi);
                    if left.left().size() >= right.size() {
                        self.rotated_right().lemma_detached(k, lo, hi);
                        assert forall|x: usize|
                            #[trigger] after.has(x) == (x != k && self.has(x)) by {
                            assert(self.rotated_right().has(x) == self.has(x));
                        }
                    } else if left.right().size() >= right.size() {
                        self.rotated_left_right().lemma_detached(k, lo, hi);
                        assert forall|x: usize|
                            #[trigger] after.has(x) == (x != k && self.has(x)) by {
                            assert(self.rotated_left_right().has(x) == self.has(x));
                        }
                    } else {
                        right.lemma_detached(k, key as int, hi);
                        assert(after == Shape::fork(*left, key, right.detached(k)));
                        assert forall|x: usize|
                            #[trigger] after.has(x) == (x != k && self.has(x)) by {
                            assert(self.has(x) == (x == key || left.has(x) || right.has(x)));
                            assert(right.detached(k).has(x) == (x != k && right.has(x)));
                        }
                    }
                } else {
                    self.lemma_detached_root();
                    if left.size() > 0 && right.size() > 0 {
                        if left.size() >= right.size() {
                            let last = left.rightest();
                            left.lemma_rightest(lo, key as int);
                            left.lemma_within_has(lo, key as int, last);
                            left.lemma_detached(last, lo, key as int);
                            assert forall|x: usize| left.detached(last).has(x) implies x < last by {
                                assert(left.has(x) && x != last);
                            }
                            left.detached(last).lemma_within_below(lo, key as int, last as int);
                            right.lemma_within_widen(key as int, hi, last as int, hi);
                            assert(after == Shape::fork(left.detached(last), last, *right));
                            assert forall|x: usize|
                                #[trigger] after.has(x) == (x != k && self.has(x)) by {
                                assert(self.has(x) == (x == key || left.has(x) || right.has(x)));
                                assert(left.detached(last).has(x) == (x != last && left.has(x)));
                                assert(after.has(x) == (x == last || left.detached(last).has(x)
                                    || right.has(x)));
                                if right.has(x) {
                                    assert(key < x);
                                }
                                if left.has(x) {
                                    assert(x < key);
                                }
                            }
                        } else {
                            let first = right.leftest();
                            right.lemma_leftest(key as int, hi);
                            right.lemma_within_has(key as int, hi, first);
                            right.lemma_detached(first, key as int, hi);
                            assert forall|x: usize|
                                right.detached(first).has(x) implies first < x by {
                                assert(right.has(x) && x != first);
                            }
                            right.detached(first).lemma_within_above(key as int, hi, first as int);
                            left.lemma_within_widen(lo, key as int, lo, first as int);
                            assert(after == Shape::fork(*left, first, right.detached(first)));
                            assert forall|x: usize|
                                #[trigger] after.has(x) == (x != k && self.has(x)) by {
                                assert(self.has(x) == (x == key || left.has(x) || right.has(x)));
                                assert(right.detached(first).has(x) == (x != first && right.has(x)));
                                assert(after.has(x) == (x == first || left.has(x)
                                    || right.detached(first).has(x)));
                                if right.has(x) {
                                    assert(key < x);
                                }
                                if left.has(x) {
                                    assert(x < key);
                                }
                            }
                        }
                    } else if left.size() > 0 {
                        left.lemma_within_widen(lo, key as int, lo, hi);
                        assert(after == *left);
                        assert forall|x: usize|
                            #[trigger] after.has(x) == (x != k && self.has(x)) by {
                            assert(self.has(x) == (x == key || left.has(x) || right.has(x)));
                        }
                    } else {
                        right.lemma_within_widen(key as int, hi, lo, hi);
                        assert(after == *right);
                        assert forall|x: usize|
                            #[trigger] after.has(x) == (x != k && self.has(x)) by {
                            assert(self.has(x) == (x == key || left.has(x) || right.has(x)));
                        }
                    }
                }
            },
        }
    }

    /// Where a handle below the root is detached and a rotation towards it is
    /// due, the rotated tree is ordered, has the same handles, and has less on
    /// the side away from the handle.
    pub proof fn lemma_detached_turn_left(self, k: usize, lo: int, hi: int)
        requires
            self.within(lo, hi),
            self.root() is Some,
            k < self.root().unwrap(),
            self.left().size() > 0,
        ensures
            self.right().right().size() >= self.left().size() ==> {
                &&& self.rotated_left().within(lo, hi)
                &&& self.rotated_left().size() == self.size()
                &&& self.rotated_left().far_size(k) < self.far_size(k)
                &&& forall|x: usize| #[trigger] self.rotated_left().has(x) == self.has(x)
            },
            self.right().left().size() >= self.left().size() ==> {
                &&& self.rotated_right_left().within(lo, hi)
                &&& self.rotated_right_left().size() == self.size()
                &&& self.rotated_right_left().far_size(k) < self.far_size(k)
                &&& forall|x: usize| #[trigger] self.rotated_right_left().has(x) == self.has(x)
            },
    {
        reveal_with_fuel(Shape::within, 3);
        reveal_with_fuel(Shape::size, 3);
        self.lemma_rotated(lo, hi);
        self.lemma_rotated_twice(lo, hi);
    }

    /// The mirror image of [`Shape::lemma_detached_turn_left`].
    pub proof fn lemma_detached_turn_right(self, k: usize, lo: int, hi: int)
        requires
            self.within(lo, hi),
            self.root() is Some,
            k > self.root().unwrap(),
            self.right().size() > 0,
        ensures
            self.left().left().size() >= self.right().size() ==> {
                &&& self.rotated_right().within(lo, hi)
                &&& self.rotated_right().size() == self.size()
                &&& self.rotated_right().far_size(k) < self.far_size(k)
                &&& forall|x: usize| #[trigger] self.rotated_right().has(x) == self.has(x)
            },
            self.left().right().size() >= self.right().size() ==> {
                &&& self.rotated_left_right().within(lo, hi)
                &&& self.rotated_left_right().size() == self.size()
                &&& self.rotated_left_right().far_size(k) < self.far_size(k)
                &&& forall|x: usize| #[trigger] self.rotated_left_right().has(x) == self.has(x)
            },
    {
        reveal_with_fuel(Shape::within, 3);
        reveal_with_fuel(Shape::size, 3);
        self.lemma_rotated(lo, hi);
        self.lemma_rotated_twice(lo, hi);
    }

    /// The in-order traversal of an ordered tree lists each handle of the
    /// tree once, in ascending order.
    pub proof fn lemma_inorder(self, lo: int, hi: int)
        requires
            self.within(lo, hi),
        ensures
            self.inorder().len() == self.size(),
            forall|i: int| 0 <= i < self.inorder().len() ==> lo < #[trigger] self.inorder()[i] < hi,
            forall|i: int, j: int|
                0 <= i < j < self.inorder().len() ==> self.inorder()[i] < self.inorder()[j],
            forall|x: usize| self.has(x) <==> self.inorder().contains(x),
        decreases self,
    {
        match self {
            Shape::Empty => {},
            Shape::Fork { left, key, right } => {
                left.lemma_inorder(lo, key as int);
                right.lemma_inorder(key as int, hi);
                let low = left.inorder();
                let high = right.inorder();
                let all = self.inorder();
                assert(all == low.push(key) + high);
                assert forall|i: int| 0 <= i < all.len() implies lo < #[trigger] all[i] < hi by {
                    if i < low.len() {
                        assert(all[i] == low[i]);
                    } else if i > low.len() {
                        assert(all[i] == high[i - low.len() - 1]);
                    }
                }
                assert forall|i: int, j: int| 0 <= i < j < all.len() implies all[i] < all[j] by {
                    if i < low.len() {
                        assert(all[i] == low[i]);
                    } else if i > low.len() {
                        assert(all[i] == high[i - low.len() - 1]);
                    }
                    if j < low.len() {
                        assert(all[j] == low[j]);
                    } else if j > low.len() {
                        assert(all[j] == high[j - low.len() - 1]);
                    }
                }
                assert forall|x: usize| self.has(x) <==> all.contains(x) by {
                    if left.has(x) {
                        let i = choose|i: int| 0 <= i < low.len() && low[i] == x;
                        assert(all[i] == x);
                    }
                    if right.has(x) {
                        let i = choose|i: int| 0 <= i < high.len() && high[i] == x;
                        assert(all[i + low.len() + 1] == x);
                    }
                    if x == key {
                        assert(all[low.len() as int] == x);
                    }
                    if all.contains(x) {
                        let i = choose|i: int| 0 <= i < all.len() && all[i] == x;
                        if i < low.len() {
                            assert(low[i] == x);
                        } else if i > low.len() {
                            assert(high[i - low.len() - 1] == x);
                        }
                    }
                }
            },
        }
    }
}

} // verus!
