//! Handles as addresses: what a handle type has to say for itself to name a
//! slot of an arena.

use vstd::prelude::*;

verus! {

/// A handle type: each of its values names the slot at one address.
pub trait Leaf: Copy {
    /// The address that the handle names.
    spec fn address(self) -> usize;

    /// The address that the handle names, as an index into an arena.
    fn addr(self) -> (addr: usize)
        ensures
            addr == self.address(),
    ;

    /// Whether two handles name the same slot.
    fn same(self, other: Self) -> (same: bool)
        ensures
            same == (self.address() == other.address()),
    {
        self.addr() == other.addr()
    }
}

impl Leaf for u8 {
    open spec fn address(self) -> usize {
        self as usize
    }

    fn addr(self) -> (addr: usize) {
        self as usize
    }
}

impl Leaf for u16 {
    open spec fn address(self) -> usize {
        self as usize
    }

    fn addr(self) -> (addr: usize) {
        self as usize
    }
}

impl Leaf for u32 {
    open spec fn address(self) -> usize {
        self as usize
    }

    fn addr(self) -> (addr: usize) {
        self as usize
    }
}

impl Leaf for u64 {
    /// The low bits of the handle where it is wider than an address.
    open spec fn address(self) -> usize {
        self as usize
    }

    fn addr(self) -> (addr: usize) {
        #[verifier::truncate]
        (self as usize)
    }
}

impl Leaf for usize {
    open spec fn address(self) -> usize {
        self
    }

    fn addr(self) -> (addr: usize) {
        self
    }
}

} // verus!
