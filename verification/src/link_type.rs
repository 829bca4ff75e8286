//! Handles as numbers: the unsigned integer types by which the slots of an
//! arena are named.

use vstd::prelude::*;

verus! {

/// An unsigned integer type whose values name slots. Every such type holds at
/// least the numbers of a byte.
pub trait LinkType: Sized + Copy {
    /// The number that the handle is.
    spec fn number(self) -> nat;

    /// The handle whose number is `n`: zero, one, two, or any other small
    /// constant.
    fn funty(n: u8) -> (link: Self)
        ensures
            link.number() == n,
    ;
}

impl LinkType for u8 {
    open spec fn number(self) -> nat {
        self as nat
    }

    fn funty(n: u8) -> (link: u8) {
        n
    }
}

impl LinkType for u16 {
    open spec fn number(self) -> nat {
        self as nat
    }

    fn funty(n: u8) -> (link: u16) {
        n as u16
    }
}

impl LinkType for u32 {
    open spec fn number(self) -> nat {
        self as nat
    }

    fn funty(n: u8) -> (link: u32) {
        n as u32
    }
}

impl LinkType for u64 {
    open spec fn number(self) -> nat {
        self as nat
    }

    fn funty(n: u8) -> (link: u64) {
        n as u64
    }
}

impl LinkType for usize {
    open spec fn number(self) -> nat {
        self as nat
    }

    fn funty(n: u8) -> (link: usize) {
        n as usize
    }
}

} // verus!
