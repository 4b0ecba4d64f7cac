use vstd::prelude::*;

use crate::byte_order::{lemma_pow256_values, pow256, signed_of, unsigned_of};

verus! {

/// A signed integer type that arrays hold: its width on the wire and its value.
pub trait WireInt: Sized + Copy {
    /// The number of bytes that one item takes.
    spec fn width() -> nat;

    /// The number that the item stands for.
    spec fn value(self) -> int;

    fn wire_width() -> (r: usize)
        ensures
            r as nat == Self::width(),
            r == 1 || r == 4 || r == 8;

    /// The bits of the item as an unsigned number of `width` bytes.
    fn to_wire(self) -> (r: u64)
        ensures
            r as nat == unsigned_of(self.value(), Self::width()),
            2 * self.value() < pow256(Self::width()),
            2 * self.value() >= -pow256(Self::width());

    /// The item whose bits are `u`.
    fn from_wire(u: u64) -> (r: Self)
        requires
            u < pow256(Self::width()),
        ensures
            r.value() == signed_of(u as nat, Self::width());

    fn to_i64(self) -> (r: i64)
        ensures
            r as int == self.value();
}

/// The numbers that the items stand for.
pub open spec fn ints_of<T: WireInt>(s: Seq<T>) -> Seq<int> {
    s.map_values(|x: T| x.value())
}

impl WireInt for i8 {
    open spec fn width() -> nat {
        1
    }

    open spec fn value(self) -> int {
        self as int
    }

    fn wire_width() -> (r: usize) {
        1
    }

    fn to_wire(self) -> (r: u64) {
        proof {
            lemma_pow256_values();
        }
        if self < 0 {
            (self as i16 + 0x100) as u64
        } else {
            self as u64
        }
    }

    fn from_wire(u: u64) -> (r: i8) {
        proof {
            lemma_pow256_values();
        }
        if u >= 0x80 {
            (u as i16 - 0x100) as i8
        } else {
            u as i8
        }
    }

    fn to_i64(self) -> (r: i64) {
        self as i64
    }
}

impl WireInt for i32 {
    open spec fn width() -> nat {
        4
    }

    open spec fn value(self) -> int {
        self as int
    }

    fn wire_width() -> (r: usize) {
        4
    }

    fn to_wire(self) -> (r: u64) {
        proof {
            lemma_pow256_values();
        }
        if self < 0 {
            (self as i64 + 0x1_0000_0000) as u64
        } else {
            self as u64
        }
    }

    fn from_wire(u: u64) -> (r: i32) {
        proof {
            lemma_pow256_values();
        }
        if u >= 0x8000_0000 {
            (u as i64 - 0x1_0000_0000) as i32
        } else {
            u as i32
        }
    }

    fn to_i64(self) -> (r: i64) {
        self as i64
    }
}

impl WireInt for i64 {
    open spec fn width() -> nat {
        8
    }

    open spec fn value(self) -> int {
        self as int
    }

    fn wire_width() -> (r: usize) {
        8
    }

    fn to_wire(self) -> (r: u64) {
        proof {
            lemma_pow256_values();
        }
        if self < 0 {
            (self as i128 + 0x1_0000_0000_0000_0000i128) as u64
        } else {
            self as u64
        }
    }

    fn from_wire(u: u64) -> (r: i64) {
        proof {
            lemma_pow256_values();
        }
        if u >= 0x8000_0000_0000_0000 {
            (u as i128 - 0x1_0000_0000_0000_0000i128) as i64
        } else {
            u as i64
        }
    }

    fn to_i64(self) -> (r: i64) {
        self
    }
}

} // verus!
