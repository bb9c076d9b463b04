//! Floating-point numbers by their bit patterns.
//!
//! [`F32`] and [`F64`] hold an IEEE 754 number as the integer that `to_bits`
//! gives. Comparison, classification and the total order are exact functions of
//! that integer, and this module states them as such. No arithmetic is offered.
use vstd::prelude::*;

verus! {

/// A 32-bit floating-point number, held by its bit pattern.
#[derive(Debug, Clone, Copy, PartialEq, Eq, Structural, Hash)]
pub struct F32 {
    pub bits: u32,
}

/// A 64-bit floating-point number, held by its bit pattern.
#[derive(Debug, Clone, Copy, PartialEq, Eq, Structural, Hash)]
pub struct F64 {
    pub bits: u64,
}

impl F32 {
    /// The pattern without its sign bit.
    pub open spec fn magnitude(self) -> int {
        if self.bits < 0x8000_0000 {
            self.bits as int
        } else {
            self.bits - 0x8000_0000
        }
    }

    /// Whether the number is not a number.
    pub open spec fn nan(self) -> bool {
        self.magnitude() > 0x7f80_0000
    }

    /// Whether the number is neither infinite nor not-a-number.
    pub open spec fn finite(self) -> bool {
        self.magnitude() < 0x7f80_0000
    }

    /// The signed magnitude: it orders all numbers but NaN as IEEE does, with
    /// both zeros at 0.
    pub open spec fn key(self) -> int {
        if self.bits < 0x8000_0000 {
            self.bits as int
        } else {
            0x8000_0000 - self.bits
        }
    }

    /// The rank in the total order on all patterns (negative zero before zero,
    /// NaNs at both ends).
    pub open spec fn total_key(self) -> int {
        if self.bits < 0x8000_0000 {
            self.bits as int
        } else {
            0x7fff_ffff - self.bits
        }
    }

    /// IEEE `<`: false as soon as one side is NaN.
    pub open spec fn below(self, other: F32) -> bool {
        !self.nan() && !other.nan() && self.key() < other.key()
    }

    /// IEEE `<=`.
    pub open spec fn at_most(self, other: F32) -> bool {
        !self.nan() && !other.nan() && self.key() <= other.key()
    }

    /// IEEE `==`.
    pub open spec fn same(self, other: F32) -> bool {
        !self.nan() && !other.nan() && self.key() == other.key()
    }

    /// Whether the number is above zero.
    pub open spec fn positive(self) -> bool {
        !self.nan() && self.key() > 0
    }

    /// Wraps a bit pattern.
    pub fn from_bits(bits: u32) -> (f: F32)
        ensures
            f.bits == bits,
    {
        F32 { bits }
    }

    pub fn is_nan(&self) -> (b: bool)
        ensures
            b == self.nan(),
    {
        if self.bits < 0x8000_0000 {
            self.bits > 0x7f80_0000
        } else {
            self.bits - 0x8000_0000 > 0x7f80_0000
        }
    }

    pub fn is_finite(&self) -> (b: bool)
        ensures
            b == self.finite(),
    {
        if self.bits < 0x8000_0000 {
            self.bits < 0x7f80_0000
        } else {
            self.bits - 0x8000_0000 < 0x7f80_0000
        }
    }

    /// The signed magnitude as a machine integer.
    pub fn order_key(&self) -> (k: i32)
        ensures
            k as int == self.key(),
    {
        if self.bits < 0x8000_0000 {
            self.bits as i32
        } else {
            0i32 - ((self.bits - 0x8000_0000) as i32)
        }
    }

    /// The rank in the total order, shifted to be non-negative.
    pub fn total_rank(&self) -> (k: u32)
        ensures
            k as int == self.total_key() + 0x8000_0000,
    {
        if self.bits < 0x8000_0000 {
            self.bits + 0x8000_0000
        } else {
            0xffff_ffff - self.bits
        }
    }

    pub fn lt(&self, other: &F32) -> (b: bool)
        ensures
            b == self.below(*other),
    {
        !self.is_nan() && !other.is_nan() && self.order_key() < other.order_key()
    }

    pub fn le(&self, other: &F32) -> (b: bool)
        ensures
            b == self.at_most(*other),
    {
        !self.is_nan() && !other.is_nan() && self.order_key() <= other.order_key()
    }

    /// IEEE equality (the derived `==` compares patterns instead).
    pub fn ieee_eq(&self, other: &F32) -> (b: bool)
        ensures
            b == self.same(*other),
    {
        !self.is_nan() && !other.is_nan() && self.order_key() == other.order_key()
    }

    pub fn is_positive(&self) -> (b: bool)
        ensures
            b == self.positive(),
    {
        !self.is_nan() && self.order_key() > 0
    }
}

impl F64 {
    /// The pattern without its sign bit.
    pub open spec fn magnitude(self) -> int {
        if self.bits < 0x8000_0000_0000_0000 {
            self.bits as int
        } else {
            self.bits - 0x8000_0000_0000_0000
        }
    }

    /// Whether the number is not a number.
    pub open spec fn nan(self) -> bool {
        self.magnitude() > 0x7ff0_0000_0000_0000
    }

    /// Whether the number is neither infinite nor not-a-number.
    pub open spec fn finite(self) -> bool {
        self.magnitude() < 0x7ff0_0000_0000_0000
    }

    /// The signed magnitude: it orders all numbers but NaN as IEEE does, with
    /// both zeros at 0.
    pub open spec fn key(self) -> int {
        if self.bits < 0x8000_0000_0000_0000 {
            self.bits as int
        } else {
            0x8000_0000_0000_0000 - self.bits
        }
    }

    /// The rank in the total order on all patterns.
    pub open spec fn total_key(self) -> int {
        if self.bits < 0x8000_0000_0000_0000 {
            self.bits as int
        } else {
            0x7fff_ffff_ffff_ffff - self.bits
        }
    }

    /// IEEE `<`.
    pub open spec fn below(self, other: F64) -> bool {
        !self.nan() && !other.nan() && self.key() < other.key()
    }

    /// IEEE `<=`.
    pub open spec fn at_most(self, other: F64) -> bool {
        !self.nan() && !other.nan() && self.key() <= other.key()
    }

    /// IEEE `==`.
    pub open spec fn same(self, other: F64) -> bool {
        !self.nan() && !other.nan() && self.key() == other.key()
    }

    /// Whether the number is above zero.
    pub open spec fn positive(self) -> bool {
        !self.nan() && self.key() > 0
    }

    /// Wraps a bit pattern.
    pub fn from_bits(bits: u64) -> (f: F64)
        ensures
            f.bits == bits,
    {
        F64 { bits }
    }

    pub fn is_nan(&self) -> (b: bool)
        ensures
            b == self.nan(),
    {
        if self.bits < 0x8000_0000_0000_0000 {
            self.bits > 0x7ff0_0000_0000_0000
        } else {
            self.bits - 0x8000_0000_0000_0000 > 0x7ff0_0000_0000_0000
        }
    }

    pub fn is_finite(&self) -> (b: bool)
        ensures
            b == self.finite(),
    {
        if self.bits < 0x8000_0000_0000_0000 {
            self.bits < 0x7ff0_0000_0000_0000
        } else {
            self.bits - 0x8000_0000_0000_0000 < 0x7ff0_0000_0000_0000
        }
    }

    /// The signed magnitude as a machine integer.
    pub fn order_key(&self) -> (k: i64)
        ensures
            k as int == self.key(),
    {
        if self.bits < 0x8000_0000_0000_0000 {
            self.bits as i64
        } else {
            0i64 - ((self.bits - 0x8000_0000_0000_0000) as i64)
        }
    }

    /// The rank in the total order, shifted to be non-negative.
    pub fn total_rank(&self) -> (k: u64)
        ensures
            k as int == self.total_key() + 0x8000_0000_0000_0000,
    {
        if self.bits < 0x8000_0000_0000_0000 {
            self.bits + 0x8000_0000_0000_0000
        } else {
            0xffff_ffff_ffff_ffff - self.bits
        }
    }

    pub fn lt(&self, other: &F64) -> (b: bool)
        ensures
            b == self.below(*other),
    {
        !self.is_nan() && !other.is_nan() && self.order_key() < other.order_key()
    }

    pub fn le(&self, other: &F64) -> (b: bool)
        ensures
            b == self.at_most(*other),
    {
        !self.is_nan() && !other.is_nan() && self.order_key() <= other.order_key()
    }

    /// IEEE equality (the derived `==` compares patterns instead).
    pub fn ieee_eq(&self, other: &F64) -> (b: bool)
        ensures
            b == self.same(*other),
    {
        !self.is_nan() && !other.is_nan() && self.order_key() == other.order_key()
    }

    pub fn is_positive(&self) -> (b: bool)
        ensures
            b == self.positive(),
    {
        !self.is_nan() && self.order_key() > 0
    }
}

} // verus!
