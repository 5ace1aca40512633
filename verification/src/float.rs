//! Single-precision values as their bit patterns.
//!
//! A [`Float`] is the IEEE 754 binary32 encoding of a sample, a magnitude or a
//! coordinate. Storing, ordering, clamping and selecting such values needs no
//! rounding, so all of it is done here on the encoding; rounding operations
//! are left to [`crate::arith::Arithmetic`].

use vstd::prelude::*;

verus! {

/// A binary32 value, by its encoding: a sign bit, eight exponent bits and
/// twenty-three fraction bits, most significant first.
#[derive(Clone, Copy, PartialEq, Eq, Structural, Debug, Hash)]
pub struct Float(pub u32);

/// A binary64 value, by its encoding.
#[derive(Clone, Copy, PartialEq, Eq, Structural, Debug, Hash)]
pub struct Double(pub u64);

/// Encoding of positive infinity, the largest encoding that is not a NaN once
/// the sign is dropped.
pub const INFINITY: u32 = 0x7f80_0000;

/// Encoding of negative infinity.
pub const NEG_INFINITY: u32 = 0xff80_0000;

/// The sign bit on its own, which is also how many encodings are non-negative.
pub const SIGN: u32 = 0x8000_0000;

/// Encoding of `0.0`.
pub const ZERO: u32 = 0;

/// Encoding of `0.5`.
pub const HALF: u32 = 0x3f00_0000;

/// Encoding of `1.0`.
pub const ONE: u32 = 0x3f80_0000;

/// Encoding of `2.0`.
pub const TWO: u32 = 0x4000_0000;

/// Encoding of `4.0`.
pub const FOUR: u32 = 0x4080_0000;

impl Float {
    /// The encoding without its sign. It grows with the absolute value.
    pub open spec fn magnitude(self) -> int {
        if self.0 >= SIGN {
            self.0 - SIGN
        } else {
            self.0 as int
        }
    }

    /// Whether the value is not a number.
    pub open spec fn nan(self) -> bool {
        self.magnitude() > INFINITY
    }

    /// Whether the value is a number other than the two infinities.
    pub open spec fn finite(self) -> bool {
        self.magnitude() < INFINITY
    }

    /// An integer that orders all values that are numbers: two of them compare
    /// as their ranks do, and both zeros have rank 0.
    pub open spec fn rank(self) -> int {
        if self.0 >= SIGN {
            -self.magnitude()
        } else {
            self.magnitude()
        }
    }

    /// `self < other`, which no NaN satisfies.
    pub open spec fn below(self, other: Float) -> bool {
        !self.nan() && !other.nan() && self.rank() < other.rank()
    }

    /// `self <= other`, which no NaN satisfies.
    pub open spec fn at_most(self, other: Float) -> bool {
        !self.nan() && !other.nan() && self.rank() <= other.rank()
    }

    /// The value with its sign cleared.
    pub open spec fn absolute(self) -> Float {
        Float(self.magnitude() as u32)
    }

    /// The value with its sign flipped.
    pub open spec fn opposite(self) -> Float {
        if self.0 >= SIGN {
            Float((self.0 - SIGN) as u32)
        } else {
            Float((self.0 + SIGN) as u32)
        }
    }

    /// The smaller of two values. A NaN gives way to the other value, and of
    /// two values that compare equal the first is taken.
    pub open spec fn lesser(self, other: Float) -> Float {
        if self.nan() || other.below(self) {
            other
        } else {
            self
        }
    }

    /// The larger of two values. A NaN gives way to the other value, and of
    /// two values that compare equal the first is taken.
    pub open spec fn greater(self, other: Float) -> Float {
        if self.nan() || self.below(other) {
            other
        } else {
            self
        }
    }

    /// The value moved into `[lo, hi]`; a NaN stays a NaN.
    pub open spec fn clamped(self, lo: Float, hi: Float) -> Float {
        if self.below(lo) {
            lo
        } else if hi.below(self) {
            hi
        } else {
            self
        }
    }

    fn rank_of(self) -> (r: i64)
        ensures
            r == self.rank(),
    {
        if self.0 >= SIGN {
            -((self.0 - SIGN) as i64)
        } else {
            self.0 as i64
        }
    }

    pub fn is_nan(self) -> (r: bool)
        ensures
            r == self.nan(),
    {
        if self.0 >= SIGN {
            self.0 - SIGN > INFINITY
        } else {
            self.0 > INFINITY
        }
    }

    pub fn is_finite(self) -> (r: bool)
        ensures
            r == self.finite(),
    {
        if self.0 >= SIGN {
            self.0 - SIGN < INFINITY
        } else {
            self.0 < INFINITY
        }
    }

    /// The operator `<`.
    pub fn lt(self, other: Float) -> (r: bool)
        ensures
            r == self.below(other),
    {
        !self.is_nan() && !other.is_nan() && self.rank_of() < other.rank_of()
    }

    /// The operator `<=`.
    pub fn le(self, other: Float) -> (r: bool)
        ensures
            r == self.at_most(other),
    {
        !self.is_nan() && !other.is_nan() && self.rank_of() <= other.rank_of()
    }

    pub fn abs(self) -> (r: Float)
        ensures
            r == self.absolute(),
    {
        if self.0 >= SIGN {
            Float(self.0 - SIGN)
        } else {
            self
        }
    }

    pub fn neg(self) -> (r: Float)
        ensures
            r == self.opposite(),
    {
        if self.0 >= SIGN {
            Float(self.0 - SIGN)
        } else {
            Float(self.0 + SIGN)
        }
    }

    pub fn min(self, other: Float) -> (r: Float)
        ensures
            r == self.lesser(other),
    {
        if self.is_nan() || other.lt(self) {
            other
        } else {
            self
        }
    }

    pub fn max(self, other: Float) -> (r: Float)
        ensures
            r == self.greater(other),
    {
        if self.is_nan() || self.lt(other) {
            other
        } else {
            self
        }
    }

    /// Moves the value into `[lo, hi]`.
    pub fn clamp(self, lo: Float, hi: Float) -> (r: Float)
        requires
            lo.at_most(hi),
        ensures
            r == self.clamped(lo, hi),
            self.nan() ==> r == self,
            !self.nan() ==> lo.at_most(r) && r.at_most(hi),
    {
        if self.lt(lo) {
            lo
        } else if hi.lt(self) {
            hi
        } else {
            self
        }
    }
}

impl Default for Float {
    /// `0.0`.
    fn default() -> (r: Float)
        ensures
            r == Float(ZERO),
    {
        Float(ZERO)
    }
}

/// On numbers, `<=` is a total order: it holds one way or the other, it
/// chains, and it holds both ways only of values that compare equal.
pub proof fn law_order_of_numbers(a: Float, b: Float, c: Float)
    requires
        !a.nan(),
        !b.nan(),
        !c.nan(),
    ensures
        a.at_most(b) || b.at_most(a),
        a.at_most(b) && b.at_most(c) ==> a.at_most(c),
        a.at_most(b) && b.at_most(a) <==> !a.below(b) && !b.below(a),
        a.below(b) <==> a.at_most(b) && !b.at_most(a),
{
}

/// Every comparison with a NaN fails.
pub proof fn law_nan_is_unordered(a: Float, b: Float)
    requires
        a.nan() || b.nan(),
    ensures
        !a.below(b),
        !b.below(a),
        !a.at_most(b),
        !b.at_most(a),
{
}

/// The smaller and the larger of two numbers are these two numbers, in order.
pub proof fn law_smaller_and_larger(a: Float, b: Float)
    requires
        !a.nan(),
        !b.nan(),
    ensures
        a.lesser(b) == a || a.lesser(b) == b,
        a.lesser(b).at_most(a) && a.lesser(b).at_most(b),
        a.greater(b) == a || a.greater(b) == b,
        a.at_most(a.greater(b)) && b.at_most(a.greater(b)),
        a.lesser(b).rank() + a.greater(b).rank() == a.rank() + b.rank(),
{
}

/// A NaN gives way to a number.
pub proof fn law_nan_gives_way(a: Float, b: Float)
    requires
        a.nan(),
    ensures
        a.lesser(b) == b && a.greater(b) == b,
        !b.nan() ==> b.lesser(a) == b && b.greater(a) == b,
{
}

/// A number that is moved into a range lies in it, stays where it is if it lay
/// there, and otherwise goes no farther than to the nearer end.
pub proof fn law_clamping(a: Float, lo: Float, hi: Float)
    requires
        !a.nan(),
        lo.at_most(hi),
    ensures
        lo.at_most(a.clamped(lo, hi)) && a.clamped(lo, hi).at_most(hi),
        lo.at_most(a) && a.at_most(hi) ==> a.clamped(lo, hi) == a,
        a.below(lo) ==> a.clamped(lo, hi) == lo,
        hi.below(a) ==> a.clamped(lo, hi) == hi,
{
}

/// Changing the sign mirrors the order at zero and undoes itself; clearing it
/// gives the value or its mirror image, whichever is not negative.
pub proof fn law_signs(a: Float)
    ensures
        a.opposite().rank() == -a.rank(),
        a.opposite().opposite() == a,
        a.opposite() != a,
        a.opposite().nan() == a.nan(),
        a.absolute() == a || a.absolute() == a.opposite(),
        a.absolute().rank() >= 0,
        a.absolute().absolute() == a.absolute(),
{
}

} // verus!
