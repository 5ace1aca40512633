//! The rounding operations on floating-point values, as a parameter.
//!
//! What the rounding operations of a machine and of its mathematics library
//! give is not decided in this crate: its functions take an [`Arithmetic`] and
//! say which operations they apply to which values, in which order. Their
//! contracts are exact for every arithmetic whose operations give what it says
//! they give, which [`steady`] states.

use vstd::prelude::*;

use crate::float::{Double, Float};

verus! {

/// The rounding operations. Each stands here twice: as a function that says
/// what it gives, for contracts, and as the operation itself. An arithmetic
/// that does not define the former gives whatever the latter can return.
/// Nothing is assumed of the operations, nor that they agree with what is said
/// of them.
pub trait Arithmetic: Sized {
    /// `a + b`.
    open spec fn sum(&self, a: Float, b: Float) -> Float {
        choose|r: Float| call_ensures(Self::add, (self, a, b), r)
    }

    /// `a + b`.
    fn add(&self, a: Float, b: Float) -> Float;

    /// `a - b`.
    open spec fn difference(&self, a: Float, b: Float) -> Float {
        choose|r: Float| call_ensures(Self::sub, (self, a, b), r)
    }

    /// `a - b`.
    fn sub(&self, a: Float, b: Float) -> Float;

    /// `a * b`.
    open spec fn product(&self, a: Float, b: Float) -> Float {
        choose|r: Float| call_ensures(Self::mul, (self, a, b), r)
    }

    /// `a * b`.
    fn mul(&self, a: Float, b: Float) -> Float;

    /// `a / b`.
    open spec fn quotient(&self, a: Float, b: Float) -> Float {
        choose|r: Float| call_ensures(Self::div, (self, a, b), r)
    }

    /// `a / b`.
    fn div(&self, a: Float, b: Float) -> Float;

    /// `a * b + c`, rounded once.
    open spec fn fused_sum(&self, a: Float, b: Float, c: Float) -> Float {
        choose|r: Float| call_ensures(Self::fused, (self, a, b, c), r)
    }

    /// `a * b + c`, rounded once.
    fn fused(&self, a: Float, b: Float, c: Float) -> Float;

    /// The remainder of `a` by `b` that is not negative.
    open spec fn remainder(&self, a: Float, b: Float) -> Float {
        choose|r: Float| call_ensures(Self::modulo, (self, a, b), r)
    }

    /// The remainder of `a` by `b` that is not negative.
    fn modulo(&self, a: Float, b: Float) -> Float;

    /// The square root.
    open spec fn square_root(&self, a: Float) -> Float {
        choose|r: Float| call_ensures(Self::sqrt, (self, a), r)
    }

    /// The square root.
    fn sqrt(&self, a: Float) -> Float;

    /// The sine of an angle in radians.
    open spec fn sine(&self, a: Float) -> Float {
        choose|r: Float| call_ensures(Self::sin, (self, a), r)
    }

    /// The sine of an angle in radians.
    fn sin(&self, a: Float) -> Float;

    /// The cosine of an angle in radians.
    open spec fn cosine(&self, a: Float) -> Float {
        choose|r: Float| call_ensures(Self::cos, (self, a), r)
    }

    /// The cosine of an angle in radians.
    fn cos(&self, a: Float) -> Float;

    /// The exponential function.
    open spec fn exponential(&self, a: Float) -> Float {
        choose|r: Float| call_ensures(Self::exp, (self, a), r)
    }

    /// The exponential function.
    fn exp(&self, a: Float) -> Float;

    /// The logarithm to base ten.
    open spec fn logarithm(&self, a: Float) -> Float {
        choose|r: Float| call_ensures(Self::log10, (self, a), r)
    }

    /// The logarithm to base ten.
    fn log10(&self, a: Float) -> Float;

    /// `a` to the power of `b`.
    open spec fn power(&self, a: Float, b: Float) -> Float {
        choose|r: Float| call_ensures(Self::powf, (self, a, b), r)
    }

    /// `a` to the power of `b`.
    fn powf(&self, a: Float, b: Float) -> Float;

    /// `a` to a whole power.
    open spec fn whole_power(&self, a: Float, n: i32) -> Float {
        choose|r: Float| call_ensures(Self::powi, (self, a, n), r)
    }

    /// `a` to a whole power.
    fn powi(&self, a: Float, n: i32) -> Float;

    /// The value nearest to a whole number.
    open spec fn of_index(&self, n: usize) -> Float {
        choose|r: Float| call_ensures(Self::from_index, (self, n), r)
    }

    /// The value nearest to a whole number.
    fn from_index(&self, n: usize) -> Float;

    /// The largest whole number up to `a`, or the nearest index to it.
    open spec fn index_below(&self, a: Float) -> usize {
        choose|r: usize| call_ensures(Self::floor_index, (self, a), r)
    }

    /// The largest whole number up to `a`, or the nearest index to it.
    fn floor_index(&self, a: Float) -> usize;

    /// The smallest whole number from `a` on, or the nearest index to it.
    open spec fn index_above(&self, a: Float) -> usize {
        choose|r: usize| call_ensures(Self::ceil_index, (self, a), r)
    }

    /// The smallest whole number from `a` on, or the nearest index to it.
    fn ceil_index(&self, a: Float) -> usize;

    /// The whole number nearest to `a`, or the nearest index to it.
    open spec fn index_near(&self, a: Float) -> usize {
        choose|r: usize| call_ensures(Self::round_index, (self, a), r)
    }

    /// The whole number nearest to `a`, or the nearest index to it.
    fn round_index(&self, a: Float) -> usize;

    /// The whole number nearest to `a`, or the nearest byte to it.
    open spec fn byte_near(&self, a: Float) -> u8 {
        choose|r: u8| call_ensures(Self::round_byte, (self, a), r)
    }

    /// The whole number nearest to `a`, or the nearest byte to it.
    fn round_byte(&self, a: Float) -> u8;

    /// The whole number nearest to `a`, or the nearest count to it.
    open spec fn count_near(&self, a: Float) -> u64 {
        choose|r: u64| call_ensures(Self::round_count, (self, a), r)
    }

    /// The whole number nearest to `a`, or the nearest count to it.
    fn round_count(&self, a: Float) -> u64;

    /// The same value in double precision.
    open spec fn wide(&self, a: Float) -> Double {
        choose|r: Double| call_ensures(Self::widen, (self, a), r)
    }

    /// The same value in double precision.
    fn widen(&self, a: Float) -> Double;

    /// A whole number in double precision.
    open spec fn wide_of(&self, n: u32) -> Double {
        choose|r: Double| call_ensures(Self::wide_from, (self, n), r)
    }

    /// A whole number in double precision.
    fn wide_from(&self, n: u32) -> Double;

    /// `a + b` in double precision.
    open spec fn wide_sum(&self, a: Double, b: Double) -> Double {
        choose|r: Double| call_ensures(Self::wide_add, (self, a, b), r)
    }

    /// `a + b` in double precision.
    fn wide_add(&self, a: Double, b: Double) -> Double;

    /// `a * b` in double precision.
    open spec fn wide_product(&self, a: Double, b: Double) -> Double {
        choose|r: Double| call_ensures(Self::wide_mul, (self, a, b), r)
    }

    /// `a * b` in double precision.
    fn wide_mul(&self, a: Double, b: Double) -> Double;

    /// `a / b` in double precision.
    open spec fn wide_quotient(&self, a: Double, b: Double) -> Double {
        choose|r: Double| call_ensures(Self::wide_div, (self, a, b), r)
    }

    /// `a / b` in double precision.
    fn wide_div(&self, a: Double, b: Double) -> Double;
}

/// Whether every operation gives what the arithmetic says that it gives.
pub open spec fn steady<A: Arithmetic>(alu: &A) -> bool {
    &&& forall|a: Float, b: Float, r: Float| #[trigger]
        call_ensures(A::add, (alu, a, b), r) ==> r == alu.sum(a, b)
    &&& forall|a: Float, b: Float, r: Float| #[trigger]
        call_ensures(A::sub, (alu, a, b), r) ==> r == alu.difference(a, b)
    &&& forall|a: Float, b: Float, r: Float| #[trigger]
        call_ensures(A::mul, (alu, a, b), r) ==> r == alu.product(a, b)
    &&& forall|a: Float, b: Float, r: Float| #[trigger]
        call_ensures(A::div, (alu, a, b), r) ==> r == alu.quotient(a, b)
    &&& forall|a: Float, b: Float, c: Float, r: Float| #[trigger]
        call_ensures(A::fused, (alu, a, b, c), r) ==> r == alu.fused_sum(a, b, c)
    &&& forall|a: Float, b: Float, r: Float| #[trigger]
        call_ensures(A::modulo, (alu, a, b), r) ==> r == alu.remainder(a, b)
    &&& forall|a: Float, r: Float| #[trigger]
        call_ensures(A::sqrt, (alu, a), r) ==> r == alu.square_root(a)
    &&& forall|a: Float, r: Float| #[trigger]
        call_ensures(A::sin, (alu, a), r) ==> r == alu.sine(a)
    &&& forall|a: Float, r: Float| #[trigger]
        call_ensures(A::cos, (alu, a), r) ==> r == alu.cosine(a)
    &&& forall|a: Float, r: Float| #[trigger]
        call_ensures(A::exp, (alu, a), r) ==> r == alu.exponential(a)
    &&& forall|a: Float, r: Float| #[trigger]
        call_ensures(A::log10, (alu, a), r) ==> r == alu.logarithm(a)
    &&& forall|a: Float, b: Float, r: Float| #[trigger]
        call_ensures(A::powf, (alu, a, b), r) ==> r == alu.power(a, b)
    &&& forall|a: Float, n: i32, r: Float| #[trigger]
        call_ensures(A::powi, (alu, a, n), r) ==> r == alu.whole_power(a, n)
    &&& forall|n: usize, r: Float| #[trigger]
        call_ensures(A::from_index, (alu, n), r) ==> r == alu.of_index(n)
    &&& forall|a: Float, r: usize| #[trigger]
        call_ensures(A::floor_index, (alu, a), r) ==> r == alu.index_below(a)
    &&& forall|a: Float, r: usize| #[trigger]
        call_ensures(A::ceil_index, (alu, a), r) ==> r == alu.index_above(a)
    &&& forall|a: Float, r: usize| #[trigger]
        call_ensures(A::round_index, (alu, a), r) ==> r == alu.index_near(a)
    &&& forall|a: Float, r: u8| #[trigger]
        call_ensures(A::round_byte, (alu, a), r) ==> r == alu.byte_near(a)
    &&& forall|a: Float, r: u64| #[trigger]
        call_ensures(A::round_count, (alu, a), r) ==> r == alu.count_near(a)
    &&& forall|a: Float, r: Double| #[trigger]
        call_ensures(A::widen, (alu, a), r) ==> r == alu.wide(a)
    &&& forall|n: u32, r: Double| #[trigger]
        call_ensures(A::wide_from, (alu, n), r) ==> r == alu.wide_of(n)
    &&& forall|a: Double, b: Double, r: Double| #[trigger]
        call_ensures(A::wide_add, (alu, a, b), r) ==> r == alu.wide_sum(a, b)
    &&& forall|a: Double, b: Double, r: Double| #[trigger]
        call_ensures(A::wide_mul, (alu, a, b), r) ==> r == alu.wide_product(a, b)
    &&& forall|a: Double, b: Double, r: Double| #[trigger]
        call_ensures(A::wide_div, (alu, a, b), r) ==> r == alu.wide_quotient(a, b)
}

} // verus!
