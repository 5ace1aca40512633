//! Arithmetic without rounding.
//!
//! What a formula is for shows where nothing is rounded. A [`Reading`] says
//! which encodings stand for real numbers, and for which. An arithmetic is
//! [`exact`] with respect to it if whatever an operation gives that stands for
//! a number is the true result; where the true result has no encoding, the
//! operation gives something that stands for no number, such as a NaN, and so
//! does everything that is computed from that.

use vstd::prelude::*;

use crate::arith::Arithmetic;
use crate::float::{Double, Float};

verus! {

/// The product of two numbers.
#[verifier::opaque]
pub open spec fn times(a: real, b: real) -> real {
    a * b
}

/// The quotient of two numbers.
#[verifier::opaque]
pub open spec fn over(a: real, b: real) -> real {
    a / b
}

/// Which encodings stand for numbers, and the functions of real numbers that
/// an arithmetic provides.
pub struct Reading {
    pub counted: spec_fn(Float) -> bool,
    pub number: spec_fn(Float) -> real,
    pub wide_counted: spec_fn(Double) -> bool,
    pub wide_number: spec_fn(Double) -> real,
    /// A full turn, in the unit that angles are measured in.
    pub turn: real,
    pub sin: spec_fn(real) -> real,
    pub cos: spec_fn(real) -> real,
    /// The logarithm to base ten of a positive number.
    pub log: spec_fn(real) -> real,
    pub exp: spec_fn(real) -> real,
    /// A positive number to the power of another.
    pub pow: spec_fn(real, real) -> real,
}

impl Reading {
    /// Whether an encoding stands for a number.
    pub open spec fn has(self, a: Float) -> bool {
        (self.counted)(a)
    }

    /// The number that an encoding stands for.
    pub open spec fn num(self, a: Float) -> real {
        (self.number)(a)
    }

    /// Whether a double-precision encoding stands for a number.
    pub open spec fn wide_has(self, a: Double) -> bool {
        (self.wide_counted)(a)
    }

    /// The number that a double-precision encoding stands for.
    pub open spec fn wide_num(self, a: Double) -> real {
        (self.wide_number)(a)
    }

    /// Encodings are ordered as the numbers that they stand for, a change of
    /// sign changes the sign, and the simplest constants are what they are: 0,
    /// one half, 1, 2, 4, a turn forward and backward, half a turn, 20, and 90.
    pub open spec fn orders(self) -> bool {
        &&& forall|a: Float| #[trigger] self.has(a) ==> !a.nan()
        &&& forall|a: Float, b: Float|
            self.has(a) && self.has(b) ==> (#[trigger] a.at_most(b) <==> self.num(a) <= self.num(b))
        &&& forall|a: Float|
            self.has(#[trigger] a.opposite()) == self.has(a) && (self.has(a) ==> self.num(
                a.opposite(),
            ) == -self.num(a))
        &&& forall|a: Float|
            self.has(#[trigger] a.absolute()) == self.has(a) && (self.has(a) ==> self.num(
                a.absolute(),
            ) == if self.num(a) < 0real {
                -self.num(a)
            } else {
                self.num(a)
            })
        &&& self.has(Float(0)) && self.num(Float(0)) == 0real
        &&& self.has(Float(0x3f00_0000)) && self.num(Float(0x3f00_0000)) == 1real / 2real
        &&& self.has(Float(0x3f80_0000)) && self.num(Float(0x3f80_0000)) == 1real
        &&& self.has(Float(0x4000_0000)) && self.num(Float(0x4000_0000)) == 2real
        &&& self.has(Float(0x4080_0000)) && self.num(Float(0x4080_0000)) == 4real
        &&& self.has(Float(0x40c9_0fdb)) ==> self.num(Float(0x40c9_0fdb)) == self.turn
        &&& self.has(Float(0xc0c9_0fdb)) ==> self.num(Float(0xc0c9_0fdb)) == -self.turn
        &&& self.has(Float(0x4049_0fdb)) ==> self.num(Float(0x4049_0fdb)) == self.turn / 2real
        &&& self.has(Float(0x41a0_0000)) ==> self.num(Float(0x41a0_0000)) == 20real
        &&& self.has(Float(0x42b4_0000)) ==> self.num(Float(0x42b4_0000)) == 90real
        &&& self.wide_has(Double(0x3fe0_0000_0000_0000)) ==> self.wide_num(
            Double(0x3fe0_0000_0000_0000),
        ) == 1real / 2real
        &&& self.wide_has(Double(0x4010_0000_0000_0000)) ==> self.wide_num(
            Double(0x4010_0000_0000_0000),
        ) == 4real
    }

    /// The laws of sine and cosine.
    #[verifier::opaque]
    pub open spec fn turns(self) -> bool {
        &&& self.turn > 0real
        &&& (self.cos)(0real) == 1real
        &&& (self.sin)(0real) == 0real
        &&& (self.cos)(self.turn / 4real) == 0real
        &&& (self.sin)(self.turn / 4real) == 1real
        &&& forall|x: real, y: real|
            #![trigger (self.cos)(x), (self.cos)(y)]
            (self.cos)(x + y) == times((self.cos)(x), (self.cos)(y)) - times(
                (self.sin)(x),
                (self.sin)(y),
            )
        &&& forall|x: real, y: real|
            #![trigger (self.cos)(x), (self.cos)(y)]
            (self.sin)(x + y) == times((self.sin)(x), (self.cos)(y)) + times(
                (self.cos)(x),
                (self.sin)(y),
            )
        &&& forall|x: real|
            #![trigger (self.cos)(x)]
            times((self.sin)(x), (self.sin)(x)) + times((self.cos)(x), (self.cos)(x)) == 1real
        &&& forall|x: real|
            0real < x && x < self.turn / 2real ==> #[trigger] (self.sin)(x) > 0real
    }

    /// The laws of logarithm, exponential function and powers.
    #[verifier::opaque]
    pub open spec fn grows(self) -> bool {
        &&& (self.log)(1real) == 0real
        &&& (self.log)(10real) == 1real
        &&& forall|x: real, y: real|
            #![trigger (self.log)(x), (self.log)(y)]
            x > 0real && y > 0real ==> (self.log)(times(x, y)) == (self.log)(x) + (self.log)(y)
        &&& forall|x: real, y: real|
            0real < x && x < y ==> #[trigger] (self.log)(x) < #[trigger] (self.log)(y)
        &&& (self.exp)(0real) == 1real
        &&& forall|x: real| #[trigger] (self.exp)(x) > 0real
        &&& forall|x: real, y: real| x < y ==> #[trigger] (self.exp)(x) < #[trigger] (self.exp)(y)
        &&& forall|x: real, y: real| x > 0real ==> #[trigger] (self.pow)(x, y) > 0real
        &&& forall|x: real, y: real, z: real|
            #![trigger (self.pow)(x, y), (self.pow)(x, z)]
            x > 0real ==> (self.pow)(x, y + z) == times((self.pow)(x, y), (self.pow)(x, z))
        &&& forall|x: real| x > 0real ==> #[trigger] (self.pow)(x, 1real) == x
        &&& forall|x: real, y: real, z: real|
            0real < x && x < y && z > 0real ==> #[trigger] (self.pow)(x, z) < #[trigger] (
            self.pow)(y, z)
        &&& forall|y: real| #[trigger] (self.pow)(1real, y) == 1real
    }
}

/// A number multiplied with itself `n` times.
pub open spec fn raised(x: real, n: nat) -> real
    decreases n,
{
    if n == 0 {
        1real
    } else {
        times(raised(x, (n - 1) as nat), x)
    }
}

/// Whether every operation of an arithmetic gives the true result where it
/// gives anything that stands for a number.
pub open spec fn exact<A: Arithmetic>(alu: &A, m: Reading) -> bool {
    &&& m.orders()
    &&& m.turns()
    &&& m.grows()
    &&& adds_exactly(alu, m)
    &&& maps_exactly(alu, m)
    &&& counts_exactly(alu, m)
    &&& widens_exactly(alu, m)
}

/// The part of [`exact`] that is about sums, products and their inverses.
pub open spec fn adds_exactly<A: Arithmetic>(alu: &A, m: Reading) -> bool {
    &&& forall|a: Float, b: Float|
        m.has(#[trigger] alu.sum(a, b)) ==> m.has(a) && m.has(b) && m.num(alu.sum(a, b)) == m.num(a)
            + m.num(b)
    &&& forall|a: Float, b: Float|
        m.has(#[trigger] alu.difference(a, b)) ==> m.has(a) && m.has(b) && m.num(
            alu.difference(a, b),
        ) == m.num(a) - m.num(b)
    &&& forall|a: Float, b: Float|
        m.has(#[trigger] alu.product(a, b)) ==> m.has(a) && m.has(b) && m.num(alu.product(a, b))
            == times(m.num(a), m.num(b))
    &&& forall|a: Float, b: Float|
        m.has(#[trigger] alu.quotient(a, b)) ==> m.has(a) && m.has(b) && m.num(b) != 0real && times(
            m.num(alu.quotient(a, b)),
            m.num(b),
        ) == m.num(a)
    &&& forall|a: Float, b: Float, c: Float|
        m.has(#[trigger] alu.fused_sum(a, b, c)) ==> m.has(a) && m.has(b) && m.has(c) && m.num(
            alu.fused_sum(a, b, c),
        ) == times(m.num(a), m.num(b)) + m.num(c)
    &&& forall|a: Float, b: Float|
        m.has(#[trigger] alu.remainder(a, b)) ==> m.has(a) && m.has(b) && wraps(
            m.num(a),
            m.num(b),
            m.num(alu.remainder(a, b)),
        )
}

/// Whether `r` is what is left of `a` once `b` has been taken away as often as
/// it goes in.
pub open spec fn wraps(a: real, b: real, r: real) -> bool {
    &&& 0real <= r
    &&& r < b || r < -b
    &&& exists|k: int| a == times(#[trigger] whole(k), b) + r
}

/// The part of [`exact`] that is about functions of one number and powers.
pub open spec fn maps_exactly<A: Arithmetic>(alu: &A, m: Reading) -> bool {
    &&& forall|a: Float|
        m.has(#[trigger] alu.square_root(a)) ==> m.has(a) && m.num(alu.square_root(a)) >= 0real
            && times(m.num(alu.square_root(a)), m.num(alu.square_root(a))) == m.num(a)
    &&& forall|a: Float|
        m.has(#[trigger] alu.sine(a)) ==> m.has(a) && m.num(alu.sine(a)) == (m.sin)(m.num(a))
    &&& forall|a: Float|
        m.has(#[trigger] alu.cosine(a)) ==> m.has(a) && m.num(alu.cosine(a)) == (m.cos)(m.num(a))
    &&& forall|a: Float|
        m.has(#[trigger] alu.exponential(a)) ==> m.has(a) && m.num(alu.exponential(a)) == (m.exp)(
            m.num(a),
        )
    &&& forall|a: Float|
        m.has(#[trigger] alu.logarithm(a)) ==> m.has(a) && m.num(a) > 0real && m.num(
            alu.logarithm(a),
        ) == (m.log)(m.num(a))
    &&& forall|a: Float, b: Float|
        m.has(#[trigger] alu.power(a, b)) ==> m.has(a) && m.has(b) && (m.num(a) > 0real ==> m.num(
            alu.power(a, b),
        ) == (m.pow)(m.num(a), m.num(b)))
    &&& forall|a: Float, n: i32|
        m.has(#[trigger] alu.whole_power(a, n)) && n >= 0 ==> m.has(a) && m.num(
            alu.whole_power(a, n),
        ) == raised(m.num(a), n as nat)
}

/// A whole number as a real one.
pub open spec fn whole(n: int) -> real {
    n as real
}

/// Whether a whole number is one of those nearest to a real number.
pub open spec fn is_near(n: int, x: real) -> bool {
    x - 1real / 2real <= whole(n) && whole(n) <= x + 1real / 2real
}

/// The part of [`exact`] that is about whole numbers.
pub open spec fn counts_exactly<A: Arithmetic>(alu: &A, m: Reading) -> bool {
    &&& forall|n: usize|
        m.has(#[trigger] alu.of_index(n)) ==> m.num(alu.of_index(n)) == whole(n as int)
    &&& forall|a: Float|
        #![trigger alu.index_below(a)]
        m.has(a) && 0real <= m.num(a) && m.num(a) < whole(usize::MAX as int) ==> whole(
            alu.index_below(a) as int,
        ) <= m.num(a) && m.num(a) < whole(alu.index_below(a) + 1)
    &&& forall|a: Float|
        #![trigger alu.index_above(a)]
        m.has(a) && 0real <= m.num(a) && m.num(a) < whole(usize::MAX as int) ==> m.num(a) <= whole(
            alu.index_above(a) as int,
        ) && whole(alu.index_above(a) - 1) < m.num(a)
    &&& forall|a: Float|
        #![trigger alu.index_near(a)]
        m.has(a) && 0real <= m.num(a) && m.num(a) < whole(usize::MAX as int) ==> is_near(
            alu.index_near(a) as int,
            m.num(a),
        )
    &&& forall|a: Float|
        #![trigger alu.byte_near(a)]
        m.has(a) && 0real <= m.num(a) && m.num(a) <= 255real ==> is_near(
            alu.byte_near(a) as int,
            m.num(a),
        )
    &&& forall|a: Float|
        #![trigger alu.count_near(a)]
        m.has(a) && 0real <= m.num(a) && m.num(a) < whole(u64::MAX as int) ==> is_near(
            alu.count_near(a) as int,
            m.num(a),
        )
}

/// The part of [`exact`] that is about double precision.
pub open spec fn widens_exactly<A: Arithmetic>(alu: &A, m: Reading) -> bool {
    &&& forall|a: Float|
        m.wide_has(#[trigger] alu.wide(a)) ==> m.has(a) && m.wide_num(alu.wide(a)) == m.num(a)
    &&& forall|n: u32|
        m.wide_has(#[trigger] alu.wide_of(n)) ==> m.wide_num(alu.wide_of(n)) == whole(n as int)
    &&& forall|a: Double, b: Double|
        m.wide_has(#[trigger] alu.wide_sum(a, b)) ==> m.wide_has(a) && m.wide_has(b) && m.wide_num(
            alu.wide_sum(a, b),
        ) == m.wide_num(a) + m.wide_num(b)
    &&& forall|a: Double, b: Double|
        m.wide_has(#[trigger] alu.wide_product(a, b)) ==> m.wide_has(a) && m.wide_has(b)
            && m.wide_num(alu.wide_product(a, b)) == times(m.wide_num(a), m.wide_num(b))
    &&& forall|a: Double, b: Double|
        m.wide_has(#[trigger] alu.wide_quotient(a, b)) ==> m.wide_has(a) && m.wide_has(b)
            && m.wide_num(b) != 0real && times(m.wide_num(alu.wide_quotient(a, b)), m.wide_num(b))
            == m.wide_num(a)
}

proof fn times_is(a: real, b: real)
    ensures
        times(a, b) == a * b,
{
    reveal(times);
}

pub proof fn times_swaps(a: real, b: real)
    ensures
        times(a, b) == times(b, a),
{
    times_is(a, b);
    times_is(b, a);
    assert(a * b == b * a) by (nonlinear_arith);
}

pub proof fn times_groups(a: real, b: real, c: real)
    ensures
        times(times(a, b), c) == times(a, times(b, c)),
{
    reveal(times);
    assert((a * b) * c == a * (b * c)) by (nonlinear_arith);
}

pub proof fn times_spreads(a: real, b: real, c: real)
    ensures
        times(a, b + c) == times(a, b) + times(a, c),
        times(a, b - c) == times(a, b) - times(a, c),
        times(b + c, a) == times(b, a) + times(c, a),
        times(b - c, a) == times(b, a) - times(c, a),
{
    reveal(times);
    assert(a * (b + c) == a * b + a * c) by (nonlinear_arith);
    assert(a * (b - c) == a * b - a * c) by (nonlinear_arith);
    assert((b + c) * a == b * a + c * a) by (nonlinear_arith);
    assert((b - c) * a == b * a - c * a) by (nonlinear_arith);
}

pub proof fn times_simple(a: real)
    ensures
        times(a, 0real) == 0real,
        times(0real, a) == 0real,
        times(a, 1real) == a,
        times(1real, a) == a,
        times(a, 2real) == a + a,
        times(2real, a) == a + a,
{
    reveal(times);
}

pub proof fn times_negated(a: real, b: real)
    ensures
        times(-a, b) == -times(a, b),
        times(a, -b) == -times(a, b),
{
    times_spreads(b, 0real, a);
    times_spreads(a, 0real, b);
    times_simple(a);
    times_simple(b);
    assert(0real - a == -a && 0real - b == -b);
}

/// The sign of a product.
pub proof fn times_signs(a: real, b: real)
    ensures
        a > 0real && b > 0real ==> times(a, b) > 0real,
        a >= 0real && b >= 0real ==> times(a, b) >= 0real,
        times(a, a) >= 0real,
        times(a, b) == 0real ==> a == 0real || b == 0real,
{
    times_is(a, b);
    times_is(a, a);
    assert(a > 0real && b > 0real ==> a * b > 0real) by (nonlinear_arith);
    assert(a >= 0real && b >= 0real ==> a * b >= 0real) by (nonlinear_arith);
    assert(a * a >= 0real) by (nonlinear_arith);
    assert(a * b == 0real ==> a == 0real || b == 0real) by (nonlinear_arith);
}

/// Factors other than zero can be dropped on both sides.
pub proof fn times_cancels(a: real, b: real, c: real)
    requires
        times(a, c) == times(b, c),
        c != 0real,
    ensures
        a == b,
{
    times_spreads(c, a, b);
    times_signs(a - b, c);
}

/// Products with the same positive factor are ordered as the other factors.
pub proof fn times_orders(a: real, b: real, c: real)
    requires
        c > 0real,
    ensures
        a <= b <==> times(a, c) <= times(b, c),
        a < b <==> times(a, c) < times(b, c),
{
    times_spreads(c, b, a);
    times_spreads(c, a, b);
    times_signs(b - a, c);
    times_signs(a - b, c);
    times_signs(c, c);
    times_simple(c);
}

/// A quotient times what was divided by is what was divided.
pub proof fn over_undone(x: real, y: real)
    requires
        y != 0real,
    ensures
        times(over(x, y), y) == x,
{
    reveal(over);
    times_is(x / y, y);
    assert((x / y) * y == x) by (nonlinear_arith)
        requires
            y != 0real,
    ;
}

/// A number is a quotient if it gives the dividend back.
pub proof fn is_over(q: real, x: real, y: real)
    requires
        y != 0real,
        times(q, y) == x,
    ensures
        q == over(x, y),
{
    over_undone(x, y);
    times_cancels(q, over(x, y), y);
}

/// `(a * b) * (c * d) == (a * c) * (b * d)`.
pub proof fn times_regroups(a: real, b: real, c: real, d: real)
    ensures
        times(times(a, b), times(c, d)) == times(times(a, c), times(b, d)),
{
    times_groups(a, b, times(c, d));
    times_groups(b, c, d);
    times_swaps(b, c);
    times_groups(c, b, d);
    times_groups(a, c, times(b, d));
}

/// The square of a sum and of a difference.
pub proof fn squares(a: real, b: real)
    ensures
        times(a + b, a + b) == times(a, a) + times(b, b) + times(a, b) + times(a, b),
        times(a - b, a - b) == times(a, a) + times(b, b) - times(a, b) - times(a, b),
{
    times_spreads(a + b, a, b);
    times_spreads(a, a, b);
    times_spreads(b, a, b);
    times_spreads(a - b, a, b);
    times_swaps(a, b);
}

/// Turning a vector by an angle, given by its cosine and sine, keeps its
/// length.
pub proof fn turning_keeps_length(a: real, b: real, c: real, s: real)
    requires
        times(s, s) + times(c, c) == 1real,
    ensures
        ({
            let p = times(a, c) - times(b, s);
            let q = times(a, s) + times(b, c);
            times(p, p) + times(q, q) == times(a, a) + times(b, b)
        }),
{
    squares(times(a, c), times(b, s));
    squares(times(a, s), times(b, c));
    times_regroups(a, c, a, c);
    times_regroups(b, s, b, s);
    times_regroups(a, s, a, s);
    times_regroups(b, c, b, c);
    times_regroups(a, c, b, s);
    times_regroups(a, s, b, c);
    times_swaps(c, s);
    times_spreads(times(a, a), times(s, s), times(c, c));
    times_spreads(times(b, b), times(s, s), times(c, c));
    times_simple(times(a, a));
    times_simple(times(b, b));
}

/// Sine and cosine of a sum of two angles.
pub proof fn sum_of_angles(m: Reading, x: real, y: real)
    requires
        m.turns(),
    ensures
        (m.cos)(x + y) == times((m.cos)(x), (m.cos)(y)) - times((m.sin)(x), (m.sin)(y)),
        (m.sin)(x + y) == times((m.sin)(x), (m.cos)(y)) + times((m.cos)(x), (m.sin)(y)),
{
    reveal(Reading::turns);
}

/// The point that lies at an angle on the circle has distance one.
pub proof fn on_the_circle(m: Reading, x: real)
    requires
        m.turns(),
    ensures
        times((m.sin)(x), (m.sin)(x)) + times((m.cos)(x), (m.cos)(x)) == 1real,
{
    reveal(Reading::turns);
}

/// Sine and cosine lie between minus one and one.
pub proof fn on_the_circle_within_one(m: Reading, x: real)
    requires
        m.turns(),
    ensures
        -1real <= (m.cos)(x) <= 1real,
        -1real <= (m.sin)(x) <= 1real,
{
    on_the_circle(m, x);
    times_signs((m.cos)(x), 0real);
    times_signs((m.sin)(x), 0real);
    square_within_one((m.cos)(x));
    square_within_one((m.sin)(x));
}

proof fn square_within_one(c: real)
    requires
        times(c, c) <= 1real,
    ensures
        -1real <= c <= 1real,
{
    times_simple(c);
    times_negated(c, c);
    if c > 1real {
        times_orders(1real, c, c);
    }
    if c < -1real {
        times_orders(1real, -c, -c);
        times_negated(c, -c);
        times_simple(-c);
    }
}

/// Sine and cosine of the opposite angle.
pub proof fn opposite_angle(m: Reading, x: real)
    requires
        m.turns(),
    ensures
        (m.cos)(-x) == (m.cos)(x),
        (m.sin)(-x) == -(m.sin)(x),
{
    let (c, s, d, t) = ((m.cos)(x), (m.sin)(x), (m.cos)(-x), (m.sin)(-x));
    sum_of_angles(m, x, -x);
    on_the_circle(m, x);
    assert(x + (-x) == 0real);
    assert((m.cos)(0real) == 1real && (m.sin)(0real) == 0real) by {
        reveal(Reading::turns);
    }
    assert(times(c, d) - times(s, t) == 1real);
    assert(times(s, d) + times(c, t) == 0real);
    // d == (c * d - s * t) * c + (s * d + c * t) * s
    times_spreads(c, times(c, d), times(s, t));
    times_spreads(s, times(s, d), times(c, t));
    times_simple(c);
    times_simple(s);
    moved_out(c, d);
    moved_out(s, d);
    times_swaps(s, t);
    times_groups(t, s, c);
    times_swaps(c, t);
    times_groups(t, c, s);
    times_swaps(c, s);
    times_spreads(d, times(s, s), times(c, c));
    times_simple(d);
    assert(d == c);
    // t == (s * d + c * t) * c - (c * d - s * t) * s
    times_spreads(c, times(s, d), times(c, t));
    times_spreads(s, times(c, d), times(s, t));
    moved_out(c, t);
    moved_out(s, t);
    times_swaps(s, d);
    times_groups(d, s, c);
    times_swaps(c, d);
    times_groups(d, c, s);
    times_spreads(t, times(s, s), times(c, c));
    times_simple(t);
}

/// `(a * b) * a == (a * a) * b`.
proof fn moved_out(a: real, b: real)
    ensures
        times(times(a, b), a) == times(times(a, a), b),
{
    times_swaps(times(a, b), a);
    times_groups(a, a, b);
}

/// Sine and cosine at a quarter, at half and at the whole of a turn.
pub proof fn parts_of_a_turn(m: Reading)
    requires
        m.turns(),
    ensures
        m.turn > 0real,
        (m.cos)(0real) == 1real && (m.sin)(0real) == 0real,
        (m.cos)(m.turn / 4real) == 0real && (m.sin)(m.turn / 4real) == 1real,
        (m.cos)(m.turn / 2real) == -1real && (m.sin)(m.turn / 2real) == 0real,
        (m.cos)(m.turn) == 1real && (m.sin)(m.turn) == 0real,
{
    reveal(Reading::turns);
    let q = m.turn / 4real;
    let h = m.turn / 2real;
    sum_of_angles(m, q, q);
    sum_of_angles(m, h, h);
    times_simple(0real);
    times_simple(1real);
    times_negated(1real, -1real);
    times_simple(-1real);
    assert(q + q == h);
    assert(h + h == m.turn);
}

} // verus!
