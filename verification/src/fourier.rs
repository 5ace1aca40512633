//! What the fast transform is for: finding the frequencies in a signal.

use vstd::arithmetic::div_mod::{
    lemma_fundamental_div_mod, lemma_fundamental_div_mod_converse, lemma_mod_multiples_basic,
};
use vstd::arithmetic::power2::{lemma2_to64, lemma_pow2_adds, lemma_pow2_pos, lemma_pow2_unfold, pow2};
use vstd::prelude::*;

use crate::arith::Arithmetic;
use crate::dft::{
    dft, has_roots, is_commutative_ring, law_fast_transform_is_the_transform, power, ring_ops,
    stages_keep_len, total, Ring,
};
use crate::exact::{
    exact, is_over, on_the_circle_within_one, opposite_angle, over, over_undone, parts_of_a_turn, sum_of_angles, times,
    times_cancels, times_groups, times_simple, times_spreads, times_swaps, times_negated, whole, Reading,
};
use crate::fft::{
    bits_of, complex_ops, complex_product, crossed, hann, law_reversing_twice, reordered, reversed,
    stages, transformed, twiddle, windowed, Complex, NEG_TAU, TAU,
};
use crate::float::Float;
use crate::spectrum::{
    band_amplitude, energy, law_amplitude_is_the_mean, law_energy_adds_up, normalized_db, Tuning,
};

verus! {

/// Complex numbers, by their real and their imaginary part.
pub open spec fn complex_ring() -> Ring<(real, real)> {
    Ring {
        zero: (0real, 0real),
        one: (1real, 0real),
        add: |a: (real, real), b: (real, real)| (a.0 + b.0, a.1 + b.1),
        neg: |a: (real, real)| (-a.0, -a.1),
        mul: |a: (real, real), b: (real, real)|
            (times(a.0, b.0) - times(a.1, b.1), times(a.0, b.1) + times(a.1, b.0)),
    }
}

proof fn products_swap(a: (real, real), b: (real, real))
    ensures
        (complex_ring().mul)(a, b) == (complex_ring().mul)(b, a),
{
    times_swaps(a.0, b.0);
    times_swaps(a.1, b.1);
    times_swaps(a.0, b.1);
    times_swaps(a.1, b.0);
}

proof fn products_group(a: (real, real), b: (real, real), c: (real, real))
    ensures
        (complex_ring().mul)((complex_ring().mul)(a, b), c) == (complex_ring().mul)(
            a,
            (complex_ring().mul)(b, c),
        ),
{
    times_spreads(c.0, times(a.0, b.0), times(a.1, b.1));
    times_spreads(c.1, times(a.0, b.0), times(a.1, b.1));
    times_spreads(c.0, times(a.0, b.1), times(a.1, b.0));
    times_spreads(c.1, times(a.0, b.1), times(a.1, b.0));
    times_spreads(a.0, times(b.0, c.0), times(b.1, c.1));
    times_spreads(a.1, times(b.0, c.0), times(b.1, c.1));
    times_spreads(a.0, times(b.0, c.1), times(b.1, c.0));
    times_spreads(a.1, times(b.0, c.1), times(b.1, c.0));
    times_groups(a.0, b.0, c.0);
    times_groups(a.0, b.0, c.1);
    times_groups(a.0, b.1, c.0);
    times_groups(a.0, b.1, c.1);
    times_groups(a.1, b.0, c.0);
    times_groups(a.1, b.0, c.1);
    times_groups(a.1, b.1, c.0);
    times_groups(a.1, b.1, c.1);
}

proof fn products_spread(a: (real, real), b: (real, real), c: (real, real))
    ensures
        (complex_ring().mul)(a, (complex_ring().add)(b, c)) == (complex_ring().add)(
            (complex_ring().mul)(a, b),
            (complex_ring().mul)(a, c),
        ),
{
    times_spreads(a.0, b.0, c.0);
    times_spreads(a.1, b.1, c.1);
    times_spreads(a.0, b.1, c.1);
    times_spreads(a.1, b.0, c.0);
}

proof fn complex_numbers_are_a_ring()
    ensures
        is_commutative_ring(complex_ring()),
{
    reveal(is_commutative_ring);
    let r = complex_ring();
    assert forall|a: (real, real), b: (real, real)| #[trigger] (r.mul)(a, b) == (r.mul)(b, a) by {
        products_swap(a, b);
    }
    assert forall|a: (real, real), b: (real, real), c: (real, real)| #[trigger]
        (r.mul)((r.mul)(a, b), c) == (r.mul)(a, (r.mul)(b, c)) by {
        products_group(a, b, c);
    }
    assert forall|a: (real, real)| #[trigger] (r.mul)(a, r.one) == a by {
        times_simple(a.0);
        times_simple(a.1);
    }
    assert forall|a: (real, real), b: (real, real), c: (real, real)| #[trigger]
        (r.mul)(a, (r.add)(b, c)) == (r.add)((r.mul)(a, b), (r.mul)(a, c)) by {
        products_spread(a, b, c);
    }
}

/// The complex number of absolute value one that lies at an angle.
pub open spec fn unit(m: Reading, angle: real) -> (real, real) {
    ((m.cos)(angle), (m.sin)(angle))
}

/// The complex number that is one part in `len` of a turn backward.
pub open spec fn turn_back(m: Reading, len: nat) -> (real, real) {
    unit(m, over(-m.turn, whole(len as int)))
}

/// Multiplying numbers of absolute value one adds their angles.
proof fn units_add_angles(m: Reading, x: real, y: real)
    requires
        m.turns(),
    ensures
        (complex_ring().mul)(unit(m, x), unit(m, y)) == unit(m, x + y),
{
    sum_of_angles(m, x, y);
}

proof fn turns_are_roots(m: Reading, bits: nat)
    requires
        m.turns(),
    ensures
        has_roots(complex_ring(), |len: nat| turn_back(m, len), bits),
{
    let r = complex_ring();
    let root = |len: nat| turn_back(m, len);
    parts_of_a_turn(m);
    opposite_angle(m, m.turn);
    opposite_angle(m, m.turn / 2real);
    times_simple(-m.turn);
    times_simple(-(m.turn / 2real));
    is_over(-m.turn, -m.turn, whole(1));
    is_over(-(m.turn / 2real), -m.turn, whole(2));
    assert(root(1) == r.one);
    assert(root(2) == (r.neg)(r.one));
    assert forall|s: nat| s < bits implies (r.mul)(
        #[trigger] root(pow2(s + 1)),
        root(pow2(s + 1)),
    ) == root(pow2(s)) by {
        lemma_pow2_unfold(s + 1);
        lemma_pow2_pos(s);
        let half = whole(pow2(s) as int);
        let len = whole(pow2(s + 1) as int);
        let angle = over(-m.turn, len);
        assert(len == half + half);
        over_undone(-m.turn, len);
        times_spreads(angle, half, half);
        times_spreads(half, angle, angle);
        is_over(angle + angle, -m.turn, half);
        units_add_angles(m, angle, angle);
    }
}

/// Whether both parts of a complex number stand for numbers.
pub open spec fn is_counted(m: Reading, a: Complex) -> bool {
    m.has(a.0) && m.has(a.1)
}

/// Whether all of them do.
pub open spec fn are_counted(m: Reading, x: Seq<Complex>) -> bool {
    forall|i: int| 0 <= i < x.len() ==> is_counted(m, #[trigger] x[i])
}

/// The complex number that a pair of encodings stands for.
pub open spec fn complex(m: Reading, a: Complex) -> (real, real) {
    (m.num(a.0), m.num(a.1))
}

pub open spec fn complexes(m: Reading, x: Seq<Complex>) -> Seq<(real, real)> {
    Seq::new(x.len(), |i: int| complex(m, x[i]))
}

proof fn product_is_exact<A: Arithmetic>(alu: &A, m: Reading, a: Complex, b: Complex)
    requires
        exact(alu, m),
        is_counted(m, complex_product(alu, a, b)),
    ensures
        is_counted(m, a),
        is_counted(m, b),
        complex(m, complex_product(alu, a, b)) == (complex_ring().mul)(
            complex(m, a),
            complex(m, b),
        ),
{
}

proof fn step_is_exact<A: Arithmetic>(alu: &A, m: Reading, len: nat)
    requires
        exact(alu, m),
        0 < len <= usize::MAX,
        is_counted(m, (complex_ops(alu).step)(len)),
    ensures
        complex(m, (complex_ops(alu).step)(len)) == turn_back(m, len),
{
    let step = (complex_ops(alu).step)(len);
    let q = alu.quotient(Float(NEG_TAU), alu.of_index(len as usize));
    assert(step == (alu.cosine(q), alu.sine(q)));
    assert(m.has(q));
    is_over(m.num(q), -m.turn, whole(len as int));
}

proof fn twiddles_are_exact<A: Arithmetic>(alu: &A, m: Reading, len: nat, k: nat)
    requires
        exact(alu, m),
        0 < len <= usize::MAX,
        is_counted(m, twiddle(complex_ops(alu), len, k)),
    ensures
        complex(m, twiddle(complex_ops(alu), len, k)) == twiddle(
            ring_ops(complex_ring(), |n: nat| turn_back(m, n)),
            len,
            k,
        ),
    decreases k,
{
    if k > 0 {
        let ops = complex_ops(alu);
        let w = twiddle(ops, len, (k - 1) as nat);
        product_is_exact(alu, m, w, (ops.step)(len));
        twiddles_are_exact(alu, m, len, (k - 1) as nat);
        step_is_exact(alu, m, len);
    }
}

/// One butterfly. Where what comes out stands for numbers, so does what went
/// in.
proof fn butterfly_is_exact<A: Arithmetic>(alu: &A, m: Reading, w: Complex, a: Complex, b: Complex)
    requires
        exact(alu, m),
        is_counted(m, (complex_ops(alu).cross)(w, a, b).0),
        is_counted(m, (complex_ops(alu).cross)(w, a, b).1),
    ensures
        is_counted(m, w),
        is_counted(m, a),
        is_counted(m, b),
        ({
            let both = (complex_ops(alu).cross)(w, a, b);
            (complex(m, both.0), complex(m, both.1)) == (ring_ops(
                complex_ring(),
                |n: nat| turn_back(m, n),
            ).cross)(complex(m, w), complex(m, a), complex(m, b))
        }),
{
    let t = complex_product(alu, w, b);
    let both = (complex_ops(alu).cross)(w, a, b);
    assert(both.0 == (alu.sum(a.0, t.0), alu.sum(a.1, t.1)));
    assert(both.1 == (alu.difference(a.0, t.0), alu.difference(a.1, t.1)));
    product_is_exact(alu, m, w, b);
}

/// The block of length `len` that item `i` lies in is whole.
proof fn inside_its_block(i: int, n: int, len: int)
    requires
        0 <= i < n,
        0 < len,
        n % len == 0,
    ensures
        0 <= i - i % len,
        i - i % len + len <= n,
{
    let block = i / len;
    let blocks = n / len;
    lemma_fundamental_div_mod(i, len);
    lemma_fundamental_div_mod(n, len);
    assert(block < blocks) by (nonlinear_arith)
        requires
            len * block <= i,
            i < len * blocks,
            len > 0,
    ;
    assert(len * block + len <= len * blocks) by (nonlinear_arith)
        requires
            block + 1 <= blocks,
            len > 0,
    ;
    assert(len * block >= 0) by (nonlinear_arith)
        requires
            block >= 0,
            len > 0,
    ;
}

/// One stage.
proof fn stage_is_exact<A: Arithmetic>(alu: &A, m: Reading, x: Seq<Complex>, len: nat)
    requires
        exact(alu, m),
        0 < len <= usize::MAX,
        len % 2 == 0,
        x.len() % len == 0,
        are_counted(m, crossed(complex_ops(alu), x, len)),
    ensures
        are_counted(m, x),
        complexes(m, crossed(complex_ops(alu), x, len)) == crossed(
            ring_ops(complex_ring(), |n: nat| turn_back(m, n)),
            complexes(m, x),
            len,
        ),
{
    let ops = complex_ops(alu);
    let exact_ops = ring_ops(complex_ring(), |n: nat| turn_back(m, n));
    let y = crossed(ops, x, len);
    let half = len / 2;
    assert forall|i: int| 0 <= i < x.len() implies is_counted(m, #[trigger] x[i]) && complex(m, y[i])
        == crossed(exact_ops, complexes(m, x), len)[i] by {
        let k = i % (len as int);
        lemma_fundamental_div_mod(i, len as int);
        let lo = if k < half {
            i
        } else {
            i - half
        };
        let hi = lo + half;
        let block = i / (len as int);
        inside_its_block(i, x.len() as int, len as int);
        let off = if k < half {
            k
        } else {
            k - half
        };
        assert(len * block == block * len) by (nonlinear_arith);
        lemma_fundamental_div_mod_converse(lo, len as int, block, off);
        lemma_fundamental_div_mod_converse(hi, len as int, block, off + half);
        let w = twiddle(ops, len, off as nat);
        assert(y[lo] == (ops.cross)(w, x[lo], x[hi]).0);
        assert(y[hi] == (ops.cross)(w, x[lo], x[hi]).1);
        assert(is_counted(m, y[lo]) && is_counted(m, y[hi]));
        butterfly_is_exact(alu, m, w, x[lo], x[hi]);
        twiddles_are_exact(alu, m, len, off as nat);
        assert(complexes(m, x)[lo] == complex(m, x[lo]));
        assert(complexes(m, x)[hi] == complex(m, x[hi]));
    }
    assert(complexes(m, y) =~= crossed(exact_ops, complexes(m, x), len));
}

proof fn stages_are_exact<A: Arithmetic>(
    alu: &A,
    m: Reading,
    x: Seq<Complex>,
    bits: nat,
    count: nat,
)
    requires
        exact(alu, m),
        count <= bits,
        x.len() == pow2(bits),
        x.len() <= usize::MAX,
        are_counted(m, stages(complex_ops(alu), x, count)),
    ensures
        are_counted(m, x),
        complexes(m, stages(complex_ops(alu), x, count)) == stages(
            ring_ops(complex_ring(), |n: nat| turn_back(m, n)),
            complexes(m, x),
            count,
        ),
    decreases count,
{
    if count > 0 {
        let ops = complex_ops(alu);
        let before = stages(ops, x, (count - 1) as nat);
        let len = pow2(count);
        stages_keep_len(ops, x, (count - 1) as nat);
        lemma_pow2_unfold(count);
        lemma_pow2_pos((count - 1) as nat);
        lemma_pow2_adds((bits - count) as nat, count);
        lemma_pow2_pos((bits - count) as nat);
        lemma_mod_multiples_basic(pow2((bits - count) as nat) as int, len as int);
        assert(len <= x.len()) by (nonlinear_arith)
            requires
                pow2((bits - count) as nat) * len == x.len(),
                pow2((bits - count) as nat) >= 1,
        ;
        stage_is_exact(alu, m, before, len);
        stages_are_exact(alu, m, x, bits, (count - 1) as nat);
    }
}

/// Without rounding, the transform of `2^bits` complex values is their discrete
/// Fourier transform with respect to a turn backward by one part in `2^bits`:
/// item `k` is the sum of all items `x[j]`, each turned back by `j * k` such
/// parts.
pub proof fn law_transform_is_fourier<A: Arithmetic>(
    alu: &A,
    m: Reading,
    x: Seq<Complex>,
    bits: nat,
)
    requires
        exact(alu, m),
        x.len() == pow2(bits),
        x.len() <= usize::MAX,
        are_counted(m, transformed(complex_ops(alu), x, bits)),
    ensures
        are_counted(m, x),
        complexes(m, transformed(complex_ops(alu), x, bits)) == dft(
            complex_ring(),
            unit(m, over(-m.turn, whole(x.len() as int))),
            complexes(m, x),
        ),
{
    let r = complex_ring();
    let root = |n: nat| turn_back(m, n);
    let y = reordered(x, bits);
    stages_are_exact(alu, m, y, bits, bits);
    complex_numbers_are_a_ring();
    turns_are_roots(m, bits);
    assert forall|i: int| 0 <= i < x.len() implies is_counted(m, #[trigger] x[i]) by {
        law_reversing_twice(bits, i as nat);
        assert(is_counted(m, y[reversed(bits, i as nat) as int]));
    }
    assert forall|i: int| 0 <= i < x.len() implies complexes(m, y)[i] == reordered(
        complexes(m, x),
        bits,
    )[i] by {
        law_reversing_twice(bits, i as nat);
    }
    assert(complexes(m, y) =~= reordered(complexes(m, x), bits));
    law_fast_transform_is_the_transform(r, root, complexes(m, x), bits);
    assert(root(pow2(bits)) == unit(m, over(-m.turn, whole(x.len() as int))));
}

/// A power of a number of absolute value one has a multiple of its angle.
proof fn power_of_unit(m: Reading, angle: real, n: nat)
    requires
        m.turns(),
    ensures
        power(complex_ring(), unit(m, angle), n) == unit(m, times(whole(n as int), angle)),
    decreases n,
{
    parts_of_a_turn(m);
    times_simple(angle);
    if n > 0 {
        power_of_unit(m, angle, (n - 1) as nat);
        units_add_angles(m, times(whole(n - 1), angle), angle);
        times_spreads(angle, whole(n - 1), 1real);
        assert(whole(n - 1) + 1real == whole(n as int));
    }
}

proof fn total_of_ones(n: nat, f: spec_fn(nat) -> (real, real))
    requires
        forall|j: nat| j < n ==> #[trigger] f(j) == (1real, 0real),
    ensures
        total(complex_ring(), n, f) == (whole(n as int), 0real),
    decreases n,
{
    if n > 0 {
        total_of_ones((n - 1) as nat, f);
        assert(f((n - 1) as nat) == (1real, 0real));
    }
}

/// Without rounding, a tone that goes `f` times round in the length of the
/// transform lands in bin `f`, whatever the length, with all its amplitude.
pub proof fn law_a_tone_lands_in_its_bin<A: Arithmetic>(
    alu: &A,
    m: Reading,
    x: Seq<Complex>,
    bits: nat,
    f: nat,
)
    requires
        exact(alu, m),
        x.len() == pow2(bits),
        x.len() <= usize::MAX,
        f < x.len(),
        are_counted(m, transformed(complex_ops(alu), x, bits)),
        forall|j: int|
            0 <= j < x.len() ==> complex(m, #[trigger] x[j]) == unit(
                m,
                over(times(m.turn, whole(f * j)), whole(x.len() as int)),
            ),
    ensures
        complex(m, transformed(complex_ops(alu), x, bits)[f as int]) == (
            whole(x.len() as int),
            0real,
        ),
{
    let r = complex_ring();
    let n = x.len();
    let size = whole(n as int);
    let part = over(-m.turn, size);
    let w = unit(m, part);
    law_transform_is_fourier(alu, m, x, bits);
    stages_keep_len(complex_ops(alu), reordered(x, bits), bits);
    let term = |j: nat| (r.mul)(complexes(m, x)[j as int], power(r, w, j * f));
    parts_of_a_turn(m);
    over_undone(-m.turn, size);
    assert forall|j: nat| j < n implies #[trigger] term(j) == (1real, 0real) by {
        assert(f * (j as int) == (j * f) as int) by (nonlinear_arith);
        let steps = whole((j * f) as int);
        let ahead = over(times(m.turn, steps), size);
        assert(complex(m, x[j as int]) == unit(m, ahead));
        power_of_unit(m, part, j * f);
        units_add_angles(m, ahead, times(steps, part));
        over_undone(times(m.turn, steps), size);
        times_spreads(size, ahead, times(steps, part));
        times_groups(steps, part, size);
        times_swaps(steps, -m.turn);
        times_negated(m.turn, steps);
        times_simple(size);
        times_cancels(ahead + times(steps, part), 0real, size);
    }
    total_of_ones(n, term);
    assert(dft(r, w, complexes(m, x))[f as int] == total(r, n, term));
    assert(complexes(m, transformed(complex_ops(alu), x, bits))[f as int] == complex(
        m,
        transformed(complex_ops(alu), x, bits)[f as int],
    ));
}

/// Without rounding, the window that signals are tapered with rises from 0 at
/// the start to 1 in the middle and falls again, as far as one part in two of a
/// cosine: it is the same from both ends, and with itself shifted by half its
/// length it adds up to 1.
pub proof fn law_window_tapers_both_ends<A: Arithmetic>(
    alu: &A,
    m: Reading,
    n: nat,
    i: int,
    j: int,
)
    requires
        exact(alu, m),
        0 < n <= usize::MAX,
        0 <= i <= n,
        0 <= j <= n,
        m.has(hann(alu, n, i)),
        m.has(hann(alu, n, j)),
    ensures
        ({
            let (a, b) = (m.num(hann(alu, n, i)), m.num(hann(alu, n, j)));
            &&& 0real <= a <= 1real
            &&& a + a == 1real - (m.cos)(over(times(m.turn, whole(i)), whole(n as int)))
            &&& i == 0 ==> a == 0real
            &&& 2 * i == n ==> a == 1real
            &&& i + j == n ==> a == b
            &&& 2 * (j - i) == n ==> a + b == 1real
        }),
{
    let x = window_is_a_cosine(alu, m, n, i);
    let y = window_is_a_cosine(alu, m, n, j);
    on_the_circle_within_one(m, x);
    parts_of_a_turn(m);
    let size = whole(n as int);
    times_simple(m.turn);
    times_simple(size);
    if i == 0 {
        times_cancels(x, 0real, size);
    }
    if 2 * i == n {
        let h = m.turn / 2real;
        assert(size == whole(i) + whole(i));
        times_spreads(h, whole(i), whole(i));
        times_spreads(whole(i), h, h);
        assert(h + h == m.turn);
        times_cancels(x, h, size);
    }
    if i + j == n {
        assert(size == whole(i) + whole(j));
        times_spreads(m.turn, whole(i), whole(j));
        times_spreads(size, x, y);
        times_cancels(x + y, m.turn, size);
        sum_of_angles(m, m.turn, -x);
        opposite_angle(m, x);
        times_simple((m.cos)(-x));
        times_simple((m.sin)(-x));
        assert(m.turn + (-x) == y);
    }
    if 2 * (j - i) == n {
        let h = m.turn / 2real;
        let d = whole(j - i);
        assert(size == d + d);
        assert(whole(j) == whole(i) + d);
        times_spreads(m.turn, whole(i), d);
        times_spreads(size, x, h);
        times_spreads(h, d, d);
        times_spreads(d, h, h);
        assert(h + h == m.turn);
        times_cancels(y, x + h, size);
        sum_of_angles(m, x, h);
        times_simple((m.cos)(x));
        times_simple((m.sin)(x));
        times_negated((m.cos)(x), 1real);
    }
}

/// The angle of a coefficient of the window.
proof fn window_is_a_cosine<A: Arithmetic>(alu: &A, m: Reading, n: nat, i: int) -> (x: real)
    requires
        exact(alu, m),
        0 < n <= usize::MAX,
        0 <= i <= n,
        m.has(hann(alu, n, i)),
    ensures
        x == over(times(m.turn, whole(i)), whole(n as int)),
        times(x, whole(n as int)) == times(m.turn, whole(i)),
        m.num(hann(alu, n, i)) + m.num(hann(alu, n, i)) == 1real - (m.cos)(x),
{
    let angle = alu.quotient(
        alu.product(Float(TAU), alu.of_index(i as usize)),
        alu.of_index(n as usize),
    );
    let c = alu.cosine(angle);
    assert(m.has(c) && m.has(angle));
    is_over(m.num(angle), times(m.turn, whole(i)), whole(n as int));
    let v = (m.cos)(m.num(angle));
    let h = 1real / 2real;
    times_spreads(v, h, h);
    times_simple(v);
    assert(h + h == 1real);
    m.num(angle)
}

/// The energy of items `lo` up to `hi` of a transform: the sum of their squared
/// absolute values.
pub open spec fn energy_of(x: Seq<(real, real)>, lo: int, hi: int) -> real
    decreases hi - lo,
{
    if hi <= lo {
        0real
    } else {
        energy_of(x, lo, hi - 1) + times(x[hi - 1].0, x[hi - 1].0) + times(
            x[hi - 1].1,
            x[hi - 1].1,
        )
    }
}

proof fn energy_is_exact<A: Arithmetic>(alu: &A, m: Reading, x: Seq<Complex>, lo: int, hi: int)
    requires
        exact(alu, m),
        0 <= lo <= hi <= x.len(),
        m.has(energy(alu, x, lo, hi)),
    ensures
        m.num(energy(alu, x, lo, hi)) == energy_of(complexes(m, x), lo, hi),
    decreases hi - lo,
{
    if lo < hi {
        law_energy_adds_up(alu, m, x, lo, hi - 1, hi);
        energy_is_exact(alu, m, x, lo, hi - 1);
        assert(complexes(m, x)[hi - 1] == complex(m, x[hi - 1]));
    }
}

/// A signal times a window, as complex numbers.
pub open spec fn tapered(m: Reading, signal: Seq<Float>, window: Seq<Float>) -> Seq<(real, real)> {
    Seq::new(signal.len(), |i: int| (times(m.num(signal[i]), m.num(window[i])), 0real))
}

/// Without rounding, a band shows the mean energy of its frequencies: its
/// magnitude is an amplitude in dB, and that amplitude, squared, in units of
/// half the length and once for each bin, is the energy that the Fourier
/// transform of the tapered signal has in the bins of the band.
pub proof fn law_bands_show_the_energy_of_their_frequencies<A: Arithmetic>(
    alu: &A,
    m: Reading,
    tuning: Tuning,
    signal: Seq<Float>,
    b: int,
)
    requires
        exact(alu, m),
        signal.len() == 2048,
        tuning.window.len() == 2048,
        0 <= b < tuning.bins.len(),
        tuning.bins[b].0 < tuning.bins[b].1 <= 2048,
        ({
            let x = transformed(complex_ops(alu), windowed(alu, signal, tuning.window), 11);
            &&& are_counted(m, x)
            &&& m.has(band_amplitude(alu, x, tuning.bins[b].0, tuning.bins[b].1))
        }),
    ensures
        exists|a: Float|
            {
                let (lo, hi) = tuning.bins[b];
                let v = times(m.num(a), 1024real);
                &&& m.has(a)
                &&& 0real <= m.num(a)
                &&& tuning.analysed(alu, signal)[b].magnitude == #[trigger] normalized_db(alu, a)
                &&& times(times(v, v), whole(hi - lo)) == energy_of(
                    dft(
                        complex_ring(),
                        unit(m, over(-m.turn, 2048real)),
                        tapered(m, signal, tuning.window),
                    ),
                    lo as int,
                    hi as int,
                )
            },
{
    lemma2_to64();
    reveal_with_fuel(bits_of, 12);
    assert(bits_of(2048) == 11);
    let y = windowed(alu, signal, tuning.window);
    let x = transformed(complex_ops(alu), y, 11);
    let (lo, hi) = tuning.bins[b];
    stages_keep_len(complex_ops(alu), reordered(y, 11), 11);
    law_transform_is_fourier(alu, m, y, 11);
    assert forall|i: int| 0 <= i < 2048 implies complexes(m, y)[i] == tapered(
        m,
        signal,
        tuning.window,
    )[i] by {
        assert(is_counted(m, y[i]));
    }
    assert(complexes(m, y) =~= tapered(m, signal, tuning.window));
    let a = band_amplitude(alu, x, lo, hi);
    law_amplitude_is_the_mean(alu, m, x, lo, hi);
    energy_is_exact(alu, m, x, lo as int, hi as int);
    assert(tuning.analysed(alu, signal)[b].magnitude == normalized_db(alu, a));
}

} // verus!
