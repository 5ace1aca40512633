//! What the fast transform computes.
//!
//! Over any commutative ring with the right roots of unity, such as the
//! complex numbers without rounding, the stages of [`crate::fft`] give the
//! discrete Fourier transform.

use vstd::arithmetic::power2::{
    lemma2_to64, lemma_pow2_adds, lemma_pow2_pos, lemma_pow2_unfold, pow2,
};
use vstd::arithmetic::div_mod::lemma_fundamental_div_mod_converse;
use vstd::prelude::*;

use crate::fft::{crossed, reordered, reversed, stages, transformed, twiddle, Ops};

verus! {

/// Addition, negation and multiplication on values of some kind.
#[verifier::reject_recursive_types(T)]
pub struct Ring<T> {
    pub zero: T,
    pub one: T,
    pub add: spec_fn(T, T) -> T,
    pub neg: spec_fn(T) -> T,
    pub mul: spec_fn(T, T) -> T,
}

/// The laws of a commutative ring with one.
#[verifier::opaque]
pub open spec fn is_commutative_ring<T>(r: Ring<T>) -> bool {
    &&& forall|a: T, b: T| #[trigger] (r.add)(a, b) == (r.add)(b, a)
    &&& forall|a: T, b: T, c: T| #[trigger]
        (r.add)((r.add)(a, b), c) == (r.add)(a, (r.add)(b, c))
    &&& forall|a: T| #[trigger] (r.add)(a, r.zero) == a
    &&& forall|a: T| (r.add)(a, #[trigger] (r.neg)(a)) == r.zero
    &&& forall|a: T, b: T| #[trigger] (r.mul)(a, b) == (r.mul)(b, a)
    &&& forall|a: T, b: T, c: T| #[trigger]
        (r.mul)((r.mul)(a, b), c) == (r.mul)(a, (r.mul)(b, c))
    &&& forall|a: T| #[trigger] (r.mul)(a, r.one) == a
    &&& forall|a: T, b: T, c: T| #[trigger]
        (r.mul)(a, (r.add)(b, c)) == (r.add)((r.mul)(a, b), (r.mul)(a, c))
}

/// `w` multiplied with itself `k` times.
pub open spec fn power<T>(r: Ring<T>, w: T, k: nat) -> T
    decreases k,
{
    if k == 0 {
        r.one
    } else {
        (r.mul)(power(r, w, (k - 1) as nat), w)
    }
}

/// The sum of the first `n` values of `f`.
pub open spec fn total<T>(r: Ring<T>, n: nat, f: spec_fn(nat) -> T) -> T
    decreases n,
{
    if n == 0 {
        r.zero
    } else {
        (r.add)(total(r, (n - 1) as nat, f), f((n - 1) as nat))
    }
}

/// The discrete Fourier transform with respect to `w`: item `k` is the sum of
/// the items `x[j]`, each times `w` to the power of `j * k`.
pub open spec fn dft<T>(r: Ring<T>, w: T, x: Seq<T>) -> Seq<T> {
    Seq::new(
        x.len(),
        |k: int|
            total(r, x.len(), |j: nat| (r.mul)(x[j as int], power(r, w, j * (k as nat)))),
    )
}

/// Roots of unity for transforms of up to `2^bits` values: `root(2)` is minus
/// one, and each root is the square of the root for twice the length.
pub open spec fn has_roots<T>(r: Ring<T>, root: spec_fn(nat) -> T, bits: nat) -> bool {
    &&& root(1) == r.one
    &&& bits > 0 ==> root(2) == (r.neg)(r.one)
    &&& forall|s: nat|
        s < bits ==> (r.mul)(#[trigger] root(pow2(s + 1)), root(pow2(s + 1))) == root(pow2(s))
}

/// The operations of a transform over a ring with given roots.
pub open spec fn ring_ops<T>(r: Ring<T>, root: spec_fn(nat) -> T) -> Ops<T> {
    Ops {
        one: r.one,
        step: root,
        turn: r.mul,
        cross: |w: T, a: T, b: T|
            ((r.add)(a, (r.mul)(w, b)), (r.add)(a, (r.neg)((r.mul)(w, b)))),
    }
}

proof fn add_swaps<T>(r: Ring<T>, a: T, b: T)
    requires
        is_commutative_ring(r),
    ensures
        (r.add)(a, b) == (r.add)(b, a),
{
    reveal(is_commutative_ring);
}

proof fn add_groups<T>(r: Ring<T>, a: T, b: T, c: T)
    requires
        is_commutative_ring(r),
    ensures
        (r.add)((r.add)(a, b), c) == (r.add)(a, (r.add)(b, c)),
{
    reveal(is_commutative_ring);
}

proof fn add_zero<T>(r: Ring<T>, a: T)
    requires
        is_commutative_ring(r),
    ensures
        (r.add)(a, r.zero) == a,
        (r.add)(r.zero, a) == a,
        (r.add)(a, (r.neg)(a)) == r.zero,
        (r.add)((r.neg)(a), a) == r.zero,
{
    reveal(is_commutative_ring);
}

proof fn mul_swaps<T>(r: Ring<T>, a: T, b: T)
    requires
        is_commutative_ring(r),
    ensures
        (r.mul)(a, b) == (r.mul)(b, a),
{
    reveal(is_commutative_ring);
}

proof fn mul_groups<T>(r: Ring<T>, a: T, b: T, c: T)
    requires
        is_commutative_ring(r),
    ensures
        (r.mul)((r.mul)(a, b), c) == (r.mul)(a, (r.mul)(b, c)),
{
    reveal(is_commutative_ring);
}

proof fn mul_one<T>(r: Ring<T>, a: T)
    requires
        is_commutative_ring(r),
    ensures
        (r.mul)(a, r.one) == a,
        (r.mul)(r.one, a) == a,
{
    reveal(is_commutative_ring);
}

proof fn mul_spreads<T>(r: Ring<T>, a: T, b: T, c: T)
    requires
        is_commutative_ring(r),
    ensures
        (r.mul)(a, (r.add)(b, c)) == (r.add)((r.mul)(a, b), (r.mul)(a, c)),
{
    reveal(is_commutative_ring);
}

proof fn add_cancels<T>(r: Ring<T>, a: T, b: T, c: T)
    requires
        is_commutative_ring(r),
        (r.add)(a, b) == (r.add)(a, c),
    ensures
        b == c,
{
    let n = (r.neg)(a);
    add_zero(r, a);
    add_zero(r, b);
    add_zero(r, c);
    add_groups(r, n, a, b);
    add_groups(r, n, a, c);
}

proof fn mul_zero<T>(r: Ring<T>, a: T)
    requires
        is_commutative_ring(r),
    ensures
        (r.mul)(a, r.zero) == r.zero,
{
    let z = (r.mul)(a, r.zero);
    add_zero(r, r.zero);
    mul_spreads(r, a, r.zero, r.zero);
    add_zero(r, z);
    add_cancels(r, z, z, r.zero);
}

proof fn mul_negated<T>(r: Ring<T>, a: T, b: T)
    requires
        is_commutative_ring(r),
    ensures
        (r.mul)(a, (r.neg)(b)) == (r.neg)((r.mul)(a, b)),
{
    let p = (r.mul)(a, b);
    mul_spreads(r, a, b, (r.neg)(b));
    add_zero(r, b);
    mul_zero(r, a);
    add_zero(r, p);
    add_cancels(r, p, (r.mul)(a, (r.neg)(b)), (r.neg)(p));
}

proof fn power_of_sum<T>(r: Ring<T>, w: T, a: nat, b: nat)
    requires
        is_commutative_ring(r),
    ensures
        power(r, w, a + b) == (r.mul)(power(r, w, a), power(r, w, b)),
    decreases b,
{
    if b == 0 {
        mul_one(r, power(r, w, a));
    } else {
        let c = (b - 1) as nat;
        power_of_sum(r, w, a, c);
        assert(((a + b) - 1) as nat == a + c);
        mul_groups(r, power(r, w, a), power(r, w, c), w);
    }
}

proof fn power_of_square<T>(r: Ring<T>, w: T, e: nat)
    requires
        is_commutative_ring(r),
    ensures
        power(r, w, 2 * e) == power(r, (r.mul)(w, w), e),
    decreases e,
{
    if e > 0 {
        let d = (e - 1) as nat;
        power_of_square(r, w, d);
        assert((2 * e - 1) as nat == 2 * d + 1);
        assert(power(r, w, 2 * e) == (r.mul)(power(r, w, 2 * d + 1), w));
        assert(power(r, w, 2 * d + 1) == (r.mul)(power(r, w, 2 * d), w));
        mul_groups(r, power(r, w, 2 * d), w, w);
    }
}

/// The root for length `2^s` has order `2^s`, and half way there it is minus
/// one.
proof fn powers_of_root<T>(r: Ring<T>, root: spec_fn(nat) -> T, bits: nat, s: nat)
    requires
        is_commutative_ring(r),
        has_roots(r, root, bits),
        s <= bits,
    ensures
        power(r, root(pow2(s)), pow2(s)) == r.one,
        s > 0 ==> power(r, root(pow2(s)), pow2((s - 1) as nat)) == (r.neg)(r.one),
    decreases s,
{
    lemma2_to64();
    if s == 0 {
        assert(power(r, root(1), 0) == r.one);
        mul_one(r, r.one);
    } else {
        let t = (s - 1) as nat;
        powers_of_root(r, root, bits, t);
        lemma_pow2_unfold(s);
        let w = root(pow2(s));
        assert((r.mul)(root(pow2(t + 1)), root(pow2(t + 1))) == root(pow2(t)));
        power_of_square(r, w, pow2(t));
        if t == 0 {
            assert(power(r, w, 0) == r.one);
            assert(power(r, w, 1) == (r.mul)(r.one, w));
            mul_one(r, w);
        } else {
            lemma_pow2_unfold(t);
            power_of_square(r, w, pow2((t - 1) as nat));
        }
    }
}

proof fn power_of_whole_turns<T>(r: Ring<T>, w: T, n: nat, j: nat)
    requires
        is_commutative_ring(r),
        power(r, w, n) == r.one,
    ensures
        power(r, w, j * n) == r.one,
    decreases j,
{
    if j == 0 {
        assert(0 * n == 0) by (nonlinear_arith);
    } else {
        let i = (j - 1) as nat;
        power_of_whole_turns(r, w, n, i);
        power_of_sum(r, w, i * n, n);
        assert(j * n == i * n + n) by (nonlinear_arith)
            requires
                j == i + 1,
        ;
        mul_one(r, r.one);
    }
}

proof fn total_of_equals<T>(r: Ring<T>, n: nat, f: spec_fn(nat) -> T, g: spec_fn(nat) -> T)
    requires
        forall|j: nat| j < n ==> #[trigger] f(j) == g(j),
    ensures
        total(r, n, f) == total(r, n, g),
    decreases n,
{
    if n > 0 {
        total_of_equals(r, (n - 1) as nat, f, g);
        assert(f((n - 1) as nat) == g((n - 1) as nat));
    }
}

proof fn total_scaled<T>(r: Ring<T>, n: nat, c: T, f: spec_fn(nat) -> T)
    requires
        is_commutative_ring(r),
    ensures
        total(r, n, |j: nat| (r.mul)(c, f(j))) == (r.mul)(c, total(r, n, f)),
    decreases n,
{
    if n == 0 {
        mul_zero(r, c);
    } else {
        let m = (n - 1) as nat;
        total_scaled(r, m, c, f);
        mul_spreads(r, c, total(r, m, f), f(m));
    }
}

/// A sum of an even number of values, by those in even and in odd places.
proof fn total_by_parity<T>(r: Ring<T>, n: nat, f: spec_fn(nat) -> T)
    requires
        is_commutative_ring(r),
    ensures
        total(r, 2 * n, f) == (r.add)(
            total(r, n, |j: nat| f(2 * j)),
            total(r, n, |j: nat| f(2 * j + 1)),
        ),
    decreases n,
{
    let even = |j: nat| f(2 * j);
    let odd = |j: nat| f(2 * j + 1);
    if n == 0 {
        add_zero(r, r.zero);
    } else {
        let m = (n - 1) as nat;
        total_by_parity(r, m, f);
        let e = total(r, m, even);
        let o = total(r, m, odd);
        let a = f(2 * m);
        let b = f(2 * m + 1);
        assert((2 * n - 1) as nat == 2 * m + 1);
        assert(total(r, 2 * n, f) == (r.add)(total(r, 2 * m + 1, f), b));
        assert(total(r, 2 * m + 1, f) == (r.add)(total(r, 2 * m, f), a));
        assert(total(r, n, even) == (r.add)(e, a));
        assert(total(r, n, odd) == (r.add)(o, b));
        // ((e + o) + a) + b == (e + a) + (o + b)
        add_groups(r, e, o, a);
        add_swaps(r, o, a);
        add_groups(r, e, a, o);
        add_groups(r, (r.add)(e, a), o, b);
    }
}

/// One term of a partial transform: item `start + j * stride` of `x`, times
/// `w` to the power of `j * k`.
spec fn term<T>(r: Ring<T>, x: Seq<T>, start: nat, stride: nat, w: T, k: nat) -> spec_fn(nat) -> T {
    |j: nat| (r.mul)(x[(start + j * stride) as int], power(r, w, j * k))
}

/// What item `k` of block `b` holds after `s` of `bits` stages: the transform
/// of every `2^(bits - s)`-th item of `x`, from the bit-reversed block number
/// on.
spec fn partial<T>(
    r: Ring<T>,
    root: spec_fn(nat) -> T,
    x: Seq<T>,
    bits: nat,
    s: nat,
    b: nat,
    k: nat,
) -> T {
    let m = (bits - s) as nat;
    total(r, pow2(s), term(r, x, reversed(m, b), pow2(m), root(pow2(s)), k))
}

/// Splitting a partial transform by the parity of its terms.
proof fn partial_by_parity<T>(
    r: Ring<T>,
    root: spec_fn(nat) -> T,
    x: Seq<T>,
    bits: nat,
    s: nat,
    b: nat,
    k: nat,
    kk: nat,
)
    requires
        is_commutative_ring(r),
        has_roots(r, root, bits),
        s < bits,
        kk == k || kk == k + pow2(s),
    ensures
        partial(r, root, x, bits, s + 1, b, kk) == (r.add)(
            partial(r, root, x, bits, s, 2 * b, k),
            (r.mul)(
                power(r, root(pow2(s + 1)), kk),
                partial(r, root, x, bits, s, 2 * b + 1, k),
            ),
        ),
{
    let len = pow2(s);
    let m = (bits - s - 1) as nat;
    let stride = pow2(m);
    let wide = pow2(m + 1);
    lemma_pow2_unfold(s + 1);
    lemma_pow2_unfold(m + 1);
    assert((bits - s) as nat == m + 1);
    assert((bits - (s + 1)) as nat == m);
    let start = reversed(m, b);
    let w2 = root(pow2(s + 1));
    let w = root(len);
    assert((r.mul)(w2, w2) == w);
    let f = term(r, x, start, stride, w2, kk);
    let even = term(r, x, reversed(m + 1, 2 * b), wide, w, k);
    let odd = term(r, x, reversed(m + 1, 2 * b + 1), wide, w, k);
    let c = power(r, w2, kk);
    assert((2 * b) % 2 == 0 && (2 * b) / 2 == b && (2 * b + 1) % 2 == 1 && (2 * b + 1) / 2 == b);
    assert(0 * stride == 0 && 1 * stride == stride) by (nonlinear_arith);
    assert(((m + 1) - 1) as nat == m);
    assert(reversed(m + 1, 2 * b) == start);
    assert(reversed(m + 1, 2 * b + 1) == stride + start);
    powers_of_root(r, root, bits, s);
    total_by_parity(r, len, f);
    let evens = |j: nat| f(2 * j);
    let odds = |j: nat| f(2 * j + 1);
    let scaled = |j: nat| (r.mul)(c, odd(j));
    assert forall|j: nat| j < len implies #[trigger] evens(j) == even(j) by {
        assert(start + (2 * j) * stride == start + j * wide) by (nonlinear_arith)
            requires
                wide == 2 * stride,
        ;
        whole_power(r, w2, w, len, j, k, kk);
    }
    assert forall|j: nat| j < len implies #[trigger] odds(j) == scaled(j) by {
        assert(start + (2 * j + 1) * stride == (stride + start) + j * wide) by (nonlinear_arith)
            requires
                wide == 2 * stride,
        ;
        whole_power(r, w2, w, len, j, k, kk);
        assert((2 * j + 1) * kk == (2 * j) * kk + kk) by (nonlinear_arith);
        power_of_sum(r, w2, (2 * j) * kk, kk);
        let item = x[(start + (2 * j + 1) * stride) as int];
        let p = power(r, w, j * k);
        mul_groups(r, item, p, c);
        mul_swaps(r, (r.mul)(item, p), c);
    }
    total_of_equals(r, len, evens, even);
    total_of_equals(r, len, odds, scaled);
    total_scaled(r, len, c, odd);
}

/// Twice as many steps with the finer root are as many with the coarser one,
/// and whole turns do not count.
proof fn whole_power<T>(r: Ring<T>, w2: T, w: T, len: nat, j: nat, k: nat, kk: nat)
    requires
        is_commutative_ring(r),
        (r.mul)(w2, w2) == w,
        power(r, w, len) == r.one,
        kk == k || kk == k + len,
    ensures
        power(r, w2, (2 * j) * kk) == power(r, w, j * k),
{
    assert((2 * j) * kk == 2 * (j * kk)) by (nonlinear_arith);
    power_of_square(r, w2, j * kk);
    if kk == k + len {
        assert(j * kk == j * k + j * len) by (nonlinear_arith)
            requires
                kk == k + len,
        ;
        power_of_sum(r, w, j * k, j * len);
        power_of_whole_turns(r, w, len, j);
        mul_one(r, power(r, w, j * k));
    }
}

/// What one butterfly makes of two partial transforms.
proof fn partials_crossed<T>(
    r: Ring<T>,
    root: spec_fn(nat) -> T,
    x: Seq<T>,
    bits: nat,
    s: nat,
    b: nat,
    k: nat,
)
    requires
        is_commutative_ring(r),
        has_roots(r, root, bits),
        s < bits,
    ensures
        (ring_ops(r, root).cross)(
            power(r, root(pow2(s + 1)), k),
            partial(r, root, x, bits, s, 2 * b, k),
            partial(r, root, x, bits, s, 2 * b + 1, k),
        ) == (
            partial(r, root, x, bits, s + 1, b, k),
            partial(r, root, x, bits, s + 1, b, k + pow2(s)),
        ),
{
    let len = pow2(s);
    let w2 = root(pow2(s + 1));
    let o = partial(r, root, x, bits, s, 2 * b + 1, k);
    let t = power(r, w2, k);
    partial_by_parity(r, root, x, bits, s, b, k, k);
    partial_by_parity(r, root, x, bits, s, b, k, k + len);
    power_of_sum(r, w2, k, len);
    powers_of_root(r, root, bits, s + 1);
    assert(((s + 1) - 1) as nat == s);
    mul_negated(r, t, r.one);
    mul_one(r, t);
    let nt = (r.neg)(t);
    assert(power(r, w2, k + len) == nt);
    mul_swaps(r, nt, o);
    mul_negated(r, o, t);
    mul_swaps(r, o, t);
}

proof fn twiddle_is_power<T>(r: Ring<T>, root: spec_fn(nat) -> T, len: nat, k: nat)
    ensures
        twiddle(ring_ops(r, root), len, k) == power(r, root(len), k),
    decreases k,
{
    if k > 0 {
        twiddle_is_power(r, root, len, (k - 1) as nat);
    }
}

/// A stage changes no length.
pub proof fn stages_keep_len<T>(ops: Ops<T>, x: Seq<T>, count: nat)
    ensures
        stages(ops, x, count).len() == x.len(),
    decreases count,
{
    if count > 0 {
        stages_keep_len(ops, x, (count - 1) as nat);
    }
}

/// What the stages hold, item by item.
proof fn stages_hold_partials<T>(
    r: Ring<T>,
    root: spec_fn(nat) -> T,
    x: Seq<T>,
    bits: nat,
    s: nat,
    b: nat,
    k: nat,
)
    requires
        is_commutative_ring(r),
        has_roots(r, root, bits),
        x.len() == pow2(bits),
        s <= bits,
        b < pow2((bits - s) as nat),
        k < pow2(s),
    ensures
        b * pow2(s) + k < x.len(),
        stages(ring_ops(r, root), reordered(x, bits), s)[(b * pow2(s) + k) as int] == partial(
            r,
            root,
            x,
            bits,
            s,
            b,
            k,
        ),
    decreases s,
{
    let ops = ring_ops(r, root);
    let y0 = reordered(x, bits);
    let i = b * pow2(s) + k;
    lemma2_to64();
    lemma_pow2_adds((bits - s) as nat, s);
    assert(i < x.len()) by (nonlinear_arith)
        requires
            i == b * pow2(s) + k,
            b + 1 <= pow2((bits - s) as nat),
            k < pow2(s),
            pow2((bits - s) as nat) * pow2(s) == x.len(),
    ;
    if s == 0 {
        assert(b * pow2(0) == b) by (nonlinear_arith)
            requires
                pow2(0) == 1,
        ;
        let start = reversed(bits, b);
        let f = term(r, x, start, pow2(bits), root(1), 0);
        assert(total(r, 1, f) == (r.add)(total(r, 0, f), f(0)));
        assert(start + 0 * pow2(bits) == start) by (nonlinear_arith);
        assert(0nat * 0nat == 0) by (nonlinear_arith);
        assert(f(0) == (r.mul)(x[start as int], power(r, root(1), 0)));
        mul_one(r, x[start as int]);
        add_zero(r, x[start as int]);
    } else {
        let t = (s - 1) as nat;
        let half = pow2(t);
        let len = pow2(s);
        lemma_pow2_unfold(s);
        lemma_pow2_unfold((bits - t) as nat);
        assert((bits - t) as nat == (bits - s) as nat + 1);
        assert(((bits - t) - 1) as nat == (bits - s) as nat);
        let y = stages(ops, y0, t);
        stages_keep_len(ops, y0, t);
        lemma_fundamental_div_mod_converse(i as int, len as int, b as int, k as int);
        assert(stages(ops, y0, s) == crossed(ops, y, len));
        let off = if k < half {
            k
        } else {
            (k - half) as nat
        };
        stages_hold_partials(r, root, x, bits, t, 2 * b, off);
        stages_hold_partials(r, root, x, bits, t, 2 * b + 1, off);
        assert((2 * b) * half == b * len && (2 * b + 1) * half == b * len + half)
            by (nonlinear_arith)
            requires
                len == 2 * half,
        ;
        twiddle_is_power(r, root, len, off);
        partials_crossed(r, root, x, bits, t, b, off);
        assert(t + 1 == s);
    }
}

/// Over a commutative ring with roots of unity, the fast transform of `2^bits`
/// values is their discrete Fourier transform.
pub proof fn law_fast_transform_is_the_transform<T>(
    r: Ring<T>,
    root: spec_fn(nat) -> T,
    x: Seq<T>,
    bits: nat,
)
    requires
        is_commutative_ring(r),
        has_roots(r, root, bits),
        x.len() == pow2(bits),
    ensures
        transformed(ring_ops(r, root), x, bits) == dft(r, root(pow2(bits)), x),
{
    let ops = ring_ops(r, root);
    let n = x.len();
    let w = root(pow2(bits));
    stages_keep_len(ops, reordered(x, bits), bits);
    lemma2_to64();
    lemma_pow2_pos(bits);
    assert forall|k: int| 0 <= k < n implies transformed(ops, x, bits)[k] == dft(r, w, x)[k] by {
        stages_hold_partials(r, root, x, bits, bits, 0, k as nat);
        assert(0 * pow2(bits) == 0) by (nonlinear_arith);
        let f = term(r, x, reversed(0, 0), pow2(0), w, k as nat);
        let g = |j: nat| (r.mul)(x[j as int], power(r, w, j * (k as nat)));
        assert forall|j: nat| j < n implies #[trigger] f(j) == g(j) by {
            assert(j * pow2(0) == j) by (nonlinear_arith)
                requires
                    pow2(0) == 1,
            ;
        }
        total_of_equals(r, n, f, g);
    }
    assert(transformed(ops, x, bits) =~= dft(r, w, x));
}

} // verus!
