//! Radix-2 fast Fourier transform.

use vstd::arithmetic::div_mod::{
    lemma_fundamental_div_mod, lemma_fundamental_div_mod_converse, lemma_mod_multiples_basic,
};
use vstd::arithmetic::mul::lemma_mul_is_commutative;
use vstd::arithmetic::power2::{
    lemma2_to64, lemma_pow2_adds, lemma_pow2_pos, lemma_pow2_strictly_increases, lemma_pow2_unfold,
    pow2,
};
use vstd::prelude::*;

use crate::arith::{steady, Arithmetic};
use crate::float::{Float, HALF, ONE, ZERO};

verus! {

/// Encoding of two times pi.
pub const TAU: u32 = 0x40c9_0fdb;

/// Encoding of minus two times pi.
pub const NEG_TAU: u32 = 0xc0c9_0fdb;

/// How often a number can be halved before it reaches 1.
pub open spec fn bits_of(n: nat) -> nat
    decreases n,
{
    if n <= 1 {
        0
    } else {
        1 + bits_of(n / 2)
    }
}

pub open spec fn is_power_of_two(n: nat) -> bool {
    n == pow2(bits_of(n))
}

/// The number whose lowest `bits` binary digits are those of `i` in reverse.
pub open spec fn reversed(bits: nat, i: nat) -> nat
    decreases bits,
{
    if bits == 0 {
        0
    } else {
        (i % 2) * pow2((bits - 1) as nat) + reversed((bits - 1) as nat, i / 2)
    }
}

proof fn reversed_fits(bits: nat, i: nat)
    ensures
        reversed(bits, i) < pow2(bits),
    decreases bits,
{
    if bits == 0 {
        lemma2_to64();
    } else {
        let half = pow2((bits - 1) as nat);
        reversed_fits((bits - 1) as nat, i / 2);
        lemma_pow2_unfold(bits);
        assert((i % 2) * half <= half) by (nonlinear_arith)
            requires
                i % 2 <= 1,
                half >= 0,
        ;
    }
}

/// Reversing takes the highest digit to the lowest place.
proof fn reversed_from_the_top(bits: nat, low: nat, high: nat)
    requires
        bits > 0,
        low < pow2((bits - 1) as nat),
        high <= 1,
    ensures
        reversed(bits, low + high * pow2((bits - 1) as nat)) == high + 2 * reversed(
            (bits - 1) as nat,
            low,
        ),
    decreases bits,
{
    let i = low + high * pow2((bits - 1) as nat);
    lemma2_to64();
    if bits == 1 {
        assert(i == high) by (nonlinear_arith)
            requires
                i == low + high * pow2(0),
                pow2(0) == 1,
                low == 0,
        ;
        assert(reversed(0, i / 2) == 0);
        assert((i % 2) * pow2(0) == i) by (nonlinear_arith)
            requires
                pow2(0) == 1,
                i % 2 == i,
        ;
        assert(reversed(1, i) == (i % 2) * pow2(0) + reversed(0, i / 2));
        assert(reversed(0, low) == 0);
    } else {
        let b1 = (bits - 1) as nat;
        let b2 = (bits - 2) as nat;
        let quarter = pow2(b2);
        lemma_pow2_unfold(b1);
        assert(i == low + 2 * (high * quarter)) by (nonlinear_arith)
            requires
                i == low + high * pow2(b1),
                pow2(b1) == 2 * quarter,
        ;
        assert(i % 2 == low % 2);
        assert(i / 2 == low / 2 + high * quarter);
        reversed_from_the_top(b1, low / 2, high);
        assert(reversed(bits, i) == (i % 2) * pow2(b1) + reversed(b1, i / 2));
        assert(reversed(b1, low) == (low % 2) * quarter + reversed(b2, low / 2));
        assert((low % 2) * pow2(b1) == 2 * ((low % 2) * quarter)) by (nonlinear_arith)
            requires
                pow2(b1) == 2 * quarter,
        ;
    }
}

/// Reversing the digits twice gives the number back, so the bit reversal is a
/// permutation that undoes itself.
pub proof fn law_reversing_twice(bits: nat, i: nat)
    requires
        i < pow2(bits),
    ensures
        reversed(bits, i) < pow2(bits),
        reversed(bits, reversed(bits, i)) == i,
    decreases bits,
{
    reversed_fits(bits, i);
    lemma2_to64();
    if bits > 0 {
        let b1 = (bits - 1) as nat;
        lemma_pow2_unfold(bits);
        law_reversing_twice(b1, i / 2);
        let low = reversed(b1, i / 2);
        reversed_from_the_top(bits, low, i % 2);
    }
}

/// Items in bit-reversed order.
pub open spec fn reordered<T>(x: Seq<T>, bits: nat) -> Seq<T> {
    Seq::new(x.len(), |i: int| x[reversed(bits, i as nat) as int])
}

/// Reordering twice gives the items back in their first order.
pub proof fn law_reordering_twice<T>(x: Seq<T>, bits: nat)
    requires
        x.len() == pow2(bits),
    ensures
        reordered(reordered(x, bits), bits) == x,
{
    assert forall|i: int| 0 <= i < x.len() implies reordered(reordered(x, bits), bits)[i]
        == x[i] by {
        law_reversing_twice(bits, i as nat);
    }
    assert(reordered(reordered(x, bits), bits) =~= x);
}

/// The number whose lowest `bits` binary digits are those of `i` in reverse.
fn reverse(bits: u32, i: usize) -> (r: usize)
    requires
        pow2(bits as nat) <= usize::MAX,
    ensures
        r == reversed(bits as nat, i as nat),
{
    let mut acc: usize = 0;
    let mut rest: usize = i;
    let mut left: u32 = bits;
    proof {
        lemma2_to64();
    }
    while left > 0
        invariant
            left <= bits,
            pow2(bits as nat) <= usize::MAX,
            acc < pow2((bits - left) as nat),
            reversed(bits as nat, i as nat) == acc * pow2(left as nat) + reversed(
                left as nat,
                rest as nat,
            ),
        decreases left,
    {
        proof {
            let m = (left - 1) as nat;
            lemma_pow2_unfold(left as nat);
            lemma_pow2_unfold((bits - left + 1) as nat);
            if bits - left + 1 < bits {
                lemma_pow2_strictly_increases((bits - left + 1) as nat, bits as nat);
            }
            assert(acc * pow2(left as nat) + (rest % 2) * pow2(m) == (2 * acc + rest % 2) * pow2(m))
                by (nonlinear_arith)
                requires
                    pow2(left as nat) == 2 * pow2(m),
            ;
        }
        acc = 2 * acc + rest % 2;
        rest = rest / 2;
        left = left - 1;
    }
    proof {
        assert(acc * pow2(0) == acc) by (nonlinear_arith)
            requires
                pow2(0) == 1,
        ;
    }
    acc
}

/// The bit-reversal permutation for a transform of length `n`.
pub fn bit_reversal(n: usize) -> (rev: Vec<usize>)
    requires
        is_power_of_two(n as nat),
    ensures
        rev@ == Seq::new(n as nat, |i: int| reversed(bits_of(n as nat), i as nat) as usize),
        is_bit_reversal(rev@, bits_of(n as nat)),
{
    let mut bits: u32 = 0;
    let mut m: usize = n;
    proof {
        lemma2_to64();
        if bits_of(n as nat) > 64 {
            lemma_pow2_strictly_increases(64, bits_of(n as nat));
        }
    }
    while m > 1
        invariant
            bits + bits_of(m as nat) == bits_of(n as nat),
            bits + bits_of(m as nat) <= 64,
        decreases m,
    {
        m = m / 2;
        bits = bits + 1;
    }
    let mut rev: Vec<usize> = Vec::with_capacity(n);
    let mut i: usize = 0;
    while i < n
        invariant
            is_power_of_two(n as nat),
            bits == bits_of(n as nat),
            i <= n,
            rev@.len() == i,
            forall|j: int| 0 <= j < i ==> #[trigger] rev@[j] == reversed(bits as nat, j as nat),
        decreases n - i,
    {
        rev.push(reverse(bits, i));
        i = i + 1;
    }
    assert(rev@ =~= Seq::new(n as nat, |i: int| reversed(bits_of(n as nat), i as nat) as usize));
    rev
}

/// Whether a table holds the bit-reversal permutation.
pub open spec fn is_bit_reversal(rev: Seq<usize>, bits: nat) -> bool {
    &&& rev.len() == pow2(bits)
    &&& forall|i: int| 0 <= i < rev.len() ==> #[trigger] rev[i] == reversed(bits, i as nat)
}

/// Puts items into bit-reversed order by exchanging each pair once.
fn reorder<T: Copy>(x: &mut [T], rev: &[usize], Ghost(bits): Ghost<nat>)
    requires
        old(x)@.len() == rev@.len(),
        is_bit_reversal(rev@, bits),
    ensures
        final(x)@ == reordered(old(x)@, bits),
{
    let ghost before = x@;
    let n: usize = x.len();
    let mut i: usize = 0;
    while i < n
        invariant
            n == x@.len(),
            n == before.len(),
            n == rev@.len(),
            is_bit_reversal(rev@, bits),
            i <= n,
            forall|k: int|
                0 <= k < n ==> #[trigger] x@[k] == if k < i || reversed(bits, k as nat) < i {
                    before[reversed(bits, k as nat) as int]
                } else {
                    before[k]
                },
        decreases n - i,
    {
        let j = rev[i];
        proof {
            law_reversing_twice(bits, i as nat);
            assert forall|k: int| 0 <= k < n && #[trigger] reversed(bits, k as nat) == i implies k
                == j by {
                law_reversing_twice(bits, k as nat);
            }
        }
        if j > i {
            let a = x[i];
            let b = x[j];
            x[i] = b;
            x[j] = a;
        }
        i = i + 1;
    }
    proof {
        assert forall|k: int| 0 <= k < n implies x@[k] == reordered(before, bits)[k] by {
            law_reversing_twice(bits, k as nat);
        }
        assert(x@ =~= reordered(before, bits));
    }
}

/// The operations that a transform is made of, on values of some kind.
#[verifier::reject_recursive_types(T)]
pub struct Ops<T> {
    /// The twiddle factor that each block starts from.
    pub one: T,
    /// The step between twiddle factors in blocks of a given length.
    pub step: spec_fn(nat) -> T,
    /// A twiddle factor times a step.
    pub turn: spec_fn(T, T) -> T,
    /// A butterfly: from a twiddle factor and two values, the values that take
    /// their places.
    pub cross: spec_fn(T, T, T) -> (T, T),
}

/// The `k`-th twiddle factor in blocks of length `len`.
pub open spec fn twiddle<T>(ops: Ops<T>, len: nat, k: nat) -> T
    decreases k,
{
    if k == 0 {
        ops.one
    } else {
        (ops.turn)(twiddle(ops, len, (k - 1) as nat), (ops.step)(len))
    }
}

/// One stage: in every block of length `len`, the items of the first half are
/// crossed with those of the second half, each with its twiddle factor.
pub open spec fn crossed<T>(ops: Ops<T>, x: Seq<T>, len: nat) -> Seq<T> {
    let half = len / 2;
    Seq::new(
        x.len(),
        |i: int|
            {
                let k = (i % (len as int)) as nat;
                if k < half {
                    (ops.cross)(twiddle(ops, len, k), x[i], x[i + half]).0
                } else {
                    (ops.cross)(twiddle(ops, len, (k - half) as nat), x[i - half], x[i]).1
                }
            },
    )
}

/// The first `count` stages, over blocks of length 2, 4, 8 and so on.
pub open spec fn stages<T>(ops: Ops<T>, x: Seq<T>, count: nat) -> Seq<T>
    decreases count,
{
    if count == 0 {
        x
    } else {
        crossed(ops, stages(ops, x, (count - 1) as nat), pow2(count))
    }
}

/// The transform of `2^bits` values: bit-reversed order, then all stages.
pub open spec fn transformed<T>(ops: Ops<T>, x: Seq<T>, bits: nat) -> Seq<T> {
    stages(ops, reordered(x, bits), bits)
}

/// A complex number, by its real and its imaginary part.
pub type Complex = (Float, Float);

pub open spec fn complex_product<A: Arithmetic>(alu: &A, a: Complex, b: Complex) -> Complex {
    (
        alu.difference(alu.product(a.0, b.0), alu.product(a.1, b.1)),
        alu.sum(alu.product(a.0, b.1), alu.product(a.1, b.0)),
    )
}

/// The operations on complex numbers that a given arithmetic provides.
pub open spec fn complex_ops<A: Arithmetic>(alu: &A) -> Ops<Complex> {
    Ops {
        one: (Float(ONE), Float(ZERO)),
        step: |len: nat|
            {
                let angle = alu.quotient(Float(NEG_TAU), alu.of_index(len as usize));
                (alu.cosine(angle), alu.sine(angle))
            },
        turn: |w: Complex, step: Complex| complex_product(alu, w, step),
        cross: |w: Complex, a: Complex, b: Complex|
            {
                let t = complex_product(alu, w, b);
                (
                    (alu.sum(a.0, t.0), alu.sum(a.1, t.1)),
                    (alu.difference(a.0, t.0), alu.difference(a.1, t.1)),
                )
            },
    }
}

/// Real and imaginary parts side by side.
pub open spec fn pairs(re: Seq<Float>, im: Seq<Float>) -> Seq<Complex> {
    Seq::new(re.len(), |i: int| (re[i], im[i]))
}

/// The items of one block after its first `k` butterflies.
spec fn crossed_so_far<T>(ops: Ops<T>, x: Seq<T>, len: nat, start: int, k: int) -> Seq<T> {
    Seq::new(
        x.len(),
        |i: int|
            if start <= i < start + k || start + len / 2 <= i < start + len / 2 + k {
                crossed(ops, x, len)[i]
            } else {
                x[i]
            },
    )
}

/// Crosses the two halves of the block that starts at `start`.
fn cross_block<A: Arithmetic>(
    alu: &A,
    re: &mut [Float],
    im: &mut [Float],
    start: usize,
    half: usize,
    step_re: Float,
    step_im: Float,
)
    requires
        old(re)@.len() == old(im)@.len(),
        half > 0,
        start as int % (2 * half) == 0,
        start + 2 * half <= old(re)@.len(),
        steady(alu) ==> (step_re, step_im) == (complex_ops(alu).step)((2 * half) as nat),
    ensures
        final(re)@.len() == old(re)@.len(),
        final(im)@.len() == old(im)@.len(),
        steady(alu) ==> pairs(final(re)@, final(im)@) == crossed_so_far(
            complex_ops(alu),
            pairs(old(re)@, old(im)@),
            (2 * half) as nat,
            start as int,
            half as int,
        ),
{
    let ghost ops = complex_ops(alu);
    let ghost x = pairs(re@, im@);
    let ghost len = (2 * half) as nat;
    let n: usize = re.len();
    let mut w_re = Float(ONE);
    let mut w_im = Float(ZERO);
    let mut k: usize = 0;
    assert(x =~= crossed_so_far(ops, x, len, start as int, 0));
    while k < half
        invariant
            ops == complex_ops(alu),
            len == 2 * half,
            half > 0,
            k <= half,
            start as int % (len as int) == 0,
            start + 2 * half <= n,
            re@.len() == n,
            im@.len() == n,
            x.len() == n,
            steady(alu) ==> (step_re, step_im) == (ops.step)(len),
            steady(alu) ==> (w_re, w_im) == twiddle(ops, len, k as nat),
            steady(alu) ==> pairs(re@, im@) == crossed_so_far(ops, x, len, start as int, k as int),
        decreases half - k,
    {
        let a: usize = start + k;
        let b: usize = a + half;
        let ghost now = pairs(re@, im@);
        let re_a = re[a];
        let im_a = im[a];
        let re_b = re[b];
        let im_b = im[b];
        let t_re = alu.sub(alu.mul(w_re, re_b), alu.mul(w_im, im_b));
        let t_im = alu.add(alu.mul(w_re, im_b), alu.mul(w_im, re_b));
        re[b] = alu.sub(re_a, t_re);
        im[b] = alu.sub(im_a, t_im);
        re[a] = alu.add(re_a, t_re);
        im[a] = alu.add(im_a, t_im);
        let next_re = alu.sub(alu.mul(w_re, step_re), alu.mul(w_im, step_im));
        let next_im = alu.add(alu.mul(w_re, step_im), alu.mul(w_im, step_re));
        proof {
            if steady(alu) {
                let w = (w_re, w_im);
                let both = (ops.cross)(w, now[a as int], now[b as int]);
                assert(now[a as int] == x[a as int] && now[b as int] == x[b as int]);
                assert((t_re, t_im) == complex_product(alu, w, now[b as int]));
                assert(((re@[a as int], im@[a as int]), (re@[b as int], im@[b as int])) == both);
                offset_in_block(start as int, len as int, k as int);
                offset_in_block(start as int, len as int, k + half);
                assert(crossed(ops, x, len)[a as int] == both.0);
                assert(crossed(ops, x, len)[b as int] == both.1);
                let next = crossed_so_far(ops, x, len, start as int, k + 1);
                assert forall|i: int| 0 <= i < n implies pairs(re@, im@)[i] == next[i] by {
                    if i != a && i != b {
                        assert(pairs(re@, im@)[i] == now[i]);
                    }
                }
                assert(pairs(re@, im@) =~= next);
                assert((next_re, next_im) == (ops.turn)(w, (step_re, step_im)));
            }
        }
        w_re = next_re;
        w_im = next_im;
        k = k + 1;
    }
}

proof fn offset_in_block(start: int, len: int, k: int)
    requires
        len > 0,
        start % len == 0,
        0 <= k < len,
    ensures
        (start + k) % len == k,
{
    lemma_fundamental_div_mod(start, len);
    lemma_mul_is_commutative(len, start / len);
    lemma_fundamental_div_mod_converse(start + k, len, start / len, k);
}

/// The items after one stage has been through the blocks before `start`.
spec fn crossed_up_to<T>(ops: Ops<T>, x: Seq<T>, len: nat, start: int) -> Seq<T> {
    Seq::new(
        x.len(),
        |i: int|
            if i < start {
                crossed(ops, x, len)[i]
            } else {
                x[i]
            },
    )
}

proof fn crossing_one_more_block<T>(ops: Ops<T>, x: Seq<T>, len: nat, start: int)
    requires
        len > 0,
        len % 2 == 0,
        0 <= start,
        start % (len as int) == 0,
        start + len <= x.len(),
    ensures
        crossed_so_far(
            ops,
            crossed_up_to(ops, x, len, start),
            len,
            start,
            (len / 2) as int,
        ) == crossed_up_to(ops, x, len, start + len),
{
    let y = crossed_up_to(ops, x, len, start);
    let half = (len / 2) as int;
    assert forall|i: int| 0 <= i < x.len() implies crossed_so_far(ops, y, len, start, half)[i]
        == crossed_up_to(ops, x, len, start + len)[i] by {
        if start <= i < start + len {
            offset_in_block(start, len as int, i - start);
            assert(crossed(ops, y, len)[i] == crossed(ops, x, len)[i]);
        }
    }
    assert(crossed_so_far(ops, y, len, start, half) =~= crossed_up_to(ops, x, len, start + len));
}

/// One stage over blocks of length `2 * half`.
fn cross_stage<A: Arithmetic>(alu: &A, re: &mut [Float], im: &mut [Float], half: usize)
    requires
        old(re)@.len() == old(im)@.len(),
        half > 0,
        2 * half <= old(re)@.len(),
        old(re)@.len() % (2 * half) as nat == 0,
    ensures
        final(re)@.len() == old(re)@.len(),
        final(im)@.len() == old(im)@.len(),
        steady(alu) ==> pairs(final(re)@, final(im)@) == crossed(
            complex_ops(alu),
            pairs(old(re)@, old(im)@),
            (2 * half) as nat,
        ),
{
    let ghost ops = complex_ops(alu);
    let ghost x = pairs(re@, im@);
    let n: usize = re.len();
    let len: usize = 2 * half;
    let angle = alu.div(Float(NEG_TAU), alu.from_index(len));
    let step_re = alu.cos(angle);
    let step_im = alu.sin(angle);
    let mut start: usize = 0;
    assert(x =~= crossed_up_to(ops, x, len as nat, 0));
    while start < n
        invariant
            ops == complex_ops(alu),
            half > 0,
            len == 2 * half,
            len <= n,
            n as int % (len as int) == 0,
            start <= n,
            start as int % (len as int) == 0,
            re@.len() == n,
            im@.len() == n,
            x.len() == n,
            steady(alu) ==> (step_re, step_im) == (ops.step)(len as nat),
            steady(alu) ==> pairs(re@, im@) == crossed_up_to(ops, x, len as nat, start as int),
        decreases n - start,
    {
        proof {
            room_for_a_block(start as int, n as int, len as int);
        }
        cross_block(alu, re, im, start, half, step_re, step_im);
        proof {
            crossing_one_more_block(ops, x, len as nat, start as int);
        }
        start = start + len;
    }
    assert(crossed_up_to(ops, x, len as nat, start as int) =~= crossed(ops, x, len as nat));
}

proof fn room_for_a_block(start: int, n: int, len: int)
    requires
        0 < len,
        0 <= start < n,
        start % len == 0,
        n % len == 0,
    ensures
        start + len <= n,
        (start + len) % len == 0,
{
    let p = start / len;
    let q = n / len;
    lemma_fundamental_div_mod(start, len);
    lemma_fundamental_div_mod(n, len);
    assert(start + len <= n) by (nonlinear_arith)
        requires
            start == len * p,
            n == len * q,
            start < n,
            0 < len,
    ;
    assert(start + len == (p + 1) * len) by (nonlinear_arith)
        requires
            start == len * p,
    ;
    lemma_mod_multiples_basic(p + 1, len);
}

/// In-place iterative radix-2 Cooley-Tukey transform. `re` and `im` hold the
/// complex input and are overwritten with the transform; `rev` is the
/// bit-reversal permutation of their length.
pub fn fft_in_place<A: Arithmetic>(alu: &A, re: &mut [Float], im: &mut [Float], rev: &[usize])
    requires
        old(re)@.len() == rev@.len(),
        old(im)@.len() == rev@.len(),
        is_bit_reversal(rev@, bits_of(rev@.len())),
    ensures
        final(re)@.len() == old(re)@.len(),
        final(im)@.len() == old(im)@.len(),
        steady(alu) ==> pairs(final(re)@, final(im)@) == transformed(
            complex_ops(alu),
            pairs(old(re)@, old(im)@),
            bits_of(rev@.len()),
        ),
{
    let ghost bits = bits_of(rev@.len());
    let ghost ops = complex_ops(alu);
    let ghost x = pairs(re@, im@);
    let n: usize = re.len();
    reorder(re, rev, Ghost(bits));
    reorder(im, rev, Ghost(bits));
    let ghost y = reordered(x, bits);
    proof {
        lemma2_to64();
        assert forall|i: int| 0 <= i < n implies pairs(re@, im@)[i] == y[i] by {
            reversed_fits(bits, i as nat);
        }
        assert(pairs(re@, im@) =~= y);
    }
    let mut half: usize = 1;
    let ghost mut done: nat = 0;
    while half <= n / 2
        invariant
            ops == complex_ops(alu),
            n == pow2(bits),
            re@.len() == n,
            im@.len() == n,
            done <= bits,
            half == pow2(done),
            half <= n,
            steady(alu) ==> pairs(re@, im@) == stages(ops, y, done),
        decreases n - half,
    {
        proof {
            lemma_pow2_unfold(done + 1);
            lemma_pow2_pos(done);
            if done + 1 > bits {
                lemma_pow2_strictly_increases(bits, done + 1);
            }
            let rest = (bits - done - 1) as nat;
            lemma_pow2_adds(rest, done + 1);
            lemma_mod_multiples_basic(pow2(rest) as int, pow2(done + 1) as int);
        }
        cross_stage(alu, re, im, half);
        half = 2 * half;
        proof {
            done = done + 1;
        }
    }
    proof {
        if done < bits {
            lemma_pow2_unfold(done + 1);
            if done + 1 < bits {
                lemma_pow2_strictly_increases(done + 1, bits);
            }
        }
    }
}

/// Coefficient `i` of the periodic Hann window of length `n`, which tapers the
/// ends of a signal: `0.5 - 0.5 * cos(2 * pi * i / n)`.
pub open spec fn hann<A: Arithmetic>(alu: &A, n: nat, i: int) -> Float {
    let angle = alu.quotient(
        alu.product(Float(TAU), alu.of_index(i as usize)),
        alu.of_index(n as usize),
    );
    alu.difference(Float(HALF), alu.product(Float(HALF), alu.cosine(angle)))
}

/// The coefficients of the periodic Hann window of length `n`.
pub open spec fn hann_window<A: Arithmetic>(alu: &A, n: nat) -> Seq<Float> {
    Seq::new(n, |i: int| hann(alu, n, i))
}

/// A signal with a window applied, as complex numbers without imaginary part.
pub open spec fn windowed<A: Arithmetic>(
    alu: &A,
    samples: Seq<Float>,
    window: Seq<Float>,
) -> Seq<Complex> {
    Seq::new(samples.len(), |i: int| (alu.product(samples[i], window[i]), Float(ZERO)))
}

/// Computes the periodic Hann window of length `n`.
pub fn make_hann_window<A: Arithmetic>(alu: &A, n: usize) -> (window: Vec<Float>)
    ensures
        window@.len() == n,
        steady(alu) ==> window@ == hann_window(alu, n as nat),
{
    let mut window: Vec<Float> = Vec::with_capacity(n);
    let mut i: usize = 0;
    while i < n
        invariant
            i <= n,
            window@.len() == i,
            steady(alu) ==> forall|j: int|
                0 <= j < i ==> #[trigger] window@[j] == hann(alu, n as nat, j),
        decreases n - i,
    {
        let angle = alu.div(alu.mul(Float(TAU), alu.from_index(i)), alu.from_index(n));
        let coefficient = alu.sub(Float(HALF), alu.mul(Float(HALF), alu.cos(angle)));
        window.push(coefficient);
        i = i + 1;
    }
    assert(steady(alu) ==> window@ =~= hann_window(alu, n as nat));
    window
}

/// Fills complex buffers with a windowed signal.
pub fn apply_window<A: Arithmetic>(
    alu: &A,
    samples: &[Float],
    window: &[Float],
    re: &mut [Float],
    im: &mut [Float],
)
    requires
        samples@.len() == window@.len(),
        samples@.len() == old(re)@.len(),
        samples@.len() == old(im)@.len(),
    ensures
        final(re)@.len() == old(re)@.len(),
        final(im)@.len() == old(im)@.len(),
        steady(alu) ==> pairs(final(re)@, final(im)@) == windowed(alu, samples@, window@),
{
    let n: usize = re.len();
    let mut i: usize = 0;
    while i < n
        invariant
            i <= n,
            samples@.len() == n,
            window@.len() == n,
            re@.len() == n,
            im@.len() == n,
            forall|j: int| 0 <= j < i ==> #[trigger] im@[j] == Float(ZERO),
            steady(alu) ==> forall|j: int|
                0 <= j < i ==> #[trigger] re@[j] == alu.product(samples@[j], window@[j]),
        decreases n - i,
    {
        re[i] = alu.mul(samples[i], window[i]);
        im[i] = Float(ZERO);
        i = i + 1;
    }
    assert(steady(alu) ==> pairs(re@, im@) =~= windowed(alu, samples@, window@));
}

/// A transform of a fixed length over windowed real signals.
pub struct Fft {
    window: Vec<Float>,
    re: Vec<Float>,
    im: Vec<Float>,
    rev: Vec<usize>,
}

impl Fft {
    /// The length of the signals.
    pub closed spec fn size(&self) -> nat {
        self.rev@.len()
    }

    /// The window that signals are tapered with.
    pub closed spec fn window(&self) -> Seq<Float> {
        self.window@
    }

    pub closed spec fn wf(&self) -> bool {
        &&& is_bit_reversal(self.rev@, bits_of(self.rev@.len()))
        &&& self.window@.len() == self.rev@.len()
        &&& self.re@.len() == self.rev@.len()
        &&& self.im@.len() == self.rev@.len()
    }

    /// A transform of length `n`, which has to be a power of two.
    pub fn new<A: Arithmetic>(alu: &A, n: usize) -> (r: Fft)
        requires
            is_power_of_two(n as nat),
        ensures
            r.wf(),
            r.size() == n,
            steady(alu) ==> r.window() == hann_window(alu, n as nat),
    {
        Fft {
            window: make_hann_window(alu, n),
            re: vec![Float(ZERO); n],
            im: vec![Float(ZERO); n],
            rev: bit_reversal(n),
        }
    }

    pub fn len(&self) -> (r: usize)
        requires
            self.wf(),
        ensures
            r == self.size(),
    {
        self.re.len()
    }

    /// Tapers a signal and transforms it. Returns the real and the imaginary
    /// parts of the spectrum.
    pub fn transform<A: Arithmetic>(&mut self, alu: &A, samples: &[Float]) -> (r: (
        &[Float],
        &[Float],
    ))
        requires
            old(self).wf(),
            samples@.len() == old(self).size(),
        ensures
            final(self).wf(),
            final(self).size() == old(self).size(),
            final(self).window() == old(self).window(),
            r.0@.len() == old(self).size(),
            r.1@.len() == old(self).size(),
            steady(alu) ==> pairs(r.0@, r.1@) == transformed(
                complex_ops(alu),
                windowed(alu, samples@, old(self).window()),
                bits_of(old(self).size()),
            ),
    {
        apply_window(alu, samples, &self.window, &mut self.re, &mut self.im);
        fft_in_place(alu, &mut self.re, &mut self.im, &self.rev);
        (&self.re, &self.im)
    }
}

} // verus!
