//! Log-spaced frequency spectrum.
//!
//! A [`Spectrum`] takes a window of recent samples, runs a real transform over
//! a Hann-windowed copy, and folds the (linearly spaced) bins into a fixed set
//! of log-spaced frequency bands, each with a magnitude in dB.
//!
//! Two logarithms live here, and they are independent: band edges grow
//! geometrically, so each band spans a constant ratio of frequencies, and band
//! energy is converted to dB before display.

use vstd::arithmetic::power2::lemma2_to64;
use vstd::prelude::*;

use crate::arith::{steady, Arithmetic};
use crate::exact::{
    exact, on_the_circle, raised, times, times_cancels, times_groups, times_orders, times_signs,
    times_simple, times_spreads, times_swaps, turning_keeps_length, whole, Reading,
};
use crate::fft::{
    apply_window, bit_reversal, bits_of, complex_ops, fft_in_place, hann_window, is_bit_reversal,
    is_power_of_two, make_hann_window, pairs, transformed, windowed, Complex,
};
use crate::float::{Float, ONE, TWO, ZERO};
use crate::scope::WaveScope;

verus! {

/// Transform length, in samples. 2048 at 48 kHz gives bins of about 23 Hz and
/// about 43 ms of latency.
pub const FFT_SIZE: usize = 2048;

/// The last bin that is not a mirror image of an earlier one.
pub const NYQUIST_BIN: usize = 1024;

/// Encoding of `-90.0`, the level in dB that maps to 0.
pub const DB_FLOOR: u32 = 0xc2b4_0000;

/// Encoding of `90.0`, the range of levels in dB.
pub const DB_RANGE: u32 = 0x42b4_0000;

/// Encoding of `20.0`, the dB per factor of ten in amplitude.
pub const DB_PER_DECADE: u32 = 0x41a0_0000;

/// One frequency band: its center frequency and its current magnitude.
#[derive(Clone, Copy, PartialEq, Eq, Structural, Debug)]
pub struct Band {
    pub center_hz: Float,
    /// `0.0..=1.0`, where 1.0 is full scale (0 dB) and 0.0 is [`DB_FLOOR`].
    pub magnitude: Float,
}

impl Default for Band {
    fn default() -> (r: Band)
        ensures
            r == (Band { center_hz: Float(ZERO), magnitude: Float(ZERO) }),
    {
        Band { center_hz: Float(ZERO), magnitude: Float(ZERO) }
    }
}

/// A linear magnitude on the dB scale, from 0 at [`DB_FLOOR`] or quieter to 1
/// at full scale.
pub open spec fn normalized_db<A: Arithmetic>(alu: &A, mag: Float) -> Float {
    if mag.at_most(Float(ZERO)) {
        Float(ZERO)
    } else {
        unclamped_db(alu, mag).clamped(Float(ZERO), Float(ONE))
    }
}

/// A linear magnitude on the dB scale, which goes on beyond its ends.
pub open spec fn unclamped_db<A: Arithmetic>(alu: &A, mag: Float) -> Float {
    let db = alu.product(Float(DB_PER_DECADE), alu.logarithm(mag));
    alu.quotient(alu.difference(db, Float(DB_FLOOR)), Float(DB_RANGE))
}

/// Converts a linear magnitude to `0.0..=1.0`.
pub fn to_db_normalized<A: Arithmetic>(alu: &A, mag: Float) -> (r: Float)
    ensures
        steady(alu) ==> r == normalized_db(alu, mag),
        mag.at_most(Float(ZERO)) ==> r == Float(ZERO),
        r.nan() || (Float(ZERO).at_most(r) && r.at_most(Float(ONE))),
{
    if mag.le(Float(ZERO)) {
        return Float(ZERO);
    }
    let db = alu.mul(Float(DB_PER_DECADE), alu.log10(mag));
    alu.div(alu.sub(db, Float(DB_FLOOR)), Float(DB_RANGE)).clamp(Float(ZERO), Float(ONE))
}

/// Whether an arithmetic keeps the order of levels on their way to dB: the
/// logarithm that of positive numbers, the other steps that of all numbers.
pub open spec fn keeps_order<A: Arithmetic>(alu: &A) -> bool {
    &&& forall|x: Float, y: Float|
        Float(ZERO).below(x) && x.at_most(y) ==> (#[trigger] alu.logarithm(x)).at_most(
            #[trigger] alu.logarithm(y),
        )
    &&& forall|x: Float, y: Float|
        x.at_most(y) ==> (#[trigger] alu.product(Float(DB_PER_DECADE), x)).at_most(
            #[trigger] alu.product(Float(DB_PER_DECADE), y),
        )
    &&& forall|x: Float, y: Float|
        x.at_most(y) ==> (#[trigger] alu.difference(x, Float(DB_FLOOR))).at_most(
            #[trigger] alu.difference(y, Float(DB_FLOOR)),
        )
    &&& forall|x: Float, y: Float|
        x.at_most(y) ==> (#[trigger] alu.quotient(x, Float(DB_RANGE))).at_most(
            #[trigger] alu.quotient(y, Float(DB_RANGE)),
        )
}

/// A louder level is never shown as a quieter one, and all levels are shown
/// between 0 and 1.
pub proof fn law_db_keeps_order<A: Arithmetic>(alu: &A, a: Float, b: Float)
    requires
        keeps_order(alu),
        a.at_most(b),
    ensures
        Float(ZERO).at_most(normalized_db(alu, a)),
        normalized_db(alu, a).at_most(normalized_db(alu, b)),
        normalized_db(alu, b).at_most(Float(ONE)),
        a.at_most(Float(ZERO)) ==> normalized_db(alu, a) == Float(ZERO),
{
    if !b.at_most(Float(ZERO)) {
        db_keeps_order(alu, b, b);
        if !a.at_most(Float(ZERO)) {
            db_keeps_order(alu, a, b);
        }
    }
}

proof fn db_keeps_order<A: Arithmetic>(alu: &A, a: Float, b: Float)
    requires
        keeps_order(alu),
        Float(ZERO).below(a),
        a.at_most(b),
    ensures
        Float(ZERO).at_most(normalized_db(alu, a)),
        normalized_db(alu, a).at_most(normalized_db(alu, b)),
        normalized_db(alu, b).at_most(Float(ONE)),
        unclamped_db(alu, a).at_most(unclamped_db(alu, b)),
{
    assert(alu.logarithm(a).at_most(alu.logarithm(b)));
    let x = alu.product(Float(DB_PER_DECADE), alu.logarithm(a));
    let y = alu.product(Float(DB_PER_DECADE), alu.logarithm(b));
    assert(x.at_most(y));
    assert(alu.difference(x, Float(DB_FLOOR)).at_most(alu.difference(y, Float(DB_FLOOR))));
}

/// Whether an arithmetic is exact where the dB scale begins and ends: full
/// scale has 0 dB, and the floor and the range are what they are.
pub open spec fn exact_at_the_ends<A: Arithmetic>(alu: &A) -> bool {
    &&& alu.logarithm(Float(ONE)) == Float(ZERO)
    &&& alu.product(Float(DB_PER_DECADE), Float(ZERO)) == Float(ZERO)
    &&& alu.difference(Float(ZERO), Float(DB_FLOOR)) == Float(DB_RANGE)
    &&& alu.quotient(Float(DB_RANGE), Float(DB_RANGE)) == Float(ONE)
    &&& alu.difference(Float(DB_FLOOR), Float(DB_FLOOR)) == Float(ZERO)
    &&& alu.quotient(Float(ZERO), Float(DB_RANGE)) == Float(ZERO)
}

/// Full scale and everything louder is shown as 1, the floor and everything
/// quieter as 0.
pub proof fn law_db_ends<A: Arithmetic>(alu: &A, mag: Float)
    requires
        keeps_order(alu),
        exact_at_the_ends(alu),
        !mag.nan(),
    ensures
        Float(ONE).at_most(mag) ==> normalized_db(alu, mag) == Float(ONE),
        Float(ZERO).below(mag) && alu.product(
            Float(DB_PER_DECADE),
            alu.logarithm(mag),
        ).at_most(Float(DB_FLOOR)) ==> normalized_db(alu, mag).rank() == 0,
{
    if Float(ONE).at_most(mag) {
        db_keeps_order(alu, Float(ONE), mag);
        db_keeps_order(alu, mag, mag);
        assert(unclamped_db(alu, Float(ONE)) == Float(ONE));
        at_rank_one(normalized_db(alu, mag));
    }
    let db = alu.product(Float(DB_PER_DECADE), alu.logarithm(mag));
    if Float(ZERO).below(mag) && db.at_most(Float(DB_FLOOR)) {
        db_keeps_order(alu, mag, mag);
        assert(alu.difference(db, Float(DB_FLOOR)).at_most(
            alu.difference(Float(DB_FLOOR), Float(DB_FLOOR)),
        ));
        assert(alu.quotient(alu.difference(db, Float(DB_FLOOR)), Float(DB_RANGE)).at_most(
            alu.quotient(Float(ZERO), Float(DB_RANGE)),
        ));
    }
}

proof fn at_rank_one(x: Float)
    requires
        x.at_most(Float(ONE)),
        Float(ONE).at_most(x),
    ensures
        x == Float(ONE),
{
}

/// The frequency range of a spectrum and how it is divided.
pub struct Scale {
    /// Width of a bin.
    pub bin_hz: Float,
    /// Lower edge of the first band.
    pub lo_hz: Float,
    /// Upper edge of the last band.
    pub hi_hz: Float,
    /// Ratio between the upper and the lower edge of a band.
    pub ratio: Float,
}

/// Half the sample rate, above which there are no bins.
pub open spec fn nyquist<A: Arithmetic>(alu: &A, bin_hz: Float) -> Float {
    alu.product(alu.of_index(NYQUIST_BIN), bin_hz)
}

/// The scale of a spectrum. The upper end of the range is moved down to half
/// the sample rate, and the lower end up to the first usable bin, as far as
/// the upper end lets it.
pub open spec fn scale<A: Arithmetic>(
    alu: &A,
    sample_rate: u32,
    n_bands: usize,
    min_hz: Float,
    max_hz: Float,
) -> Scale {
    let bin_hz = alu.quotient(alu.of_index(sample_rate as usize), alu.of_index(FFT_SIZE));
    let hi_hz = max_hz.lesser(nyquist(alu, bin_hz));
    let lo_hz = min_hz.greater(bin_hz).lesser(hi_hz);
    let ratio = alu.power(
        alu.quotient(hi_hz, lo_hz),
        alu.quotient(Float(ONE), alu.of_index(n_bands)),
    );
    Scale { bin_hz, lo_hz, hi_hz, ratio }
}

/// Whatever range was asked for, the bands lie between the first usable bin
/// and half the sample rate, and not above the range. A range that ends below
/// the first bin has all its bands at its end. A range that lies between the
/// two is taken as it is, and nothing more than necessary is cut off another.
pub proof fn law_range_is_usable<A: Arithmetic>(
    alu: &A,
    sample_rate: u32,
    n_bands: usize,
    min_hz: Float,
    max_hz: Float,
)
    requires
        !min_hz.nan(),
        !max_hz.nan(),
        !nyquist(alu, scale(alu, sample_rate, n_bands, min_hz, max_hz).bin_hz).nan(),
    ensures
        ({
            let s = scale(alu, sample_rate, n_bands, min_hz, max_hz);
            &&& s.lo_hz.at_most(s.hi_hz)
            &&& s.hi_hz.at_most(nyquist(alu, s.bin_hz))
            &&& s.hi_hz.at_most(max_hz)
            &&& s.bin_hz.at_most(s.hi_hz) ==> s.bin_hz.at_most(s.lo_hz)
            &&& min_hz.at_most(s.hi_hz) ==> min_hz.at_most(s.lo_hz)
            &&& max_hz.at_most(nyquist(alu, s.bin_hz)) ==> s.hi_hz == max_hz
            &&& nyquist(alu, s.bin_hz).below(max_hz) ==> s.hi_hz == nyquist(alu, s.bin_hz)
            &&& s.bin_hz.at_most(min_hz) && min_hz.at_most(s.hi_hz) ==> s.lo_hz == min_hz
            &&& min_hz.below(s.bin_hz) && s.bin_hz.at_most(s.hi_hz) ==> s.lo_hz == s.bin_hz
        }),
{
}

/// The edge between bands `b - 1` and `b`.
pub open spec fn edge<A: Arithmetic>(alu: &A, scale: Scale, b: int) -> Float {
    alu.product(scale.lo_hz, alu.whole_power(scale.ratio, b as i32))
}

/// The middle of band `b`: the geometric mean of its edges.
pub open spec fn center<A: Arithmetic>(alu: &A, scale: Scale, b: int) -> Float {
    alu.square_root(alu.product(edge(alu, scale, b), edge(alu, scale, b + 1)))
}

/// Without rounding, a spectrum has [`FFT_SIZE`] bins in the sample rate, and
/// half of them up to half the sample rate.
pub proof fn law_bins_divide_the_rate<A: Arithmetic>(
    alu: &A,
    m: Reading,
    sample_rate: u32,
    n_bands: usize,
    min_hz: Float,
    max_hz: Float,
)
    requires
        exact(alu, m),
        m.has(nyquist(alu, scale(alu, sample_rate, n_bands, min_hz, max_hz).bin_hz)),
    ensures
        ({
            let s = scale(alu, sample_rate, n_bands, min_hz, max_hz);
            &&& times(m.num(s.bin_hz), 2048real) == whole(sample_rate as int)
            &&& times(m.num(nyquist(alu, s.bin_hz)), 2real) == whole(sample_rate as int)
        }),
{
    let bin = m.num(scale(alu, sample_rate, n_bands, min_hz, max_hz).bin_hz);
    times_swaps(1024real, bin);
    times_spreads(bin, 1024real, 1024real);
    times_simple(times(bin, 1024real));
}

/// Without rounding, the edges grow geometrically: those of neighboring bands
/// are in the same ratio, whatever the range.
pub proof fn law_edges_are_geometric<A: Arithmetic>(alu: &A, m: Reading, s: Scale, b: int)
    requires
        exact(alu, m),
        0 <= b,
        b + 2 <= i32::MAX,
        m.has(edge(alu, s, b)),
        m.has(edge(alu, s, b + 1)),
        m.has(edge(alu, s, b + 2)),
    ensures
        times(m.num(edge(alu, s, b + 1)), m.num(edge(alu, s, b + 1))) == times(
            m.num(edge(alu, s, b)),
            m.num(edge(alu, s, b + 2)),
        ),
        m.num(edge(alu, s, b + 1)) == times(m.num(edge(alu, s, b)), m.num(s.ratio)),
{
    let (lo, q) = (m.num(s.lo_hz), m.num(s.ratio));
    let p = raised(q, b as nat);
    assert(raised(q, (b + 1) as nat) == times(p, q));
    assert(raised(q, (b + 2) as nat) == times(times(p, q), q));
    times_groups(lo, p, q);
    let e = times(lo, p);
    times_groups(lo, times(p, q), q);
    // (e * q) * (e * q) == e * ((e * q) * q)
    let f = times(e, q);
    times_groups(e, q, f);
    times_swaps(q, f);
}

/// A root of a number, multiplied with itself as often, is the number.
proof fn root_raised(m: Reading, x: real, p: real, k: nat)
    requires
        m.grows(),
        x > 0real,
        k > 0,
    ensures
        raised((m.pow)(x, p), k) == (m.pow)(x, times(p, whole(k as int))),
    decreases k,
{
    let r = (m.pow)(x, p);
    times_simple(p);
    times_simple(r);
    if k == 1 {
        assert(raised(r, 1) == times(raised(r, 0), r));
    } else {
        root_raised(m, x, p, (k - 1) as nat);
        let q = times(p, whole(k - 1));
        times_spreads(p, whole(k - 1), 1real);
        assert(whole(k - 1) + 1real == whole(k as int));
        assert((m.pow)(x, q + p) == times((m.pow)(x, q), (m.pow)(x, p))) by {
            reveal(Reading::grows);
        }
    }
}

/// Without rounding, the bands begin at the lower end of the range and end at
/// its upper end.
pub proof fn law_edges_span_the_range<A: Arithmetic>(
    alu: &A,
    m: Reading,
    sample_rate: u32,
    n_bands: usize,
    min_hz: Float,
    max_hz: Float,
)
    requires
        exact(alu, m),
        0 < n_bands <= i32::MAX,
        ({
            let s = scale(alu, sample_rate, n_bands, min_hz, max_hz);
            &&& m.num(s.lo_hz) > 0real
            &&& m.num(s.hi_hz) > 0real
            &&& m.has(edge(alu, s, 0))
            &&& m.has(edge(alu, s, n_bands as int))
        }),
    ensures
        ({
            let s = scale(alu, sample_rate, n_bands, min_hz, max_hz);
            &&& m.num(edge(alu, s, 0)) == m.num(s.lo_hz)
            &&& m.num(edge(alu, s, n_bands as int)) == m.num(s.hi_hz)
        }),
{
    let s = scale(alu, sample_rate, n_bands, min_hz, max_hz);
    let (lo, hi) = (m.num(s.lo_hz), m.num(s.hi_hz));
    let n = whole(n_bands as int);
    times_simple(lo);
    assert(raised(m.num(s.ratio), 0) == 1real);
    let span = alu.quotient(s.hi_hz, s.lo_hz);
    let part = alu.quotient(Float(ONE), alu.of_index(n_bands));
    assert(s.ratio == alu.power(span, part));
    assert(m.has(s.ratio));
    let x = m.num(span);
    assert(times(x, lo) == hi);
    times_orders(0real, x, lo);
    assert(x > 0real);
    assert(times(m.num(part), n) == 1real);
    root_raised(m, x, m.num(part), n_bands as nat);
    assert((m.pow)(x, 1real) == x) by {
        reveal(Reading::grows);
    }
    times_swaps(x, lo);
}

/// Without rounding, the middle of a band is the geometric mean of its edges:
/// it lies as far above the one as below the other, as a ratio.
pub proof fn law_center_is_in_the_middle<A: Arithmetic>(alu: &A, m: Reading, s: Scale, b: int)
    requires
        exact(alu, m),
        m.has(center(alu, s, b)),
    ensures
        m.num(center(alu, s, b)) >= 0real,
        times(m.num(center(alu, s, b)), m.num(center(alu, s, b))) == times(
            m.num(edge(alu, s, b)),
            m.num(edge(alu, s, b + 1)),
        ),
{
}

/// A number moved into a range.
pub open spec fn clamped_index(i: usize, lo: usize, hi: usize) -> usize {
    if i < lo {
        lo
    } else if i > hi {
        hi
    } else {
        i
    }
}

/// The bins of band `b`, from the first up to but not including the second:
/// those from its lower to its upper edge, without bin 0 and up to half the
/// sample rate, but at least that of its lower edge.
pub open spec fn bins<A: Arithmetic>(alu: &A, scale: Scale, b: int) -> (usize, usize) {
    let lo = clamped_index(
        alu.index_below(alu.quotient(edge(alu, scale, b), scale.bin_hz)),
        1,
        NYQUIST_BIN,
    );
    let hi = clamped_index(
        alu.index_above(alu.quotient(edge(alu, scale, b + 1), scale.bin_hz)),
        lo,
        NYQUIST_BIN,
    );
    (
        lo,
        if hi > lo {
            hi
        } else {
            (lo + 1) as usize
        },
    )
}

/// Every band claims at least one bin, and no bin but those from the first up
/// to half the sample rate.
pub proof fn law_bands_claim_a_bin<A: Arithmetic>(alu: &A, scale: Scale, b: int)
    ensures
        1 <= bins(alu, scale, b).0 < bins(alu, scale, b).1 <= NYQUIST_BIN + 1,
{
}

/// Without rounding, the bins of a band follow from its edges: the first is the
/// one that the lower edge falls into, and the last reaches up to the upper
/// edge and no bin beyond it is taken, except that a band has at least one.
pub proof fn law_bins_reach_from_edge_to_edge<A: Arithmetic>(alu: &A, m: Reading, s: Scale, b: int)
    requires
        exact(alu, m),
        m.num(s.bin_hz) > 0real,
        m.has(alu.quotient(edge(alu, s, b), s.bin_hz)),
        m.has(alu.quotient(edge(alu, s, b + 1), s.bin_hz)),
        m.num(s.bin_hz) <= m.num(edge(alu, s, b)),
        m.num(edge(alu, s, b)) <= m.num(edge(alu, s, b + 1)),
        m.num(edge(alu, s, b + 1)) <= times(1024real, m.num(s.bin_hz)),
    ensures
        ({
            let (lo, hi) = bins(alu, s, b);
            let bin = m.num(s.bin_hz);
            &&& times(whole(lo as int), bin) <= m.num(edge(alu, s, b))
            &&& m.num(edge(alu, s, b)) < times(whole(lo + 1), bin)
            &&& m.num(edge(alu, s, b + 1)) <= times(whole(hi as int), bin)
            &&& hi > lo + 1 ==> times(whole(hi - 1), bin) < m.num(edge(alu, s, b + 1))
        }),
{
    let bin = m.num(s.bin_hz);
    let p = m.num(alu.quotient(edge(alu, s, b), s.bin_hz));
    let q = m.num(alu.quotient(edge(alu, s, b + 1), s.bin_hz));
    times_simple(bin);
    times_orders(1real, p, bin);
    times_orders(p, q, bin);
    times_orders(q, 1024real, bin);
    let below = alu.index_below(alu.quotient(edge(alu, s, b), s.bin_hz));
    let above = alu.index_above(alu.quotient(edge(alu, s, b + 1), s.bin_hz));
    assert(1 <= below <= 1024);
    assert(above <= 1024 && above >= below);
    let (lo, hi) = bins(alu, s, b);
    assert(lo == below);
    times_orders(whole(lo as int), p, bin);
    times_orders(p, whole(lo + 1), bin);
    times_orders(q, whole(hi as int), bin);
    times_orders(whole(hi - 1), q, bin);
}

/// Without rounding, neighboring bands leave no bin out between them.
pub proof fn law_bands_leave_no_gap<A: Arithmetic>(alu: &A, m: Reading, s: Scale, b: int)
    requires
        exact(alu, m),
        m.has(alu.quotient(edge(alu, s, b + 1), s.bin_hz)),
        0real <= m.num(alu.quotient(edge(alu, s, b + 1), s.bin_hz)),
        m.num(alu.quotient(edge(alu, s, b + 1), s.bin_hz)) < whole(usize::MAX as int),
    ensures
        bins(alu, s, b + 1).0 <= bins(alu, s, b).1,
{
    let q = alu.quotient(edge(alu, s, b + 1), s.bin_hz);
    assert(alu.index_below(q) <= alu.index_above(q));
}

fn clamp_index(i: usize, lo: usize, hi: usize) -> (r: usize)
    requires
        lo <= hi,
    ensures
        r == clamped_index(i, lo, hi),
        lo <= r <= hi,
{
    if i < lo {
        lo
    } else if i > hi {
        hi
    } else {
        i
    }
}

/// Energy of bins `lo` up to `hi` of a transformed signal.
pub open spec fn energy<A: Arithmetic>(alu: &A, x: Seq<Complex>, lo: int, hi: int) -> Float
    decreases hi - lo,
{
    if hi <= lo {
        Float(ZERO)
    } else {
        let bin = x[hi - 1];
        alu.sum(
            energy(alu, x, lo, hi - 1),
            alu.sum(alu.product(bin.0, bin.0), alu.product(bin.1, bin.1)),
        )
    }
}

/// The magnitude of the band that has bins `lo` up to `hi`: their mean energy,
/// as an amplitude relative to full scale, in dB.
pub open spec fn band_magnitude<A: Arithmetic>(
    alu: &A,
    x: Seq<Complex>,
    lo: usize,
    hi: usize,
) -> Float {
    normalized_db(alu, band_amplitude(alu, x, lo, hi))
}

/// The amplitude of the band that has bins `lo` up to `hi`, relative to full
/// scale.
pub open spec fn band_amplitude<A: Arithmetic>(
    alu: &A,
    x: Seq<Complex>,
    lo: usize,
    hi: usize,
) -> Float {
    let mean = alu.quotient(
        energy(alu, x, lo as int, hi as int),
        alu.of_index((hi - lo) as usize),
    );
    alu.quotient(
        alu.square_root(mean),
        alu.quotient(alu.of_index(FFT_SIZE), Float(TWO)),
    )
}

/// The squared absolute value of a complex number.
pub open spec fn squared_length(m: Reading, z: Complex) -> real {
    times(m.num(z.0), m.num(z.0)) + times(m.num(z.1), m.num(z.1))
}

/// Without rounding, the energy of bins is what each of them adds: its squared
/// absolute value. It is zero only where all of them are.
pub proof fn law_energy_adds_up<A: Arithmetic>(
    alu: &A,
    m: Reading,
    x: Seq<Complex>,
    lo: int,
    mid: int,
    hi: int,
)
    requires
        exact(alu, m),
        lo <= mid <= hi,
        m.has(energy(alu, x, lo, hi)),
    ensures
        m.has(energy(alu, x, lo, mid)),
        0real <= m.num(energy(alu, x, lo, mid)),
        m.num(energy(alu, x, lo, mid)) <= m.num(energy(alu, x, lo, hi)),
        hi == lo ==> m.num(energy(alu, x, lo, hi)) == 0real,
        hi == mid + 1 ==> m.num(energy(alu, x, lo, hi)) == m.num(energy(alu, x, lo, mid))
            + squared_length(m, x[mid]),
        m.num(energy(alu, x, lo, hi)) == 0real ==> forall|k: int|
            lo <= k < hi ==> m.num((#[trigger] x[k]).0) == 0real && m.num(x[k].1) == 0real,
    decreases hi - lo,
{
    if lo < hi {
        let z = x[hi - 1];
        times_signs(m.num(z.0), m.num(z.0));
        times_signs(m.num(z.1), m.num(z.1));
        law_energy_adds_up(alu, m, x, lo, if mid < hi { mid } else { hi - 1 }, hi - 1);
    }
}

/// Without rounding, the energy of bins does not depend on the phase: turning
/// each of them by some angle, such as (a, b) to (b, -a), leaves it the same.
pub proof fn law_energy_ignores_phase<A: Arithmetic>(
    alu: &A,
    m: Reading,
    x: Seq<Complex>,
    y: Seq<Complex>,
    angles: Seq<real>,
    lo: int,
    hi: int,
)
    requires
        exact(alu, m),
        0 <= lo <= hi <= x.len(),
        y.len() == x.len(),
        angles.len() == x.len(),
        m.has(energy(alu, x, lo, hi)),
        m.has(energy(alu, y, lo, hi)),
        forall|k: int|
            lo <= k < hi ==> ({
                let (c, s) = ((m.cos)(angles[k]), (m.sin)(angles[k]));
                let (a, b) = (m.num(x[k].0), m.num(x[k].1));
                &&& m.num((#[trigger] y[k]).0) == times(a, c) - times(b, s)
                &&& m.num(y[k].1) == times(a, s) + times(b, c)
            }),
    ensures
        m.num(energy(alu, x, lo, hi)) == m.num(energy(alu, y, lo, hi)),
    decreases hi - lo,
{
    if lo < hi {
        let k = hi - 1;
        law_energy_adds_up(alu, m, x, lo, k, hi);
        law_energy_adds_up(alu, m, y, lo, k, hi);
        law_energy_ignores_phase(alu, m, x, y, angles, lo, k);
        on_the_circle(m, angles[k]);
        assert(m.num(y[k].0) == times(m.num(x[k].0), (m.cos)(angles[k])) - times(
            m.num(x[k].1),
            (m.sin)(angles[k]),
        ));
        turning_keeps_length(
            m.num(x[k].0),
            m.num(x[k].1),
            (m.cos)(angles[k]),
            (m.sin)(angles[k]),
        );
    }
}

/// Without rounding, the amplitude of a band is the root of the mean energy of
/// its bins, in units of half the transform length: squared and put back into
/// these units, once for each bin, it is their energy. So a bin that holds half
/// the transform length has amplitude 1.
pub proof fn law_amplitude_is_the_mean<A: Arithmetic>(
    alu: &A,
    m: Reading,
    x: Seq<Complex>,
    lo: usize,
    hi: usize,
)
    requires
        exact(alu, m),
        lo < hi,
        m.has(band_amplitude(alu, x, lo, hi)),
    ensures
        m.has(energy(alu, x, lo as int, hi as int)),
        m.num(band_amplitude(alu, x, lo, hi)) >= 0real,
        ({
            let a = times(m.num(band_amplitude(alu, x, lo, hi)), 1024real);
            times(times(a, a), whole(hi - lo)) == m.num(energy(alu, x, lo as int, hi as int))
        }),
{
    let e = energy(alu, x, lo as int, hi as int);
    let mean = alu.quotient(e, alu.of_index((hi - lo) as usize));
    let root = alu.square_root(mean);
    let half = alu.quotient(alu.of_index(FFT_SIZE), Float(TWO));
    let a = band_amplitude(alu, x, lo, hi);
    assert(a == alu.quotient(root, half));
    assert(times(m.num(half), 2real) == 2048real);
    times_simple(m.num(half));
    assert(m.num(half) == 1024real);
    assert(times(m.num(a), 1024real) == m.num(root));
    times_orders(m.num(a), 0real, 1024real);
    times_simple(1024real);
}

/// Without rounding, a magnitude of 90 dB below full scale or less is shown as
/// 0, full scale or more as 1, and what is between in proportion to its dB.
pub proof fn law_db_scale_spans_ninety<A: Arithmetic>(alu: &A, m: Reading, a: Float)
    requires
        exact(alu, m),
        m.has(unclamped_db(alu, a)),
    ensures
        ({
            let shown = normalized_db(alu, a);
            let above = times(20real, (m.log)(m.num(a))) + 90real;
            &&& m.has(shown)
            &&& above <= 0real ==> m.num(shown) == 0real
            &&& above >= 90real ==> m.num(shown) == 1real
            &&& 0real <= above <= 90real ==> times(m.num(shown), 90real) == above
        }),
{
    let u = unclamped_db(alu, a);
    let la = alu.logarithm(a);
    assert(m.has(alu.product(Float(DB_PER_DECADE), la)));
    assert(Float(DB_RANGE).opposite() == Float(DB_FLOOR));
    assert(!a.at_most(Float(ZERO)));
    times_simple(90real);
    times_orders(m.num(u), 0real, 90real);
    times_orders(m.num(u), 1real, 90real);
    times_orders(0real, m.num(u), 90real);
    times_orders(1real, m.num(u), 90real);
    assert(u.at_most(Float(ZERO)) <==> m.num(u) <= 0real);
    assert(Float(ZERO).at_most(u) <==> 0real <= m.num(u));
    assert(u.at_most(Float(ONE)) <==> m.num(u) <= 1real);
    assert(Float(ONE).at_most(u) <==> 1real <= m.num(u));
}

/// Without rounding, levels in dB are logarithmic: ten times the amplitude is
/// 20 dB more of the 90 dB that the scale spans, and full scale is at its end.
pub proof fn law_db_is_logarithmic<A: Arithmetic>(alu: &A, m: Reading, a: Float, b: Float)
    requires
        exact(alu, m),
        m.has(unclamped_db(alu, a)),
        m.has(unclamped_db(alu, b)),
        m.num(b) == times(10real, m.num(a)),
    ensures
        times(m.num(unclamped_db(alu, b)) - m.num(unclamped_db(alu, a)), 90real) == 20real,
        m.num(a) == 1real ==> m.num(unclamped_db(alu, a)) == 1real,
{
    let (la, lb) = (alu.logarithm(a), alu.logarithm(b));
    assert(m.has(la) && m.has(lb)) by {
        assert(m.has(alu.product(Float(DB_PER_DECADE), la)));
        assert(m.has(alu.product(Float(DB_PER_DECADE), lb)));
    }
    assert((m.log)(times(10real, m.num(a))) == 1real + m.num(la) && (m.log)(1real) == 0real) by {
        reveal(Reading::grows);
        assert((m.log)(10real) == 1real);
    }
    times_spreads(20real, 1real, m.num(la));
    times_simple(20real);
    let (ua, ub) = (m.num(unclamped_db(alu, a)), m.num(unclamped_db(alu, b)));
    times_spreads(90real, ub, ua);
    times_simple(90real);
    assert(Float(DB_RANGE).opposite() == Float(DB_FLOOR));
    if m.num(a) == 1real {
        assert(times(ua, 90real) == times(1real, 90real));
        times_cancels(ua, 1real, 90real);
    }
}

/// How a spectrum is made: the window that signals are tapered with, and the
/// bins and the middle of each band.
#[verifier::ext_equal]
pub struct Tuning {
    pub window: Seq<Float>,
    pub bins: Seq<(usize, usize)>,
    pub centers: Seq<Float>,
}

impl Tuning {
    /// What the bands show of a signal.
    pub open spec fn analysed<A: Arithmetic>(self, alu: &A, signal: Seq<Float>) -> Seq<Band> {
        let x = transformed(
            complex_ops(alu),
            windowed(alu, signal, self.window),
            bits_of(FFT_SIZE as nat),
        );
        Seq::new(
            self.bins.len(),
            |b: int|
                Band {
                    center_hz: self.centers[b],
                    magnitude: band_magnitude(alu, x, self.bins[b].0, self.bins[b].1),
                },
        )
    }
}

/// The tuning to `n_bands` log-spaced bands over a frequency range.
pub open spec fn tuned<A: Arithmetic>(
    alu: &A,
    sample_rate: u32,
    n_bands: usize,
    min_hz: Float,
    max_hz: Float,
) -> Tuning {
    let scale = scale(alu, sample_rate, n_bands, min_hz, max_hz);
    Tuning {
        window: hann_window(alu, FFT_SIZE as nat),
        bins: Seq::new(n_bands as nat, |b: int| bins(alu, scale, b)),
        centers: Seq::new(n_bands as nat, |b: int| center(alu, scale, b)),
    }
}

/// Without rounding, a spectrum is tuned to log-spaced bands: there is one ratio
/// by which every edge lies above the one before it, it takes the lower end of
/// the range to the upper end in as many steps as there are bands, and each
/// band has the geometric mean of its edges as its middle and the bins from its
/// lower to its upper edge, lowest band first.
pub proof fn law_tuning_is_log_spaced<A: Arithmetic>(
    alu: &A,
    m: Reading,
    sample_rate: u32,
    n_bands: usize,
    min_hz: Float,
    max_hz: Float,
    b: int,
)
    requires
        exact(alu, m),
        0 <= b < n_bands < i32::MAX,
        ({
            let s = scale(alu, sample_rate, n_bands, min_hz, max_hz);
            &&& 0real < m.num(s.bin_hz) <= m.num(s.lo_hz)
            &&& 0real < m.num(s.hi_hz)
            &&& m.has(edge(alu, s, 0))
            &&& m.has(edge(alu, s, n_bands as int))
            &&& m.has(center(alu, s, b))
            &&& m.has(alu.quotient(edge(alu, s, b), s.bin_hz))
            &&& m.has(alu.quotient(edge(alu, s, b + 1), s.bin_hz))
            &&& m.num(s.bin_hz) <= m.num(edge(alu, s, b)) <= m.num(edge(alu, s, b + 1)) <= times(
                1024real,
                m.num(s.bin_hz),
            )
        }),
    ensures
        ({
            let s = scale(alu, sample_rate, n_bands, min_hz, max_hz);
            let t = tuned(alu, sample_rate, n_bands, min_hz, max_hz);
            let (lo, hi, q) = (m.num(s.lo_hz), m.num(s.hi_hz), m.num(s.ratio));
            let lower = times(lo, raised(q, b as nat));
            let upper = times(lo, raised(q, (b + 1) as nat));
            let bin = m.num(s.bin_hz);
            let mid = m.num(t.centers[b]);
            &&& times(lo, raised(q, n_bands as nat)) == hi
            &&& upper == times(lower, q)
            &&& mid >= 0real && times(mid, mid) == times(lower, upper)
            &&& times(whole(t.bins[b].0 as int), bin) <= lower
            &&& lower < times(whole(t.bins[b].0 + 1), bin)
            &&& upper <= times(whole(t.bins[b].1 as int), bin)
            &&& t.bins[b].1 > t.bins[b].0 + 1 ==> times(whole(t.bins[b].1 - 1), bin) < upper
        }),
{
    let s = scale(alu, sample_rate, n_bands, min_hz, max_hz);
    let q = m.num(s.ratio);
    law_edges_span_the_range(alu, m, sample_rate, n_bands, min_hz, max_hz);
    law_center_is_in_the_middle(alu, m, s, b);
    law_bins_reach_from_edge_to_edge(alu, m, s, b);
    assert(m.num(edge(alu, s, n_bands as int)) == times(m.num(s.lo_hz), raised(q, n_bands as nat)));
    assert(m.num(edge(alu, s, b)) == times(m.num(s.lo_hz), raised(q, b as nat)));
    assert(m.num(edge(alu, s, b + 1)) == times(m.num(s.lo_hz), raised(q, (b + 1) as nat)));
    times_groups(m.num(s.lo_hz), raised(q, b as nat), q);
}

/// Computes the magnitude of one band.
fn measure<A: Arithmetic>(alu: &A, re: &[Float], im: &[Float], lo: usize, hi: usize) -> (r: Float)
    requires
        lo < hi <= re@.len(),
        im@.len() == re@.len(),
    ensures
        steady(alu) ==> r == band_magnitude(alu, pairs(re@, im@), lo, hi),
        r.nan() || (Float(ZERO).at_most(r) && r.at_most(Float(ONE))),
{
    let ghost x = pairs(re@, im@);
    let mut power = Float(ZERO);
    let mut k: usize = lo;
    while k < hi
        invariant
            lo <= k <= hi <= re@.len(),
            im@.len() == re@.len(),
            x == pairs(re@, im@),
            steady(alu) ==> power == energy(alu, x, lo as int, k as int),
        decreases hi - k,
    {
        let p = alu.add(alu.mul(re[k], re[k]), alu.mul(im[k], im[k]));
        power = alu.add(power, p);
        k = k + 1;
    }
    let mean = alu.div(power, alu.from_index(hi - lo));
    let mag = alu.div(alu.sqrt(mean), alu.div(alu.from_index(FFT_SIZE), Float(TWO)));
    to_db_normalized(alu, mag)
}

/// Whether a spectrum has been computed from the latest audio on a channel.
pub open spec fn computed<A: Arithmetic>(
    alu: &A,
    before: Spectrum,
    after: Spectrum,
    scope: &WaveScope,
    channel: usize,
) -> bool {
    &&& after.tuning() == before.tuning()
    &&& after.shown() == before.tuning().analysed(
        alu,
        scope.padded(channel as int, FFT_SIZE as nat),
    )
}

/// Whether one spectrum has gone through these states, each computed from the
/// one before it, on scopes and channels of any kind. The first is the spectrum
/// as it was built.
pub open spec fn has_gone_through<A: Arithmetic>(
    alu: &A,
    states: Seq<Spectrum>,
    scopes: Seq<WaveScope>,
    channels: Seq<usize>,
) -> bool {
    &&& states.len() == scopes.len() + 1
    &&& channels.len() == scopes.len()
    &&& forall|i: int|
        0 <= i < scopes.len() ==> computed(
            alu,
            states[i],
            states[i + 1],
            &#[trigger] scopes[i],
            channels[i],
        )
}

/// A spectrum stays tuned as it was built, however often it is computed.
proof fn lemma_tuning_stays<A: Arithmetic>(
    alu: &A,
    states: Seq<Spectrum>,
    scopes: Seq<WaveScope>,
    channels: Seq<usize>,
)
    requires
        has_gone_through(alu, states, scopes, channels),
    ensures
        states.last().tuning() == states[0].tuning(),
    decreases scopes.len(),
{
    if scopes.len() > 0 {
        let last = scopes.len() - 1;
        assert(computed(alu, states[last], states[last + 1], &scopes[last], channels[last]));
        let earlier = scopes.drop_last();
        assert forall|i: int| 0 <= i < earlier.len() implies computed(
            alu,
            states.drop_last()[i],
            states.drop_last()[i + 1],
            &#[trigger] earlier[i],
            channels.drop_last()[i],
        ) by {
            assert(earlier[i] == scopes[i]);
        }
        lemma_tuning_stays(alu, states.drop_last(), earlier, channels.drop_last());
    }
}

/// What a spectrum shows depends only on how it was built and on the latest
/// samples. Two spectra were built with the same arguments and have been
/// computed any number of times since, on any scopes and channels, up to `a.0`
/// and `b.0`. Computed once more from scopes with the same latest samples, they
/// show the same bands. Another time without new audio changes nothing.
pub proof fn law_compute_depends_on_the_latest_samples<A: Arithmetic>(
    alu: &A,
    sample_rate: u32,
    n_bands: usize,
    min_hz: Float,
    max_hz: Float,
    before_a: (Seq<Spectrum>, Seq<WaveScope>, Seq<usize>),
    before_b: (Seq<Spectrum>, Seq<WaveScope>, Seq<usize>),
    a: (Spectrum, Spectrum, Spectrum),
    b: (Spectrum, Spectrum),
    scope_a: &WaveScope,
    scope_b: &WaveScope,
    channel_a: usize,
    channel_b: usize,
)
    requires
        has_gone_through(alu, before_a.0, before_a.1, before_a.2),
        has_gone_through(alu, before_b.0, before_b.1, before_b.2),
        before_a.0[0].tuning() == tuned(alu, sample_rate, n_bands, min_hz, max_hz),
        before_b.0[0].tuning() == tuned(alu, sample_rate, n_bands, min_hz, max_hz),
        a.0 == before_a.0.last(),
        b.0 == before_b.0.last(),
        scope_a.padded(channel_a as int, FFT_SIZE as nat) == scope_b.padded(
            channel_b as int,
            FFT_SIZE as nat,
        ),
        computed(alu, a.0, a.1, scope_a, channel_a),
        computed(alu, a.1, a.2, scope_a, channel_a),
        computed(alu, b.0, b.1, scope_b, channel_b),
    ensures
        a.1.shown() == b.1.shown(),
        a.2.shown() == a.1.shown(),
        a.2.tuning() == before_a.0[0].tuning(),
{
    lemma_tuning_stays(alu, before_a.0, before_a.1, before_a.2);
    lemma_tuning_stays(alu, before_b.0, before_b.1, before_b.2);
}

/// Computes a log-spaced magnitude spectrum. Build once with the desired band
/// count; call [`Spectrum::compute`] each frame.
pub struct Spectrum {
    window: Vec<Float>,
    samples: Vec<Float>,
    re: Vec<Float>,
    im: Vec<Float>,
    rev: Vec<usize>,
    band_bins: Vec<(usize, usize)>,
    bands: Vec<Band>,
}

impl Spectrum {
    /// How the spectrum is made.
    pub closed spec fn tuning(&self) -> Tuning {
        Tuning {
            window: self.window@,
            bins: self.band_bins@,
            centers: Seq::new(self.bands@.len(), |b: int| self.bands@[b].center_hz),
        }
    }

    /// The bands as last computed, low frequency first.
    pub closed spec fn shown(&self) -> Seq<Band> {
        self.bands@
    }

    pub closed spec fn wf(&self) -> bool {
        &&& self.window@.len() == FFT_SIZE
        &&& self.samples@.len() == FFT_SIZE
        &&& self.re@.len() == FFT_SIZE
        &&& self.im@.len() == FFT_SIZE
        &&& self.rev@.len() == FFT_SIZE
        &&& is_bit_reversal(self.rev@, bits_of(FFT_SIZE as nat))
        &&& self.band_bins@.len() == self.bands@.len()
        &&& forall|b: int|
            0 <= b < self.band_bins@.len() ==> 1 <= (#[trigger] self.band_bins@[b]).0
                < self.band_bins@[b].1 <= NYQUIST_BIN + 1
    }
    /// In a valid spectrum there is one range of bins for each band. It holds
    /// at least one bin, and leaves out bin 0 and everything above half the
    /// sample rate. Each band shows the frequency that it is tuned to.
    pub proof fn law_bands_are_tuned(&self, b: int)
        requires
            self.wf(),
            0 <= b < self.shown().len(),
        ensures
            self.tuning().bins.len() == self.shown().len(),
            self.tuning().centers.len() == self.shown().len(),
            1 <= self.tuning().bins[b].0 < self.tuning().bins[b].1 <= NYQUIST_BIN + 1,
            self.shown()[b].center_hz == self.tuning().centers[b],
    {
    }

    /// Builds a spectrum with `n_bands` log-spaced bands spanning roughly
    /// `min_hz..=max_hz`, given the capture's sample rate in Hz.
    pub fn new<A: Arithmetic>(
        alu: &A,
        sample_rate: u32,
        n_bands: usize,
        min_hz: Float,
        max_hz: Float,
    ) -> (r: Spectrum)
        requires
            n_bands <= i32::MAX,
        ensures
            r.wf(),
            r.shown().len() == n_bands,
            forall|b: int|
                0 <= b < n_bands ==> (#[trigger] r.shown()[b]).magnitude == Float(ZERO),
            steady(alu) ==> r.tuning() == tuned(alu, sample_rate, n_bands, min_hz, max_hz),
    {
        proof {
            size_is_a_power();
        }
        let n: usize = FFT_SIZE;
        let bin_hz = alu.div(alu.from_index(sample_rate as usize), alu.from_index(n));
        let nyquist_hz = alu.mul(alu.from_index(NYQUIST_BIN), bin_hz);
        let hi_hz = max_hz.min(nyquist_hz);
        let lo_hz = min_hz.max(bin_hz).min(hi_hz);
        let ratio = alu.powf(
            alu.div(hi_hz, lo_hz),
            alu.div(Float(ONE), alu.from_index(n_bands)),
        );
        let ghost s = scale(alu, sample_rate, n_bands, min_hz, max_hz);
        let mut band_bins: Vec<(usize, usize)> = Vec::with_capacity(n_bands);
        let mut bands: Vec<Band> = Vec::with_capacity(n_bands);
        let mut b: usize = 0;
        while b < n_bands
            invariant
                n_bands <= i32::MAX,
                b <= n_bands,
                band_bins@.len() == b,
                bands@.len() == b,
                steady(alu) ==> s == (Scale { bin_hz, lo_hz, hi_hz, ratio }),
                forall|j: int|
                    0 <= j < b ==> 1 <= (#[trigger] band_bins@[j]).0 < band_bins@[j].1
                        <= NYQUIST_BIN + 1,
                forall|j: int| 0 <= j < b ==> (#[trigger] bands@[j]).magnitude == Float(ZERO),
                steady(alu) ==> forall|j: int|
                    0 <= j < b ==> #[trigger] band_bins@[j] == bins(alu, s, j),
                steady(alu) ==> forall|j: int|
                    0 <= j < b ==> (#[trigger] bands@[j]).center_hz == center(alu, s, j),
            decreases n_bands - b,
        {
            let f_lo = alu.mul(lo_hz, alu.powi(ratio, b as i32));
            let f_hi = alu.mul(lo_hz, alu.powi(ratio, b as i32 + 1));
            let center_hz = alu.sqrt(alu.mul(f_lo, f_hi));
            let lo = clamp_index(alu.floor_index(alu.div(f_lo, bin_hz)), 1, NYQUIST_BIN);
            let hi = clamp_index(alu.ceil_index(alu.div(f_hi, bin_hz)), lo, NYQUIST_BIN);
            let end: usize = if hi > lo {
                hi
            } else {
                lo + 1
            };
            band_bins.push((lo, end));
            bands.push(Band { center_hz, magnitude: Float(ZERO) });
            b = b + 1;
        }
        let r = Spectrum {
            window: make_hann_window(alu, n),
            samples: vec![Float(ZERO); n],
            re: vec![Float(ZERO); n],
            im: vec![Float(ZERO); n],
            rev: bit_reversal(n),
            band_bins,
            bands,
        };
        proof {
            if steady(alu) {
                assert(r.tuning() =~= tuned(alu, sample_rate, n_bands, min_hz, max_hz));
            }
        }
        r
    }

    /// Every magnitude is in `0.0..=1.0`, or not a number.
    pub open spec fn in_range(&self) -> bool {
        forall|b: int|
            0 <= b < self.shown().len() ==> (#[trigger] self.shown()[b]).magnitude.nan() || (Float(
                ZERO,
            ).at_most(self.shown()[b].magnitude) && self.shown()[b].magnitude.at_most(Float(ONE)))
    }

    /// Transforms the samples at hand and folds the bins into the bands.
    fn analyse<A: Arithmetic>(&mut self, alu: &A)
        requires
            old(self).wf(),
        ensures
            final(self).wf(),
            final(self).in_range(),
            final(self).tuning() == old(self).tuning(),
            final(self).shown().len() == old(self).shown().len(),
            steady(alu) ==> final(self).shown() == old(self).tuning().analysed(alu, old(self).samples@),
    {
        let ghost signal = self.samples@;
        let ghost before = *self;
        apply_window(alu, &self.samples, &self.window, &mut self.re, &mut self.im);
        fft_in_place(alu, &mut self.re, &mut self.im, &self.rev);
        let ghost x = pairs(self.re@, self.im@);
        let n: usize = self.bands.len();
        let mut b: usize = 0;
        while b < n
            invariant
                self.wf(),
                before.bands@.len() == n,
                self.bands@.len() == n,
                self.window@ == before.window@,
                self.band_bins@ == before.band_bins@,
                x == pairs(self.re@, self.im@),
                b <= n,
                forall|j: int|
                    0 <= j < n ==> (#[trigger] self.bands@[j]).center_hz
                        == before.bands@[j].center_hz,
                forall|j: int|
                    0 <= j < b ==> (#[trigger] self.bands@[j]).magnitude.nan() || (Float(
                        ZERO,
                    ).at_most(self.bands@[j].magnitude) && self.bands@[j].magnitude.at_most(
                        Float(ONE),
                    )),
                steady(alu) ==> forall|j: int|
                    0 <= j < b ==> (#[trigger] self.bands@[j]).magnitude == band_magnitude(
                        alu,
                        x,
                        self.band_bins@[j].0,
                        self.band_bins@[j].1,
                    ),
            decreases n - b,
        {
            let (lo, hi) = self.band_bins[b];
            let magnitude = measure(alu, &self.re, &self.im, lo, hi);
            let center_hz = self.bands[b].center_hz;
            self.bands[b] = Band { center_hz, magnitude };
            b = b + 1;
        }
        assert(self.tuning() =~= before.tuning());
        assert(steady(alu) ==> self.shown() =~= before.tuning().analysed(alu, signal));
    }

    /// Recomputes the spectrum from a signal of [`FFT_SIZE`] samples.
    pub fn compute_from<A: Arithmetic>(&mut self, alu: &A, signal: &[Float]) -> (r: &[Band])
        requires
            old(self).wf(),
            signal@.len() == FFT_SIZE,
        ensures
            final(self).wf(),
            final(self).in_range(),
            final(self).tuning() == old(self).tuning(),
            final(self).shown().len() == old(self).shown().len(),
            steady(alu) ==> final(self).shown() == old(self).tuning().analysed(alu, signal@),
            r@ == final(self).shown(),
    {
        let n: usize = self.samples.len();
        let ghost before = *self;
        let mut i: usize = 0;
        while i < n
            invariant
                n == FFT_SIZE,
                signal@.len() == n,
                i <= n,
                self.wf(),
                self.tuning() == before.tuning(),
                self.shown() == before.shown(),
                forall|j: int| 0 <= j < i ==> #[trigger] self.samples@[j] == signal@[j],
            decreases n - i,
        {
            self.samples[i] = signal[i];
            i = i + 1;
        }
        assert(self.samples@ =~= signal@);
        self.analyse(alu);
        &self.bands
    }

    /// Recomputes the spectrum from the most recent audio on `channel`,
    /// padded with leading zeros while there is not enough of it. Returns the
    /// bands.
    pub fn compute<A: Arithmetic>(&mut self, alu: &A, scope: &WaveScope, channel: usize) -> (r:
        &[Band])
        requires
            old(self).wf(),
            scope.sound(),
        ensures
            final(self).wf(),
            final(self).in_range(),
            final(self).tuning() == old(self).tuning(),
            final(self).shown().len() == old(self).shown().len(),
            steady(alu) ==> computed(alu, *old(self), *final(self), scope, channel),
            r@ == final(self).shown(),
    {
        scope.samples_into(channel, &mut self.samples);
        self.analyse(alu);
        &self.bands
    }

    /// The most recently computed bands (low frequency first).
    pub fn bands(&self) -> (r: &[Band])
        ensures
            r@ == self.shown(),
    {
        &self.bands
    }

    /// The bins of each band (low frequency first).
    pub fn band_bins(&self) -> (r: &[(usize, usize)])
        ensures
            r@ == self.tuning().bins,
    {
        &self.band_bins
    }
}

proof fn size_is_a_power()
    ensures
        is_power_of_two(FFT_SIZE as nat),
{
    lemma2_to64();
    reveal_with_fuel(bits_of, 12);
}

} // verus!
