//! Waveform model: per-channel histories of recent samples and the min/max
//! columns drawn from them.

use vstd::arithmetic::div_mod::{
    lemma_add_mod_noop, lemma_div_is_ordered, lemma_div_multiples_vanish, lemma_fundamental_div_mod,
    lemma_fundamental_div_mod_converse, lemma_mod_twice, lemma_small_mod,
};
use vstd::arithmetic::mul::lemma_mul_is_commutative;
use vstd::arithmetic::power2::{lemma2_to64, lemma_pow2_unfold, pow2};
use vstd::prelude::*;

use crate::audio::{begins, CaptureHandle, SharedFormat};
use crate::float::{Float, INFINITY, NEG_INFINITY, ONE, ZERO};

verus! {

/// How many samples each channel remembers.
pub const HISTORY_PER_CHANNEL: usize = 24_000;

/// How many samples one read of the capture asks for.
pub const DRAIN_LEN: usize = 8192;

/// One column of a rendered waveform: min and max sample over its slice.
#[derive(Clone, Copy, PartialEq, Eq, Structural, Debug)]
pub struct Envelope {
    pub min: Float,
    pub max: Float,
}

impl Envelope {
    /// The column of a slice without samples.
    pub open spec fn silent() -> Envelope {
        Envelope { min: Float(ZERO), max: Float(ZERO) }
    }

    /// Where a scan starts: every number is below its minimum and above its
    /// maximum.
    pub open spec fn nothing() -> Envelope {
        Envelope { min: Float(INFINITY), max: Float(NEG_INFINITY) }
    }

    /// The column of a single sample.
    pub open spec fn of(sample: Float) -> Envelope {
        Envelope { min: sample, max: sample }
    }

    /// The running column after one more has been looked at.
    pub open spec fn widened(self, by: Envelope) -> Envelope {
        Envelope {
            min: if by.min.below(self.min) {
                by.min
            } else {
                self.min
            },
            max: if self.max.below(by.max) {
                by.max
            } else {
                self.max
            },
        }
    }

    /// Two neighbouring columns made into one.
    pub open spec fn merged(self, next: Envelope) -> Envelope {
        Envelope { min: self.min.lesser(next.min), max: self.max.greater(next.max) }
    }

    /// The larger of the two magnitudes.
    pub open spec fn peak_level(self) -> Float {
        self.min.absolute().greater(self.max.absolute())
    }

    /// Peak magnitude in this column, in `0.0..=1.0` for in-range audio.
    pub fn peak(&self) -> (r: Float)
        ensures
            r == self.peak_level(),
            self.min.absolute().at_most(Float(ONE)) && self.max.absolute().at_most(Float(ONE))
                ==> Float(ZERO).at_most(r) && r.at_most(Float(ONE)),
    {
        self.min.abs().max(self.max.abs())
    }
}

impl Default for Envelope {
    fn default() -> (r: Envelope)
        ensures
            r == Envelope::silent(),
    {
        Envelope { min: Float(ZERO), max: Float(ZERO) }
    }
}

/// Looking at samples one by one, in order, from a given running column.
pub open spec fn scan(from: Envelope, samples: Seq<Float>) -> Envelope
    decreases samples.len(),
{
    if samples.len() == 0 {
        from
    } else {
        scan(from, samples.drop_last()).widened(Envelope::of(samples.last()))
    }
}

/// The column of a slice of samples, found by scanning all of it. A slice
/// without a finite minimum has the silent column.
pub open spec fn summary(samples: Seq<Float>) -> Envelope {
    let seen = scan(Envelope::nothing(), samples);
    if seen.min.finite() {
        seen
    } else {
        Envelope::silent()
    }
}

/// The column of samples that are all finite goes from the lowest of them to
/// the highest: both are among the samples, and no sample lies outside.
pub proof fn law_summary_bounds_the_samples(samples: Seq<Float>)
    requires
        samples.len() > 0,
        forall|i: int| 0 <= i < samples.len() ==> (#[trigger] samples[i]).finite(),
    ensures
        samples.contains(summary(samples).min),
        samples.contains(summary(samples).max),
        forall|i: int|
            0 <= i < samples.len() ==> summary(samples).min.at_most(#[trigger] samples[i])
                && samples[i].at_most(summary(samples).max),
{
    scan_bounds_the_samples(samples);
}

proof fn scan_bounds_the_samples(samples: Seq<Float>)
    requires
        samples.len() > 0,
        forall|i: int| 0 <= i < samples.len() ==> (#[trigger] samples[i]).finite(),
    ensures
        ({
            let seen = scan(Envelope::nothing(), samples);
            &&& seen.min.finite()
            &&& samples.contains(seen.min)
            &&& samples.contains(seen.max)
            &&& forall|i: int|
                0 <= i < samples.len() ==> seen.min.at_most(#[trigger] samples[i])
                    && samples[i].at_most(seen.max)
        }),
    decreases samples.len(),
{
    let front = samples.drop_last();
    let before = scan(Envelope::nothing(), front);
    let seen = scan(Envelope::nothing(), samples);
    let last = samples.last();
    assert(samples[samples.len() - 1] == last);
    assert(seen == before.widened(Envelope::of(last)));
    if front.len() == 0 {
        assert(before == Envelope::nothing());
        assert(seen == Envelope::of(last));
    } else {
        scan_bounds_the_samples(front);
        let i = choose|i: int| 0 <= i < front.len() && front[i] == before.min;
        let j = choose|j: int| 0 <= j < front.len() && front[j] == before.max;
        assert(samples[i] == before.min && samples[j] == before.max);
        assert forall|k: int| 0 <= k < samples.len() implies seen.min.at_most(
            #[trigger] samples[k],
        ) && samples[k].at_most(seen.max) by {
            if k < front.len() {
                assert(samples[k] == front[k]);
            }
        }
    }
}

/// The column of in-range audio has its peak in `0.0..=1.0`.
pub proof fn law_peak_of_audio_is_in_range(samples: Seq<Float>)
    requires
        forall|i: int|
            0 <= i < samples.len() ==> (#[trigger] samples[i]).absolute().at_most(Float(ONE)),
    ensures
        Float(ZERO).at_most(summary(samples).peak_level()),
        summary(samples).peak_level().at_most(Float(ONE)),
{
    if samples.len() > 0 {
        assert forall|i: int| 0 <= i < samples.len() implies (#[trigger] samples[i]).finite() by {
            assert(samples[i].absolute().at_most(Float(ONE)));
        }
        law_summary_bounds_the_samples(samples);
    }
}

proof fn scan_in_two(from: Envelope, first: Seq<Float>, second: Seq<Float>)
    ensures
        scan(from, first + second) == scan(scan(from, first), second),
    decreases second.len(),
{
    if second.len() == 0 {
        assert(first + second =~= first);
    } else {
        assert((first + second).drop_last() =~= first + second.drop_last());
        scan_in_two(from, first, second.drop_last());
    }
}

/// An envelope can be looked at in place of the samples.
#[verifier::opaque]
pub open spec fn stands_for(envelope: Envelope, samples: Seq<Float>) -> bool {
    forall|from: Envelope| #[trigger] from.widened(envelope) == scan(from, samples)
}

proof fn merged_stands_for_both(a: Envelope, first: Seq<Float>, b: Envelope, second: Seq<Float>)
    requires
        stands_for(a, first),
        stands_for(b, second),
    ensures
        stands_for(a.merged(b), first + second),
{
    reveal(stands_for);
    assert forall|from: Envelope| #[trigger] from.widened(a.merged(b)) == scan(
        from,
        first + second,
    ) by {
        assert(from.widened(a.merged(b)) == from.widened(a).widened(b));
        assert(from.widened(a) == scan(from, first));
        assert(from.widened(a).widened(b) == scan(scan(from, first), second));
        scan_in_two(from, first, second);
    }
}

proof fn single_stands_for_itself(sample: Float)
    ensures
        stands_for(Envelope::of(sample), seq![sample]),
{
    reveal(stands_for);
    let one = seq![sample];
    assert(one.drop_last() =~= Seq::<Float>::empty());
    assert forall|from: Envelope| #[trigger] from.widened(Envelope::of(sample)) == scan(
        from,
        one,
    ) by {
        assert(scan(from, one.drop_last()) == from);
    }
}

/// Where the two halves of an entry begin and end.
proof fn halves_of_an_entry(i: int, half: int, whole: int)
    requires
        0 <= i,
        0 <= half,
        whole == 2 * half,
    ensures
        (2 * i) * half == i * whole,
        ((2 * i + 1) + 1) * half == (i + 1) * whole,
        0 <= i * whole <= (2 * i + 1) * half <= (i + 1) * whole,
{
    assert((2 * i) * half == i * whole) by (nonlinear_arith)
        requires
            whole == 2 * half,
    ;
    assert(((2 * i + 1) + 1) * half == (i + 1) * whole) by (nonlinear_arith)
        requires
            whole == 2 * half,
    ;
    assert((2 * i) * half <= (2 * i + 1) * half <= ((2 * i + 1) + 1) * half) by (nonlinear_arith)
        requires
            0 <= half,
    ;
    assert(0 <= i * whole) by (nonlinear_arith)
        requires
            0 <= i,
            0 <= whole,
    ;
}

/// A level of the summary pyramid in which every sample is its own entry.
pub open spec fn singles(samples: Seq<Float>) -> Seq<Envelope> {
    Seq::new(samples.len(), |i: int| Envelope::of(samples[i]))
}

/// The next level up: adjacent pairs merged, an odd last entry carried over.
pub open spec fn halved(level: Seq<Envelope>) -> Seq<Envelope> {
    Seq::new(
        ((level.len() + 1) / 2) as nat,
        |i: int|
            if 2 * i + 1 < level.len() {
                level[2 * i].merged(level[2 * i + 1])
            } else {
                level[2 * i]
            },
    )
}

/// Whether a level of a pyramid is made from the one below it.
pub open spec fn steps_up(levels: Seq<Vec<Envelope>>, k: int) -> bool {
    levels[k]@ == halved(levels[k - 1]@)
}

/// The summary pyramid over samples: one entry per sample at the bottom, each
/// level above half as long, up to the first level with at most one entry.
pub open spec fn is_pyramid(levels: Seq<Vec<Envelope>>, samples: Seq<Float>) -> bool {
    &&& levels.len() > 0
    &&& levels[0]@ == singles(samples)
    &&& forall|k: int| 0 < k < levels.len() ==> #[trigger] steps_up(levels, k)
    &&& forall|k: int| 0 <= k < levels.len() - 1 ==> (#[trigger] levels[k])@.len() > 1
    &&& levels.last()@.len() <= 1
}

/// An entry of the pyramid whose samples are all there stands for them: at
/// level `k`, entry `i` covers `2^k` samples from `i * 2^k` on.
pub proof fn law_pyramid_entry(levels: Seq<Vec<Envelope>>, samples: Seq<Float>, k: nat, i: int)
    requires
        is_pyramid(levels, samples),
        0 <= i,
        k < levels.len(),
        (i + 1) * pow2(k) <= samples.len(),
    ensures
        i < levels[k as int]@.len(),
        stands_for(
            levels[k as int]@[i],
            samples.subrange(i * pow2(k), (i + 1) * pow2(k)),
        ),
    decreases k,
{
    if k == 0 {
        lemma2_to64();
        assert(i * pow2(0) == i && (i + 1) * pow2(0) == i + 1) by (nonlinear_arith)
            requires
                pow2(0) == 1,
        ;
        assert(samples.subrange(i, i + 1) =~= seq![samples[i]]);
        single_stands_for_itself(samples[i]);
    } else {
        let below = (k - 1) as nat;
        let half = pow2(below);
        lemma_pow2_unfold(k);
        halves_of_an_entry(i, half as int, pow2(k) as int);
        law_pyramid_entry(levels, samples, below, 2 * i);
        law_pyramid_entry(levels, samples, below, 2 * i + 1);
        let start = i * pow2(k);
        let middle = (2 * i + 1) * half;
        let end = (i + 1) * pow2(k);
        let first = samples.subrange(start, middle);
        let second = samples.subrange(middle, end);
        assert(steps_up(levels, k as int));
        merged_stands_for_both(
            levels[k - 1]@[2 * i],
            first,
            levels[k - 1]@[2 * i + 1],
            second,
        );
        assert(first + second =~= samples.subrange(start, end));
    }
}

/// The last `n` items of a sequence, or all of it if it is no longer.
pub open spec fn latest(s: Seq<Float>, n: int) -> Seq<Float> {
    if s.len() <= n {
        s
    } else {
        s.skip(s.len() - n)
    }
}

proof fn latest_of_latest(s: Seq<Float>, more: Seq<Float>, n: int)
    requires
        0 <= n,
    ensures
        latest(latest(s, n) + more, n) == latest(s + more, n),
{
    assert(latest(latest(s, n) + more, n) =~= latest(s + more, n));
}

/// The first sample, counted from the oldest of `total`, of column `c` when
/// the latest `window` samples are divided among `cols` columns.
pub open spec fn column_start(total: int, window: int, cols: int, c: int) -> int {
    total - window + (c * window) / cols
}

/// Column `c` of `cols` over the latest `window` samples: it owns the samples
/// from `c * window / cols` up to `(c + 1) * window / cols` of the window.
pub open spec fn column(samples: Seq<Float>, cols: int, window: int, c: int) -> Envelope {
    summary(
        samples.subrange(
            column_start(samples.len() as int, window, cols, c),
            column_start(samples.len() as int, window, cols, c + 1),
        ),
    )
}

/// All columns over the latest `window` samples, or over all there are.
pub open spec fn columns(samples: Seq<Float>, cols: nat, window: int) -> Seq<Envelope> {
    let window = if window < samples.len() {
        window
    } else {
        samples.len() as int
    };
    Seq::new(cols, |c: int| column(samples, cols as int, window, c))
}

/// The first sample of column `c` when each of `window` samples goes to the
/// column that its place, scaled to `cols`, falls into: `c * window / cols`
/// rounded up.
pub open spec fn share_start(window: int, cols: int, c: int) -> int {
    (c * window + cols - 1) / cols
}

/// Each sample goes to the column that its place, scaled to the number of
/// columns, falls into, and to no other.
pub proof fn law_shares_go_by_place(window: int, cols: int, c: int, j: int)
    requires
        window > 0,
        cols > 0,
        0 <= j < window,
    ensures
        share_start(window, cols, c) <= j < share_start(window, cols, c + 1) <==> (j * cols) / window
            == c,
        share_start(window, cols, 0) == 0,
        share_start(window, cols, cols) == window,
{
    rounded_up(c * window, cols, j);
    rounded_up((c + 1) * window, cols, j);
    let q = (j * cols) / window;
    lemma_fundamental_div_mod(j * cols, window);
    assert((c + 1) * window == c * window + window) by (nonlinear_arith);
    assert(q * window <= j * cols && j * cols < q * window + window) by (nonlinear_arith)
        requires
            j * cols == window * q + (j * cols) % window,
            0 <= (j * cols) % window < window,
    ;
    if c * window <= j * cols && j * cols < c * window + window {
        assert(q == c) by (nonlinear_arith)
            requires
                q * window <= j * cols,
                j * cols < q * window + window,
                c * window <= j * cols,
                j * cols < c * window + window,
                window > 0,
        ;
    }
    assert(0 * window == 0) by (nonlinear_arith);
    lemma_fundamental_div_mod_converse(cols - 1, cols, 0, cols - 1);
    assert(cols * window + cols - 1 == window * cols + (cols - 1)) by (nonlinear_arith);
    lemma_fundamental_div_mod_converse(cols * window + cols - 1, cols, window, cols - 1);
}

/// A quotient rounded up is not above a number just if the dividend is not.
proof fn rounded_up(a: int, b: int, j: int)
    requires
        b > 0,
    ensures
        (a + b - 1) / b <= j <==> a <= j * b,
{
    let q = (a + b - 1) / b;
    lemma_fundamental_div_mod(a + b - 1, b);
    assert(b * q <= a + b - 1 && a <= b * q);
    if q <= j {
        assert(b * q <= j * b) by (nonlinear_arith)
            requires
                q <= j,
                b > 0,
        ;
    } else {
        assert(j * b + b <= b * q) by (nonlinear_arith)
            requires
                j + 1 <= q,
                b > 0,
        ;
    }
}

/// All columns over the latest `window` samples, or over all there are, when
/// each sample goes to the column that its place falls into.
pub open spec fn shares(samples: Seq<Float>, cols: nat, window: int) -> Seq<Envelope> {
    let recent = latest(samples, window);
    let window = recent.len() as int;
    Seq::new(
        cols,
        |c: int|
            summary(
                recent.subrange(
                    share_start(window, cols as int, c),
                    share_start(window, cols as int, c + 1),
                ),
            ),
    )
}

/// The recent samples of one channel, kept in a ring, with a pyramid of
/// min/max summaries over them.
pub struct ChannelHistory {
    buf: Vec<Float>,
    head: usize,
    filled: bool,
    /// Summaries over the samples, oldest first: `mips[0]` has one entry per
    /// sample, and each level above merges adjacent pairs of the one below.
    mips: Vec<Vec<Envelope>>,
    dirty: bool,
}

impl View for ChannelHistory {
    type V = Seq<Float>;

    /// The remembered samples, oldest first.
    closed spec fn view(&self) -> Seq<Float> {
        if self.filled {
            self.buf@.skip(self.head as int) + self.buf@.take(self.head as int)
        } else {
            self.buf@.take(self.head as int)
        }
    }
}

impl ChannelHistory {
    pub closed spec fn wf(&self) -> bool {
        &&& self.buf@.len() == HISTORY_PER_CHANNEL
        &&& self.head < HISTORY_PER_CHANNEL
        &&& !self.dirty ==> is_pyramid(self.mips@, self@)
    }

    /// Whether the summaries are those of the samples remembered now.
    pub closed spec fn settled(&self) -> bool {
        !self.dirty
    }

    proof fn bounded(&self)
        requires
            self.wf(),
        ensures
            self@.len() <= HISTORY_PER_CHANNEL,
    {
    }

    pub fn new() -> (r: ChannelHistory)
        ensures
            r.wf(),
            r@ == Seq::<Float>::empty(),
    {
        let r = ChannelHistory {
            buf: vec![Float(ZERO); HISTORY_PER_CHANNEL],
            head: 0,
            filled: false,
            mips: Vec::new(),
            dirty: true,
        };
        assert(r@ =~= Seq::<Float>::empty());
        r
    }

    /// Remembers one more sample, forgetting the oldest one if the history is
    /// full.
    pub fn push(&mut self, sample: Float)
        requires
            old(self).wf(),
        ensures
            final(self).wf(),
            final(self)@ == latest(old(self)@.push(sample), HISTORY_PER_CHANNEL as int),
    {
        let ghost before = self@;
        self.buf[self.head] = sample;
        self.head = self.head + 1;
        if self.head == self.buf.len() {
            self.head = 0;
            self.filled = true;
        }
        self.dirty = true;
        assert(self@ =~= latest(before.push(sample), HISTORY_PER_CHANNEL as int));
    }

    /// How many samples are remembered.
    pub fn len(&self) -> (r: usize)
        requires
            self.wf(),
        ensures
            r == self@.len(),
            r <= HISTORY_PER_CHANNEL,
    {
        if self.filled {
            self.buf.len()
        } else {
            self.head
        }
    }

    /// A remembered sample, by its place counted from the oldest.
    fn at(&self, logical: usize) -> (r: Float)
        requires
            self.wf(),
            logical < self@.len(),
        ensures
            r == self@[logical as int],
    {
        if self.filled {
            let phys: usize = (self.head + logical) % self.buf.len();
            proof {
                let sum = self.head + logical;
                let n = HISTORY_PER_CHANNEL as int;
                if sum >= n {
                    lemma_fundamental_div_mod_converse(sum as int, n, 1, sum - n);
                } else {
                    lemma_fundamental_div_mod_converse(sum as int, n, 0, sum as int);
                }
            }
            self.buf[phys]
        } else {
            self.buf[logical]
        }
    }

    /// The latest `n` samples, or all there are, oldest first.
    pub fn recent(&self, n: usize) -> (r: Vec<Float>)
        requires
            self.wf(),
        ensures
            r@ == latest(self@, n as int),
    {
        let len = self.len();
        let n: usize = if n < len {
            n
        } else {
            len
        };
        let start: usize = len - n;
        let mut r: Vec<Float> = Vec::with_capacity(n);
        let mut i: usize = 0;
        while i < n
            invariant
                self.wf(),
                len == self@.len(),
                start + n == len,
                i <= n,
                r@ == self@.subrange(start as int, start + i),
            decreases n - i,
        {
            r.push(self.at(start + i));
            i = i + 1;
            assert(self@.subrange(start as int, start + i) =~= self@.subrange(
                start as int,
                start + i - 1,
            ).push(self@[start + i - 1]));
        }
        assert(r@ =~= latest(self@, n as int));
        r
    }

    /// Builds one level of the pyramid from the one below it.
    fn next_level(prev: &Vec<Envelope>) -> (next: Vec<Envelope>)
        ensures
            next@ == halved(prev@),
    {
        let len: usize = prev.len();
        let mut next: Vec<Envelope> = Vec::with_capacity(len / 2 + 1);
        let mut i: usize = 0;
        while i < len
            invariant
                len == prev@.len(),
                i == 2 * next@.len() || (i == len && len % 2 == 1 && 2 * next@.len() == len + 1),
                next@.len() <= halved(prev@).len(),
                next@ == halved(prev@).take(next@.len() as int),
            decreases len - i,
        {
            let a = prev[i];
            let merged = if i + 1 < len {
                let b = prev[i + 1];
                Envelope { min: a.min.min(b.min), max: a.max.max(b.max) }
            } else {
                a
            };
            let ghost m = next@.len() as int;
            assert(halved(prev@)[m] == merged);
            assert(halved(prev@).take(m + 1) =~= halved(prev@).take(m).push(merged));
            next.push(merged);
            i = if len - i >= 2 {
                i + 2
            } else {
                len
            };
        }
        assert(halved(prev@).take(next@.len() as int) =~= halved(prev@));
        next
    }

    /// Rebuilds the summaries from the samples remembered now.
    pub fn rebuild_mips(&mut self)
        requires
            old(self).wf(),
        ensures
            final(self).wf(),
            final(self).settled(),
            final(self)@ == old(self)@,
    {
        let len = self.len();
        let mut level: Vec<Envelope> = Vec::with_capacity(len);
        let mut i: usize = 0;
        while i < len
            invariant
                self.wf(),
                len == self@.len(),
                i <= len,
                level@ == singles(self@).take(i as int),
            decreases len - i,
        {
            let s = self.at(i);
            level.push(Envelope { min: s, max: s });
            i = i + 1;
            assert(singles(self@).take(i as int) =~= singles(self@).take(i - 1).push(
                Envelope::of(s),
            ));
        }
        assert(singles(self@).take(len as int) =~= singles(self@));
        let ghost samples = self@;
        let mut mips: Vec<Vec<Envelope>> = Vec::new();
        mips.push(level);
        let mut top: usize = 0;
        while mips[top].len() > 1
            invariant
                mips@.len() == top + 1,
                top + mips@[top as int]@.len() <= samples.len() || top == 0,
                mips@[0]@ == singles(samples),
                samples.len() <= HISTORY_PER_CHANNEL,
                forall|k: int| 0 < k < mips@.len() ==> #[trigger] steps_up(mips@, k),
                forall|k: int| 0 <= k < mips@.len() - 1 ==> (#[trigger] mips@[k])@.len() > 1,
            decreases mips@[top as int]@.len(),
        {
            let next = Self::next_level(&mips[top]);
            let ghost before = mips@;
            mips.push(next);
            top = top + 1;
            assert forall|k: int| 0 < k < mips@.len() implies #[trigger] steps_up(mips@, k) by {
                if k < top {
                    assert(steps_up(before, k));
                    assert(mips@[k] == before[k]);
                    assert(mips@[k - 1] == before[k - 1]);
                }
            }
            assert forall|k: int| 0 <= k < mips@.len() - 1 implies (#[trigger] mips@[k])@.len()
                > 1 by {
                assert(mips@[k] == before[k]);
            }
        }
        self.mips = mips;
        self.dirty = false;
        assert(self@ =~= samples);
        assert(is_pyramid(self.mips@, samples));
    }

    /// The widest aligned step from `pos` that stays within `hi` and has one
    /// of `levels` pyramid levels, with that level.
    fn widest_step(levels: usize, pos: usize, hi: usize) -> (r: (usize, usize))
        requires
            levels > 0,
            pos < hi <= HISTORY_PER_CHANNEL,
        ensures
            r.0 < levels,
            r.1 == pow2(r.0 as nat),
            0 < r.1 <= hi - pos,
            pos % r.1 == 0,
    {
        let mut level: usize = 0;
        let mut step: usize = 1;
        proof {
            lemma2_to64();
        }
        while level + 1 < levels && 2 * step <= hi - pos && pos % (2 * step) == 0
            invariant
                pos < hi <= HISTORY_PER_CHANNEL,
                level < levels,
                step == pow2(level as nat),
                0 < step <= hi - pos,
                pos % step == 0,
            decreases hi - pos - step,
        {
            level = level + 1;
            step = 2 * step;
            proof {
                lemma_pow2_unfold(level as nat);
            }
        }
        (level, step)
    }

    /// The widest summary that starts at `pos` and ends by `hi`, with the
    /// number of samples it stands for.
    fn widest_entry(&self, pos: usize, hi: usize) -> (r: (Envelope, usize))
        requires
            self.wf(),
            self.settled(),
            pos < hi <= self@.len(),
        ensures
            0 < r.1 <= hi - pos,
            stands_for(r.0, self@.subrange(pos as int, pos + r.1)),
    {
        proof {
            self.bounded();
        }
        let (level, step) = Self::widest_step(self.mips.len(), pos, hi);
        let index: usize = pos / step;
        proof {
            lemma_fundamental_div_mod(pos as int, step as int);
            assert(index * step == pos && (index + 1) * step == pos + step) by (nonlinear_arith)
                requires
                    pos == step * index,
            ;
            law_pyramid_entry(self.mips@, self@, level as nat, index as int);
        }
        (self.mips[level][index], step)
    }

    /// Looks at all samples from `lo` up to `hi`, reading at each step the
    /// widest summary that starts there and fits.
    fn scan_range(&self, lo: usize, hi: usize) -> (seen: Envelope)
        requires
            self.wf(),
            self.settled(),
            lo <= hi <= self@.len(),
        ensures
            seen == scan(Envelope::nothing(), self@.subrange(lo as int, hi as int)),
    {
        let mut seen = Envelope { min: Float(INFINITY), max: Float(NEG_INFINITY) };
        let mut pos: usize = lo;
        let ghost samples = self@;
        assert(samples.subrange(lo as int, lo as int) =~= Seq::<Float>::empty());
        while pos < hi
            invariant
                self.wf(),
                self.settled(),
                samples == self@,
                lo <= pos <= hi <= samples.len(),
                seen == scan(Envelope::nothing(), samples.subrange(lo as int, pos as int)),
            decreases hi - pos,
        {
            let (entry, step) = self.widest_entry(pos, hi);
            proof {
                let first = samples.subrange(lo as int, pos as int);
                let second = samples.subrange(pos as int, pos + step);
                assert(seen.widened(entry) == scan(seen, second)) by {
                    reveal(stands_for);
                }
                scan_in_two(Envelope::nothing(), first, second);
                assert(first + second =~= samples.subrange(lo as int, pos + step));
            }
            if entry.min.lt(seen.min) {
                seen.min = entry.min;
            }
            if seen.max.lt(entry.max) {
                seen.max = entry.max;
            }
            pos = pos + step;
        }
        seen
    }

    /// Summarizes the most recent `window` samples, or all there are, as one
    /// envelope for each place of `out`, oldest first. The result is that of
    /// scanning every column's samples.
    fn envelope_from_mips(&self, window: usize, out: &mut [Envelope])
        requires
            self.wf(),
            self.settled(),
        ensures
            final(out)@ == columns(self@, old(out)@.len(), window as int),
    {
        let total = self.len();
        let window: usize = if window < total {
            window
        } else {
            total
        };
        let win_start: usize = total - window;
        let cols: usize = out.len();
        let mut c: usize = 0;
        while c < cols
            invariant
                self.wf(),
                self.settled(),
                window <= total == self@.len(),
                total <= HISTORY_PER_CHANNEL,
                win_start + window == total,
                c <= cols,
                out@.len() == cols,
                forall|j: int|
                    0 <= j < c ==> #[trigger] out@[j] == column(
                        self@,
                        cols as int,
                        window as int,
                        j,
                    ),
            decreases cols - c,
        {
            proof {
                column_bounds(total as int, window as int, cols as int, c as int);
                assert(c * window <= cols * window && (c + 1) * window <= cols * window && cols
                    * window < 0x1_0000_0000_0000_0000 * 0x8000) by (nonlinear_arith)
                    requires
                        0 <= c < cols,
                        cols <= 0xffff_ffff_ffff_ffff,
                        0 <= window <= 24_000,
                ;
            }
            let lo: usize = win_start + ((c as u128 * window as u128) / cols as u128) as usize;
            let hi: usize = win_start + (((c as u128 + 1) * window as u128) / cols as u128) as usize;
            let seen = self.scan_range(lo, hi);
            out[c] = if seen.min.is_finite() {
                seen
            } else {
                Envelope::default()
            };
            c = c + 1;
        }
        assert(out@ =~= columns(self@, cols as nat, window as int));
    }
}

/// Columns are contiguous pieces of the window, in order.
proof fn column_bounds(total: int, window: int, cols: int, c: int)
    requires
        0 <= window <= total,
        0 <= c < cols,
    ensures
        total - window <= column_start(total, window, cols, c) <= column_start(
            total,
            window,
            cols,
            c + 1,
        ) <= total,
        (c * window) / cols <= window,
        ((c + 1) * window) / cols <= window,
{
    assert(0 <= c * window <= (c + 1) * window <= cols * window) by (nonlinear_arith)
        requires
            0 <= c < cols,
            0 <= window,
    ;
    lemma_div_is_ordered(0, c * window, cols);
    lemma_div_is_ordered(c * window, (c + 1) * window, cols);
    lemma_div_is_ordered((c + 1) * window, cols * window, cols);
    lemma_div_multiples_vanish(window, cols);
    assert(0int / cols == 0) by (nonlinear_arith)
        requires
            cols > 0,
    ;
}

/// Sample `i` of a window belongs to exactly the share that it is scaled to.
proof fn share_of(window: int, cols: int, i: int)
    requires
        0 <= i < window,
        0 < cols,
    ensures
        ({
            let col = (i * cols) / window;
            &&& 0 <= col < cols
            &&& share_start(window, cols, col) <= i < share_start(window, cols, col + 1)
        }),
{
    let col = (i * cols) / window;
    lemma_fundamental_div_mod(i * cols, window);
    let rem = (i * cols) % window;
    assert(0 <= i * cols) by (nonlinear_arith)
        requires
            0 <= i,
            0 < cols,
    ;
    assert(0 <= rem < window && i * cols == window * col + rem);
    lemma_div_is_ordered(0, i * cols, window);
    lemma_fundamental_div_mod_converse(0, window, 0, 0);
    assert(i * cols < window * cols) by (nonlinear_arith)
        requires
            i < window,
            0 < cols,
    ;
    assert(col < cols) by (nonlinear_arith)
        requires
            i * cols == window * col + rem,
            0 <= rem,
            i * cols < window * cols,
            0 < window,
    ;
    let a = col * window + cols - 1;
    let b = (col + 1) * window + cols - 1;
    assert(a < (i + 1) * cols) by (nonlinear_arith)
        requires
            i * cols == window * col + rem,
            0 <= rem,
            a == col * window + cols - 1,
    ;
    assert((i + 1) * cols <= b) by (nonlinear_arith)
        requires
            i * cols == window * col + rem,
            rem < window,
            b == (col + 1) * window + cols - 1,
    ;
    lemma_fundamental_div_mod(a, cols);
    lemma_fundamental_div_mod(b, cols);
    assert(a / cols <= i) by (nonlinear_arith)
        requires
            a < (i + 1) * cols,
            a == cols * (a / cols) + a % cols,
            0 <= a % cols,
            0 < cols,
    ;
    assert(i < b / cols) by (nonlinear_arith)
        requires
            (i + 1) * cols <= b,
            b == cols * (b / cols) + b % cols,
            b % cols < cols,
            0 < cols,
    ;
}

proof fn share_start_is_monotonic(window: int, cols: int, c: int, d: int)
    requires
        0 <= window,
        0 < cols,
        0 <= c <= d <= cols,
    ensures
        0 <= share_start(window, cols, c) <= share_start(window, cols, d) <= window,
        share_start(window, cols, 0) == 0,
        share_start(window, cols, cols) == window,
{
    assert(0 <= c * window <= d * window <= cols * window) by (nonlinear_arith)
        requires
            0 <= c <= d <= cols,
            0 <= window,
    ;
    lemma_div_is_ordered(0, c * window + cols - 1, cols);
    lemma_div_is_ordered(c * window + cols - 1, d * window + cols - 1, cols);
    lemma_div_is_ordered(d * window + cols - 1, cols * window + cols - 1, cols);
    lemma_mul_is_commutative(cols, window);
    lemma_fundamental_div_mod_converse(cols * window + cols - 1, cols, window, cols - 1);
    lemma_fundamental_div_mod_converse(cols - 1, cols, 0, cols - 1);
    lemma_fundamental_div_mod_converse(0, cols, 0, 0);
    assert(0 * window == 0) by (nonlinear_arith);
}

/// Every sample of the window belongs to exactly one column, and every sample
/// of a column belongs to the window.
pub proof fn law_columns_partition_the_window(total: int, window: int, cols: int, i: int)
    requires
        0 <= window <= total,
        0 < cols,
    ensures
        total - window <= i < total <==> exists|c: int|
            0 <= c < cols && #[trigger] owns(total, window, cols, c, i),
        forall|c: int, d: int|
            0 <= c < cols && 0 <= d < cols && #[trigger] owns(total, window, cols, c, i)
                && #[trigger] owns(total, window, cols, d, i) ==> c == d,
{
    column_ends(total, window, cols);
    if total - window <= i < total {
        let c = column_holding(total, window, cols, i, cols);
        assert(owns(total, window, cols, c, i));
    }
    assert forall|c: int| 0 <= c < cols && #[trigger] owns(total, window, cols, c, i) implies total
        - window <= i < total by {
        column_bounds(total, window, cols, c);
    }
    assert forall|c: int, d: int|
        0 <= c < cols && 0 <= d < cols && #[trigger] owns(total, window, cols, c, i)
            && #[trigger] owns(total, window, cols, d, i) implies c == d by {
        if c < d {
            column_start_is_monotonic(total, window, cols, c + 1, d);
        } else if d < c {
            column_start_is_monotonic(total, window, cols, d + 1, c);
        }
    }
}

/// Whether sample `i`, counted from the oldest, is one of column `c`'s.
pub open spec fn owns(total: int, window: int, cols: int, c: int, i: int) -> bool {
    column_start(total, window, cols, c) <= i < column_start(total, window, cols, c + 1)
}

proof fn column_start_is_monotonic(total: int, window: int, cols: int, c: int, d: int)
    requires
        0 <= window,
        0 < cols,
        c <= d,
    ensures
        column_start(total, window, cols, c) <= column_start(total, window, cols, d),
{
    assert(c * window <= d * window) by (nonlinear_arith)
        requires
            c <= d,
            0 <= window,
    ;
    lemma_div_is_ordered(c * window, d * window, cols);
}

proof fn column_ends(total: int, window: int, cols: int)
    requires
        0 < cols,
    ensures
        column_start(total, window, cols, 0) == total - window,
        column_start(total, window, cols, cols) == total,
{
    assert(0 * window == 0) by (nonlinear_arith);
    lemma_fundamental_div_mod_converse(0, cols, 0, 0);
    lemma_mul_is_commutative(cols, window);
    lemma_fundamental_div_mod_converse(cols * window, cols, window, 0);
}

proof fn column_holding(total: int, window: int, cols: int, i: int, upto: int) -> (c: int)
    requires
        0 < cols,
        0 <= upto <= cols,
        column_start(total, window, cols, 0) <= i < column_start(total, window, cols, upto),
    ensures
        0 <= c < upto,
        owns(total, window, cols, c, i),
    decreases upto,
{
    if column_start(total, window, cols, upto - 1) <= i {
        upto - 1
    } else {
        column_holding(total, window, cols, i, upto - 1)
    }
}

/// Where a column starts when all have the same number of samples.
proof fn even_start(window: int, cols: int, each: int, c: int)
    requires
        cols > 0,
        window == cols * each,
    ensures
        (c * window) / cols == c * each,
        (c * window + cols - 1) / cols == c * each,
{
    let q = c * each;
    assert(c * window == q * cols) by (nonlinear_arith)
        requires
            window == cols * each,
            q == c * each,
    ;
    lemma_fundamental_div_mod_converse(q * cols, cols, q, 0);
    lemma_fundamental_div_mod_converse(q * cols + (cols - 1), cols, q, cols - 1);
}

/// Where the columns all have the same number of samples, it makes no
/// difference how the samples are dealt out.
pub proof fn law_even_columns_are_even_shares(samples: Seq<Float>, cols: nat, window: int)
    requires
        0 < cols,
        0 <= window <= samples.len(),
        window % (cols as int) == 0,
    ensures
        columns(samples, cols, window) == shares(samples, cols, window),
{
    let n = cols as int;
    let each = window / n;
    lemma_fundamental_div_mod(window, n);
    let recent = latest(samples, window);
    assert(recent =~= samples.skip(samples.len() - window));
    assert forall|c: int| 0 <= c < cols implies columns(samples, cols, window)[c] == shares(
        samples,
        cols,
        window,
    )[c] by {
        even_start(window, n, each, c);
        even_start(window, n, each, c + 1);
        column_bounds(samples.len() as int, window, n, c);
        let start = samples.len() - window;
        assert(recent.subrange(c * each, (c + 1) * each) =~= samples.subrange(
            start + c * each,
            start + (c + 1) * each,
        ));
    }
    assert(columns(samples, cols, window) =~= shares(samples, cols, window));
}

/// Every finite sample of the window lies within the column that it belongs to,
/// and each column with a sample reaches no farther than its samples do.
pub proof fn law_columns_show_every_sample(
    samples: Seq<Float>,
    cols: nat,
    window: int,
    c: int,
    i: int,
)
    requires
        0 < window <= samples.len(),
        0 <= c < cols,
        owns(samples.len() as int, window, cols as int, c, i),
        forall|j: int| 0 <= j < samples.len() ==> (#[trigger] samples[j]).finite(),
    ensures
        samples.len() - window <= i < samples.len(),
        ({
            let shown = columns(samples, cols, window)[c];
            &&& shown.min.at_most(samples[i])
            &&& samples[i].at_most(shown.max)
            &&& exists|j: int|
                owns(samples.len() as int, window, cols as int, c, j) && shown.min
                    == #[trigger] samples[j]
            &&& exists|j: int|
                owns(samples.len() as int, window, cols as int, c, j) && shown.max
                    == #[trigger] samples[j]
        }),
{
    let total = samples.len() as int;
    law_columns_partition_the_window(total, window, cols as int, i);
    column_bounds(total, window, cols as int, c);
    let from = column_start(total, window, cols as int, c);
    let part = samples.subrange(from, column_start(total, window, cols as int, c + 1));
    law_summary_bounds_the_samples(part);
    assert(part[i - from] == samples[i]);
    let shown = summary(part);
    let low = choose|j: int| 0 <= j < part.len() && part[j] == shown.min;
    let high = choose|j: int| 0 <= j < part.len() && part[j] == shown.max;
    assert(samples[from + low] == shown.min && samples[from + high] == shown.max);
    assert(columns(samples, cols, window)[c] == shown);
}

/// Every finite sample of the window lies within the column that its place
/// falls into.
pub proof fn law_shares_show_every_sample(
    samples: Seq<Float>,
    cols: nat,
    window: int,
    j: int,
)
    requires
        0 < window <= samples.len(),
        0 < cols,
        0 <= j < window,
        forall|k: int| 0 <= k < samples.len() ==> (#[trigger] samples[k]).finite(),
    ensures
        ({
            let c = (j * cols as int) / window;
            let shown = shares(samples, cols, window)[c];
            let sample = samples[samples.len() - window + j];
            &&& 0 <= c < cols
            &&& shown.min.at_most(sample)
            &&& sample.at_most(shown.max)
        }),
{
    let n = cols as int;
    let c = (j * n) / window;
    law_shares_go_by_place(window, n, c, j);
    assert(0 <= j * n && j * n < window * n) by (nonlinear_arith)
        requires
            0 <= j < window,
            n > 0,
    ;
    lemma_fundamental_div_mod(j * n, window);
    assert(0 <= c && c < n) by (nonlinear_arith)
        requires
            j * n == window * c + (j * n) % window,
            0 <= (j * n) % window < window,
            0 <= j * n < window * n,
    ;
    let recent = latest(samples, window);
    assert(recent.len() == window);
    let from = share_start(window, n, c);
    let to = share_start(window, n, c + 1);
    rounded_up(c * window, n, -1);
    assert(c * window >= 0) by (nonlinear_arith)
        requires
            c >= 0,
            window > 0,
    ;
    assert(0 <= from);
    rounded_up((c + 1) * window, n, window);
    assert((c + 1) * window <= window * n) by (nonlinear_arith)
        requires
            c + 1 <= n,
            window > 0,
    ;
    let part = recent.subrange(from, to);
    assert(part[j - from] == samples[samples.len() - window + j]);
    assert forall|k: int| 0 <= k < part.len() implies (#[trigger] part[k]).finite() by {
        assert(part[k] == samples[samples.len() - window + from + k]);
    }
    law_summary_bounds_the_samples(part);
    assert(shares(samples, cols, window)[c] == summary(part));
}

/// A history after more samples have been pushed one by one.
pub open spec fn after_pushes(history: Seq<Float>, samples: Seq<Float>) -> Seq<Float>
    decreases samples.len(),
{
    if samples.len() == 0 {
        history
    } else {
        latest(
            after_pushes(history, samples.drop_last()).push(samples.last()),
            HISTORY_PER_CHANNEL as int,
        )
    }
}

/// However many samples are pushed, a history remembers exactly the latest of
/// all it has been given, in the order in which they came.
pub proof fn law_history_is_the_latest(history: Seq<Float>, samples: Seq<Float>)
    requires
        history.len() <= HISTORY_PER_CHANNEL,
    ensures
        after_pushes(history, samples) == latest(history + samples, HISTORY_PER_CHANNEL as int),
    decreases samples.len(),
{
    let n = HISTORY_PER_CHANNEL as int;
    if samples.len() == 0 {
        assert(history + samples =~= history);
    } else {
        let front = samples.drop_last();
        let last = seq![samples.last()];
        law_history_is_the_latest(history, front);
        assert(latest(history + front, n).push(samples.last()) =~= latest(history + front, n)
            + last);
        latest_of_latest(history + front, last, n);
        assert((history + front) + last =~= history + samples);
    }
}

/// The samples of an interleaved chunk that are channel `c`'s, out of
/// `channels`, when the first sample is that of channel `start`.
pub open spec fn dealt_from(start: int, chunk: Seq<Float>, channels: int, c: int) -> Seq<Float>
    decreases chunk.len(),
{
    if chunk.len() == 0 {
        Seq::empty()
    } else {
        let front = dealt_from(start, chunk.drop_last(), channels, c);
        if (start + chunk.len() - 1) % channels == c {
            front.push(chunk.last())
        } else {
            front
        }
    }
}

/// The samples of an interleaved stream that are channel `c`'s, out of
/// `channels`: every `channels`-th one, from the `c`-th on.
pub open spec fn dealt(stream: Seq<Float>, channels: int, c: int) -> Seq<Float> {
    dealt_from(0, stream, channels, c)
}

/// A stream can be dealt out in two parts, if the second goes on with the
/// channel that comes after the last of the first.
proof fn dealt_in_two(first: Seq<Float>, second: Seq<Float>, channels: int, c: int)
    requires
        channels > 0,
    ensures
        dealt(first + second, channels, c) == dealt(first, channels, c) + dealt_from(
            first.len() as int % channels,
            second,
            channels,
            c,
        ),
    decreases second.len(),
{
    let start = first.len() as int % channels;
    if second.len() == 0 {
        assert(first + second =~= first);
        assert(dealt(first, channels, c) + dealt_from(start, second, channels, c) =~= dealt(
            first,
            channels,
            c,
        ));
    } else {
        dealt_in_two(first, second.drop_last(), channels, c);
        assert((first + second).drop_last() =~= first + second.drop_last());
        let i = second.len() - 1;
        lemma_add_mod_noop(first.len() as int, i, channels);
        lemma_add_mod_noop(start, i, channels);
        lemma_mod_twice(first.len() as int, channels);
        assert((start + i) % channels == (first.len() + i) % channels);
        assert(dealt(first + second, channels, c) =~= dealt(first, channels, c) + dealt_from(
            start,
            second,
            channels,
            c,
        ));
    }
}

/// The channel that comes after another.
proof fn lane_after(k: int, channels: int)
    requires
        0 <= k,
        channels > 0,
    ensures
        (k + 1) % channels == if k % channels + 1 < channels {
            k % channels + 1
        } else {
            0
        },
        0 <= k % channels < channels,
{
    lemma_fundamental_div_mod(k, channels);
    let q = k / channels;
    lemma_mul_is_commutative(channels, q);
    if k % channels + 1 < channels {
        lemma_fundamental_div_mod_converse(k + 1, channels, q, k % channels + 1);
    } else {
        assert((q + 1) * channels == q * channels + channels) by (nonlinear_arith);
        lemma_fundamental_div_mod_converse(k + 1, channels, q + 1, 0);
    }
}

/// The `k`-th sample of an interleaved stream that is channel `c`'s is the
/// one at `c + k * channels`.
pub proof fn law_channels_are_interleaved(stream: Seq<Float>, channels: int, c: int, k: int)
    requires
        0 <= c < channels,
        0 <= k,
    ensures
        k < dealt(stream, channels, c).len() <==> c + k * channels < stream.len(),
        k < dealt(stream, channels, c).len() ==> dealt(stream, channels, c)[k] == stream[c + k
            * channels],
    decreases stream.len(),
{
    if stream.len() == 0 {
        assert(c + k * channels >= 0) by (nonlinear_arith)
            requires
                0 <= c,
                0 <= k,
                0 < channels,
        ;
    } else {
        let front = stream.drop_last();
        let i = stream.len() - 1;
        law_channels_are_interleaved(front, channels, c, k);
        assert(c + k * channels >= 0) by (nonlinear_arith)
            requires
                0 <= c,
                0 <= k,
                0 < channels,
        ;
        if i % channels == c {
            // The last sample is the next of this channel.
            let q = i / channels;
            lemma_fundamental_div_mod(i, channels);
            lemma_mul_is_commutative(channels, q);
            assert(i == c + q * channels);
            assert(q >= 0) by (nonlinear_arith)
                requires
                    i == c + q * channels,
                    0 <= i,
                    0 <= c < channels,
            ;
            let len = dealt(front, channels, c).len() as int;
            law_channels_are_interleaved(front, channels, c, len);
            assert(len <= q) by {
                if q < len {
                    law_channels_are_interleaved(front, channels, c, q);
                }
            }
            assert(q <= len) by {
                if len < q {
                    assert(c + len * channels < c + q * channels) by (nonlinear_arith)
                        requires
                            len < q,
                            0 < channels,
                    ;
                }
            }
            if k > q {
                assert(c + k * channels > c + q * channels) by (nonlinear_arith)
                    requires
                        k > q,
                        0 < channels,
                ;
            }
        } else if c + k * channels == i {
            lemma_fundamental_div_mod_converse(i, channels, k, c);
        }
    }
}

/// Whether all that was at hand was taken out: at least one read was made, each
/// for a whole chunk, every one but the last came out full, and the last came
/// out short, so that nothing was left. (The reader gives up after `u64::MAX`
/// reads.)
pub open spec fn drained_dry(before: Seq<(nat, nat)>, after: Seq<(nat, nat)>) -> bool {
    &&& before.len() < after.len()
    &&& after.take(before.len() as int) == before
    &&& forall|i: int|
        before.len() <= i < after.len() ==> (#[trigger] after[i]).0 == DRAIN_LEN && after[i].1
            <= DRAIN_LEN
    &&& forall|i: int|
        before.len() <= i < after.len() - 1 ==> (#[trigger] after[i]).1 == DRAIN_LEN
    &&& after.last().1 < DRAIN_LEN || after.len() - before.len() == u64::MAX
}

/// How the histories and the stream read so far change in a tick that found a
/// number of channels. Without any, nothing changes. Otherwise there is a
/// history for each channel, and the stream goes on: what comes is dealt out
/// from the first channel on, and each history takes in its part; if the
/// number of channels has changed, from an empty history.
pub open spec fn ticked(
    channels: int,
    histories: Seq<Seq<Float>>,
    received: Seq<Float>,
    histories_after: Seq<Seq<Float>>,
    received_after: Seq<Float>,
) -> bool {
    if channels == 0 {
        histories_after == histories && received_after == received
    } else {
        let drained = received_after.skip(received.len() as int);
        &&& histories_after.len() == channels
        &&& received_after == received + drained
        &&& forall|c: int|
            0 <= c < channels ==> #[trigger] histories_after[c] == latest(
                kept_history(histories, channels, c) + dealt(drained, channels, c),
                HISTORY_PER_CHANNEL as int,
            )
    }
}

/// A channel's history once it is known that there are `channels` channels: a
/// change of their number clears all histories.
pub open spec fn kept_history(histories: Seq<Seq<Float>>, channels: int, c: int) -> Seq<Float> {
    if channels == histories.len() {
        histories[c]
    } else {
        Seq::empty()
    }
}

/// Drains a [`CaptureHandle`] into per-channel histories and renders envelopes.
pub struct WaveScope {
    handle: CaptureHandle,
    channels: Vec<ChannelHistory>,
    drain: Vec<Float>,
    n_channels: usize,
}

spec fn views_of(channels: Seq<ChannelHistory>) -> Seq<Seq<Float>> {
    Seq::new(channels.len(), |c: int| channels[c]@)
}

spec fn all_wf(channels: Seq<ChannelHistory>) -> bool {
    forall|c: int| 0 <= c < channels.len() ==> (#[trigger] channels[c]).wf()
}

spec fn all_settled(channels: Seq<ChannelHistory>) -> bool {
    forall|c: int| 0 <= c < channels.len() ==> (#[trigger] channels[c]).settled()
}

impl WaveScope {
    /// The remembered samples of each channel, oldest first.
    pub closed spec fn histories(&self) -> Seq<Seq<Float>> {
        views_of(self.channels@)
    }

    /// Every sample drained from the capture so far.
    pub closed spec fn received(&self) -> Seq<Float> {
        self.handle.received()
    }

    /// The format of the capture.
    pub closed spec fn format(&self) -> SharedFormat {
        self.handle.format()
    }

    /// The samples that the capture sends, by their number.
    pub closed spec fn stream(&self) -> Map<nat, Float> {
        self.handle.stream()
    }

    /// Every read of the capture so far: how many samples were asked for, and
    /// how many came.
    pub closed spec fn pops(&self) -> Seq<(nat, nat)> {
        self.handle.pops()
    }

    /// Whether this is what a tick can make of an earlier state: it looked at
    /// the number of channels once, and did what that number asks for. Where
    /// there are channels, all that the capture has sent so far is pulled.
    pub open spec fn ticked_from(&self, before: &WaveScope) -> bool {
        &&& self.format() == before.format()
        &&& self.stream() == before.stream()
        &&& exists|channels: u32| #[trigger]
            before.format().shows_channels(channels) && ticked(
                channels as int,
                before.histories(),
                before.received(),
                self.histories(),
                self.received(),
            ) && if channels == 0 {
                self.pops() == before.pops()
            } else {
                drained_dry(before.pops(), self.pops()) && begins(self.received(), self.stream())
            }
    }

    /// Validity, apart from the summaries.
    pub closed spec fn sound(&self) -> bool {
        &&& self.channels@.len() == self.n_channels
        &&& all_wf(self.channels@)
        &&& self.drain@.len() == DRAIN_LEN
    }

    /// Whether every channel's summaries are those of its samples.
    pub closed spec fn settled(&self) -> bool {
        all_settled(self.channels@)
    }

    /// Validity.
    pub open spec fn wf(&self) -> bool {
        self.sound() && self.settled()
    }

    pub fn new(handle: CaptureHandle) -> (r: WaveScope)
        ensures
            r.wf(),
            r.histories() == Seq::<Seq<Float>>::empty(),
            r.received() == handle.received(),
            r.format() == handle.format(),
            r.stream() == handle.stream(),
            r.pops() == handle.pops(),
    {
        let r = WaveScope {
            handle,
            channels: Vec::new(),
            drain: vec![Float(ZERO); DRAIN_LEN],
            n_channels: 0,
        };
        assert(r.histories() =~= Seq::<Seq<Float>>::empty());
        r
    }

    /// True once capture has negotiated a format and samples are flowing.
    pub fn is_ready(&self) -> (r: bool)
        ensures
            self.format().shows_ready(r),
    {
        self.handle.is_ready()
    }

    /// Sample rate in Hz, or 0 before the format is negotiated.
    pub fn sample_rate(&self) -> (r: u32)
        ensures
            self.format().shows_rate(r),
    {
        self.handle.sample_rate()
    }

    pub fn channel_count(&self) -> (r: usize)
        requires
            self.sound(),
        ensures
            r == self.histories().len(),
    {
        self.n_channels
    }

    /// Makes room for a number of channels. If it is not the present number,
    /// all histories start over.
    pub fn retune(&mut self, channels: usize)
        requires
            old(self).sound(),
        ensures
            final(self).sound(),
            final(self).received() == old(self).received(),
            final(self).format() == old(self).format(),
            final(self).stream() == old(self).stream(),
            final(self).pops() == old(self).pops(),
            final(self).histories() == Seq::new(
                channels as nat,
                |c: int| kept_history(old(self).histories(), channels as int, c),
            ),
    {
        let ghost before = self.histories();
        if channels != self.n_channels {
            let mut fresh: Vec<ChannelHistory> = Vec::new();
            let mut c: usize = 0;
            while c < channels
                invariant
                    c <= channels,
                    fresh@.len() == c,
                    all_wf(fresh@),
                    forall|j: int| 0 <= j < c ==> (#[trigger] fresh@[j])@ == Seq::<Float>::empty(),
                decreases channels - c,
            {
                fresh.push(ChannelHistory::new());
                c = c + 1;
            }
            self.channels = fresh;
            self.n_channels = channels;
        }
        assert(self.histories() =~= Seq::new(
            channels as nat,
            |c: int| kept_history(before, channels as int, c),
        ));
    }

    /// Deals a chunk out to the channels, from a given one on. Returns the
    /// channel that comes next.
    fn deal(channels: &mut Vec<ChannelHistory>, start: usize, chunk: &[Float]) -> (next: usize)
        requires
            all_wf(old(channels)@),
            start < old(channels)@.len(),
        ensures
            all_wf(final(channels)@),
            final(channels)@.len() == old(channels)@.len(),
            next == (start + chunk@.len()) % (old(channels)@.len() as int),
            next < old(channels)@.len(),
            forall|c: int|
                0 <= c < old(channels)@.len() ==> (#[trigger] final(channels)@[c])@ == latest(
                    old(channels)@[c]@ + dealt_from(
                        start as int,
                        chunk@,
                        old(channels)@.len() as int,
                        c,
                    ),
                    HISTORY_PER_CHANNEL as int,
                ),
    {
        let ghost before = channels@;
        let ghost cap = HISTORY_PER_CHANNEL as int;
        let ghost s = start as int;
        let ch: usize = channels.len();
        let n: usize = chunk.len();
        let mut lane: usize = start;
        let mut i: usize = 0;
        proof {
            lemma_small_mod(start as nat, ch as nat);
            assert forall|c: int| 0 <= c < ch implies (#[trigger] channels@[c])@ == latest(
                before[c]@ + dealt_from(s, chunk@.take(0), ch as int, c),
                cap,
            ) by {
                before[c].bounded();
                assert(chunk@.take(0).len() == 0);
                assert(before[c]@ + dealt_from(s, chunk@.take(0), ch as int, c) =~= before[c]@);
            }
        }
        while i < n
            invariant
                cap == HISTORY_PER_CHANNEL,
                s == start,
                n == chunk@.len(),
                ch > 0,
                ch == channels@.len(),
                ch == before.len(),
                i <= n,
                lane < ch,
                lane == (s + i) % (ch as int),
                all_wf(channels@),
                forall|c: int|
                    0 <= c < ch ==> (#[trigger] channels@[c])@ == latest(
                        before[c]@ + dealt_from(s, chunk@.take(i as int), ch as int, c),
                        cap,
                    ),
            decreases n - i,
        {
            let ghost old_channels = channels@;
            channels[lane].push(chunk[i]);
            i = i + 1;
            proof {
                let so_far = chunk@.take(i - 1);
                let now = chunk@.take(i as int);
                assert(now.drop_last() =~= so_far);
                assert(now.last() == chunk@[i - 1]);
                assert forall|c: int| 0 <= c < ch implies (#[trigger] channels@[c])@ == latest(
                    before[c]@ + dealt_from(s, now, ch as int, c),
                    cap,
                ) by {
                    let prior = before[c]@ + dealt_from(s, so_far, ch as int, c);
                    assert(old_channels[c]@ == latest(prior, cap));
                    if c == lane {
                        let one = seq![chunk@[i - 1]];
                        assert(latest(prior, cap).push(chunk@[i - 1]) =~= latest(prior, cap) + one);
                        latest_of_latest(prior, one, cap);
                        assert(prior + one =~= before[c]@ + dealt_from(s, now, ch as int, c));
                    } else {
                        assert(channels@[c] == old_channels[c]);
                    }
                }
                lane_after(s + i - 1, ch as int);
            }
            lane = if ch - lane > 1 {
                lane + 1
            } else {
                0
            };
        }
        assert(chunk@.take(n as int) =~= chunk@);
        lane
    }

    /// Deals an interleaved chunk out to the channels, from the first on.
    pub fn absorb(&mut self, chunk: &[Float])
        requires
            old(self).sound(),
            old(self).histories().len() > 0,
        ensures
            final(self).sound(),
            final(self).received() == old(self).received(),
            final(self).format() == old(self).format(),
            final(self).stream() == old(self).stream(),
            final(self).pops() == old(self).pops(),
            final(self).histories() == Seq::new(
                old(self).histories().len(),
                |c: int|
                    latest(
                        old(self).histories()[c] + dealt(
                            chunk@,
                            old(self).histories().len() as int,
                            c,
                        ),
                        HISTORY_PER_CHANNEL as int,
                    ),
            ),
    {
        let ghost before = self.histories();
        Self::deal(&mut self.channels, 0, chunk);
        assert(self.histories() =~= Seq::new(
            before.len(),
            |c: int|
                latest(
                    before[c] + dealt(chunk@, before.len() as int, c),
                    HISTORY_PER_CHANNEL as int,
                ),
        ));
    }

    /// Refreshes the summaries of the channels that took new samples.
    pub fn settle(&mut self)
        requires
            old(self).sound(),
        ensures
            final(self).wf(),
            final(self).received() == old(self).received(),
            final(self).format() == old(self).format(),
            final(self).stream() == old(self).stream(),
            final(self).pops() == old(self).pops(),
            final(self).histories() == old(self).histories(),
    {
        let ghost before = self.channels@;
        let n: usize = self.channels.len();
        let mut c: usize = 0;
        while c < n
            invariant
                self.sound(),
                self.received() == old(self).received(),
                self.format() == old(self).format(),
                self.stream() == old(self).stream(),
                self.pops() == old(self).pops(),
                n == self.channels@.len(),
                n == before.len(),
                c <= n,
                forall|j: int| 0 <= j < c ==> (#[trigger] self.channels@[j]).settled(),
                forall|j: int| 0 <= j < n ==> (#[trigger] self.channels@[j])@ == before[j]@,
            decreases n - c,
        {
            if self.channels[c].dirty {
                self.channels[c].rebuild_mips();
            }
            c = c + 1;
        }
        assert(self.histories() =~= views_of(before));
    }

    /// Reads one chunk and deals it out to the channels, from a given one on.
    /// Returns its length and the channel that comes next.
    fn drain_chunk(&mut self, lane: usize) -> (r: (usize, usize))
        requires
            old(self).sound(),
            lane < old(self).histories().len(),
        ensures
            final(self).sound(),
            r.0 <= DRAIN_LEN,
            r.1 == (lane + r.0) % (old(self).histories().len() as int),
            r.1 < old(self).histories().len(),
            final(self).format() == old(self).format(),
            final(self).stream() == old(self).stream(),
            final(self).pops() == old(self).pops().push((DRAIN_LEN as nat, r.0 as nat)),
            final(self).received() == old(self).received() + final(self).drain@.take(r.0 as int),
            begins(final(self).received(), final(self).stream()),
            final(self).histories() == Seq::new(
                old(self).histories().len(),
                |c: int|
                    latest(
                        old(self).histories()[c] + dealt_from(
                            lane as int,
                            final(self).drain@.take(r.0 as int),
                            old(self).histories().len() as int,
                            c,
                        ),
                        HISTORY_PER_CHANNEL as int,
                    ),
            ),
    {
        let ghost before = self.histories();
        let n = self.handle.read(&mut self.drain);
        let chunk = &self.drain[0..n];
        assert(chunk@ =~= self.drain@.take(n as int));
        let next = Self::deal(&mut self.channels, lane, chunk);
        assert(self.histories() =~= Seq::new(
            before.len(),
            |c: int|
                latest(
                    before[c] + dealt_from(
                        lane as int,
                        self.drain@.take(n as int),
                        before.len() as int,
                        c,
                    ),
                    HISTORY_PER_CHANNEL as int,
                ),
        ));
        (n, next)
    }

    /// Pulls all currently available audio into the per-channel histories.
    pub fn tick(&mut self)
        requires
            old(self).wf(),
        ensures
            final(self).wf(),
            final(self).ticked_from(old(self)),
    {
        let seen = self.handle.channels();
        assert(self.format().shows_channels(seen));
        let ch: usize = seen as usize;
        if ch == 0 {
            return;
        }
        let ghost histories = self.histories();
        let ghost received = self.received();
        let ghost format = self.format();
        let ghost stream = self.stream();
        let ghost pops = self.pops();
        let ghost cap = HISTORY_PER_CHANNEL as int;
        self.retune(ch);
        let ghost mut drained: Seq<Float> = Seq::empty();
        proof {
            assert(received + drained =~= received);
            assert(self.pops().take(pops.len() as int) =~= pops);
            assert forall|c: int| 0 <= c < ch implies #[trigger] self.histories()[c] == latest(
                kept_history(histories, ch as int, c) + dealt(drained, ch as int, c),
                cap,
            ) by {
                let kept = kept_history(histories, ch as int, c);
                assert(self.histories()[c] == kept);
                assert(self.histories().len() == self.channels@.len());
                self.channels@[c].bounded();
                assert(kept + dealt(drained, ch as int, c) =~= kept);
            }
        }
        let mut more = true;
        let mut reads_left: u64 = u64::MAX;
        let mut lane: usize = 0;
        while more && reads_left > 0
            invariant
                ch > 0,
                cap == HISTORY_PER_CHANNEL,
                self.sound(),
                self.histories().len() == ch,
                self.format() == format,
                self.stream() == stream,
                self.received() == received + drained,
                lane < ch,
                lane == drained.len() as int % (ch as int),
                self.pops().len() == pops.len() + (u64::MAX - reads_left),
                self.pops().take(pops.len() as int) == pops,
                forall|i: int|
                    pops.len() <= i < self.pops().len() ==> (#[trigger] self.pops()[i]).0
                        == DRAIN_LEN && self.pops()[i].1 <= DRAIN_LEN,
                forall|i: int|
                    pops.len() <= i < self.pops().len() - 1 ==> (#[trigger] self.pops()[i]).1
                        == DRAIN_LEN,
                reads_left < u64::MAX ==> begins(self.received(), self.stream()) && (more
                    <==> self.pops().last().1 == DRAIN_LEN),
                reads_left == u64::MAX ==> more,
                forall|c: int|
                    0 <= c < ch ==> #[trigger] self.histories()[c] == latest(
                        kept_history(histories, ch as int, c) + dealt(drained, ch as int, c),
                        cap,
                    ),
            decreases reads_left,
        {
            reads_left = reads_left - 1;
            let ghost before = self.histories();
            let ghost pops_before = self.pops();
            let ghost drained_before = drained;
            let ghost lane_before = lane as int;
            let (n, next) = self.drain_chunk(lane);
            let ghost chunk = self.drain@.take(n as int);
            proof {
                drained = drained + chunk;
                assert(received + drained =~= (received + drained_before) + chunk);
                assert(self.pops().take(pops.len() as int) =~= pops_before.take(pops.len() as int));
                lemma_add_mod_noop(drained_before.len() as int, n as int, ch as int);
                lemma_add_mod_noop(lane_before, n as int, ch as int);
                lemma_mod_twice(drained_before.len() as int, ch as int);
            }
            lane = next;
            if n < self.drain.len() {
                more = false;
            }
            proof {
                assert forall|c: int| 0 <= c < ch implies #[trigger] self.histories()[c] == latest(
                    kept_history(histories, ch as int, c) + dealt(drained, ch as int, c),
                    cap,
                ) by {
                    let kept = kept_history(histories, ch as int, c);
                    let part = dealt_from(lane_before, chunk, ch as int, c);
                    let prior = kept + dealt(drained_before, ch as int, c);
                    assert(before[c] == latest(prior, cap));
                    dealt_in_two(drained_before, chunk, ch as int, c);
                    latest_of_latest(prior, part, cap);
                    assert(prior + part =~= kept + dealt(drained, ch as int, c));
                }
            }
        }
        self.settle();
        proof {
            assert(self.received().skip(received.len() as int) =~= drained);
        }
    }

    /// Copies the most recent `out.len()` samples of `channel` into `out`,
    /// oldest first, zero-padding the lead. Returns how many real samples were
    /// written.
    pub fn samples_into(&self, channel: usize, out: &mut [Float]) -> (n: usize)
        requires
            self.sound(),
        ensures
            final(out)@.len() == old(out)@.len(),
            channel >= self.histories().len() ==> n == 0,
            channel < self.histories().len() ==> n == latest(
                self.histories()[channel as int],
                old(out)@.len() as int,
            ).len(),
            final(out)@ == self.padded(channel as int, old(out)@.len()),
    {
        let len: usize = out.len();
        let held: usize = if channel < self.channels.len() {
            self.channels[channel].len()
        } else {
            0
        };
        let n: usize = if len < held {
            len
        } else {
            held
        };
        let pad: usize = len - n;
        let start: usize = held - n;
        let mut i: usize = 0;
        while i < len
            invariant
                self.sound(),
                out@.len() == len,
                channel < self.histories().len() ==> held == self.histories()[channel as int].len(),
                channel >= self.histories().len() ==> held == 0,
                start + n == held,
                pad + n == len,
                i <= len,
                forall|j: int|
                    0 <= j < i ==> #[trigger] out@[j] == if j < pad {
                        Float(ZERO)
                    } else {
                        self.histories()[channel as int][start + (j - pad)]
                    },
            decreases len - i,
        {
            out[i] = if i < pad {
                Float(ZERO)
            } else {
                self.channels[channel].at(start + (i - pad))
            };
            i = i + 1;
        }
        assert(out@ =~= self.padded(channel as int, len as nat));
        n
    }

    /// The latest `len` samples of a channel, with zeros in front where there
    /// are not so many. A channel that does not exist has none.
    pub open spec fn padded(&self, channel: int, len: nat) -> Seq<Float> {
        let samples = if 0 <= channel < self.histories().len() {
            latest(self.histories()[channel], len as int)
        } else {
            Seq::empty()
        };
        Seq::new((len - samples.len()) as nat, |i: int| Float(ZERO)) + samples
    }

    /// Counted from the end, the latest samples of a channel are those that it
    /// remembers, and before the first of them there is silence.
    pub proof fn law_padding_is_in_front(&self, channel: int, len: nat, i: int)
        requires
            0 <= channel < self.histories().len(),
            0 <= i < len,
        ensures
            ({
                let history = self.histories()[channel];
                let heard = self.padded(channel, len);
                &&& heard.len() == len
                &&& i < history.len() ==> heard[len - 1 - i] == history[history.len() - 1 - i]
                &&& i >= history.len() ==> heard[len - 1 - i] == Float(ZERO)
            }),
    {
    }

    /// Whether there is a sample to show of a channel in a window.
    pub open spec fn has_audio(&self, channel: int, window: int) -> bool {
        0 <= channel < self.histories().len() && window > 0 && self.histories()[channel].len() > 0
    }

    /// The latest `window` samples of a channel in `cols` columns. Without a
    /// sample to show there are no columns.
    pub open spec fn enveloped(&self, channel: int, cols: nat, window: int) -> Seq<Envelope> {
        if self.has_audio(channel, window) {
            columns(self.histories()[channel], cols, window)
        } else {
            Seq::empty()
        }
    }

    /// The latest `window` samples of a channel in `cols` shares. Without a
    /// sample to show there are none.
    pub open spec fn scanned(&self, channel: int, cols: nat, window: int) -> Seq<Envelope> {
        if self.has_audio(channel, window) {
            shares(self.histories()[channel], cols, window)
        } else {
            Seq::empty()
        }
    }

    /// Summarizes the most recent audio on `channel` as `cols` min/max
    /// envelopes, oldest first. `window` is how many recent samples to span
    /// (zoom). Without a sample to show there are no envelopes.
    pub fn envelope(&self, channel: usize, cols: usize, window: usize) -> (r: Vec<Envelope>)
        requires
            self.wf(),
        ensures
            r@ == self.enveloped(channel as int, cols as nat, window as int),
    {
        if channel >= self.channels.len() {
            return Vec::new();
        }
        let hist = &self.channels[channel];
        assert(hist@ == self.histories()[channel as int]);
        if cols == 0 || window == 0 || hist.len() == 0 {
            assert(columns(hist@, 0, window as int) =~= Seq::<Envelope>::empty());
            return Vec::new();
        }
        let mut out: Vec<Envelope> = vec![Envelope { min: Float(ZERO), max: Float(ZERO) }; cols];
        hist.envelope_from_mips(window, &mut out);
        out
    }

    /// Summarizes the most recent audio on `channel` as `cols` envelopes by
    /// looking at every sample, each in the column that its place falls into.
    pub fn envelope_scan(&self, channel: usize, cols: usize, window: usize) -> (r: Vec<Envelope>)
        requires
            self.sound(),
        ensures
            r@ == self.scanned(channel as int, cols as nat, window as int),
    {
        if channel >= self.channels.len() {
            return Vec::new();
        }
        let hist = &self.channels[channel];
        assert(hist@ == self.histories()[channel as int]);
        if cols == 0 || window == 0 || hist.len() == 0 {
            assert(shares(hist@, 0, window as int) =~= Seq::<Envelope>::empty());
            return Vec::new();
        }
        let recent = hist.recent(window);
        proof {
            hist.bounded();
        }
        share_out(&recent, cols)
    }
}

/// Looks at samples in order, widening the column that each one's place falls
/// into.
fn share_out(recent: &Vec<Float>, cols: usize) -> (out: Vec<Envelope>)
    requires
        cols > 0,
        0 < recent@.len() <= HISTORY_PER_CHANNEL,
    ensures
        out@ == shares(recent@, cols as nat, recent@.len() as int),
{
    let window: usize = recent.len();
    let mut out: Vec<Envelope> = vec![
        Envelope { min: Float(INFINITY), max: Float(NEG_INFINITY) };
        cols
    ];
    let ghost w = window as int;
    let ghost n = cols as int;
    let mut i: usize = 0;
    proof {
        assert forall|c: int| 0 <= c < n implies #[trigger] out@[c] == scan(
            Envelope::nothing(),
            share_so_far(recent@, n, c, 0),
        ) by {
            share_start_is_monotonic(w, n, c, c + 1);
            assert(share_so_far(recent@, n, c, 0) =~= Seq::<Float>::empty());
        }
    }
    while i < window
        invariant
            cols > 0,
            n == cols,
            w == window,
            window == recent@.len(),
            window <= HISTORY_PER_CHANNEL,
            i <= window,
            out@.len() == cols,
            forall|c: int|
                0 <= c < n ==> #[trigger] out@[c] == scan(
                    Envelope::nothing(),
                    share_so_far(recent@, n, c, i as int),
                ),
        decreases window - i,
    {
        proof {
            share_of(w, n, i as int);
            assert(0 <= i * cols < 0x1_0000_0000_0000_0000 * 0x8000) by (nonlinear_arith)
                requires
                    0 <= i < window,
                    window <= 24_000,
                    cols <= 0xffff_ffff_ffff_ffff,
            ;
        }
        let col: usize = ((i as u128 * cols as u128) / window as u128) as usize;
        let sample = recent[i];
        let mut e = out[col];
        let ghost before = out@;
        if sample.lt(e.min) {
            e.min = sample;
        }
        if e.max.lt(sample) {
            e.max = sample;
        }
        out[col] = e;
        proof {
            assert forall|c: int| 0 <= c < n implies #[trigger] out@[c] == scan(
                Envelope::nothing(),
                share_so_far(recent@, n, c, i + 1),
            ) by {
                share_start_is_monotonic(w, n, c, c + 1);
                let was = share_so_far(recent@, n, c, i as int);
                let is = share_so_far(recent@, n, c, i + 1);
                assert(before[c] == scan(Envelope::nothing(), was));
                if c == col {
                    assert(is =~= was.push(sample));
                    assert(is.drop_last() =~= was);
                } else {
                    if c < col {
                        share_start_is_monotonic(w, n, c + 1, col as int);
                    } else {
                        share_start_is_monotonic(w, n, col + 1, c);
                    }
                    assert(is =~= was);
                }
            }
        }
        i = i + 1;
    }
    let ghost scanned = out@;
    let mut c: usize = 0;
    while c < cols
        invariant
            n == cols,
            c <= cols,
            out@.len() == cols,
            scanned.len() == cols,
            forall|j: int| c <= j < n ==> #[trigger] out@[j] == scanned[j],
            forall|j: int|
                0 <= j < c ==> #[trigger] out@[j] == if scanned[j].min.finite() {
                    scanned[j]
                } else {
                    Envelope::silent()
                },
        decreases cols - c,
    {
        if !out[c].min.is_finite() {
            out[c] = Envelope::default();
        }
        c = c + 1;
    }
    proof {
        assert(latest(recent@, w) == recent@);
        assert forall|c: int| 0 <= c < n implies out@[c] == shares(recent@, cols as nat, w)[c] by {
            share_start_is_monotonic(w, n, c, c + 1);
            assert(scanned[c] == scan(Envelope::nothing(), share_so_far(recent@, n, c, w)));
            assert(share_so_far(recent@, n, c, w) =~= recent@.subrange(
                share_start(w, n, c),
                share_start(w, n, c + 1),
            ));
        }
        assert(out@ =~= shares(recent@, cols as nat, w));
    }
    out
}

/// The samples of share `c` among the first `upto`.
spec fn share_so_far(recent: Seq<Float>, cols: int, c: int, upto: int) -> Seq<Float> {
    let start = share_start(recent.len() as int, cols, c);
    let end = share_start(recent.len() as int, cols, c + 1);
    recent.subrange(
        if start < upto {
            start
        } else {
            upto
        },
        if end < upto {
            end
        } else {
            upto
        },
    )
}

} // verus!
