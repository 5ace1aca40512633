use termwaves::arith::Arithmetic;
use termwaves::audio::{
    captures, carries_format, decode_samples, format_is_known, open_capture, CaptureState, Media,
    ParamKind, RING_CAPACITY,
};
use termwaves::fft::{bit_reversal, fft_in_place, make_hann_window, Fft};
use termwaves::float::{Double, Float};
use termwaves::scope::{Envelope, WaveScope, HISTORY_PER_CHANNEL};
use termwaves::spectrum::{to_db_normalized, Band, Spectrum, FFT_SIZE, NYQUIST_BIN};

/// The machine's own arithmetic.
struct Machine;

fn num(a: Float) -> f32 {
    f32::from_bits(a.0)
}

fn enc(a: f32) -> Float {
    Float(a.to_bits())
}

fn wide_num(a: Double) -> f64 {
    f64::from_bits(a.0)
}

fn wide_enc(a: f64) -> Double {
    Double(a.to_bits())
}

impl Arithmetic for Machine {
    fn add(&self, a: Float, b: Float) -> Float {
        enc(num(a) + num(b))
    }
    fn sub(&self, a: Float, b: Float) -> Float {
        enc(num(a) - num(b))
    }
    fn mul(&self, a: Float, b: Float) -> Float {
        enc(num(a) * num(b))
    }
    fn div(&self, a: Float, b: Float) -> Float {
        enc(num(a) / num(b))
    }
    fn fused(&self, a: Float, b: Float, c: Float) -> Float {
        enc(num(a).mul_add(num(b), num(c)))
    }
    fn modulo(&self, a: Float, b: Float) -> Float {
        enc(num(a).rem_euclid(num(b)))
    }
    fn sqrt(&self, a: Float) -> Float {
        enc(num(a).sqrt())
    }
    fn sin(&self, a: Float) -> Float {
        enc(num(a).sin())
    }
    fn cos(&self, a: Float) -> Float {
        enc(num(a).cos())
    }
    fn exp(&self, a: Float) -> Float {
        enc(num(a).exp())
    }
    fn log10(&self, a: Float) -> Float {
        enc(num(a).log10())
    }
    fn powf(&self, a: Float, b: Float) -> Float {
        enc(num(a).powf(num(b)))
    }
    fn powi(&self, a: Float, n: i32) -> Float {
        enc(num(a).powi(n))
    }
    fn from_index(&self, n: usize) -> Float {
        enc(n as f32)
    }
    fn floor_index(&self, a: Float) -> usize {
        num(a).floor() as usize
    }
    fn ceil_index(&self, a: Float) -> usize {
        num(a).ceil() as usize
    }
    fn round_index(&self, a: Float) -> usize {
        num(a).round() as usize
    }
    fn round_byte(&self, a: Float) -> u8 {
        num(a).round() as u8
    }
    fn round_count(&self, a: Float) -> u64 {
        num(a).round() as u64
    }
    fn widen(&self, a: Float) -> Double {
        wide_enc(num(a) as f64)
    }
    fn wide_from(&self, n: u32) -> Double {
        wide_enc(n as f64)
    }
    fn wide_add(&self, a: Double, b: Double) -> Double {
        wide_enc(wide_num(a) + wide_num(b))
    }
    fn wide_mul(&self, a: Double, b: Double) -> Double {
        wide_enc(wide_num(a) * wide_num(b))
    }
    fn wide_div(&self, a: Double, b: Double) -> Double {
        wide_enc(wide_num(a) / wide_num(b))
    }
}

fn encode(samples: &[f32]) -> Vec<u8> {
    samples.iter().flat_map(|s| s.to_le_bytes()).collect()
}

fn send(state: &mut CaptureState, samples: &[f32]) -> usize {
    let bytes = encode(samples);
    state.process(&bytes, bytes.len())
}

fn scope_with(channels: u32, samples: &[f32]) -> (CaptureState, WaveScope) {
    let (mut state, handle) = open_capture();
    state.negotiated(channels, 48_000);
    assert_eq!(send(&mut state, samples), samples.len());
    let mut scope = WaveScope::new(handle);
    scope.tick();
    (state, scope)
}

fn recent(scope: &WaveScope, channel: usize, n: usize) -> (usize, Vec<f32>) {
    let mut out = vec![Float(0xffff_ffff); n];
    let written = scope.samples_into(channel, &mut out);
    (written, out.iter().map(|s| num(*s)).collect())
}

fn pairs(envelopes: &[Envelope]) -> Vec<(f32, f32)> {
    envelopes.iter().map(|e| (num(e.min), num(e.max))).collect()
}

#[test]
fn dc_input_lands_in_bin_zero() {
    let n = 64;
    let mut fft = Fft::new(&Machine, n);
    let (re, im) = fft.transform(&Machine, &vec![enc(1.0); n]);
    let power = |k: usize| num(re[k]) * num(re[k]) + num(im[k]) * num(im[k]);
    let bin0 = power(0);
    let mid: f32 = (n / 4..n / 2).map(power).sum();
    assert!(bin0 > mid * 1000.0, "bin0={bin0}, mid-band sum={mid}");
}

#[test]
fn pure_bin_concentrates() {
    let n = 256;
    let k = 8;
    let mut fft = Fft::new(&Machine, n);
    let samples: Vec<Float> = (0..n)
        .map(|i| enc((2.0 * std::f32::consts::PI * k as f32 * i as f32 / n as f32).sin()))
        .collect();
    let (re, im) = fft.transform(&Machine, &samples);
    let power = |b: usize| num(re[b]) * num(re[b]) + num(im[b]) * num(im[b]);
    let peak = (1..n / 2)
        .max_by(|&a, &b| power(a).total_cmp(&power(b)))
        .unwrap();
    assert!((peak as i32 - k as i32).abs() <= 1, "peak bin {peak}, expected ~{k}");
}

#[test]
fn pure_tone_lands_in_its_band() {
    let rate = 48_000u32;
    let mut s = Spectrum::new(&Machine, rate, 24, enc(30.0), enc(16_000.0));
    let freq = 1000.0f32;
    let n = FFT_SIZE;
    let samples: Vec<Float> = (0..n)
        .map(|i| enc((2.0 * std::f32::consts::PI * freq * i as f32 / rate as f32).sin()))
        .collect();
    s.compute_from(&Machine, &samples);
    let loudest = s
        .bands()
        .iter()
        .enumerate()
        .max_by(|a, b| num(a.1.magnitude).partial_cmp(&num(b.1.magnitude)).unwrap())
        .unwrap()
        .0;
    let (lo, hi) = s.band_bins()[loudest];
    let bin_hz = rate as f32 / n as f32;
    assert!(
        (lo as f32 * bin_hz..=hi as f32 * bin_hz).contains(&freq),
        "loudest band {loudest} spans {:.0}..{:.0} Hz, expected to contain {freq} Hz",
        lo as f32 * bin_hz,
        hi as f32 * bin_hz,
    );
}

#[test]
fn comparisons_are_those_of_the_machine() {
    let values = [
        0.0f32,
        -0.0,
        1.0,
        -1.0,
        0.5,
        1e-40,
        -1e-40,
        f32::MAX,
        f32::MIN,
        f32::INFINITY,
        f32::NEG_INFINITY,
        f32::NAN,
        -f32::NAN,
    ];
    for a in values {
        assert_eq!(enc(a).is_nan(), a.is_nan());
        assert_eq!(enc(a).is_finite(), a.is_finite());
        assert_eq!(num(enc(a).abs()).to_bits(), a.abs().to_bits());
        assert_eq!(num(enc(a).neg()).to_bits(), (-a).to_bits());
        for b in values {
            assert_eq!(enc(a).lt(enc(b)), a < b);
            assert_eq!(enc(a).le(enc(b)), a <= b);
            if a != b || a.to_bits() == b.to_bits() {
                if !(a.is_nan() && b.is_nan()) {
                    assert_eq!(num(enc(a).min(enc(b))), a.min(b));
                    assert_eq!(num(enc(a).max(enc(b))), a.max(b));
                }
            }
        }
        let clamped = enc(a).clamp(enc(-0.25), enc(0.75));
        if a.is_nan() {
            assert!(num(clamped).is_nan());
        } else {
            assert_eq!(num(clamped), a.clamp(-0.25, 0.75));
        }
    }
}

#[test]
fn the_default_value_is_zero() {
    assert_eq!(Float::default(), enc(0.0));
    assert_eq!(Band::default(), Band { center_hz: enc(0.0), magnitude: enc(0.0) });
    assert_eq!(Envelope::default(), Envelope { min: enc(0.0), max: enc(0.0) });
}

#[test]
fn encodings_of_the_spectrum_are_right() {
    assert_eq!(num(Float(termwaves::float::HALF)), 0.5);
    assert_eq!(num(Float(termwaves::float::ONE)), 1.0);
    assert_eq!(num(Float(termwaves::float::TWO)), 2.0);
    assert_eq!(num(Float(termwaves::float::FOUR)), 4.0);
    assert_eq!(num(Float(termwaves::float::INFINITY)), f32::INFINITY);
    assert_eq!(num(Float(termwaves::float::NEG_INFINITY)), f32::NEG_INFINITY);
    assert_eq!(num(Float(termwaves::fft::TAU)), 2.0 * std::f32::consts::PI);
    assert_eq!(num(Float(termwaves::fft::NEG_TAU)), -2.0 * std::f32::consts::PI);
    assert_eq!(num(Float(termwaves::spectrum::DB_FLOOR)), -90.0);
    assert_eq!(num(Float(termwaves::spectrum::DB_RANGE)), 90.0);
    assert_eq!(num(Float(termwaves::spectrum::DB_PER_DECADE)), 20.0);
    assert_eq!(num(Float(termwaves::engine::SPEC_MIN_HZ)), 24.0);
    assert_eq!(num(Float(termwaves::engine::SPEC_MAX_HZ)), 20_000.0);
}

#[test]
fn bytes_become_samples() {
    let samples = [0.0f32, 1.0, -1.0, 0.1, f32::MIN_POSITIVE, -123.5];
    let mut bytes = encode(&samples);
    let decoded: Vec<f32> = decode_samples(&bytes).iter().map(|s| num(*s)).collect();
    assert_eq!(decoded, samples);
    // An incomplete group at the end is dropped.
    bytes.extend_from_slice(&[1, 2, 3]);
    assert_eq!(decode_samples(&bytes).len(), samples.len());
    assert_eq!(decode_samples(&[0x01, 0x02, 0x03, 0x04]), vec![Float(0x0403_0201)]);
    assert!(decode_samples(&[1, 2, 3]).is_empty());
    assert!(decode_samples(&[]).is_empty());
}

#[test]
fn samples_pass_through_the_ring_in_order() {
    let (mut state, mut handle) = open_capture();
    let mut out = vec![enc(9.0); 5];
    assert_eq!(handle.read(&mut out), 0);
    assert_eq!(out, vec![enc(9.0); 5]);
    assert_eq!(send(&mut state, &[1.0, 2.0, 3.0]), 3);
    assert_eq!(send(&mut state, &[4.0, 5.0, 6.0, 7.0]), 4);
    assert_eq!(handle.read(&mut out), 5);
    assert_eq!(out, [1.0, 2.0, 3.0, 4.0, 5.0].map(enc).to_vec());
    assert_eq!(handle.read(&mut out), 2);
    // What was not overwritten stays.
    assert_eq!(out, [6.0, 7.0, 3.0, 4.0, 5.0].map(enc).to_vec());
}

#[test]
fn only_the_filled_part_of_a_buffer_is_sent() {
    let (mut state, mut handle) = open_capture();
    let bytes = encode(&[1.0, 2.0, 3.0]);
    assert_eq!(state.process(&bytes, 9), 2);
    let mut out = vec![enc(0.0); 4];
    assert_eq!(handle.read(&mut out), 2);
    assert_eq!(out[..2], [enc(1.0), enc(2.0)]);
}

#[test]
fn nothing_of_an_earlier_buffer_is_sent_again() {
    let (mut state, mut handle) = open_capture();
    let long: Vec<f32> = (0..10_000).map(|i| i as f32).collect();
    assert_eq!(send(&mut state, &long), 10_000);
    assert_eq!(send(&mut state, &[-1.0]), 1);
    assert_eq!(send(&mut state, &[]), 0);
    let mut out = vec![enc(0.0); 10_002];
    assert_eq!(handle.read(&mut out), 10_001);
    assert_eq!(num(out[9_999]), 9_999.0);
    assert_eq!(num(out[10_000]), -1.0);
}

#[test]
fn a_full_ring_drops_the_rest() {
    let (mut state, mut handle) = open_capture();
    let samples: Vec<f32> = (0..RING_CAPACITY + 10).map(|i| i as f32).collect();
    assert_eq!(send(&mut state, &samples), RING_CAPACITY);
    assert_eq!(send(&mut state, &[1.0]), 0);
    let mut out = vec![enc(0.0); RING_CAPACITY + 10];
    assert_eq!(handle.read(&mut out), RING_CAPACITY);
    assert_eq!(num(out[RING_CAPACITY - 1]), (RING_CAPACITY - 1) as f32);
    assert_eq!(send(&mut state, &[1.0]), 1);
}

#[test]
fn a_capture_is_ready_once_a_format_is_known() {
    let (state, handle) = open_capture();
    assert!(!handle.is_ready());
    assert_eq!((handle.channels(), handle.sample_rate()), (0, 0));
    state.negotiated(2, 44_100);
    assert!(handle.is_ready());
    assert_eq!((handle.channels(), handle.sample_rate()), (2, 44_100));
    // Both numbers have to be there.
    assert!(!format_is_known(0, 0));
    assert!(!format_is_known(2, 0));
    assert!(!format_is_known(0, 44_100));
    assert!(format_is_known(1, 1));
    let (state, handle) = open_capture();
    state.negotiated(2, 0);
    assert!(!handle.is_ready());
    state.negotiated(2, 48_000);
    assert!(handle.is_ready());
}

#[test]
fn only_raw_audio_formats_are_captured() {
    assert!(carries_format(Some(ParamKind::Format)));
    assert!(!carries_format(Some(ParamKind::Other)));
    assert!(!carries_format(None));
    assert!(captures(Some(Media { audio: true, raw: true })));
    assert!(!captures(Some(Media { audio: true, raw: false })));
    assert!(!captures(Some(Media { audio: false, raw: true })));
    assert!(!captures(None));
}

#[test]
fn interleaved_samples_are_dealt_to_their_channels() {
    let (_state, scope) = scope_with(2, &[1.0, -1.0, 2.0, -2.0, 3.0, -3.0]);
    assert!(scope.is_ready());
    assert_eq!(scope.sample_rate(), 48_000);
    assert_eq!(scope.channel_count(), 2);
    assert_eq!(recent(&scope, 0, 3), (3, vec![1.0, 2.0, 3.0]));
    assert_eq!(recent(&scope, 1, 2), (2, vec![-2.0, -3.0]));
    // Zeros in front where there is not enough.
    assert_eq!(recent(&scope, 1, 5), (3, vec![0.0, 0.0, -1.0, -2.0, -3.0]));
    assert_eq!(recent(&scope, 2, 3), (0, vec![0.0, 0.0, 0.0]));
}

#[test]
fn nothing_is_read_before_a_format_is_known() {
    let (mut state, handle) = open_capture();
    send(&mut state, &[1.0, 2.0]);
    let mut scope = WaveScope::new(handle);
    scope.tick();
    assert_eq!(scope.channel_count(), 0);
    state.negotiated(1, 48_000);
    scope.tick();
    assert_eq!(recent(&scope, 0, 2), (2, vec![1.0, 2.0]));
}

#[test]
fn a_change_of_channels_clears_the_histories() {
    let (mut state, mut scope) = scope_with(1, &[1.0, 2.0, 3.0]);
    state.negotiated(2, 48_000);
    send(&mut state, &[4.0, 5.0]);
    scope.tick();
    assert_eq!(scope.channel_count(), 2);
    assert_eq!(recent(&scope, 0, 2), (1, vec![0.0, 4.0]));
    assert_eq!(recent(&scope, 1, 2), (1, vec![0.0, 5.0]));
    // A tick without new samples changes nothing.
    scope.tick();
    assert_eq!(recent(&scope, 0, 2), (1, vec![0.0, 4.0]));
}

#[test]
fn chunks_can_be_handed_in_directly() {
    let (_state, handle) = open_capture();
    let mut scope = WaveScope::new(handle);
    scope.retune(2);
    scope.absorb(&[1.0, 2.0, 3.0].map(enc));
    scope.absorb(&[4.0].map(enc));
    scope.settle();
    // Each chunk starts at the first channel.
    assert_eq!(recent(&scope, 0, 3), (3, vec![1.0, 3.0, 4.0]));
    assert_eq!(recent(&scope, 1, 1), (1, vec![2.0]));
    assert_eq!(pairs(&scope.envelope(0, 1, 3)), vec![(1.0, 4.0)]);
    scope.retune(2);
    assert_eq!(recent(&scope, 1, 1), (1, vec![2.0]));
    scope.retune(1);
    assert_eq!(recent(&scope, 0, 1), (0, vec![0.0]));
}

#[test]
fn a_history_keeps_the_latest_samples() {
    let n = HISTORY_PER_CHANNEL + 1000;
    let samples: Vec<f32> = (0..n).map(|i| i as f32).collect();
    let (_state, scope) = scope_with(1, &samples);
    let (written, kept) = recent(&scope, 0, n);
    assert_eq!(written, HISTORY_PER_CHANNEL);
    assert_eq!(kept[999], 0.0);
    assert_eq!(kept[1000], 1000.0);
    assert_eq!(kept[n - 1], (n - 1) as f32);
}

#[test]
fn channels_stay_interleaved_from_one_read_to_the_next() {
    // 8192, the length of a read, is no multiple of 3.
    let samples: Vec<f32> = (0..8193).map(|i| i as f32).collect();
    let (_state, scope) = scope_with(3, &samples);
    assert_eq!(recent(&scope, 0, 2), (2, vec![8187.0, 8190.0]));
    assert_eq!(recent(&scope, 1, 2), (2, vec![8188.0, 8191.0]));
    assert_eq!(recent(&scope, 2, 2), (2, vec![8189.0, 8192.0]));
    for channels in [1usize, 2, 3, 5, 6, 7, 8] {
        let samples: Vec<f32> = (0..20_000).map(|i| i as f32).collect();
        let (_state, scope) = scope_with(channels as u32, &samples);
        for c in 0..channels {
            let expected: Vec<f32> = samples.iter().copied().skip(c).step_by(channels).collect();
            assert_eq!(recent(&scope, c, expected.len()), (expected.len(), expected));
        }
    }
}

#[test]
fn a_tick_leaves_nothing_behind() {
    let (mut state, handle) = open_capture();
    state.negotiated(1, 48_000);
    let samples: Vec<f32> = (0..2 * 8192).map(|i| i as f32).collect();
    assert_eq!(send(&mut state, &samples), samples.len());
    let mut scope = WaveScope::new(handle);
    scope.tick();
    assert_eq!(recent(&scope, 0, samples.len()), (samples.len(), samples));
    // The ring is empty again: it has room for all that it holds.
    assert_eq!(send(&mut state, &vec![0.5; RING_CAPACITY]), RING_CAPACITY);
}

#[test]
fn even_chunks_deal_the_stream_as_a_whole() {
    let samples: Vec<f32> = (0..20_000).map(|i| i as f32).collect();
    let (_state, scope) = scope_with(2, &samples);
    assert_eq!(recent(&scope, 0, 2), (2, vec![19_996.0, 19_998.0]));
    assert_eq!(recent(&scope, 1, 2), (2, vec![19_997.0, 19_999.0]));
}

#[test]
fn columns_go_from_the_lowest_to_the_highest_sample() {
    let (_state, scope) = scope_with(1, &[0.5, -0.5, 0.25, 1.0, -1.0, 0.0]);
    assert_eq!(
        pairs(&scope.envelope(0, 3, 6)),
        vec![(-0.5, 0.5), (0.25, 1.0), (-1.0, 0.0)]
    );
    assert_eq!(pairs(&scope.envelope(0, 1, 3)), vec![(-1.0, 1.0)]);
    // A window larger than the history spans all of it.
    assert_eq!(pairs(&scope.envelope(0, 1, 1000)), vec![(-1.0, 1.0)]);
    assert_eq!(scope.envelope(0, 3, 6), scope.envelope_scan(0, 3, 6));
}

#[test]
fn columns_without_a_sample_are_silent() {
    let (_state, scope) = scope_with(1, &[0.5, -0.5]);
    assert_eq!(
        pairs(&scope.envelope(0, 4, 2)),
        vec![(0.0, 0.0), (0.5, 0.5), (0.0, 0.0), (-0.5, -0.5)]
    );
    assert_eq!(
        pairs(&scope.envelope_scan(0, 4, 2)),
        vec![(0.5, 0.5), (0.0, 0.0), (-0.5, -0.5), (0.0, 0.0)]
    );
}

#[test]
fn uneven_columns_are_dealt_in_two_ways() {
    let (_state, scope) = scope_with(1, &[0.25, 0.5, 0.75]);
    // From the start of each column, rounded down.
    assert_eq!(pairs(&scope.envelope(0, 2, 3)), vec![(0.25, 0.25), (0.5, 0.75)]);
    // By the column that each sample falls into.
    assert_eq!(pairs(&scope.envelope_scan(0, 2, 3)), vec![(0.25, 0.5), (0.75, 0.75)]);
}

#[test]
fn there_are_no_columns_without_anything_to_show() {
    let (_state, scope) = scope_with(1, &[0.5]);
    assert!(scope.envelope(1, 4, 4).is_empty());
    assert!(scope.envelope(0, 0, 4).is_empty());
    assert!(scope.envelope(0, 4, 0).is_empty());
    assert!(scope.envelope_scan(1, 4, 4).is_empty());
    assert!(scope.envelope_scan(0, 0, 4).is_empty());
    assert!(scope.envelope_scan(0, 4, 0).is_empty());
    let (_state, silent) = scope_with(1, &[]);
    assert!(silent.envelope(0, 4, 4).is_empty());
    assert!(silent.envelope_scan(0, 4, 4).is_empty());
}

#[test]
fn summaries_agree_with_looking_at_every_sample() {
    let samples: Vec<f32> = (0..5000).map(|i| ((i * 7919) % 2003) as f32 / 2003.0 - 0.5).collect();
    let (_state, scope) = scope_with(1, &samples);
    for (cols, window) in [(7usize, 4800usize), (160, 4800), (33, 1000), (1, 4999), (500, 300)] {
        let env = scope.envelope(0, cols, window);
        assert_eq!(env.len(), cols);
        let base = 5000 - window;
        for (c, e) in env.iter().enumerate() {
            let slice = &samples[base + c * window / cols..base + (c + 1) * window / cols];
            let lo = slice.iter().copied().fold(f32::INFINITY, f32::min);
            let hi = slice.iter().copied().fold(f32::NEG_INFINITY, f32::max);
            let expected = if slice.is_empty() { (0.0, 0.0) } else { (lo, hi) };
            assert_eq!((num(e.min), num(e.max)), expected);
        }
    }
}

#[test]
fn nan_samples_are_passed_over() {
    let (_state, scope) = scope_with(1, &[f32::NAN, 0.5, f32::NAN, f32::NAN]);
    assert_eq!(pairs(&scope.envelope(0, 2, 4)), vec![(0.5, 0.5), (0.0, 0.0)]);
    assert_eq!(pairs(&scope.envelope_scan(0, 2, 4)), vec![(0.5, 0.5), (0.0, 0.0)]);
}

#[test]
fn a_peak_is_the_larger_magnitude() {
    let peak = |min: f32, max: f32| num(Envelope { min: enc(min), max: enc(max) }.peak());
    assert_eq!(peak(-0.75, 0.5), 0.75);
    assert_eq!(peak(-0.25, 0.5), 0.5);
    assert_eq!(peak(0.0, 0.0), 0.0);
}

#[test]
fn bits_are_reversed() {
    assert_eq!(bit_reversal(8), vec![0, 4, 2, 6, 1, 5, 3, 7]);
    assert_eq!(bit_reversal(1), vec![0]);
    let rev = bit_reversal(64);
    assert!((0..64).all(|i| rev[rev[i]] == i));
}

#[test]
fn a_small_transform_is_exact() {
    let mut re = [1.0, 2.0, 3.0, 4.0].map(enc);
    let mut im = [0.0; 4].map(enc);
    fft_in_place(&Machine, &mut re, &mut im, &bit_reversal(4));
    let close = |got: &[Float], want: &[f32]| {
        got.iter().zip(want).all(|(a, b)| (num(*a) - b).abs() < 1e-5)
    };
    assert!(close(&re, &[10.0, -2.0, -2.0, -2.0]));
    assert!(close(&im, &[0.0, 2.0, 0.0, -2.0]));
}

#[test]
fn the_fast_transform_is_the_transform() {
    let n = 32usize;
    let x: Vec<f32> = (0..n).map(|i| ((i * i * 13) % 17) as f32 / 17.0).collect();
    let mut re: Vec<Float> = x.iter().map(|v| enc(*v)).collect();
    let mut im = vec![enc(0.0); n];
    fft_in_place(&Machine, &mut re, &mut im, &bit_reversal(n));
    for k in 0..n {
        let (mut a, mut b) = (0.0f64, 0.0f64);
        for (j, v) in x.iter().enumerate() {
            let angle = -2.0 * std::f64::consts::PI * (k * j) as f64 / n as f64;
            a += *v as f64 * angle.cos();
            b += *v as f64 * angle.sin();
        }
        assert!((num(re[k]) as f64 - a).abs() < 1e-3 && (num(im[k]) as f64 - b).abs() < 1e-3);
    }
}

#[test]
fn the_window_tapers_to_zero() {
    let window: Vec<f32> = make_hann_window(&Machine, 4).iter().map(|w| num(*w)).collect();
    assert_eq!(window[0], 0.0);
    assert!((window[1] - 0.5).abs() < 1e-6);
    assert_eq!(window[2], 1.0);
    assert!((window[3] - 0.5).abs() < 1e-6);
}

#[test]
fn a_transformer_knows_its_length() {
    let mut fft = Fft::new(&Machine, 8);
    assert_eq!(fft.len(), 8);
    // A constant of one: the window itself is transformed.
    let (re, im) = fft.transform(&Machine, &[enc(1.0); 8]);
    assert!((num(re[0]) - 4.0).abs() < 1e-5);
    assert!((num(re[1]) + 2.0).abs() < 1e-5);
    assert!(num(re[2]).abs() < 1e-5 && num(im[2]).abs() < 1e-5);
}

#[test]
fn magnitudes_are_shown_in_decibels() {
    let db = |m: f32| num(to_db_normalized(&Machine, enc(m)));
    assert_eq!(db(1.0), 1.0);
    assert_eq!(db(10.0), 1.0);
    assert_eq!(db(0.0), 0.0);
    assert_eq!(db(-1.0), 0.0);
    assert_eq!(db(1e-9), 0.0);
    assert!((db(0.1) - 70.0 / 90.0).abs() < 1e-6);
    assert!(db(f32::NAN).is_nan());
}

#[test]
fn bands_divide_the_usable_bins() {
    let s = Spectrum::new(&Machine, 48_000, 32, enc(24.0), enc(20_000.0));
    assert_eq!(s.bands().len(), 32);
    assert_eq!(s.band_bins()[0].0, 1);
    for w in s.band_bins().windows(2) {
        assert!(w[0].0 <= w[1].0 && w[0].1 <= w[1].1);
    }
    for (lo, hi) in s.band_bins() {
        assert!(1 <= *lo && lo < hi && *hi <= NYQUIST_BIN + 1);
    }
    for w in s.bands().windows(2) {
        assert!(num(w[0].center_hz) < num(w[1].center_hz));
    }
    assert!(s.bands().iter().all(|b| b.magnitude == enc(0.0)));
    assert!(s.band_bins().iter().all(|(lo, hi)| lo < hi));
    // A range without extent at the edge of a bin has that bin.
    let single = Spectrum::new(&Machine, 2048, 1, enc(100.0), enc(100.0));
    assert_eq!(single.band_bins()[0], (100, 101));
    // The ends of the range are moved to the first bin and to half the rate.
    let clamped = Spectrum::new(&Machine, 2048, 1, enc(0.0), enc(5000.0));
    assert_eq!(clamped.band_bins()[0], (1, 1024));
    assert_eq!(num(clamped.bands()[0].center_hz), 32.0);
}

#[test]
fn a_range_above_half_the_rate_is_moved_down() {
    let s = Spectrum::new(&Machine, 48_000, 1, enc(30_000.0), enc(40_000.0));
    assert_eq!(num(s.bands()[0].center_hz), 24_000.0);
    assert_eq!(s.band_bins()[0], (NYQUIST_BIN, NYQUIST_BIN + 1));
    let half = Spectrum::new(&Machine, 48_000, 4, enc(12_000.0), enc(96_000.0));
    assert!(half.bands().iter().all(|b| num(b.center_hz) <= 24_000.0));
}

#[test]
fn a_band_of_a_single_bin_hears_its_tone() {
    // 1500 Hz is exactly bin 64.
    let tone: Vec<f32> = (0..FFT_SIZE)
        .map(|i| (2.0 * std::f32::consts::PI * 1500.0 * i as f32 / 48_000.0).sin())
        .collect();
    let (_state, scope) = scope_with(1, &tone);
    let mut s = Spectrum::new(&Machine, 48_000, 1, enc(1500.0), enc(1500.0));
    assert!(num(s.compute(&Machine, &scope, 0)[0].magnitude) > 0.9);
}

#[test]
fn louder_is_never_shown_as_quieter() {
    let levels: Vec<f32> = (0..200).map(|i| 10f32.powf(i as f32 / 20.0 - 8.0)).collect();
    let shown: Vec<f32> =
        levels.iter().map(|m| num(to_db_normalized(&Machine, enc(*m)))).collect();
    assert!(shown.windows(2).all(|w| 0.0 <= w[0] && w[0] <= w[1] && w[1] <= 1.0));
    assert_eq!((shown[0], shown[199]), (0.0, 1.0));
}

#[test]
fn a_spectrum_keeps_nothing_of_other_audio() {
    let samples: Vec<f32> = (0..3000).map(|i| ((i % 23) as f32 - 11.0) / 12.0).collect();
    let (_state, scope) = scope_with(1, &samples);
    let (_other_state, other) = scope_with(1, &samples[..1000]);
    let build = || Spectrum::new(&Machine, 48_000, 16, enc(24.0), enc(20_000.0));
    let (mut a, mut b) = (build(), build());
    a.compute(&Machine, &other, 0);
    a.compute(&Machine, &other, 3);
    a.compute(&Machine, &scope, 0);
    b.compute(&Machine, &scope, 0);
    assert_eq!(a.bands(), b.bands());
    let once = a.bands().to_vec();
    assert_eq!(a.compute(&Machine, &scope, 0), once);
}

#[test]
fn silence_has_no_magnitude() {
    let (_state, scope) = scope_with(1, &[]);
    let mut s = Spectrum::new(&Machine, 48_000, 8, enc(24.0), enc(20_000.0));
    let bands = s.compute(&Machine, &scope, 0);
    assert_eq!(bands.len(), 8);
    assert!(bands.iter().all(|b| b.magnitude == enc(0.0)));
}

#[test]
fn a_spectrum_reads_the_latest_audio() {
    let samples: Vec<f32> = (0..4000).map(|i| ((i % 37) as f32 - 18.0) / 20.0).collect();
    let (_state, scope) = scope_with(1, &samples);
    let mut a = Spectrum::new(&Machine, 48_000, 16, enc(24.0), enc(20_000.0));
    let mut b = Spectrum::new(&Machine, 48_000, 16, enc(24.0), enc(20_000.0));
    let latest: Vec<Float> = samples[4000 - FFT_SIZE..].iter().map(|s| enc(*s)).collect();
    let from_scope = a.compute(&Machine, &scope, 0).to_vec();
    let from_signal = b.compute_from(&Machine, &latest).to_vec();
    assert_eq!(from_scope, from_signal);
    assert!(from_scope.iter().any(|band| num(band.magnitude) > 0.5));
    assert_eq!(a.bands(), from_scope);
    // A channel that does not exist is silent.
    assert!(a.compute(&Machine, &scope, 7).iter().all(|band| band.magnitude == enc(0.0)));
}
