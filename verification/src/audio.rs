//! The hand-over of captured audio: raw stream bytes in, interleaved samples
//! out, through a lock-free ring shared by a capture thread and a reader.

use std::sync::atomic::{AtomicU32, Ordering};
use std::sync::Arc;

use vstd::prelude::*;

use crate::float::Float;

verus! {

/// How many samples the ring holds: one second of stereo at 48 kHz.
pub const RING_CAPACITY: usize = 96_000;

/// Bytes per encoded sample.
pub const SAMPLE_BYTES: usize = 4;

/// The writing end of the sample ring.
#[verifier::external_body]
pub struct RingProducer {
    end: ringbuf::wrap::caching::Caching<Arc<ringbuf::HeapRb<Float>>, true, false>,
}

/// The reading end of the sample ring.
#[verifier::external_body]
pub struct RingConsumer {
    end: ringbuf::wrap::caching::Caching<Arc<ringbuf::HeapRb<Float>>, false, true>,
}

/// Every sample that the ring has taken from its writing end so far, oldest
/// first.
pub uninterp spec fn samples_sent(producer: RingProducer) -> Seq<Float>;

/// Every sample that the reading end has handed out so far, oldest first.
pub uninterp spec fn samples_received(consumer: RingConsumer) -> Seq<Float>;

/// How many samples the ring behind a writing end was made to hold.
pub uninterp spec fn room_behind(producer: RingProducer) -> nat;

/// How many samples the ring behind a reading end was made to hold.
pub uninterp spec fn room_ahead(consumer: RingConsumer) -> nat;

/// The samples that pass through the ring behind a writing end, by their
/// number, from first to last: those that were sent and those that will be.
pub uninterp spec fn stream_behind(producer: RingProducer) -> Map<nat, Float>;

/// The samples that pass through the ring behind a reading end, by their
/// number, from first to last.
pub uninterp spec fn stream_ahead(consumer: RingConsumer) -> Map<nat, Float>;

/// Every attempt to put samples in that was made at a writing end so far: how
/// many were offered, and how many the ring took.
pub uninterp spec fn pushes_made(producer: RingProducer) -> Seq<(nat, nat)>;

/// Every attempt to take samples out that was made at a reading end so far:
/// how many were asked for, and how many came.
pub uninterp spec fn pops_made(consumer: RingConsumer) -> Seq<(nat, nat)>;

/// Whether a stream begins with the given samples.
pub open spec fn begins(samples: Seq<Float>, stream: Map<nat, Float>) -> bool {
    forall|i: int|
        0 <= i < samples.len() ==> stream.dom().contains(i as nat) && stream[i as nat]
            == #[trigger] samples[i]
}

/// Calls `ringbuf::HeapRb::new` and `ringbuf::traits::Split::split`: a ring of
/// the given capacity through which nothing has passed yet, as its two ends.
/// What passes the one passes the other.
/// `HeapRb::new` panics on a capacity of zero.
#[verifier::external_body]
fn ring(capacity: usize) -> (r: (RingProducer, RingConsumer))
    requires
        capacity > 0,
    ensures
        samples_sent(r.0) == Seq::<Float>::empty(),
        samples_received(r.1) == Seq::<Float>::empty(),
        room_behind(r.0) == capacity,
        room_ahead(r.1) == capacity,
        stream_behind(r.0) == stream_ahead(r.1),
        pushes_made(r.0) == Seq::<(nat, nat)>::empty(),
        pops_made(r.1) == Seq::<(nat, nat)>::empty(),
{
    let shared = Arc::new(ringbuf::HeapRb::<Float>::new(capacity));
    let (producer, consumer) = ringbuf::traits::Split::split(shared);
    (RingProducer { end: producer }, RingConsumer { end: consumer })
}

/// Calls `ringbuf::traits::Producer::push_slice`: appends as many leading
/// samples of the slice as fit and returns how many that was. How many fit
/// depends on how far the reader has come, so only bounds are claimed of the
/// count: the slice's length and the ring's capacity; and that samples are
/// left out only if those sent so far would fill the ring, had none of them
/// been read. What has been sent is how the ring's stream begins.
#[verifier::external_body]
fn push_slice(producer: &mut RingProducer, samples: &[Float]) -> (n: usize)
    ensures
        n <= samples@.len(),
        n <= room_behind(*old(producer)),
        n < samples@.len() ==> samples_sent(*old(producer)).len() + n >= room_behind(
            *old(producer),
        ),
        samples_sent(*final(producer)) == samples_sent(*old(producer)) + samples@.take(n as int),
        room_behind(*final(producer)) == room_behind(*old(producer)),
        stream_behind(*final(producer)) == stream_behind(*old(producer)),
        begins(samples_sent(*final(producer)), stream_behind(*final(producer))),
        pushes_made(*final(producer)) == pushes_made(*old(producer)).push(
            (samples@.len(), n as nat),
        ),
{
    ringbuf::traits::Producer::push_slice(&mut producer.end, samples)
}

/// Calls `ringbuf::traits::Consumer::pop_slice`: moves the oldest samples out
/// of the ring to the front of the slice and returns how many it moved; the
/// rest of the slice stays as it was. How many there are depends on what the
/// writer has sent, so only bounds are claimed of the count: the slice's
/// length and the ring's capacity. Samples come out in the order in which they
/// went in, each once: what has been received is how the ring's stream begins.
#[verifier::external_body]
fn pop_slice(consumer: &mut RingConsumer, out: &mut [Float]) -> (n: usize)
    ensures
        n <= old(out)@.len(),
        n <= room_ahead(*old(consumer)),
        final(out)@.len() == old(out)@.len(),
        final(out)@.skip(n as int) == old(out)@.skip(n as int),
        samples_received(*final(consumer)) == samples_received(*old(consumer)) + final(out)@.take(
            n as int,
        ),
        room_ahead(*final(consumer)) == room_ahead(*old(consumer)),
        stream_ahead(*final(consumer)) == stream_ahead(*old(consumer)),
        begins(samples_received(*final(consumer)), stream_ahead(*final(consumer))),
        pops_made(*final(consumer)) == pops_made(*old(consumer)).push(
            (old(out)@.len(), n as nat),
        ),
{
    ringbuf::traits::Consumer::pop_slice(&mut consumer.end, out)
}

/// Negotiated stream format, shared from the capture thread to the reader.
/// Both numbers are 0 until a format has been negotiated.
pub struct SharedFormat {
    channels: AtomicU32,
    rate: AtomicU32,
}

impl SharedFormat {
    /// Whether both numbers were made to start out from 0.
    pub closed spec fn starts_unknown(self) -> bool {
        &&& call_ensures(AtomicU32::new, (0u32,), self.channels)
        &&& call_ensures(AtomicU32::new, (0u32,), self.rate)
    }

    /// Whether a look at the number of channels came out as `n`. Which number
    /// that is at a given time is up to the capture thread.
    pub closed spec fn shows_channels(self, n: u32) -> bool {
        call_ensures(AtomicU32::load, (&self.channels, Ordering::Relaxed), n)
    }

    /// Whether a look at the sample rate came out as `n`. Which number that is
    /// at a given time is up to the capture thread.
    pub closed spec fn shows_rate(self, n: u32) -> bool {
        call_ensures(AtomicU32::load, (&self.rate, Ordering::Relaxed), n)
    }

    /// Whether the stream was found to be ready, or not to be: whether a look
    /// at the number of channels and one at the sample rate both came out as
    /// more than 0.
    pub open spec fn shows_ready(self, ready: bool) -> bool {
        exists|channels: u32, rate: u32| #[trigger]
            self.shows_channels(channels) && #[trigger] self.shows_rate(rate) && ready == (channels
                > 0 && rate > 0)
    }

    /// Whether looks at the format came out as the given sample rate of a
    /// stream that is ready, or as a stream that is not.
    pub open spec fn shows_known(self, rate: Option<u32>) -> bool {
        match rate {
            Some(n) => self.shows_ready(true) && self.shows_rate(n),
            None => self.shows_ready(false),
        }
    }

    /// Whether the given numbers were stored for the reader to find.
    pub closed spec fn publishes(self, channels: u32, rate: u32) -> bool {
        &&& call_ensures(AtomicU32::store, (&self.channels, channels, Ordering::Relaxed), ())
        &&& call_ensures(AtomicU32::store, (&self.rate, rate, Ordering::Relaxed), ())
    }

    fn unknown() -> (r: SharedFormat)
        ensures
            r.starts_unknown(),
    {
        SharedFormat { channels: AtomicU32::new(0), rate: AtomicU32::new(0) }
    }
}

/// A stream that was found to be ready was seen with channels and with a sample
/// rate.
pub proof fn law_ready_was_seen_with_a_format(format: SharedFormat)
    requires
        format.shows_ready(true),
    ensures
        exists|channels: u32| channels > 0 && #[trigger] format.shows_channels(channels),
        exists|rate: u32| rate > 0 && #[trigger] format.shows_rate(rate),
{
}

/// Whether these numbers are those of a negotiated format. The two are stored
/// one after the other, and each is 0 until then.
pub fn format_is_known(channels: u32, rate: u32) -> (r: bool)
    ensures
        r == (channels > 0 && rate > 0),
{
    channels > 0 && rate > 0
}

/// The reader's side of a capture.
pub struct CaptureHandle {
    consumer: RingConsumer,
    format: Arc<SharedFormat>,
}

impl CaptureHandle {
    /// Every sample read through this handle so far, oldest first.
    pub closed spec fn received(self) -> Seq<Float> {
        samples_received(self.consumer)
    }

    /// The most samples that a single [`CaptureHandle::read`] can return.
    pub closed spec fn room(self) -> nat {
        room_ahead(self.consumer)
    }

    /// The samples that pass through the ring, by their number.
    pub closed spec fn stream(self) -> Map<nat, Float> {
        stream_ahead(self.consumer)
    }

    /// Every read so far: how many samples were asked for, and how many came.
    pub closed spec fn pops(self) -> Seq<(nat, nat)> {
        pops_made(self.consumer)
    }

    /// The format that this handle looks at.
    pub closed spec fn format(self) -> SharedFormat {
        *self.format
    }

    /// Number of interleaved channels, or 0 before the format is negotiated.
    pub fn channels(&self) -> (r: u32)
        ensures
            self.format().shows_channels(r),
    {
        self.format.channels.load(Ordering::Relaxed)
    }

    /// Sample rate in Hz, or 0 before the format is negotiated.
    pub fn sample_rate(&self) -> (r: u32)
        ensures
            self.format().shows_rate(r),
    {
        self.format.rate.load(Ordering::Relaxed)
    }

    /// True once the stream has negotiated a format and is delivering audio.
    pub fn is_ready(&self) -> (r: bool)
        ensures
            self.format().shows_ready(r),
    {
        format_is_known(self.channels(), self.sample_rate())
    }

    /// Drains available interleaved samples into `out`, returning how many.
    pub fn read(&mut self, out: &mut [Float]) -> (n: usize)
        ensures
            n <= old(out)@.len(),
            n <= old(self).room(),
            final(self).room() == old(self).room(),
            final(self).format() == old(self).format(),
            final(out)@.len() == old(out)@.len(),
            final(out)@.skip(n as int) == old(out)@.skip(n as int),
            final(self).received() == old(self).received() + final(out)@.take(n as int),
            final(self).stream() == old(self).stream(),
            begins(final(self).received(), final(self).stream()),
            final(self).pops() == old(self).pops().push((old(out)@.len(), n as nat)),
    {
        pop_slice(&mut self.consumer, out)
    }
}

/// What a stream parameter that has changed is about.
#[derive(Clone, Copy, PartialEq, Eq, Structural, Debug)]
pub enum ParamKind {
    /// The stream format.
    Format,
    /// Anything else.
    Other,
}

/// What a stream format describes, as far as capture cares.
#[derive(Clone, Copy, PartialEq, Eq, Structural, Debug)]
pub struct Media {
    pub audio: bool,
    pub raw: bool,
}

/// Whether a parameter change carries a stream format: the change has to have
/// a parameter, of the format kind.
pub fn carries_format(kind: Option<ParamKind>) -> (r: bool)
    ensures
        r == (kind == Some(ParamKind::Format)),
{
    match kind {
        Some(kind) => kind == ParamKind::Format,
        None => false,
    }
}

/// Whether a format is one to capture: readable, and raw audio.
pub fn captures(media: Option<Media>) -> (r: bool)
    ensures
        r == (media == Some(Media { audio: true, raw: true })),
{
    match media {
        Some(media) => media.audio && media.raw,
        None => false,
    }
}

/// The value of four bytes, least significant first.
pub open spec fn little_endian(bytes: Seq<u8>) -> int {
    bytes[0] + 0x100 * bytes[1] + 0x1_0000 * bytes[2] + 0x100_0000 * bytes[3]
}

/// The samples that stream bytes encode. Each group of four bytes is one
/// sample; an incomplete group at the end encodes nothing.
pub open spec fn decoded(bytes: Seq<u8>) -> Seq<Float> {
    Seq::new(
        (bytes.len() / 4) as nat,
        |i: int| Float(little_endian(bytes.subrange(4 * i, 4 * i + 4)) as u32),
    )
}

/// The four bytes that encode a sample, least significant first.
pub open spec fn sample_bytes(sample: Float) -> Seq<u8> {
    seq![
        (sample.0 % 0x100) as u8,
        (sample.0 / 0x100 % 0x100) as u8,
        (sample.0 / 0x1_0000 % 0x100) as u8,
        (sample.0 / 0x100_0000) as u8,
    ]
}

/// The bytes that encode a sequence of samples.
pub open spec fn encoded(samples: Seq<Float>) -> Seq<u8>
    decreases samples.len(),
{
    if samples.len() == 0 {
        Seq::empty()
    } else {
        encoded(samples.drop_last()) + sample_bytes(samples.last())
    }
}

/// Decoding gives back what was encoded, whatever incomplete group follows.
pub proof fn law_decoding_undoes_encoding(samples: Seq<Float>, rest: Seq<u8>)
    requires
        rest.len() < 4,
    ensures
        decoded(encoded(samples) + rest) == samples,
{
    encoded_samples_at(samples);
    let bytes = encoded(samples) + rest;
    assert(decoded(bytes).len() == samples.len());
    assert forall|i: int| 0 <= i < samples.len() implies decoded(bytes)[i] == samples[i] by {
        assert(encoded(samples).subrange(4 * i, 4 * i + 4) == sample_bytes(samples[i]));
        assert(bytes.subrange(4 * i, 4 * i + 4) =~= sample_bytes(samples[i]));
        sample_bytes_hold_the_sample(samples[i]);
    }
    assert(decoded(bytes) =~= samples);
}

proof fn sample_bytes_hold_the_sample(sample: Float)
    ensures
        little_endian(sample_bytes(sample)) == sample.0,
{
    let bytes = sample_bytes(sample);
    let word: u32 = sample.0;
    assert(bytes[0] == word % 0x100);
    assert(bytes[1] == word / 0x100 % 0x100);
    assert(bytes[2] == word / 0x1_0000 % 0x100);
    assert(bytes[3] == word / 0x100_0000);
    assert(word == word % 0x100 + 0x100 * (word / 0x100 % 0x100) + 0x1_0000 * (word / 0x1_0000
        % 0x100) + 0x100_0000 * (word / 0x100_0000)) by (bit_vector);
}

proof fn encoded_samples_at(samples: Seq<Float>)
    ensures
        encoded(samples).len() == 4 * samples.len(),
        forall|i: int|
            0 <= i < samples.len() ==> #[trigger] encoded(samples).subrange(4 * i, 4 * i + 4)
                == sample_bytes(samples[i]),
    decreases samples.len(),
{
    if samples.len() > 0 {
        let front = samples.drop_last();
        encoded_samples_at(front);
        assert forall|i: int| 0 <= i < samples.len() implies #[trigger] encoded(samples).subrange(
            4 * i,
            4 * i + 4,
        ) == sample_bytes(samples[i]) by {
            if i < front.len() {
                assert(encoded(front).subrange(4 * i, 4 * i + 4) == sample_bytes(front[i]));
                assert(encoded(samples).subrange(4 * i, 4 * i + 4) =~= encoded(front).subrange(
                    4 * i,
                    4 * i + 4,
                ));
            } else {
                assert(encoded(samples).subrange(4 * i, 4 * i + 4) =~= sample_bytes(
                    samples.last(),
                ));
            }
        }
    }
}

/// Decodes stream bytes into samples, dropping an incomplete group at the end.
pub fn decode_samples(bytes: &[u8]) -> (samples: Vec<Float>)
    ensures
        samples@ == decoded(bytes@),
{
    let mut samples: Vec<Float> = Vec::with_capacity(bytes.len() / SAMPLE_BYTES);
    decode_into(bytes, &mut samples);
    samples
}

/// Decodes stream bytes like [`decode_samples`], in place of what a vector
/// held. The room that the vector already has is used again.
fn decode_into(bytes: &[u8], samples: &mut Vec<Float>)
    ensures
        final(samples)@ == decoded(bytes@),
{
    let len: usize = bytes.len();
    let n: usize = len / SAMPLE_BYTES;
    samples.clear();
    let mut i: usize = 0;
    while i < n
        invariant
            len == bytes@.len(),
            n == len / SAMPLE_BYTES,
            i <= n,
            samples@ == decoded(bytes@).take(i as int),
        decreases n - i,
    {
        let at: usize = i * SAMPLE_BYTES;
        let word: u32 = bytes[at] as u32 + 0x100 * (bytes[at + 1] as u32) + 0x1_0000 * (bytes[at
            + 2] as u32) + 0x100_0000 * (bytes[at + 3] as u32);
        proof {
            let group = bytes@.subrange(4 * i as int, 4 * i + 4);
            assert(group[0] == bytes@[at as int] && group[1] == bytes@[at + 1] && group[2]
                == bytes@[at + 2] && group[3] == bytes@[at + 3]);
            assert(decoded(bytes@)[i as int] == Float(word));
            assert(decoded(bytes@).take(i + 1) =~= decoded(bytes@).take(i as int).push(
                Float(word),
            ));
        }
        samples.push(Float(word));
        i = i + 1;
    }
    assert(decoded(bytes@).take(n as int) =~= decoded(bytes@));
}

/// How many samples of one buffer the capture thread has room for from the
/// start.
const SCRATCH_CAPACITY: usize = 8192;

/// The capture thread's side of a capture.
pub struct CaptureState {
    format: Arc<SharedFormat>,
    producer: RingProducer,
    scratch: Vec<Float>,
}

impl CaptureState {
    /// Every sample that this side has put into the ring so far, oldest first.
    pub closed spec fn sent(self) -> Seq<Float> {
        samples_sent(self.producer)
    }

    /// How many samples the ring was made to hold.
    pub closed spec fn room(self) -> nat {
        room_behind(self.producer)
    }

    /// The samples that pass through the ring, by their number.
    pub closed spec fn stream(self) -> Map<nat, Float> {
        stream_behind(self.producer)
    }

    /// Every attempt to send so far: how many samples were offered, and how
    /// many the ring took.
    pub closed spec fn pushes(self) -> Seq<(nat, nat)> {
        pushes_made(self.producer)
    }

    /// The format that this side publishes to.
    pub closed spec fn format(self) -> SharedFormat {
        *self.format
    }

    /// Publishes a negotiated format to the reader.
    pub fn negotiated(&self, channels: u32, rate: u32)
        ensures
            self.format().publishes(channels, rate),
    {
        self.format.channels.store(channels, Ordering::Relaxed);
        self.format.rate.store(rate, Ordering::Relaxed);
    }

    /// Sends the samples that the first `n_bytes` of a stream buffer encode,
    /// and returns how many the ring had room for; the rest are dropped. None
    /// is dropped before as many have been sent as the ring holds.
    pub fn process(&mut self, bytes: &[u8], n_bytes: usize) -> (n: usize)
        requires
            n_bytes <= bytes@.len(),
        ensures
            n <= decoded(bytes@.take(n_bytes as int)).len(),
            n <= old(self).room(),
            n < decoded(bytes@.take(n_bytes as int)).len() ==> final(self).sent().len() >= old(
                self,
            ).room(),
            final(self).room() == old(self).room(),
            final(self).sent() == old(self).sent() + decoded(bytes@.take(n_bytes as int)).take(
                n as int,
            ),
            final(self).stream() == old(self).stream(),
            begins(final(self).sent(), final(self).stream()),
            final(self).pushes() == old(self).pushes().push(
                (decoded(bytes@.take(n_bytes as int)).len(), n as nat),
            ),
            final(self).format() == old(self).format(),
    {
        let valid = &bytes[0..n_bytes];
        assert(valid@ =~= bytes@.take(n_bytes as int));
        decode_into(valid, &mut self.scratch);
        push_slice(&mut self.producer, &self.scratch)
    }
}

/// A reader gets what the capture thread sent, in the same order, with nothing
/// lost in between, nothing added and nothing twice: of what was sent and what
/// was received, the one that is behind is how the other begins.
pub proof fn law_what_is_read_was_sent(state: CaptureState, handle: CaptureHandle)
    requires
        state.stream() == handle.stream(),
        begins(state.sent(), state.stream()),
        begins(handle.received(), handle.stream()),
    ensures
        handle.received().len() <= state.sent().len() ==> handle.received() == state.sent().take(
            handle.received().len() as int,
        ),
        state.sent().len() <= handle.received().len() ==> state.sent() == handle.received().take(
            state.sent().len() as int,
        ),
{
    let sent = state.sent();
    let received = handle.received();
    assert forall|i: int| 0 <= i < sent.len() && i < received.len() implies sent[i]
        == received[i] by {
        assert(state.stream()[i as nat] == sent[i]);
        assert(handle.stream()[i as nat] == received[i]);
    }
    if received.len() <= sent.len() {
        assert(received =~= sent.take(received.len() as int));
    }
    if sent.len() <= received.len() {
        assert(sent =~= received.take(sent.len() as int));
    }
}

/// A fresh capture: the side that the capture thread feeds and the handle that
/// reads from it. What passes the one passes the other, and the format that
/// the one publishes is the one that the other looks at. No format is known
/// and no sample has passed yet.
pub fn open_capture() -> (r: (CaptureState, CaptureHandle))
    ensures
        r.0.sent() == Seq::<Float>::empty(),
        r.1.received() == Seq::<Float>::empty(),
        r.0.room() == RING_CAPACITY,
        r.1.room() == RING_CAPACITY,
        r.0.stream() == r.1.stream(),
        begins(r.0.sent(), r.0.stream()),
        begins(r.1.received(), r.1.stream()),
        r.0.pushes() == Seq::<(nat, nat)>::empty(),
        r.1.pops() == Seq::<(nat, nat)>::empty(),
        r.0.format() == r.1.format(),
        r.1.format().starts_unknown(),
{
    let (producer, consumer) = ring(RING_CAPACITY);
    let format = Arc::new(SharedFormat::unknown());
    let shared = format.clone();
    (
        CaptureState { format: shared, producer, scratch: Vec::with_capacity(SCRATCH_CAPACITY) },
        CaptureHandle { consumer, format },
    )
}

} // verus!
