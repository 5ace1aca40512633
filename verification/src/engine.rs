//! The audio that is shown, its spectrum, and what part of it is looked at.

use vstd::arithmetic::div_mod::{
    lemma_add_mod_noop, lemma_fundamental_div_mod_converse, lemma_mod_twice, lemma_small_mod,
};
use vstd::prelude::*;

use crate::arith::{steady, Arithmetic};
use crate::float::Float;
use crate::scope::WaveScope;
use crate::spectrum::{tuned, Spectrum, Tuning, FFT_SIZE};
use crate::view::{Ctx, Scene};

verus! {

/// Encoding of `24.0`, the lowest frequency shown.
pub const SPEC_MIN_HZ: u32 = 0x41c0_0000;

/// Encoding of `20000.0`, the highest frequency shown.
pub const SPEC_MAX_HZ: u32 = 0x469c_4000;

/// How many bands the spectrum has.
pub const N_BANDS: usize = 32;

/// The smallest and the largest number of samples that the waveform spans,
/// and the number that it spans at first.
pub const WINDOW_MIN: usize = 200;

pub const WINDOW_MAX: usize = 24_000;

pub const WINDOW_DEFAULT: usize = 4_800;

/// Owns the audio and what is derived from it.
pub struct Engine {
    pub wave: WaveScope,
    /// The spectrum, once a sample rate is known.
    pub spectrum: Option<Spectrum>,
    /// How many samples the waveform spans.
    pub window: usize,
    /// The channel that is shown.
    pub channel: usize,
}

/// The window after zooming in: half as large.
pub open spec fn zoomed_in(window: int) -> int {
    if window / 2 < WINDOW_MIN {
        WINDOW_MIN as int
    } else {
        window / 2
    }
}

/// The window after zooming out: twice as large.
pub open spec fn zoomed_out(window: int) -> int {
    if window * 2 > WINDOW_MAX {
        WINDOW_MAX as int
    } else {
        window * 2
    }
}

/// The channel after `channel`; after the last one comes the first.
pub open spec fn channel_after(channel: int, channels: int) -> int {
    if channels > 0 {
        (channel + 1) % channels
    } else {
        channel
    }
}

/// The channel reached from `channel` in a number of steps.
pub open spec fn channel_after_steps(channel: int, channels: int, steps: nat) -> int
    decreases steps,
{
    if steps == 0 {
        channel
    } else {
        channel_after(channel_after_steps(channel, channels, (steps - 1) as nat), channels)
    }
}

/// How the spectrum is made from now on: as it was, or, where there was none,
/// for the sample rate, if one is known.
pub open spec fn next_tuning<A: Arithmetic>(
    alu: &A,
    spectrum: Option<Spectrum>,
    rate: Option<u32>,
) -> Option<Tuning> {
    match spectrum {
        Some(spectrum) => Some(spectrum.tuning()),
        None => match rate {
            Some(rate) => Some(
                tuned(alu, rate, N_BANDS, Float(SPEC_MIN_HZ), Float(SPEC_MAX_HZ)),
            ),
            None => None,
        },
    }
}

/// Whether a spectrum has been brought up to date with the audio on a channel.
pub open spec fn refreshed<A: Arithmetic>(
    alu: &A,
    wave: WaveScope,
    channel: usize,
    before: Option<Spectrum>,
    after: Option<Spectrum>,
    rate: Option<u32>,
) -> bool {
    match next_tuning(alu, before, rate) {
        Some(tuning) => match after {
            Some(spectrum) => {
                &&& spectrum.tuning() == tuning
                &&& spectrum.shown() == tuning.analysed(
                    alu,
                    wave.padded(channel as int, FFT_SIZE as nat),
                )
            },
            None => false,
        },
        None => after is None,
    }
}

impl Engine {
    pub open spec fn wf(&self) -> bool {
        &&& self.wave.wf()
        &&& match self.spectrum {
            Some(spectrum) => spectrum.wf() && spectrum.shown().len() == N_BANDS,
            None => true,
        }
        &&& WINDOW_MIN <= self.window <= WINDOW_MAX
        &&& self.channel < usize::MAX
    }

    /// The magnitudes of the present spectrum, if there is one.
    pub open spec fn levels(&self) -> Option<Seq<Float>> {
        match self.spectrum {
            Some(spectrum) => Some(crate::view::levels(spectrum.shown())),
            None => None,
        }
    }

    /// What views read.
    pub open spec fn scene(&self) -> Scene {
        Scene {
            wave: self.wave,
            levels: self.levels(),
            channel: self.channel,
            window: self.window,
        }
    }

    pub fn new(wave: WaveScope) -> (r: Engine)
        requires
            wave.wf(),
        ensures
            r.wf(),
            r == (Engine { wave, spectrum: None, window: WINDOW_DEFAULT, channel: 0 }),
    {
        Engine { wave, spectrum: None, window: WINDOW_DEFAULT, channel: 0 }
    }

    /// What views read from.
    pub fn ctx(&self) -> (r: Ctx<'_>)
        requires
            self.wf(),
        ensures
            r.valid(),
            r.scene() == self.scene(),
            r.spectrum is Some <==> self.spectrum is Some,
            r.spectrum is Some ==> *r.spectrum->0 == self.spectrum->0,
    {
        let spectrum = match &self.spectrum {
            Some(spectrum) => Some(spectrum),
            None => None,
        };
        Ctx { wave: &self.wave, spectrum, channel: self.channel, window: self.window }
    }

    /// Brings the spectrum up to date with the audio at hand. It is built as
    /// soon as the sample rate is known.
    pub fn refresh<A: Arithmetic>(&mut self, alu: &A, rate: Option<u32>)
        requires
            old(self).wf(),
        ensures
            final(self).wf(),
            *final(self) == (Engine { spectrum: final(self).spectrum, ..*old(self) }),
            final(self).spectrum is Some <==> old(self).spectrum is Some || rate is Some,
            old(self).spectrum is Some ==> final(self).spectrum->0.tuning() == old(
                self,
            ).spectrum->0.tuning(),
            steady(alu) ==> refreshed(
                alu,
                old(self).wave,
                old(self).channel,
                old(self).spectrum,
                final(self).spectrum,
                rate,
            ),
    {
        if self.spectrum.is_none() {
            if let Some(rate) = rate {
                self.spectrum = Some(
                    Spectrum::new(alu, rate, N_BANDS, Float(SPEC_MIN_HZ), Float(SPEC_MAX_HZ)),
                );
            }
        }
        if let Some(spectrum) = &mut self.spectrum {
            spectrum.compute(alu, &self.wave, self.channel);
        }
    }

    /// Whether a tick from an earlier state can have left the spectrum of this
    /// one: it is there if it was there before, with the same tuning, or if
    /// the stream was found to be ready; and it is up to date with the audio.
    pub open spec fn refreshed_from<A: Arithmetic>(&self, alu: &A, before: &Engine) -> bool {
        &&& before.spectrum is Some ==> self.spectrum is Some && self.spectrum->0.tuning()
            == before.spectrum->0.tuning()
        &&& exists|rate: Option<u32>|
            {
                &&& #[trigger] self.wave.format().shows_known(rate)
                &&& self.spectrum is Some <==> before.spectrum is Some || rate is Some
                &&& steady(alu) ==> refreshed(
                    alu,
                    self.wave,
                    before.channel,
                    before.spectrum,
                    self.spectrum,
                    rate,
                )
            }
    }

    /// Pulls fresh audio and brings the spectrum up to date with it. Whether a
    /// sample rate is known by then is up to the capture.
    pub fn tick<A: Arithmetic>(&mut self, alu: &A)
        requires
            old(self).wf(),
        ensures
            final(self).wf(),
            final(self).wave.ticked_from(&old(self).wave),
            final(self).window == old(self).window,
            final(self).channel == old(self).channel,
            final(self).refreshed_from(alu, old(self)),
    {
        self.wave.tick();
        let rate = if self.wave.is_ready() {
            Some(self.wave.sample_rate())
        } else {
            None
        };
        self.refresh(alu, rate);
        assert(self.wave.format().shows_known(rate));
    }

    /// Halves the window, down to [`WINDOW_MIN`].
    pub fn zoom_in(&mut self)
        requires
            old(self).wf(),
        ensures
            final(self).wf(),
            *final(self) == (Engine {
                window: zoomed_in(old(self).window as int) as usize,
                ..*old(self)
            }),
    {
        let half: usize = self.window / 2;
        self.window = if half < WINDOW_MIN {
            WINDOW_MIN
        } else {
            half
        };
    }

    /// Doubles the window, up to [`WINDOW_MAX`].
    pub fn zoom_out(&mut self)
        requires
            old(self).wf(),
        ensures
            final(self).wf(),
            *final(self) == (Engine {
                window: zoomed_out(old(self).window as int) as usize,
                ..*old(self)
            }),
    {
        let double: usize = self.window * 2;
        self.window = if double > WINDOW_MAX {
            WINDOW_MAX
        } else {
            double
        };
    }

    /// Goes on to the next channel.
    pub fn next_channel(&mut self)
        requires
            old(self).wf(),
        ensures
            final(self).wf(),
            *final(self) == (Engine {
                channel: channel_after(
                    old(self).channel as int,
                    old(self).wave.histories().len() as int,
                ) as usize,
                ..*old(self)
            }),
    {
        let n = self.wave.channel_count();
        if n > 0 {
            self.channel = (self.channel + 1) % n;
        }
    }
}

/// Zooming stays within its limits, and never widens the window going in or
/// narrows it going out.
pub proof fn law_zoom_is_bounded(window: int)
    requires
        WINDOW_MIN <= window <= WINDOW_MAX,
    ensures
        WINDOW_MIN <= zoomed_in(window) <= window,
        window <= zoomed_out(window) <= WINDOW_MAX,
        2 * WINDOW_MIN <= window ==> 2 * zoomed_in(window) <= window < 2 * zoomed_in(window) + 2,
        2 * window <= WINDOW_MAX ==> zoomed_out(window) == window + window,
        window < 2 * WINDOW_MIN ==> zoomed_in(window) == WINDOW_MIN,
        2 * window > WINDOW_MAX ==> zoomed_out(window) == WINDOW_MAX,
{
}

/// Zooming in undoes zooming out that stayed below the limit; zooming out
/// undoes zooming in that stayed above it, if the window could be halved
/// evenly.
pub proof fn law_zooming_back(window: int)
    ensures
        WINDOW_MIN <= window && 2 * window <= WINDOW_MAX ==> zoomed_in(zoomed_out(window))
            == window,
        2 * WINDOW_MIN <= window <= WINDOW_MAX && window % 2 == 0 ==> zoomed_out(
            zoomed_in(window),
        ) == window,
{
}

/// As many steps as there are channels lead back to the channel they started
/// from.
pub proof fn law_channels_go_round(channel: int, channels: int)
    requires
        0 <= channel < channels,
    ensures
        channel_after_steps(channel, channels, channels as nat) == channel,
{
    steps_add_up(channel, channels, channels as nat);
    lemma_fundamental_div_mod_converse(
        channel + channels,
        channels,
        1,
        channel,
    );
}

proof fn steps_add_up(channel: int, channels: int, steps: nat)
    requires
        0 <= channel < channels,
    ensures
        channel_after_steps(channel, channels, steps) == (channel + steps) % channels,
    decreases steps,
{
    if steps == 0 {
        lemma_small_mod(channel as nat, channels as nat);
    } else {
        steps_add_up(channel, channels, (steps - 1) as nat);
        lemma_add_mod_noop(channel + steps - 1, 1, channels);
        lemma_mod_twice(channel + steps - 1, channels);
        lemma_add_mod_noop((channel + steps - 1) % channels, 1, channels);
    }
}

} // verus!
