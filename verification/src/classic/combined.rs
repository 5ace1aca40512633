//! The combined view of the plain edition, whose waveform looks at every
//! sample of the window.

use vstd::prelude::*;
use vstd::view::View as _;

use crate::arith::{steady, Arithmetic};
use crate::combined::{
    columns_on, draw_wave, is_spectrum, render_spectrum, shows_wave, wave_columns, HALF_MIN,
};
use crate::layout::{inside, rows_below, split_rows, top_rows, Area, Extent};
use crate::view::{framed, Ctx, Pane, Scene, View};

verus! {

/// Whether a pane shows the waveform of the present channel and window.
pub open spec fn is_scanned_waveform<A: Arithmetic>(
    alu: &A,
    pane: Pane,
    area: Area,
    scene: Scene,
) -> bool {
    let cols = wave_columns(inside(area).width);
    &&& pane.frame.goes_round(area, "waveform"@)
    &&& shows_wave(
        alu,
        pane.body,
        cols,
        scene.wave.scanned(scene.channel as int, cols, scene.window as int),
    )
}

/// Draws the waveform of the present channel and window into an area.
pub fn render_waveform<A: Arithmetic>(alu: &A, area: Area, ctx: &Ctx) -> (pane: Pane)
    requires
        area.fits(),
        ctx.valid(),
    ensures
        pane.frame.goes_round(area, "waveform"@),
        steady(alu) ==> is_scanned_waveform(alu, pane, area, ctx.scene()),
{
    let frame = framed(area, "waveform");
    let cols = columns_on(frame.inner.width);
    let env = ctx.wave.envelope_scan(ctx.channel, cols, ctx.window);
    Pane { frame, body: draw_wave(alu, cols, &env) }
}

/// Stacked oscilloscope (top) and log-spaced spectrum bars (bottom).
pub struct Combined;

impl View for Combined {
    open spec fn valid(&self) -> bool {
        true
    }

    open spec fn named(&self) -> Seq<char> {
        "combined"@
    }

    fn name(&self) -> &str {
        "combined"
    }

    fn render<A: Arithmetic>(&self, alu: &A, area: Area, ctx: &Ctx) -> (panes: Vec<Pane>)
        ensures
            panes@.len() == 2,
            panes@[0].frame.area.lies_in(area),
            panes@[1].frame.area.lies_in(area),
            panes@[0].frame.area.lies_above(panes@[1].frame.area),
            panes@[0].frame.area == top_rows(area, (area.height + 1) / 2),
            panes@[1].frame.area == rows_below(area, (area.height + 1) / 2),
            steady(alu) ==> is_scanned_waveform(
                alu,
                panes@[0],
                panes@[0].frame.area,
                ctx.scene(),
            ),
            steady(alu) ==> is_spectrum(alu, panes@[1], panes@[1].frame.area, ctx.scene()),
    {
        let (top, bottom) = split_rows(area, Extent::Min(HALF_MIN), Extent::Min(HALF_MIN));
        let wave = render_waveform(alu, top, ctx);
        let bars = render_spectrum(alu, bottom, ctx);
        vec![wave, bars]
    }
}

} // verus!
