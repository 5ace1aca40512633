//! The combined waveform and spectrum view.

use vstd::arithmetic::div_mod::{lemma_div_is_ordered_by_denominator, lemma_fundamental_div_mod};
use vstd::prelude::*;
use vstd::view::View as _;

use crate::arith::{steady, Arithmetic};
use crate::color::{heat, heat_color, Color};
use crate::exact::{
    exact, is_near, times, times_orders, times_signs, times_simple, whole, Reading,
};
use crate::float::{Double, Float};
use crate::layout::{inside, rows_below, split_rows, top_rows, Area, Extent};
use crate::mesh::Segment;
use crate::scope::Envelope;
use crate::spectrum::Band;
use crate::view::{framed, levels, Bar, Body, Ctx, Pane, Scene, View};

verus! {

/// How many rows each half of the view should have at least.
pub const HALF_MIN: u16 = 6;

/// Encoding of `1.0` in double precision.
pub const FULL_SCALE: u64 = 0x3ff0_0000_0000_0000;

/// Encoding of `-1.0` in double precision.
pub const NEG_FULL_SCALE: u64 = 0xbff0_0000_0000_0000;

/// How many columns of dots a waveform has: two per cell, but at least one.
pub open spec fn wave_columns(width: u16) -> nat {
    if width == 0 {
        1
    } else {
        2 * width as nat
    }
}

/// The line of a column: from its lowest to its highest sample.
pub open spec fn wave_line<A: Arithmetic>(alu: &A, i: int, e: Envelope) -> Segment {
    Segment {
        x1: alu.wide_of(i as u32),
        y1: alu.wide(e.min),
        x2: alu.wide_of(i as u32),
        y2: alu.wide(e.max),
        color: Color::Cyan,
    }
}

/// The lines of a waveform.
pub open spec fn wave_lines<A: Arithmetic>(alu: &A, envelopes: Seq<Envelope>) -> Seq<Segment> {
    Seq::new(envelopes.len(), |i: int| wave_line(alu, i, envelopes[i]))
}

/// Whether a body shows a waveform over a number of columns.
pub open spec fn shows_wave<A: Arithmetic>(
    alu: &A,
    body: Body,
    cols: nat,
    envelopes: Seq<Envelope>,
) -> bool {
    match body {
        Body::Canvas { x_bounds, y_bounds, lines } => {
            &&& x_bounds == (Double(0), alu.wide_of(cols as u32))
            &&& y_bounds == (Double(NEG_FULL_SCALE), Double(FULL_SCALE))
            &&& lines@ == wave_lines(alu, envelopes)
        },
        _ => false,
    }
}

/// How many columns of dots a waveform on an area has.
pub fn columns_on(width: u16) -> (cols: usize)
    ensures
        cols == wave_columns(width),
{
    if width == 0 {
        1
    } else {
        width as usize * 2
    }
}

/// Draws envelopes as a waveform.
pub fn draw_wave<A: Arithmetic>(alu: &A, cols: usize, envelopes: &[Envelope]) -> (body: Body)
    requires
        cols <= u32::MAX,
        envelopes@.len() <= u32::MAX,
    ensures
        body is Canvas,
        steady(alu) ==> shows_wave(alu, body, cols as nat, envelopes@),
{
    let n: usize = envelopes.len();
    let mut lines: Vec<Segment> = Vec::with_capacity(n);
    let mut i: usize = 0;
    while i < n
        invariant
            n == envelopes@.len(),
            n <= u32::MAX,
            i <= n,
            lines@.len() == i,
            steady(alu) ==> forall|j: int|
                0 <= j < i ==> #[trigger] lines@[j] == wave_line(alu, j, envelopes@[j]),
        decreases n - i,
    {
        let x = alu.wide_from(i as u32);
        let e = envelopes[i];
        lines.push(
            Segment { x1: x, y1: alu.widen(e.min), x2: x, y2: alu.widen(e.max), color: Color::Cyan },
        );
        i = i + 1;
    }
    assert(steady(alu) ==> lines@ =~= wave_lines(alu, envelopes@));
    Body::Canvas {
        x_bounds: (Double(0), alu.wide_from(cols as u32)),
        y_bounds: (Double(NEG_FULL_SCALE), Double(FULL_SCALE)),
        lines,
    }
}

/// Whether a pane shows the waveform of the present channel and window.
pub open spec fn is_waveform<A: Arithmetic>(
    alu: &A,
    pane: Pane,
    area: Area,
    scene: Scene,
) -> bool {
    let cols = wave_columns(inside(area).width);
    &&& pane.frame.goes_round(area, "waveform"@)
    &&& shows_wave(
        alu,
        pane.body,
        cols,
        scene.wave.enveloped(scene.channel as int, cols, scene.window as int),
    )
}

/// Draws the waveform of the present channel and window into an area.
pub fn render_waveform<A: Arithmetic>(alu: &A, area: Area, ctx: &Ctx) -> (pane: Pane)
    requires
        area.fits(),
        ctx.valid(),
    ensures
        pane.frame.goes_round(area, "waveform"@),
        steady(alu) ==> is_waveform(alu, pane, area, ctx.scene()),
{
    let frame = framed(area, "waveform");
    let cols = columns_on(frame.inner.width);
    let env = ctx.wave.envelope(ctx.channel, cols, ctx.window);
    Pane { frame, body: draw_wave(alu, cols, &env) }
}

/// How tall the highest bar is.
pub open spec fn bar_limit(height: u16) -> u16 {
    if height == 0 {
        1
    } else {
        height
    }
}

/// How many cells a bar is wide.
pub open spec fn bar_cells(width: u16, bars: nat) -> u16 {
    let each = if bars == 0 {
        width as int
    } else {
        width as int / bars as int
    };
    if each == 0 {
        1
    } else {
        each as u16
    }
}

/// As long as there is a cell for each bar, all bars fit side by side, and they
/// are as wide as they can be.
pub proof fn law_bars_fit(width: u16, bars: nat)
    requires
        0 < bars <= width,
    ensures
        bars * bar_cells(width, bars) <= width,
        bars * (bar_cells(width, bars) + 1) > width,
{
    let w = width as int;
    let n = bars as int;
    lemma_fundamental_div_mod(w, n);
    lemma_div_is_ordered_by_denominator(w, 1, n);
    assert(w / n > 0) by (nonlinear_arith)
        requires
            0 < n <= w,
    ;
    assert(n * (w / n) <= w);
    assert(n * (w / n + 1) == n * (w / n) + n) by (nonlinear_arith);
}

/// The bar of a band.
pub open spec fn bar_of<A: Arithmetic>(alu: &A, level: Float, limit: u16) -> Bar {
    Bar {
        value: alu.count_near(alu.product(level, alu.of_index(limit as usize))),
        color: heat(alu, level),
    }
}

/// Without rounding before the last step, a bar takes the share of the height
/// that its level is: none for silence, all for full scale, and the nearest
/// number of rows between.
pub proof fn law_bars_are_as_tall_as_their_levels<A: Arithmetic>(
    alu: &A,
    m: Reading,
    level: Float,
    limit: u16,
)
    requires
        exact(alu, m),
        0real <= m.num(level) <= 1real,
        m.has(alu.product(level, alu.of_index(limit as usize))),
    ensures
        is_near(
            bar_of(alu, level, limit).value as int,
            times(m.num(level), whole(limit as int)),
        ),
        bar_of(alu, level, limit).value <= limit,
        m.num(level) == 0real ==> bar_of(alu, level, limit).value == 0,
        m.num(level) == 1real ==> bar_of(alu, level, limit).value == limit,
{
    let (v, n) = (m.num(level), whole(limit as int));
    times_simple(n);
    times_signs(v, n);
    if limit > 0 {
        times_orders(v, 1real, n);
    } else {
        times_simple(v);
    }
}

/// Without rounding, the line of a column stands at the number of the column
/// and goes from its lowest to its highest sample.
pub proof fn law_columns_go_from_lowest_to_highest<A: Arithmetic>(
    alu: &A,
    m: Reading,
    i: int,
    e: Envelope,
)
    requires
        exact(alu, m),
        0 <= i <= u32::MAX,
        m.wide_has(wave_line(alu, i, e).x1),
        m.wide_has(wave_line(alu, i, e).y1),
        m.wide_has(wave_line(alu, i, e).y2),
    ensures
        wave_line(alu, i, e).x1 == wave_line(alu, i, e).x2,
        m.wide_num(wave_line(alu, i, e).x1) == whole(i),
        m.wide_num(wave_line(alu, i, e).y1) == m.num(e.min),
        m.wide_num(wave_line(alu, i, e).y2) == m.num(e.max),
{
}

/// Whether a body shows levels as bars on an area.
pub open spec fn shows_bars<A: Arithmetic>(
    alu: &A,
    body: Body,
    inner: Area,
    levels: Seq<Float>,
) -> bool {
    let limit = bar_limit(inner.height);
    match body {
        Body::Bars { bars, bar_width, max } => {
            &&& bars@ == Seq::new(levels.len(), |b: int| bar_of(alu, levels[b], limit))
            &&& bar_width == bar_cells(inner.width, levels.len())
            &&& max == limit
        },
        _ => false,
    }
}

/// Draws bands as bars.
pub fn draw_bars<A: Arithmetic>(alu: &A, inner: Area, bands: &[Band]) -> (body: Body)
    ensures
        body matches Body::Bars { bars, bar_width, max } && bars@.len() == bands@.len()
            && bar_width == bar_cells(inner.width, bands@.len()) && max == bar_limit(inner.height),
        steady(alu) ==> shows_bars(alu, body, inner, levels(bands@)),
{
    let limit: u16 = if inner.height == 0 {
        1
    } else {
        inner.height
    };
    let n: usize = bands.len();
    let mut bars: Vec<Bar> = Vec::with_capacity(n);
    let mut b: usize = 0;
    while b < n
        invariant
            n == bands@.len(),
            limit == bar_limit(inner.height),
            b <= n,
            bars@.len() == b,
            steady(alu) ==> forall|j: int|
                0 <= j < b ==> #[trigger] bars@[j] == bar_of(alu, levels(bands@)[j], limit),
        decreases n - b,
    {
        let level = bands[b].magnitude;
        let value = alu.round_count(alu.mul(level, alu.from_index(limit as usize)));
        bars.push(Bar { value, color: heat_color(alu, level) });
        b = b + 1;
    }
    assert(steady(alu) ==> bars@ =~= Seq::new(
        levels(bands@).len(),
        |b: int| bar_of(alu, levels(bands@)[b], limit),
    ));
    let each: usize = if n == 0 {
        inner.width as usize
    } else {
        inner.width as usize / n
    };
    let bar_width: u16 = if each == 0 {
        1
    } else {
        proof {
            if n > 0 {
                lemma_div_is_ordered_by_denominator(
                    inner.width as int,
                    1,
                    n as int,
                );
            }
        }
        each as u16
    };
    Body::Bars { bars, bar_width, max: limit as u64 }
}

/// Whether a pane shows the present spectrum.
pub open spec fn is_spectrum<A: Arithmetic>(
    alu: &A,
    pane: Pane,
    area: Area,
    scene: Scene,
) -> bool {
    &&& pane.frame.goes_round(area, "spectrum"@)
    &&& match scene.levels {
        Some(levels) => shows_bars(alu, pane.body, inside(area), levels),
        None => pane.body is Blank,
    }
}

/// Draws the present spectrum into an area, if there is one.
pub fn render_spectrum<A: Arithmetic>(alu: &A, area: Area, ctx: &Ctx) -> (pane: Pane)
    requires
        area.fits(),
        ctx.valid(),
    ensures
        pane.frame.goes_round(area, "spectrum"@),
        ctx.spectrum is None ==> pane.body is Blank,
        steady(alu) ==> is_spectrum(alu, pane, area, ctx.scene()),
{
    let frame = framed(area, "spectrum");
    let body = match ctx.spectrum {
        Some(spectrum) => draw_bars(alu, frame.inner, spectrum.bands()),
        None => Body::Blank,
    };
    Pane { frame, body }
}

/// Stacked oscilloscope (top) and log-spaced spectrum bars (bottom).
pub struct Combined;

impl View for Combined {
    open spec fn valid(&self) -> bool {
        true
    }

    open spec fn named(&self) -> Seq<char> {
        "combined"@
    }

    fn name(&self) -> &str {
        "combined"
    }

    fn render<A: Arithmetic>(&self, alu: &A, area: Area, ctx: &Ctx) -> (panes: Vec<Pane>)
        ensures
            panes@.len() == 2,
            panes@[0].frame.area.lies_in(area),
            panes@[1].frame.area.lies_in(area),
            panes@[0].frame.area.lies_above(panes@[1].frame.area),
            panes@[0].frame.area == top_rows(area, (area.height + 1) / 2),
            panes@[1].frame.area == rows_below(area, (area.height + 1) / 2),
            steady(alu) ==> is_waveform(alu, panes@[0], panes@[0].frame.area, ctx.scene()),
            steady(alu) ==> is_spectrum(alu, panes@[1], panes@[1].frame.area, ctx.scene()),
    {
        let (top, bottom) = split_rows(area, Extent::Min(HALF_MIN), Extent::Min(HALF_MIN));
        let wave = render_waveform(alu, top, ctx);
        let bars = render_spectrum(alu, bottom, ctx);
        vec![wave, bars]
    }
}

} // verus!
