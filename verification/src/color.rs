//! The colors that views draw with.

use vstd::prelude::*;

use crate::arith::{steady, Arithmetic};
use crate::exact::{
    exact, is_near, times, times_orders, times_signs, times_simple, times_spreads, whole,
    Reading,
};
use crate::float::{Float, FOUR, ONE, SIGN, ZERO};

verus! {

/// A color to draw with.
#[derive(Clone, Copy, PartialEq, Eq, Structural, Debug)]
pub enum Color {
    /// The terminal's own cyan.
    Cyan,
    /// Red, green and blue.
    Rgb(u8, u8, u8),
}

/// Red, green and blue of a surface that faces away from the light.
pub const SHADOW_RED: u8 = 80;

pub const SHADOW_GREEN: u8 = 0;

pub const SHADOW_BLUE: u8 = 40;

/// Red, green and blue of a surface that faces the light.
pub const HIGHLIGHT_RED: u8 = 0;

pub const HIGHLIGHT_GREEN: u8 = 250;

pub const HIGHLIGHT_BLUE: u8 = 255;

/// The level that lies at `frac` on the way from `from` to `to`.
pub open spec fn blended<A: Arithmetic>(alu: &A, from: u8, to: u8, frac: Float) -> u8 {
    let start = alu.of_index(from as usize);
    let span = alu.difference(alu.of_index(to as usize), start);
    alu.byte_near(alu.sum(start, alu.product(span, frac)))
}

fn blend<A: Arithmetic>(alu: &A, from: u8, to: u8, frac: Float) -> (r: u8)
    ensures
        steady(alu) ==> r == blended(alu, from, to, frac),
{
    let start = alu.from_index(from as usize);
    let span = alu.sub(alu.from_index(to as usize), start);
    alu.round_byte(alu.add(start, alu.mul(span, frac)))
}

/// The color of a surface lit with a brightness of `0.0..=1.0`.
pub open spec fn surface<A: Arithmetic>(alu: &A, brightness: Float) -> Color {
    let b = brightness.clamped(Float(ZERO), Float(ONE));
    Color::Rgb(
        blended(alu, SHADOW_RED, HIGHLIGHT_RED, b),
        blended(alu, SHADOW_GREEN, HIGHLIGHT_GREEN, b),
        blended(alu, SHADOW_BLUE, HIGHLIGHT_BLUE, b),
    )
}

/// Maps a brightness to a color between shadow and highlight.
pub fn surface_color<A: Arithmetic>(alu: &A, brightness: Float) -> (r: Color)
    ensures
        r is Rgb,
        steady(alu) ==> r == surface(alu, brightness),
{
    let b = brightness.clamp(Float(ZERO), Float(ONE));
    Color::Rgb(
        blend(alu, SHADOW_RED, HIGHLIGHT_RED, b),
        blend(alu, SHADOW_GREEN, HIGHLIGHT_GREEN, b),
        blend(alu, SHADOW_BLUE, HIGHLIGHT_BLUE, b),
    )
}

/// The last of the stops that a heat color can start from.
pub const LAST_HEAT_SEGMENT: usize = 3;

/// The stops of the heat scale: blue, cyan, green, yellow, red.
pub open spec fn heat_stop(i: int) -> (u8, u8, u8) {
    if i == 0 {
        (0, 0, 255)
    } else if i == 1 {
        (0, 255, 255)
    } else if i == 2 {
        (0, 255, 0)
    } else if i == 3 {
        (255, 255, 0)
    } else {
        (255, 0, 0)
    }
}

fn stop_at(i: usize) -> (r: (u8, u8, u8))
    ensures
        r == heat_stop(i as int),
{
    if i == 0 {
        (0, 0, 255)
    } else if i == 1 {
        (0, 255, 255)
    } else if i == 2 {
        (0, 255, 0)
    } else if i == 3 {
        (255, 255, 0)
    } else {
        (255, 0, 0)
    }
}

/// The color of `0.0..=1.0` on the heat scale, whose stops are evenly spaced.
pub open spec fn heat<A: Arithmetic>(alu: &A, t: Float) -> Color {
    let scaled = alu.product(t.clamped(Float(ZERO), Float(ONE)), Float(FOUR));
    let below = alu.index_below(scaled);
    let i = if below < LAST_HEAT_SEGMENT {
        below
    } else {
        LAST_HEAT_SEGMENT
    };
    let frac = alu.difference(scaled, alu.of_index(i));
    let lo = heat_stop(i as int);
    let hi = heat_stop(i + 1);
    Color::Rgb(
        blended(alu, lo.0, hi.0, frac),
        blended(alu, lo.1, hi.1, frac),
        blended(alu, lo.2, hi.2, frac),
    )
}

/// Maps a level to the heat scale.
pub fn heat_color<A: Arithmetic>(alu: &A, t: Float) -> (r: Color)
    ensures
        r is Rgb,
        steady(alu) ==> r == heat(alu, t),
{
    let scaled = alu.mul(t.clamp(Float(ZERO), Float(ONE)), Float(FOUR));
    let below = alu.floor_index(scaled);
    let i: usize = if below < LAST_HEAT_SEGMENT {
        below
    } else {
        LAST_HEAT_SEGMENT
    };
    let frac = alu.sub(scaled, alu.from_index(i));
    let lo = stop_at(i);
    let hi = stop_at(i + 1);
    Color::Rgb(
        blend(alu, lo.0, hi.0, frac),
        blend(alu, lo.1, hi.1, frac),
        blend(alu, lo.2, hi.2, frac),
    )
}

/// Whether the level at `frac` on the way from `from` to `to` can be told.
pub open spec fn can_blend<A: Arithmetic>(
    alu: &A,
    m: Reading,
    from: u8,
    to: u8,
    frac: Float,
) -> bool {
    m.has(
        alu.sum(
            alu.of_index(from as usize),
            alu.product(
                alu.difference(alu.of_index(to as usize), alu.of_index(from as usize)),
                frac,
            ),
        ),
    )
}

/// Without rounding before the last step, a blend of two levels lies between
/// them, as far from the first as the fraction says, and is one of them at its
/// ends.
pub proof fn law_blends_lie_between<A: Arithmetic>(
    alu: &A,
    m: Reading,
    from: u8,
    to: u8,
    frac: Float,
)
    requires
        exact(alu, m),
        can_blend(alu, m, from, to, frac),
        0real <= m.num(frac) <= 1real,
    ensures
        is_near(
            blended(alu, from, to, frac) as int,
            whole(from as int) + times(whole(to - from), m.num(frac)),
        ),
        m.num(frac) == 0real ==> blended(alu, from, to, frac) == from,
        m.num(frac) == 1real ==> blended(alu, from, to, frac) == to,
        from <= to ==> from <= blended(alu, from, to, frac) <= to,
        to <= from ==> to <= blended(alu, from, to, frac) <= from,
{
    let f = m.num(frac);
    let span = whole(to - from);
    assert(whole(to as int) - whole(from as int) == span);
    times_simple(span);
    times_signs(span, f);
    times_signs(-span, f);
    times_signs(span, 1real - f);
    times_signs(-span, 1real - f);
    times_spreads(span, 1real, f);
    times_spreads(-span, 1real, f);
    times_spreads(f, 0real, span);
    times_simple(f);
    times_simple(-span);
    times_simple(1real - f);
    assert(0real - span == -span);
}

/// Without rounding before the last step, the heat scale goes evenly from blue
/// through cyan, green and yellow to red: on each quarter of the way each color
/// part goes in proportion from one of them to the next.
pub proof fn law_heat_goes_evenly_through_its_stops<A: Arithmetic>(
    alu: &A,
    m: Reading,
    t: Float,
    k: int,
)
    requires
        exact(alu, m),
        0 <= k < 4,
        m.has(t),
        ({
            let scaled = alu.product(t.clamped(Float(ZERO), Float(ONE)), Float(FOUR));
            &&& whole(k) <= times(m.num(t), 4real) <= whole(k + 1)
            &&& k < 3 ==> times(m.num(t), 4real) < whole(k + 1)
            &&& m.has(scaled)
            &&& m.has(alu.difference(scaled, alu.of_index(k as usize)))
            &&& forall|from: u8, to: u8| #[trigger]
                can_blend(alu, m, from, to, alu.difference(scaled, alu.of_index(k as usize)))
        }),
    ensures
        ({
            let blue_cyan_green_yellow_red: Seq<(u8, u8, u8)> = seq![
                (0, 0, 255),
                (0, 255, 255),
                (0, 255, 0),
                (255, 255, 0),
                (255, 0, 0),
            ];
            let (a, b) = (blue_cyan_green_yellow_red[k], blue_cyan_green_yellow_red[k + 1]);
            let way = times(m.num(t), 4real) - whole(k);
            &&& heat(alu, t) matches Color::Rgb(red, green, blue)
            &&& is_near(red as int, whole(a.0 as int) + times(whole(b.0 - a.0), way))
            &&& is_near(green as int, whole(a.1 as int) + times(whole(b.1 - a.1), way))
            &&& is_near(blue as int, whole(a.2 as int) + times(whole(b.2 - a.2), way))
        }),
{
    times_simple(4real);
    times_orders(0real, m.num(t), 4real);
    times_orders(m.num(t), 1real, 4real);
    assert(Float(ZERO).at_most(t) <==> 0real <= m.num(t));
    assert(t.at_most(Float(ONE)) <==> m.num(t) <= 1real);
    assert(t.clamped(Float(ZERO), Float(ONE)) == t);
    let scaled = alu.product(t, Float(FOUR));
    let below = alu.index_below(scaled);
    assert(below == k || below == 4 && k == 3);
    let frac = alu.difference(scaled, alu.of_index(k as usize));
    let lo = heat_stop(k);
    let hi = heat_stop(k + 1);
    assert(can_blend(alu, m, lo.0, hi.0, frac));
    assert(can_blend(alu, m, lo.1, hi.1, frac));
    assert(can_blend(alu, m, lo.2, hi.2, frac));
    law_blends_lie_between(alu, m, lo.0, hi.0, frac);
    law_blends_lie_between(alu, m, lo.1, hi.1, frac);
    law_blends_lie_between(alu, m, lo.2, hi.2, frac);
}

/// Without rounding before the last step, a surface goes from the colors of the
/// shadow to those of the highlight as it gets brighter.
pub proof fn law_surfaces_go_from_shadow_to_highlight<A: Arithmetic>(
    alu: &A,
    m: Reading,
    brightness: Float,
)
    requires
        exact(alu, m),
        m.has(brightness),
        0real <= m.num(brightness) <= 1real,
        can_blend(alu, m, 80, 0, brightness),
        can_blend(alu, m, 0, 250, brightness),
        can_blend(alu, m, 40, 255, brightness),
    ensures
        surface(alu, brightness) matches Color::Rgb(r, g, b) && is_near(
            r as int,
            80real - times(80real, m.num(brightness)),
        ) && is_near(g as int, times(250real, m.num(brightness))) && is_near(
            b as int,
            40real + times(215real, m.num(brightness)),
        ),
{
    let v = m.num(brightness);
    assert(Float(ZERO).at_most(brightness) <==> 0real <= v);
    assert(brightness.at_most(Float(ONE)) <==> v <= 1real);
    law_blends_lie_between(alu, m, 80, 0, brightness);
    law_blends_lie_between(alu, m, 0, 250, brightness);
    law_blends_lie_between(alu, m, 40, 255, brightness);
    times_spreads(v, 0real, 80real);
    times_simple(v);
    assert(whole(0 - 80) == 0real - 80real);
}

/// Both color scales end at 0 and 1: anything outside has the color of the
/// nearer end. (A negative zero is not outside.)
pub proof fn law_colors_saturate<A: Arithmetic>(alu: &A, t: Float)
    ensures
        t.at_most(Float(ZERO)) && t != Float(SIGN) ==> surface(alu, t) == surface(
            alu,
            Float(ZERO),
        ) && heat(alu, t) == heat(alu, Float(ZERO)),
        Float(ONE).at_most(t) ==> surface(alu, t) == surface(alu, Float(ONE)) && heat(alu, t)
            == heat(alu, Float(ONE)),
{
}

} // verus!
