//! What a view is: a selectable visualization that follows the audio, takes
//! keys, and says what to draw.

use vstd::prelude::*;
use vstd::view::View as _;

use crate::arith::Arithmetic;
use crate::color::Color;
use crate::float::{Double, Float};
use crate::key::Key;
use crate::layout::{block_inner, inside, Area};
use crate::mesh::Segment;
use crate::scope::WaveScope;
use crate::spectrum::{Band, Spectrum};
use crate::text::{decimal, to_decimal};

verus! {

/// Everything a view may read while ticking or rendering: the live audio, the
/// (possibly not yet ready) spectrum, and the current channel and zoom.
pub struct Ctx<'a> {
    pub wave: &'a WaveScope,
    pub spectrum: Option<&'a Spectrum>,
    pub channel: usize,
    pub window: usize,
}

/// What a view reads: the audio, the magnitudes of the spectrum, if there is
/// one, and the current channel and zoom.
pub struct Scene {
    pub wave: WaveScope,
    pub levels: Option<Seq<Float>>,
    pub channel: usize,
    pub window: usize,
}

/// The magnitudes of bands.
pub open spec fn levels(bands: Seq<Band>) -> Seq<Float> {
    Seq::new(bands.len(), |b: int| bands[b].magnitude)
}

/// The magnitudes of bands, low frequency first.
pub(crate) fn magnitudes(bands: &[Band]) -> (r: Vec<Float>)
    ensures
        r@ == levels(bands@),
{
    let n: usize = bands.len();
    let mut r: Vec<Float> = Vec::with_capacity(n);
    let mut b: usize = 0;
    while b < n
        invariant
            n == bands@.len(),
            b <= n,
            r@.len() == b,
            forall|j: int| 0 <= j < b ==> #[trigger] r@[j] == levels(bands@)[j],
        decreases n - b,
    {
        r.push(bands[b].magnitude);
        b = b + 1;
    }
    assert(r@ =~= levels(bands@));
    r
}

impl<'a> Ctx<'a> {
    pub open spec fn valid(&self) -> bool {
        &&& self.wave.wf()
        &&& match self.spectrum {
            Some(spectrum) => spectrum.wf(),
            None => true,
        }
    }

    /// The magnitudes of the present spectrum, if there is one.
    pub open spec fn levels(&self) -> Option<Seq<Float>> {
        match self.spectrum {
            Some(spectrum) => Some(levels(spectrum.shown())),
            None => None,
        }
    }

    /// What a view reads from here.
    pub open spec fn scene(&self) -> Scene {
        Scene {
            wave: *self.wave,
            levels: self.levels(),
            channel: self.channel,
            window: self.window,
        }
    }
}

/// A border with a title, and the area inside it.
pub struct Frame {
    pub area: Area,
    pub title: String,
    pub inner: Area,
}

impl Frame {
    /// Whether this is the frame of an area with the given title.
    pub open spec fn goes_round(&self, area: Area, title: Seq<char>) -> bool {
        &&& self.area == area
        &&& self.title@ == title
        &&& self.inner == inside(area)
    }
}

/// A bar of a bar chart.
#[derive(Clone, Copy, PartialEq, Eq, Structural, Debug)]
pub struct Bar {
    pub value: u64,
    pub color: Color,
}

/// What is drawn inside a frame.
pub enum Body {
    /// Nothing.
    Blank,
    /// Dimmed, centered text.
    Text(String),
    /// Lines on a canvas whose coordinates go from the first to the second of
    /// each pair of bounds.
    Canvas { x_bounds: (Double, Double), y_bounds: (Double, Double), lines: Vec<Segment> },
    /// Bars side by side.
    Bars { bars: Vec<Bar>, bar_width: u16, max: u64 },
}

impl Body {
    /// Whether this is the given text.
    pub open spec fn is_text(&self, text: Seq<char>) -> bool {
        match self {
            Body::Text(s) => s@ == text,
            _ => false,
        }
    }
}

/// A frame and what is drawn inside it.
pub struct Pane {
    pub frame: Frame,
    pub body: Body,
}

/// Puts a titled border round an area.
pub fn framed(area: Area, title: &str) -> (frame: Frame)
    requires
        area.fits(),
    ensures
        frame.goes_round(area, title@),
        frame.inner.fits(),
{
    Frame { area, title: title.to_string(), inner: block_inner(area, title) }
}

/// Dimmed, centered text that stands in for a picture.
pub fn placeholder_text(text: &str) -> (body: Body)
    ensures
        body.is_text(text@),
{
    Body::Text(text.to_string())
}

/// A selectable top-level visualization.
pub trait View: Sized {
    spec fn valid(&self) -> bool;

    /// The name for the status line.
    spec fn named(&self) -> Seq<char>;

    /// Short name for the status line.
    fn name(&self) -> (r: &str)
        ensures
            r@ == self.named(),
    ;

    /// Advances any view-owned state from the latest audio. Views that read
    /// everything fresh at render time have none.
    fn tick<A: Arithmetic>(&mut self, alu: &A, ctx: &Ctx)
        requires
            old(self).valid(),
            ctx.valid(),
        ensures
            final(self).valid(),
            final(self).named() == old(self).named(),
        default_ensures
            *final(self) == *old(self),
    {
    }

    /// Handles a key press that nobody else claimed. Returns whether the view
    /// made use of it. By default every key is ignored.
    fn handle_key<A: Arithmetic>(&mut self, alu: &A, key: Key) -> (r: bool)
        requires
            old(self).valid(),
        ensures
            final(self).valid(),
            final(self).named() == old(self).named(),
            !r ==> *final(self) == *old(self),
        default_ensures
            !r,
    {
        false
    }

    /// Says what to draw into an area, frame by frame.
    fn render<A: Arithmetic>(&self, alu: &A, area: Area, ctx: &Ctx) -> (panes: Vec<Pane>)
        requires
            self.valid(),
            area.fits(),
            ctx.valid(),
    ;
}

/// A not yet implemented view bound to a function key.
pub struct Placeholder {
    name: String,
    body: String,
}

/// The name of the placeholder on a function key.
pub open spec fn placeholder_name(fkey: u8) -> Seq<char> {
    "view F"@ + decimal(fkey as nat)
}

/// What the placeholder on a function key says.
pub open spec fn placeholder_body(fkey: u8) -> Seq<char> {
    placeholder_name(fkey) + ": not implemented yet"@
}

impl Placeholder {
    /// What the placeholder says.
    pub closed spec fn body(&self) -> Seq<char> {
        self.body@
    }

    pub fn new(fkey: u8) -> (r: Placeholder)
        ensures
            r.named() == placeholder_name(fkey),
            r.body() == placeholder_body(fkey),
    {
        let mut name = "view F".to_string();
        name.append(to_decimal(fkey as u64).as_str());
        let mut body = name.clone();
        body.append(": not implemented yet");
        Placeholder { name, body }
    }
}

impl View for Placeholder {
    open spec fn valid(&self) -> bool {
        true
    }

    closed spec fn named(&self) -> Seq<char> {
        self.name@
    }

    fn name(&self) -> &str {
        self.name.as_str()
    }

    fn render<A: Arithmetic>(&self, alu: &A, area: Area, ctx: &Ctx) -> (panes: Vec<Pane>)
        ensures
            panes@.len() == 1,
            panes@[0].frame.goes_round(area, self.named()),
            panes@[0].body.is_text(self.body()),
    {
        let frame = framed(area, self.name.as_str());
        let body = placeholder_text(self.body.as_str());
        vec![Pane { frame, body }]
    }
}

} // verus!
