//! The plain landscape: successive spectra as rows, colored by height.

use vstd::arithmetic::div_mod::{lemma_fundamental_div_mod, lemma_mod_bound};
use vstd::prelude::*;

use crate::arith::{steady, Arithmetic};
use crate::color::{heat, heat_color, Color};
use crate::exact::{
    exact, times, times_cancels, times_negated, times_orders, times_signs, times_simple,
    times_swaps, whole, Reading,
};
use crate::float::{Double, Float, HALF, TWO, ZERO};
use crate::grid::{cell, cell_at, law_cells_are_apart, wraps_once};
use crate::key::Key;
use crate::layout::{inside, Area};
use crate::mesh::{canvas_on, projected, Camera, Mesh, Place, Point, Screen, Weave};
use crate::terrain::{flat, level, level_of, spread_evenly, warming_up};
use crate::view::{framed, magnitudes, placeholder_text, Body, Ctx, Pane};

verus! {

/// How many rows the landscape has at first. The keys 1 to 9 change it.
pub const DEFAULT_DEPTH: usize = 1;

/// Encoding of `6.6`, the height of the highest peak.
pub const PEAK_HEIGHT: u32 = 0x40d3_3333;

/// Encoding of `2.4`: the power that heights are raised to, so that peaks
/// stand out.
pub const SPIKE_GAMMA: u32 = 0x4019_999a;

/// Encoding of `2.5`.
pub const CAM_HEIGHT: u32 = 0x4020_0000;

/// Encoding of `8.0`.
pub const CAM_SETBACK: u32 = 0x4100_0000;

/// Encoding of `0.6`.
pub const CAM_PITCH: u32 = 0x3f19_999a;

/// Encoding of `1.2`.
pub const FOCAL: u32 = 0x3f99_999a;

/// Encoding of `1.5`, half the span of the landscape. A larger one widens it
/// without moving the camera.
pub const WORLD_HALF_WIDTH: u32 = 0x3fc0_0000;

/// Encoding of `1.2`. It puts the ground into the frame, which a camera that
/// looks down would leave below it.
pub const HORIZON_LIFT: u32 = 0x3f99_999a;

/// What a plain landscape holds.
#[verifier::ext_equal]
pub struct Ridges {
    /// A ring of rows of bands, one row after the other.
    pub rows: Seq<Float>,
    /// Bands per row.
    pub width: int,
    /// Number of rows.
    pub depth: int,
    /// The row of the ring that the next spectrum goes to.
    pub head: int,
    /// Whether a spectrum has come since the landscape was cleared.
    pub primed: bool,
}

impl Ridges {
    pub open spec fn valid(self) -> bool {
        &&& self.width > 0
        &&& self.depth > 0
        &&& 0 <= self.head < self.depth
        &&& self.rows.len() == self.depth * self.width
    }

    /// The landscape before anything has been heard.
    pub open spec fn bare(width: int) -> Ridges {
        Ridges {
            rows: flat(width, DEFAULT_DEPTH as int),
            width,
            depth: DEFAULT_DEPTH as int,
            head: 0,
            primed: false,
        }
    }

    /// The landscape cleared for a number of rows; nothing changes where it
    /// has that many already.
    pub open spec fn resized(self, depth: int) -> Ridges {
        if depth == self.depth {
            self
        } else {
            Ridges { rows: flat(self.width, depth), depth, head: 0, primed: false, ..self }
        }
    }

    /// Where in the ring the row of age `r` stands; the newest has age 0.
    pub open spec fn ring(self, r: int) -> int {
        (self.head + self.depth - 1 - r) % self.depth
    }

    /// Band `x` of the row of age `r`.
    pub open spec fn height(self, r: int, x: int) -> Float {
        self.rows[cell(self.width, x, self.ring(r))]
    }

    /// The landscape with the row of one more spectrum, in the place of the
    /// oldest. Bands that the spectrum lacks are silent.
    pub open spec fn pushed(self, magnitudes: Seq<Float>) -> Ridges {
        Ridges {
            rows: Seq::new(
                self.rows.len(),
                |i: int|
                    if i / self.width == self.head {
                        level(magnitudes, i % self.width)
                    } else {
                        self.rows[i]
                    },
            ),
            head: (self.head + 1) % self.depth,
            primed: true,
            ..self
        }
    }

    /// The landscape after a tick, in which a spectrum may have come.
    pub open spec fn ticked(self, magnitudes: Option<Seq<Float>>) -> Ridges {
        match magnitudes {
            Some(magnitudes) => self.pushed(magnitudes),
            None => self,
        }
    }

    /// The landscape after a key press: the keys 1 to 9 set its depth.
    pub open spec fn keyed(self, key: Key) -> Ridges {
        match key.digit() {
            Some(n) => self.resized(n),
            None => self,
        }
    }

    /// Where a point of the surface lies in the world.
    pub open spec fn place<A: Arithmetic>(self, alu: &A, x: int, r: int) -> Place {
        let across = alu.difference(
            alu.quotient(alu.of_index(x as usize), alu.of_index((self.width - 1) as usize)),
            Float(HALF),
        );
        (
            alu.product(alu.product(across, Float(TWO)), Float(WORLD_HALF_WIDTH)),
            alu.product(
                alu.power(self.height(r, x), Float(SPIKE_GAMMA)),
                Float(PEAK_HEIGHT),
            ),
            alu.of_index(r as usize),
        )
    }
}

/// A new row becomes the newest, every row that stays grows older by one, and
/// the oldest row is gone.
pub proof fn law_ridges_scroll(l: Ridges, magnitudes: Seq<Float>, x: int)
    requires
        l.valid(),
        0 <= x < l.width,
    ensures
        l.pushed(magnitudes).valid(),
        l.pushed(magnitudes).height(0, x) == level(magnitudes, x),
        forall|r: int|
            0 <= r < l.depth - 1 ==> l.pushed(magnitudes).height(r + 1, x) == #[trigger] l.height(
                r,
                x,
            ),
{
    let s = l.pushed(magnitudes);
    wraps_once(l.head + 1, l.depth);
    wraps_once(s.head + l.depth - 1, l.depth);
    law_cells_are_apart(l.width, l.depth, x, l.head);
    assert(s.ring(0) == l.head);
    assert forall|r: int| 0 <= r < l.depth - 1 implies s.height(r + 1, x) == #[trigger] l.height(
        r,
        x,
    ) by {
        wraps_once(l.head + l.depth - 1 - r, l.depth);
        wraps_once(s.head + l.depth - 1 - (r + 1), l.depth);
        assert(s.ring(r + 1) == l.ring(r));
        law_cells_are_apart(l.width, l.depth, x, l.ring(r));
    }
}

/// The landscape after several spectra, the first of which came first.
pub open spec fn pushed_by(l: Ridges, spectra: Seq<Seq<Float>>) -> Ridges
    decreases spectra.len(),
{
    if spectra.len() == 0 {
        l
    } else {
        pushed_by(l, spectra.drop_last()).pushed(spectra.last())
    }
}

/// Once as many spectra have come as the landscape has rows, it shows the
/// latest of them and nothing else.
pub proof fn law_ridges_are_the_latest_spectra(
    l: Ridges,
    spectra: Seq<Seq<Float>>,
    r: int,
    x: int,
)
    requires
        l.valid(),
        0 <= r < l.depth,
        r < spectra.len(),
        0 <= x < l.width,
    ensures
        pushed_by(l, spectra).valid(),
        pushed_by(l, spectra).width == l.width,
        pushed_by(l, spectra).depth == l.depth,
        pushed_by(l, spectra).height(r, x) == level(spectra[spectra.len() - 1 - r], x),
    decreases spectra.len(),
{
    let before = pushed_by(l, spectra.drop_last());
    pushed_shape(l, spectra.drop_last());
    law_ridges_scroll(before, spectra.last(), x);
    if r > 0 {
        law_ridges_are_the_latest_spectra(l, spectra.drop_last(), r - 1, x);
        assert(before.height(r - 1, x) == level(spectra[spectra.len() - 1 - r], x));
    }
}

proof fn pushed_shape(l: Ridges, spectra: Seq<Seq<Float>>)
    requires
        l.valid(),
    ensures
        pushed_by(l, spectra).valid(),
        pushed_by(l, spectra).width == l.width,
        pushed_by(l, spectra).depth == l.depth,
    decreases spectra.len(),
{
    if spectra.len() > 0 {
        pushed_shape(l, spectra.drop_last());
        law_ridges_scroll(pushed_by(l, spectra.drop_last()), spectra.last(), 0);
    }
}

/// Without rounding, the landscape reaches equally far to the left and to the
/// right, its columns are evenly spaced, and a row lies as far away as it is
/// old.
pub proof fn law_ridges_are_evenly_spaced<A: Arithmetic>(
    alu: &A,
    m: Reading,
    l: Ridges,
    x: int,
    r: int,
)
    requires
        exact(alu, m),
        2 <= l.width <= usize::MAX,
        0 <= x < l.width,
        0 <= r <= usize::MAX,
        m.has(l.place(alu, x, r).0),
        m.has(l.place(alu, x, r).2),
    ensures
        ({
            let p = l.place(alu, x, r);
            let reach = m.num(Float(WORLD_HALF_WIDTH));
            &&& times(m.num(p.0), whole(l.width - 1)) == times(whole(2 * x - (l.width - 1)), reach)
            &&& x == 0 ==> m.num(p.0) == -reach
            &&& x == l.width - 1 ==> m.num(p.0) == reach
            &&& m.num(p.2) == whole(r)
        }),
{
    let reach = m.num(Float(WORLD_HALF_WIDTH));
    let last = whole(l.width - 1);
    let q = alu.quotient(alu.of_index(x as usize), alu.of_index((l.width - 1) as usize));
    let across = alu.difference(q, Float(HALF));
    assert(l.place(alu, x, r).0 == alu.product(
        alu.product(across, Float(TWO)),
        Float(WORLD_HALF_WIDTH),
    ));
    assert(m.has(alu.product(across, Float(TWO))));
    spread_evenly(m.num(q), last, whole(x), reach);
    times_simple(m.num(across));
    times_simple(reach);
    times_simple(last);
    assert(whole(2 * x - (l.width - 1)) == whole(x) + whole(x) - last);
    if x == 0 {
        times_negated(last, reach);
        times_swaps(last, -reach);
        times_cancels(m.num(l.place(alu, x, r).0), -reach, last);
    }
    if x == l.width - 1 {
        times_swaps(last, reach);
        times_cancels(m.num(l.place(alu, x, r).0), reach, last);
    }
}

/// Without rounding, what is louder lies higher in the world, and full scale
/// has the greatest height. Lower levels are pressed down by a power, so that
/// peaks stand out.
pub proof fn law_louder_levels_lie_higher<A: Arithmetic>(
    alu: &A,
    m: Reading,
    l: Ridges,
    x: int,
    y: int,
    r: int,
)
    requires
        exact(alu, m),
        m.has(l.place(alu, x, r).1),
        m.has(l.place(alu, y, r).1),
        0real < m.num(l.height(r, x)),
        m.num(l.height(r, x)) < m.num(l.height(r, y)),
    ensures
        0real < m.num(l.place(alu, x, r).1),
        m.num(l.place(alu, x, r).1) < m.num(l.place(alu, y, r).1),
        m.num(l.height(r, y)) == 1real ==> m.num(l.place(alu, y, r).1) == m.num(
            Float(PEAK_HEIGHT),
        ),
        m.num(l.place(alu, x, r).1) == times(
            (m.pow)(m.num(l.height(r, x)), m.num(Float(SPIKE_GAMMA))),
            m.num(Float(PEAK_HEIGHT)),
        ),
{
    let (g, k) = (Float(SPIKE_GAMMA), Float(PEAK_HEIGHT));
    let (pa, pb) = (alu.power(l.height(r, x), g), alu.power(l.height(r, y), g));
    assert(l.place(alu, x, r).1 == alu.product(pa, k));
    assert(l.place(alu, y, r).1 == alu.product(pb, k));
    assert(m.has(pa) && m.has(pb) && m.has(g) && m.has(k));
    assert(!g.at_most(Float(ZERO)) && !k.at_most(Float(ZERO)));
    assert(0real < m.num(pa) && m.num(pa) < m.num(pb) && (m.num(l.height(r, y)) == 1real ==> m.num(
        pb,
    ) == 1real)) by {
        reveal(Reading::grows);
    }
    times_signs(m.num(pa), m.num(k));
    times_orders(m.num(pa), m.num(pb), m.num(k));
    times_simple(m.num(k));
}

/// The camera that the landscape is seen through.
pub open spec fn camera() -> Camera {
    Camera {
        height: Float(CAM_HEIGHT),
        setback: Float(CAM_SETBACK),
        pitch: Float(CAM_PITCH),
        focal: Float(FOCAL),
        lift: Float(HORIZON_LIFT),
    }
}

/// A vertex of the wireframe on the screen, if it can be seen.
pub open spec fn vertex<A: Arithmetic>(
    alu: &A,
    l: Ridges,
    screen: Screen,
    x: int,
    r: int,
) -> Option<Point> {
    projected(alu, camera(), screen, l.place(alu, x, r))
}

/// The wireframe of a landscape on a screen. Both lines that start at a vertex
/// have the color of its height.
pub open spec fn woven<A: Arithmetic>(alu: &A, l: Ridges, screen: Screen) -> Weave {
    let n = l.rows.len();
    let w = l.width;
    let colors = Seq::new(n, |i: int| heat(alu, l.height(i / w, i % w)));
    Weave {
        points: Seq::new(n, |i: int| vertex(alu, l, screen, i % w, i / w)),
        across: colors,
        along: colors,
        width: w,
        depth: l.depth,
    }
}

/// The wireframe shows each point of the surface where the camera sees it, and
/// the lines that start there in the color of its level.
pub proof fn law_wireframe_shows_the_ridges<A: Arithmetic>(
    alu: &A,
    l: Ridges,
    screen: Screen,
    x: int,
    r: int,
)
    requires
        l.valid(),
        0 <= x < l.width,
        0 <= r < l.depth,
    ensures
        ({
            let i = r * l.width + x;
            let w = woven(alu, l, screen);
            &&& w.valid()
            &&& w.points[i] == projected(alu, camera(), screen, l.place(alu, x, r))
            &&& w.across[i] == heat(alu, l.height(r, x))
            &&& w.along[i] == heat(alu, l.height(r, x))
        }),
{
    law_cells_are_apart(l.width, l.depth, x, r);
}

/// Whether a body shows a landscape on an area inside a frame.
pub open spec fn shows<A: Arithmetic>(alu: &A, l: Ridges, inner: Area, body: Body) -> bool {
    if !l.primed {
        body.is_text(warming_up())
    } else if l.width < 2 {
        body is Blank
    } else {
        let screen = canvas_on(alu, inner.width, inner.height);
        match body {
            Body::Canvas { x_bounds, y_bounds, lines } => {
                &&& x_bounds == (Double(0), screen.width)
                &&& y_bounds == (Double(0), screen.height)
                &&& lines@ == woven(alu, l, screen).strokes()
            },
            _ => false,
        }
    }
}

/// A rolling height-field built from successive spectra.
pub struct Terrain {
    rows: Vec<Float>,
    width: usize,
    depth: usize,
    head: usize,
    primed: bool,
}

impl vstd::view::View for Terrain {
    type V = Ridges;

    closed spec fn view(&self) -> Ridges {
        Ridges {
            rows: self.rows@,
            width: self.width as int,
            depth: self.depth as int,
            head: self.head as int,
            primed: self.primed,
        }
    }
}

/// The bytes that the deepest landscape takes that the digit keys make, per
/// band.
pub const DEEPEST_BYTES: usize = 36;

impl Terrain {
    /// Validity. The deepest landscape that the digit keys can ask for has to
    /// fit into memory.
    pub open spec fn wf(&self) -> bool {
        &&& self@.valid()
        &&& DEEPEST_BYTES * self@.width <= isize::MAX
        &&& self@.depth * self@.width <= usize::MAX
    }

    /// A flat landscape of rows of `width` bands, but at least one.
    pub fn new(width: usize) -> (t: Terrain)
        requires
            DEEPEST_BYTES * width <= isize::MAX,
        ensures
            t.wf(),
            t@ == Ridges::bare(
                if width > 0 {
                    width as int
                } else {
                    1
                },
            ),
    {
        let width: usize = if width > 0 {
            width
        } else {
            1
        };
        let t = Terrain {
            rows: vec![Float(ZERO); DEFAULT_DEPTH * width],
            width,
            depth: DEFAULT_DEPTH,
            head: 0,
            primed: false,
        };
        assert(t@.rows =~= flat(width as int, DEFAULT_DEPTH as int));
        t
    }

    /// Resizes the landscape to `depth` rows, clearing it. The next spectra
    /// fill it from scratch.
    pub fn set_depth(&mut self, depth: usize)
        requires
            old(self).wf(),
            depth > 0,
            depth * old(self)@.width <= usize::MAX,
        ensures
            final(self).wf(),
            final(self)@ == old(self)@.resized(depth as int),
    {
        if depth == self.depth {
            return;
        }
        let ghost before = self@;
        self.depth = depth;
        self.rows = vec![Float(ZERO); depth * self.width];
        self.head = 0;
        self.primed = false;
        assert(self@ =~= before.resized(depth as int));
    }

    /// Takes in the latest spectrum, scrolling the landscape by one row.
    pub fn push(&mut self, magnitudes: &[Float])
        requires
            old(self).wf(),
        ensures
            final(self).wf(),
            final(self)@ == old(self)@.pushed(magnitudes@),
    {
        let ghost before = self@;
        let w: usize = self.width;
        let d: usize = self.depth;
        let h: usize = self.head;
        let mut x: usize = 0;
        while x < w
            invariant
                self.wf(),
                before.valid(),
                w == self.width,
                d == self.depth,
                h == self.head,
                h < d,
                x <= w,
                before.width == w,
                before.depth == d,
                before.head == h,
                self@ == (Ridges { rows: self@.rows, ..before }),
                forall|i: int|
                    0 <= i < before.rows.len() ==> #[trigger] self@.rows[i] == if i / (w as int)
                        == h && i % (w as int) < x {
                        level(magnitudes@, i % (w as int))
                    } else {
                        before.rows[i]
                    },
            decreases w - x,
        {
            let to = cell_at(w, d, x, h);
            let value = level_of(magnitudes, x);
            let ghost was = self@;
            self.rows[to] = value;
            proof {
                law_cells_are_apart(w as int, d as int, x as int, h as int);
                assert forall|i: int| 0 <= i < before.rows.len() implies #[trigger] self@.rows[i]
                    == if i / (w as int) == h && i % (w as int) < x + 1 {
                    level(magnitudes@, i % (w as int))
                } else {
                    before.rows[i]
                } by {
                    if i / (w as int) == h && i % (w as int) == x {
                        lemma_fundamental_div_mod(i, w as int);
                        assert((w as int) * (h as int) == (h as int) * (w as int))
                            by (nonlinear_arith);
                        assert(i == to);
                    } else {
                        assert(i != to);
                        assert(self@.rows[i] == was.rows[i]);
                    }
                }
                assert(self@ =~= (Ridges { rows: self@.rows, ..before }));
            }
            x = x + 1;
        }
        proof {
            wraps_once(h + 1, d as int);
        }
        self.head = if h + 1 < d {
            h + 1
        } else {
            0
        };
        self.primed = true;
        proof {
            assert forall|i: int| 0 <= i < before.rows.len() implies #[trigger] (i % (w as int))
                < w by {
                lemma_mod_bound(i, w as int);
            }
            assert(self@ =~= before.pushed(magnitudes@));
        }
    }

    /// Band `x` of the row of age `r`.
    pub fn height(&self, r: usize, x: usize) -> (h: Float)
        requires
            self.wf(),
            r < self@.depth,
            x < self@.width,
        ensures
            h == self@.height(r as int, x as int),
    {
        proof {
            wraps_once(self.head + self.depth - 1 - r, self.depth as int);
        }
        let ring: usize = if self.head > r {
            self.head - 1 - r
        } else {
            self.depth - 1 - (r - self.head)
        };
        self.rows[cell_at(self.width, self.depth, x, ring)]
    }

    /// Where a point of the surface lies in the world.
    pub fn world<A: Arithmetic>(&self, alu: &A, x: usize, r: usize) -> (p: Place)
        requires
            self.wf(),
            r < self@.depth,
            x < self@.width,
        ensures
            steady(alu) ==> p == self@.place(alu, x as int, r as int),
    {
        let across = alu.sub(
            alu.div(alu.from_index(x), alu.from_index(self.width - 1)),
            Float(HALF),
        );
        let wx = alu.mul(alu.mul(across, Float(TWO)), Float(WORLD_HALF_WIDTH));
        let wy = alu.mul(
            alu.powf(self.height(r, x), Float(SPIKE_GAMMA)),
            Float(PEAK_HEIGHT),
        );
        (wx, wy, alu.from_index(r))
    }

    /// The wireframe of the landscape on a screen.
    pub fn wireframe<A: Arithmetic>(&self, alu: &A, screen: Screen) -> (mesh: Mesh)
        requires
            self.wf(),
        ensures
            mesh.wf(),
            mesh@.width == self@.width,
            mesh@.depth == self@.depth,
            steady(alu) ==> mesh@ == woven(alu, self@, screen),
    {
        let w: usize = self.width;
        let d: usize = self.depth;
        let eye = Camera {
            height: Float(CAM_HEIGHT),
            setback: Float(CAM_SETBACK),
            pitch: Float(CAM_PITCH),
            focal: Float(FOCAL),
            lift: Float(HORIZON_LIFT),
        };
        let mut points: Vec<Option<Point>> = Vec::new();
        let mut across: Vec<Color> = Vec::new();
        let mut along: Vec<Color> = Vec::new();
        let ghost l = self@;
        let ghost wanted = woven(alu, l, screen);
        let mut r: usize = 0;
        assert(0 * w == 0) by (nonlinear_arith);
        while r < d
            invariant
                self.wf(),
                l == self@,
                wanted == woven(alu, l, screen),
                w == self.width,
                d == self.depth,
                eye == camera(),
                r <= d,
                points@.len() == r * w,
                across@.len() == r * w,
                along@.len() == r * w,
                steady(alu) ==> forall|i: int|
                    0 <= i < r * w ==> #[trigger] points@[i] == wanted.points[i],
                steady(alu) ==> forall|i: int|
                    0 <= i < r * w ==> #[trigger] across@[i] == wanted.across[i],
                steady(alu) ==> forall|i: int|
                    0 <= i < r * w ==> #[trigger] along@[i] == wanted.along[i],
            decreases d - r,
        {
            let mut x: usize = 0;
            while x < w
                invariant
                    self.wf(),
                    l == self@,
                    wanted == woven(alu, l, screen),
                    w == self.width,
                    d == self.depth,
                    eye == camera(),
                    r < d,
                    x <= w,
                    points@.len() == r * w + x,
                    across@.len() == r * w + x,
                    along@.len() == r * w + x,
                    steady(alu) ==> forall|i: int|
                        0 <= i < r * w + x ==> #[trigger] points@[i] == wanted.points[i],
                    steady(alu) ==> forall|i: int|
                        0 <= i < r * w + x ==> #[trigger] across@[i] == wanted.across[i],
                    steady(alu) ==> forall|i: int|
                        0 <= i < r * w + x ==> #[trigger] along@[i] == wanted.along[i],
                decreases w - x,
            {
                proof {
                    law_cells_are_apart(w as int, d as int, x as int, r as int);
                }
                points.push(eye.project(alu, screen, self.world(alu, x, r)));
                let color = heat_color(alu, self.height(r, x));
                across.push(color);
                along.push(color);
                x = x + 1;
            }
            assert(r * w + w == (r + 1) * w) by (nonlinear_arith);
            r = r + 1;
        }
        let mesh = Mesh { points, across, along, width: w, depth: d };
        assert(steady(alu) ==> mesh@ =~= wanted);
        mesh
    }

    /// Draws the wireframe into an area.
    pub fn render_wireframe<A: Arithmetic>(&self, alu: &A, inner: Area) -> (body: Body)
        requires
            self.wf(),
        ensures
            !self@.primed || self@.width < 2 ==> body is Blank,
            self@.primed && self@.width >= 2 ==> body is Canvas,
            steady(alu) && self@.primed ==> shows(alu, self@, inner, body),
    {
        if !self.primed || self.width < 2 {
            return Body::Blank;
        }
        let screen = Screen::new(alu, inner.width, inner.height);
        let mesh = self.wireframe(alu, screen);
        Body::Canvas {
            x_bounds: (Double(0), screen.width),
            y_bounds: (Double(0), screen.height),
            lines: mesh.draw(),
        }
    }
}

impl crate::view::View for Terrain {
    open spec fn valid(&self) -> bool {
        self.wf()
    }

    open spec fn named(&self) -> Seq<char> {
        "3D terrain"@
    }

    fn name(&self) -> &str {
        "3D terrain"
    }

    fn tick<A: Arithmetic>(&mut self, alu: &A, ctx: &Ctx)
        ensures
            final(self)@ == old(self)@.ticked(ctx.levels()),
    {
        if let Some(spectrum) = ctx.spectrum {
            let row = magnitudes(spectrum.bands());
            self.push(&row);
        }
    }

    /// Keys 1 to 9 set the number of rows to that value.
    fn handle_key<A: Arithmetic>(&mut self, alu: &A, key: Key) -> (r: bool)
        ensures
            r == (key.digit() is Some),
            final(self)@ == old(self)@.keyed(key),
    {
        match key.digit_value() {
            Some(n) => {
                proof {
                    assert(n * self@.width <= usize::MAX) by (nonlinear_arith)
                        requires
                            n <= 9,
                            self@.width > 0,
                            36 * self@.width <= isize::MAX,
                    ;
                }
                self.set_depth(n);
                true
            },
            None => false,
        }
    }

    fn render<A: Arithmetic>(&self, alu: &A, area: Area, ctx: &Ctx) -> (panes: Vec<Pane>)
        ensures
            panes@.len() == 1,
            panes@[0].frame.goes_round(area, self.named()),
            !self@.primed ==> panes@[0].body.is_text(warming_up()),
            steady(alu) ==> shows(alu, self@, inside(area), panes@[0].body),
    {
        let frame = framed(area, "3D terrain");
        let body = if self.primed {
            self.render_wireframe(alu, frame.inner)
        } else {
            placeholder_text("warming up…")
        };
        vec![Pane { frame, body }]
    }
}

} // verus!
