//! Wireframe drawings: a perspective camera and the lines between neighboring
//! points of a grid.

use vstd::prelude::*;

use crate::arith::{steady, Arithmetic};
use crate::color::Color;
use crate::exact::{
    exact, is_over, on_the_circle, over, over_undone, times, times_groups, times_negated,
    times_signs, times_simple, times_spreads, times_swaps, turning_keeps_length, whole, Reading,
};
use crate::float::{Double, Float};
use crate::grid::{cell, cell_at, law_cells_are_apart};

verus! {

/// Encoding of `0.5` in double precision.
pub const WIDE_HALF: u64 = 0x3fe0_0000_0000_0000;

/// Encoding of `4.0` in double precision: the square of how much taller than
/// wide a terminal cell is.
pub const CELL_ASPECT_SQUARED: u64 = 0x4010_0000_0000_0000;

/// Encoding of `0.05`: what is not farther in front of the camera than this is
/// not drawn.
pub const NEAR_PLANE: u32 = 0x3d4c_cccd;

/// A place in the world: to the right, up, and away.
pub type Place = (Float, Float, Float);

/// A place on a canvas: to the right and up.
pub type Point = (Double, Double);

/// A straight line on a canvas.
#[derive(Clone, Copy, PartialEq, Eq, Structural, Debug)]
pub struct Segment {
    pub x1: Double,
    pub y1: Double,
    pub x2: Double,
    pub y2: Double,
    pub color: Color,
}

/// A camera above the ground that looks ahead and down.
#[derive(Clone, Copy, PartialEq, Eq, Structural, Debug)]
pub struct Camera {
    /// How far above the ground it stands.
    pub height: Float,
    /// How far it stands before the nearest row.
    pub setback: Float,
    /// The angle by which it looks down.
    pub pitch: Float,
    pub focal: Float,
    /// By how much the picture is moved up.
    pub lift: Float,
}

/// A canvas that fills an area of terminal cells, each of two by four dots.
#[derive(Clone, Copy, PartialEq, Eq, Structural, Debug)]
pub struct Screen {
    /// Dots from left to right.
    pub width: Double,
    /// Dots from bottom to top.
    pub height: Double,
    /// What makes up for cells that are taller than wide.
    pub aspect: Double,
}

/// How many dots an extent of cells has, but at least one.
pub open spec fn dots(cells: u16, per_cell: int) -> u32 {
    if cells == 0 {
        1
    } else {
        (cells * per_cell) as u32
    }
}

/// The canvas on an area of the given width and height.
pub open spec fn canvas_on<A: Arithmetic>(alu: &A, width: u16, height: u16) -> Screen {
    let sx = alu.wide_of(dots(width, 2));
    let sy = alu.wide_of(dots(height, 4));
    Screen {
        width: sx,
        height: sy,
        aspect: alu.wide_product(alu.wide_quotient(sy, sx), Double(CELL_ASPECT_SQUARED)),
    }
}

impl Screen {
    /// The canvas on an area of the given width and height.
    pub fn new<A: Arithmetic>(alu: &A, width: u16, height: u16) -> (r: Screen)
        ensures
            steady(alu) ==> r == canvas_on(alu, width, height),
    {
        let across: u32 = if width == 0 {
            1
        } else {
            width as u32 * 2
        };
        let down: u32 = if height == 0 {
            1
        } else {
            height as u32 * 4
        };
        let sx = alu.wide_from(across);
        let sy = alu.wide_from(down);
        let aspect = alu.wide_mul(alu.wide_div(sy, sx), Double(CELL_ASPECT_SQUARED));
        Screen { width: sx, height: sy, aspect }
    }
}

/// How a place stands to the camera: how far above the line of sight, and how
/// far ahead.
pub open spec fn sighted<A: Arithmetic>(alu: &A, camera: Camera, place: Place) -> (Float, Float) {
    let ty = alu.difference(place.1, camera.height);
    let tz = alu.sum(place.2, camera.setback);
    let sp = alu.sine(camera.pitch);
    let cp = alu.cosine(camera.pitch);
    (
        alu.difference(alu.product(ty, cp), alu.product(tz, sp)),
        alu.sum(alu.product(ty, sp), alu.product(tz, cp)),
    )
}

/// A coordinate of `-1.0..=1.0` as a place on an extent of dots.
pub open spec fn on_extent<A: Arithmetic>(alu: &A, ndc: Double, extent: Double) -> Double {
    alu.wide_product(
        alu.wide_sum(alu.wide_product(ndc, Double(WIDE_HALF)), Double(WIDE_HALF)),
        extent,
    )
}

/// Where a place appears on the screen, if it lies in front of the camera.
pub open spec fn projected<A: Arithmetic>(
    alu: &A,
    camera: Camera,
    screen: Screen,
    place: Place,
) -> Option<Point> {
    let (ey, ez) = sighted(alu, camera, place);
    if ez.at_most(Float(NEAR_PLANE)) {
        None
    } else {
        let right = alu.quotient(alu.product(camera.focal, place.0), ez);
        let up = alu.sum(alu.quotient(alu.product(camera.focal, ey), ez), camera.lift);
        Some(
            (
                on_extent(alu, alu.wide_product(alu.wide(right), screen.aspect), screen.width),
                on_extent(alu, alu.wide(up), screen.height),
            ),
        )
    }
}

/// How a place lies to the camera before it looks down: how far above it, and
/// how far ahead.
pub open spec fn from_camera(m: Reading, camera: Camera, place: Place) -> (real, real) {
    (m.num(place.1) - m.num(camera.height), m.num(place.2) + m.num(camera.setback))
}

/// Without rounding, a pitched camera turns the world: distances from it stay
/// the same, what lies on its line of sight at a distance is straight ahead at
/// that distance, and what lies at right angles above that line is above.
pub proof fn law_camera_turns_the_world<A: Arithmetic>(
    alu: &A,
    m: Reading,
    camera: Camera,
    place: Place,
    t: real,
)
    requires
        exact(alu, m),
        m.has(sighted(alu, camera, place).0),
        m.has(sighted(alu, camera, place).1),
    ensures
        ({
            let (ty, tz) = from_camera(m, camera, place);
            let (ey, ez) = sighted(alu, camera, place);
            let (sp, cp) = ((m.sin)(m.num(camera.pitch)), (m.cos)(m.num(camera.pitch)));
            &&& times(m.num(ey), m.num(ey)) + times(m.num(ez), m.num(ez)) == times(ty, ty) + times(
                tz,
                tz,
            )
            &&& ty == times(t, sp) && tz == times(t, cp) ==> m.num(ey) == 0real && m.num(ez) == t
            &&& ty == times(t, cp) && tz == -times(t, sp) ==> m.num(ey) == t && m.num(ez) == 0real
        }),
{
    let (ty, tz) = from_camera(m, camera, place);
    let (sp, cp) = ((m.sin)(m.num(camera.pitch)), (m.cos)(m.num(camera.pitch)));
    let (ey, ez) = sighted(alu, camera, place);
    assert(m.num(ey) == times(ty, cp) - times(tz, sp));
    assert(m.num(ez) == times(ty, sp) + times(tz, cp));
    on_the_circle(m, m.num(camera.pitch));
    turning_keeps_length(ty, tz, cp, sp);
    times_groups(t, sp, cp);
    times_groups(t, cp, sp);
    times_swaps(sp, cp);
    times_groups(t, sp, sp);
    times_groups(t, cp, cp);
    times_spreads(t, times(sp, sp), times(cp, cp));
    times_simple(t);
    times_negated(times(t, sp), sp);
    times_negated(times(t, sp), cp);
}

proof fn extent_is_exact<A: Arithmetic>(alu: &A, m: Reading, ndc: Double, extent: Double)
    requires
        exact(alu, m),
        m.wide_has(on_extent(alu, ndc, extent)),
    ensures
        m.wide_has(ndc),
        times(2real, m.wide_num(on_extent(alu, ndc, extent))) == times(
            m.wide_num(ndc) + 1real,
            m.wide_num(extent),
        ),
{
    let (n, e) = (m.wide_num(ndc), m.wide_num(extent));
    let h = 1real / 2real;
    let inner = times(n, h) + h;
    times_spreads(n, h, h);
    times_simple(n);
    assert(h + h == 1real);
    assert(inner + inner == n + 1real);
    times_spreads(e, inner, inner);
    times_simple(times(inner, e));
    assert(m.wide_num(on_extent(alu, ndc, extent)) == times(inner, e));
}

/// Without rounding, the picture is in perspective: on a canvas that goes from
/// -1 to 1 in both directions, a place in front of the camera appears at its
/// distances to the right of and above the line of sight, each over how far
/// ahead it lies, times the focal length. The picture is moved up by the lift
/// and spread out sideways by the aspect.
pub proof fn law_picture_is_in_perspective<A: Arithmetic>(
    alu: &A,
    m: Reading,
    camera: Camera,
    screen: Screen,
    place: Place,
)
    requires
        exact(alu, m),
        projected(alu, camera, screen, place) matches Some(p) && m.wide_has(p.0) && m.wide_has(p.1),
    ensures
        ({
            let (ey, ez) = sighted(alu, camera, place);
            let p = projected(alu, camera, screen, place)->0;
            let right = over(times(m.num(camera.focal), m.num(place.0)), m.num(ez));
            let up = over(times(m.num(camera.focal), m.num(ey)), m.num(ez));
            &&& m.has(ey) && m.has(ez)
            &&& Float(NEAR_PLANE).below(ez)
            &&& times(2real, m.wide_num(p.0)) == times(
                times(right, m.wide_num(screen.aspect)) + 1real,
                m.wide_num(screen.width),
            )
            &&& times(2real, m.wide_num(p.1)) == times(
                up + m.num(camera.lift) + 1real,
                m.wide_num(screen.height),
            )
        }),
{
    let (ey, ez) = sighted(alu, camera, place);
    let right = alu.quotient(alu.product(camera.focal, place.0), ez);
    let rise = alu.quotient(alu.product(camera.focal, ey), ez);
    let up = alu.sum(rise, camera.lift);
    let across = alu.wide_product(alu.wide(right), screen.aspect);
    extent_is_exact(alu, m, across, screen.width);
    extent_is_exact(alu, m, alu.wide(up), screen.height);
    assert(m.has(right) && m.has(up) && m.has(rise));
    is_over(m.num(right), times(m.num(camera.focal), m.num(place.0)), m.num(ez));
    is_over(m.num(rise), times(m.num(camera.focal), m.num(ey)), m.num(ez));
}

/// Everything that lies farther in front of the camera than the near plane can
/// be seen, and nothing else.
pub proof fn law_what_lies_ahead_is_seen<A: Arithmetic>(
    alu: &A,
    camera: Camera,
    screen: Screen,
    place: Place,
)
    requires
        !sighted(alu, camera, place).1.nan(),
    ensures
        projected(alu, camera, screen, place) is Some <==> Float(0x3d4c_cccd).below(
            sighted(alu, camera, place).1,
        ),
{
}

/// Without rounding, places on the same ray from the camera appear at the same
/// point of the picture.
pub proof fn law_rays_are_points<A: Arithmetic>(
    alu: &A,
    m: Reading,
    camera: Camera,
    screen: Screen,
    near: Place,
    far: Place,
    t: real,
)
    requires
        exact(alu, m),
        t > 0real,
        projected(alu, camera, screen, near) matches Some(p) && m.wide_has(p.0) && m.wide_has(p.1),
        projected(alu, camera, screen, far) matches Some(p) && m.wide_has(p.0) && m.wide_has(p.1),
        m.num(far.0) == times(t, m.num(near.0)),
        from_camera(m, camera, far).0 == times(t, from_camera(m, camera, near).0),
        from_camera(m, camera, far).1 == times(t, from_camera(m, camera, near).1),
        m.wide_num(screen.width) > 0real,
        m.wide_num(screen.height) > 0real,
    ensures
        ({
            let p = projected(alu, camera, screen, near)->0;
            let q = projected(alu, camera, screen, far)->0;
            m.wide_num(p.0) == m.wide_num(q.0) && m.wide_num(p.1) == m.wide_num(q.1)
        }),
{
    law_picture_is_in_perspective(alu, m, camera, screen, near);
    law_picture_is_in_perspective(alu, m, camera, screen, far);
    let (sp, cp) = ((m.sin)(m.num(camera.pitch)), (m.cos)(m.num(camera.pitch)));
    let (ty, tz) = from_camera(m, camera, near);
    times_groups(t, ty, cp);
    times_groups(t, tz, sp);
    times_groups(t, ty, sp);
    times_groups(t, tz, cp);
    times_spreads(t, times(ty, cp), times(tz, sp));
    times_spreads(t, times(ty, sp), times(tz, cp));
    let (ey, ez) = (m.num(sighted(alu, camera, near).0), m.num(sighted(alu, camera, near).1));
    let f = m.num(camera.focal);
    assert(m.num(sighted(alu, camera, far).0) == times(t, ey));
    assert(m.num(sighted(alu, camera, far).1) == times(t, ez));
    in_proportion(t, times(f, ey), ez);
    in_proportion(t, times(f, m.num(near.0)), ez);
    times_groups(f, t, ey);
    times_swaps(f, t);
    times_groups(t, f, ey);
    times_groups(f, t, m.num(near.0));
    times_groups(t, f, m.num(near.0));
    let p = projected(alu, camera, screen, near)->0;
    let q = projected(alu, camera, screen, far)->0;
    times_simple(m.wide_num(p.0));
    times_simple(m.wide_num(q.0));
    times_simple(m.wide_num(p.1));
    times_simple(m.wide_num(q.1));
}

/// `(t * x) / (t * y) == x / y`.
proof fn in_proportion(t: real, x: real, y: real)
    requires
        t > 0real,
        y != 0real,
    ensures
        over(times(t, x), times(t, y)) == over(x, y),
{
    let q = over(x, y);
    over_undone(x, y);
    times_swaps(q, times(t, y));
    times_groups(t, y, q);
    times_swaps(y, q);
    times_signs(t, y);
    is_over(q, times(t, x), times(t, y));
}

/// Without rounding, a canvas has two dots across and four up in each cell, and
/// its aspect makes up for cells that are twice as tall as wide, twice over.
pub proof fn law_canvas_fits_the_cells<A: Arithmetic>(
    alu: &A,
    m: Reading,
    width: u16,
    height: u16,
)
    requires
        exact(alu, m),
        width > 0,
        height > 0,
        m.wide_has(canvas_on(alu, width, height).aspect),
    ensures
        ({
            let s = canvas_on(alu, width, height);
            &&& m.wide_num(s.width) == whole(2 * width)
            &&& m.wide_num(s.height) == whole(4 * height)
            &&& times(m.wide_num(s.aspect), m.wide_num(s.width)) == times(
                4real,
                m.wide_num(s.height),
            )
        }),
{
    let s = canvas_on(alu, width, height);
    let q = alu.wide_quotient(s.height, s.width);
    assert(s.aspect == alu.wide_product(q, Double(CELL_ASPECT_SQUARED)));
    times_swaps(m.wide_num(q), 4real);
    times_groups(4real, m.wide_num(q), m.wide_num(s.width));
}

fn place_on<A: Arithmetic>(alu: &A, ndc: Double, extent: Double) -> (r: Double)
    ensures
        steady(alu) ==> r == on_extent(alu, ndc, extent),
{
    alu.wide_mul(
        alu.wide_add(alu.wide_mul(ndc, Double(WIDE_HALF)), Double(WIDE_HALF)),
        extent,
    )
}

impl Camera {
    /// Projects a place onto the screen.
    pub fn project<A: Arithmetic>(&self, alu: &A, screen: Screen, place: Place) -> (r: Option<
        Point,
    >)
        ensures
            steady(alu) ==> r == projected(alu, *self, screen, place),
    {
        let ty = alu.sub(place.1, self.height);
        let tz = alu.add(place.2, self.setback);
        let sp = alu.sin(self.pitch);
        let cp = alu.cos(self.pitch);
        let ey = alu.sub(alu.mul(ty, cp), alu.mul(tz, sp));
        let ez = alu.add(alu.mul(ty, sp), alu.mul(tz, cp));
        if ez.le(Float(NEAR_PLANE)) {
            return None;
        }
        let right = alu.div(alu.mul(self.focal, place.0), ez);
        let up = alu.add(alu.div(alu.mul(self.focal, ey), ez), self.lift);
        let px = place_on(alu, alu.wide_mul(alu.widen(right), screen.aspect), screen.width);
        let py = place_on(alu, alu.widen(up), screen.height);
        Some((px, py))
    }
}

/// The line between two points, if both can be seen.
pub open spec fn stroke(from: Option<Point>, to: Option<Point>, color: Color) -> Seq<Segment> {
    match (from, to) {
        (Some(a), Some(b)) => seq![Segment { x1: a.0, y1: a.1, x2: b.0, y2: b.1, color }],
        _ => Seq::empty(),
    }
}

/// A grid of points, and the colors of the lines that start at each of them:
/// `across` to its neighbor in the next column, `along` to its neighbor in the
/// row before.
#[verifier::ext_equal]
pub struct Weave {
    pub points: Seq<Option<Point>>,
    pub across: Seq<Color>,
    pub along: Seq<Color>,
    pub width: int,
    pub depth: int,
}

impl Weave {
    pub open spec fn valid(self) -> bool {
        &&& self.width > 0
        &&& self.depth >= 0
        &&& self.points.len() == self.depth * self.width
        &&& self.across.len() == self.depth * self.width
        &&& self.along.len() == self.depth * self.width
    }

    /// The lines that start at column `x` of row `r`.
    pub open spec fn strokes_from(self, x: int, r: int) -> Seq<Segment> {
        let i = cell(self.width, x, r);
        let right = if x + 1 < self.width {
            stroke(self.points[i], self.points[cell(self.width, x + 1, r)], self.across[i])
        } else {
            Seq::empty()
        };
        let near = if r > 0 {
            stroke(self.points[i], self.points[cell(self.width, x, r - 1)], self.along[i])
        } else {
            Seq::empty()
        };
        right + near
    }

    /// The lines that start in the first `n` columns of row `r`.
    pub open spec fn strokes_of_row(self, r: int, n: nat) -> Seq<Segment>
        decreases n,
    {
        if n == 0 {
            Seq::empty()
        } else {
            self.strokes_of_row(r, (n - 1) as nat) + self.strokes_from(n - 1, r)
        }
    }

    /// The lines of the first `rows` rows, the farthest row first.
    pub open spec fn strokes_of_rows(self, rows: nat) -> Seq<Segment>
        decreases rows,
    {
        if rows == 0 {
            Seq::empty()
        } else {
            self.strokes_of_row(rows - 1, self.width as nat) + self.strokes_of_rows(
                (rows - 1) as nat,
            )
        }
    }

    /// The lines in the order in which they are drawn: back to front, and in a
    /// row from left to right.
    pub open spec fn strokes(self) -> Seq<Segment> {
        self.strokes_of_rows(self.depth as nat)
    }
}

/// A wireframe to draw.
pub struct Mesh {
    pub points: Vec<Option<Point>>,
    pub across: Vec<Color>,
    pub along: Vec<Color>,
    pub width: usize,
    pub depth: usize,
}

impl View for Mesh {
    type V = Weave;

    open spec fn view(&self) -> Weave {
        Weave {
            points: self.points@,
            across: self.across@,
            along: self.along@,
            width: self.width as int,
            depth: self.depth as int,
        }
    }
}

impl Mesh {
    pub open spec fn wf(&self) -> bool {
        &&& self@.valid()
        &&& self@.depth * self@.width <= usize::MAX
    }

    /// Draws the mesh.
    pub fn draw(&self) -> (out: Vec<Segment>)
        requires
            self.wf(),
        ensures
            out@ == self@.strokes(),
    {
        let w: usize = self.width;
        let d: usize = self.depth;
        let mut out: Vec<Segment> = Vec::new();
        let mut r: usize = d;
        assert(out@ + self@.strokes() =~= self@.strokes());
        while r > 0
            invariant
                self.wf(),
                w == self.width,
                d == self.depth,
                r <= d,
                out@ + self@.strokes_of_rows(r as nat) == self@.strokes(),
            decreases r,
        {
            r = r - 1;
            let ghost before = out@;
            let mut x: usize = 0;
            assert(before + self@.strokes_of_row(r as int, 0) =~= before);
            while x < w
                invariant
                    self.wf(),
                    w == self.width,
                    d == self.depth,
                    r < d,
                    x <= w,
                    out@ == before + self@.strokes_of_row(r as int, x as nat),
                decreases w - x,
            {
                let ghost so_far = out@;
                let i = cell_at(w, d, x, r);
                if let Some(from) = self.points[i] {
                    if x + 1 < w {
                        if let Some(to) = self.points[cell_at(w, d, x + 1, r)] {
                            out.push(
                                Segment {
                                    x1: from.0,
                                    y1: from.1,
                                    x2: to.0,
                                    y2: to.1,
                                    color: self.across[i],
                                },
                            );
                        }
                    }
                    if r > 0 {
                        if let Some(to) = self.points[cell_at(w, d, x, r - 1)] {
                            out.push(
                                Segment {
                                    x1: from.0,
                                    y1: from.1,
                                    x2: to.0,
                                    y2: to.1,
                                    color: self.along[i],
                                },
                            );
                        }
                    }
                }
                assert(out@ =~= so_far + self@.strokes_from(x as int, r as int));
                x = x + 1;
                assert(out@ =~= before + self@.strokes_of_row(r as int, x as nat));
            }
            assert(out@ + self@.strokes_of_rows(r as nat) =~= before + self@.strokes_of_rows(
                (r + 1) as nat,
            ));
        }
        assert(out@ + self@.strokes_of_rows(0) =~= out@);
        out
    }
}

/// A wireframe has at most two lines for each of its points.
pub proof fn law_lines_are_bounded(weave: Weave)
    requires
        weave.valid(),
    ensures
        weave.strokes().len() <= 2 * weave.points.len(),
{
    rows_are_bounded(weave, weave.depth as nat);
}

proof fn row_is_bounded(weave: Weave, r: int, n: nat)
    ensures
        weave.strokes_of_row(r, n).len() <= 2 * n,
    decreases n,
{
    if n > 0 {
        row_is_bounded(weave, r, (n - 1) as nat);
    }
}

proof fn rows_are_bounded(weave: Weave, rows: nat)
    requires
        weave.width > 0,
    ensures
        weave.strokes_of_rows(rows).len() <= 2 * (rows * weave.width),
    decreases rows,
{
    if rows > 0 {
        rows_are_bounded(weave, (rows - 1) as nat);
        row_is_bounded(weave, rows - 1, weave.width as nat);
        assert(rows * weave.width == (rows - 1) * weave.width + weave.width) by (nonlinear_arith);
    } else {
        assert(0 * weave.width == 0) by (nonlinear_arith);
    }
}

/// Where every point of a wireframe can be seen, each point is joined to its
/// neighbor in the next column and to its neighbor in the row before, and
/// nothing else starts there.
pub proof fn law_a_wireframe_in_view_is_whole(weave: Weave, x: int, r: int)
    requires
        weave.valid(),
        0 <= x < weave.width,
        0 <= r < weave.depth,
        forall|i: int| 0 <= i < weave.points.len() ==> (#[trigger] weave.points[i]) is Some,
    ensures
        weave.strokes_from(x, r).len() == (if x + 1 < weave.width {
            1int
        } else {
            0
        }) + (if r > 0 {
            1int
        } else {
            0
        }),
        ({
            let i = r * weave.width + x;
            let lines = weave.strokes_from(x, r);
            &&& x + 1 < weave.width ==> joins(
                lines[0],
                weave.points[i],
                weave.points[i + 1],
                weave.across[i],
            )
            &&& r > 0 ==> joins(
                lines.last(),
                weave.points[i],
                weave.points[i - weave.width],
                weave.along[i],
            )
        }),
{
    let w = weave.width;
    let d = weave.depth;
    law_cells_are_apart(w, d, x, r);
    if x + 1 < w {
        law_cells_are_apart(w, d, x + 1, r);
    }
    if r > 0 {
        law_cells_are_apart(w, d, x, r - 1);
        assert((r - 1) * w + x == r * w + x - w) by (nonlinear_arith);
    }
}

/// How many lines there are in the first `n` columns of a row that can be seen
/// as a whole.
proof fn row_is_whole(weave: Weave, r: int, n: nat)
    requires
        weave.valid(),
        0 <= r < weave.depth,
        n <= weave.width,
        forall|i: int| 0 <= i < weave.points.len() ==> (#[trigger] weave.points[i]) is Some,
    ensures
        weave.strokes_of_row(r, n).len() == (if r > 0 {
            n as int
        } else {
            0
        }) + (if n == weave.width {
            n - 1
        } else {
            n as int
        }),
    decreases n,
{
    if n > 0 {
        row_is_whole(weave, r, (n - 1) as nat);
        law_a_wireframe_in_view_is_whole(weave, n - 1, r);
    }
}

/// A wireframe of which every point can be seen has all lines of the grid: in
/// each row one less than there are columns, and between each two rows one for
/// each column.
pub proof fn law_a_wireframe_in_view_has_all_lines(weave: Weave)
    requires
        weave.valid(),
        weave.depth > 0,
        forall|i: int| 0 <= i < weave.points.len() ==> (#[trigger] weave.points[i]) is Some,
    ensures
        weave.strokes().len() == weave.depth * (weave.width - 1) + (weave.depth - 1) * weave.width,
{
    rows_are_whole(weave, weave.depth as nat);
}

proof fn rows_are_whole(weave: Weave, rows: nat)
    requires
        weave.valid(),
        0 < rows <= weave.depth,
        forall|i: int| 0 <= i < weave.points.len() ==> (#[trigger] weave.points[i]) is Some,
    ensures
        weave.strokes_of_rows(rows).len() == rows * (weave.width - 1) + (rows - 1) * weave.width,
    decreases rows,
{
    let w = weave.width;
    row_is_whole(weave, rows - 1, w as nat);
    assert(weave.strokes_of_rows(0).len() == 0);
    assert(rows * (w - 1) == (rows - 1) * (w - 1) + (w - 1)) by (nonlinear_arith);
    if rows > 1 {
        rows_are_whole(weave, (rows - 1) as nat);
        assert((rows - 1) * w == (rows - 2) * w + w) by (nonlinear_arith);
    } else {
        assert(0 * (w - 1) == 0 && 0 * w == 0) by (nonlinear_arith);
    }
}

/// Whether a line joins two points, in the given color.
pub open spec fn joins(line: Segment, from: Option<Point>, to: Option<Point>, color: Color) -> bool {
    &&& from matches Some(a) && line.x1 == a.0 && line.y1 == a.1
    &&& to matches Some(b) && line.x2 == b.0 && line.y2 == b.1
    &&& line.color == color
}

/// Whether a line joins the point in column `x` of row `r` to its neighbor in
/// the next column or in the row before, in the color of that line.
pub open spec fn is_strand(weave: Weave, line: Segment, x: int, r: int) -> bool {
    let i = r * weave.width + x;
    &&& 0 <= x < weave.width
    &&& 0 <= r < weave.depth
    &&& {
        ||| x + 1 < weave.width && joins(line, weave.points[i], weave.points[i + 1], weave.across[i])
        ||| r > 0 && joins(line, weave.points[i], weave.points[i - weave.width], weave.along[i])
    }
}

/// Every line of a wireframe joins two neighboring points, and no line of a
/// farther row is drawn after one of a nearer row, where it would cover it.
pub proof fn law_lines_join_neighbors(weave: Weave, j: int, k: int) -> (at: ((int, int), (int, int)))
    requires
        weave.valid(),
        0 <= j <= k < weave.strokes().len(),
    ensures
        is_strand(weave, weave.strokes()[j], at.0.0, at.0.1),
        is_strand(weave, weave.strokes()[k], at.1.0, at.1.1),
        at.0.1 >= at.1.1,
{
    rows_join_neighbors(weave, weave.depth as nat, j, k)
}

proof fn row_joins_neighbors(weave: Weave, r: int, n: nat, j: int) -> (x: int)
    requires
        weave.valid(),
        0 <= r < weave.depth,
        n <= weave.width,
        0 <= j < weave.strokes_of_row(r, n).len(),
    ensures
        is_strand(weave, weave.strokes_of_row(r, n)[j], x, r),
    decreases n,
{
    let before = weave.strokes_of_row(r, (n - 1) as nat);
    if j < before.len() {
        row_joins_neighbors(weave, r, (n - 1) as nat, j)
    } else {
        let w = weave.width;
        let x = n - 1;
        let own = weave.strokes_from(x, r);
        let line = own[j - before.len()];
        assert(weave.strokes_of_row(r, n)[j] == line);
        assert(r > 0 ==> (r - 1) * w + x == r * w + x - w) by (nonlinear_arith);
        x
    }
}

proof fn rows_join_neighbors(weave: Weave, rows: nat, j: int, k: int) -> (at: (
    (int, int),
    (int, int),
))
    requires
        weave.valid(),
        rows <= weave.depth,
        0 <= j <= k < weave.strokes_of_rows(rows).len(),
    ensures
        is_strand(weave, weave.strokes_of_rows(rows)[j], at.0.0, at.0.1),
        is_strand(weave, weave.strokes_of_rows(rows)[k], at.1.0, at.1.1),
        at.0.1 >= at.1.1,
        at.0.1 < rows,
    decreases rows,
{
    let w = weave.width as nat;
    let far = weave.strokes_of_row(rows - 1, w);
    let rest = weave.strokes_of_rows((rows - 1) as nat);
    if k < far.len() {
        let x = row_joins_neighbors(weave, rows - 1, w, j);
        let y = row_joins_neighbors(weave, rows - 1, w, k);
        ((x, rows - 1), (y, rows - 1))
    } else if j < far.len() {
        let x = row_joins_neighbors(weave, rows - 1, w, j);
        let at = rows_join_neighbors(weave, (rows - 1) as nat, k - far.len(), k - far.len());
        ((x, rows - 1), at.1)
    } else {
        rows_join_neighbors(weave, (rows - 1) as nat, j - far.len(), k - far.len())
    }
}

} // verus!
