//! The spectral landscape: successive spectra as a rolling surface in three
//! dimensions, lit from one side.

use vstd::arithmetic::div_mod::{lemma_fundamental_div_mod, lemma_mod_bound};
use vstd::prelude::*;

use crate::arith::{steady, Arithmetic};
use crate::color::{surface, surface_color, Color};
use crate::exact::{
    exact, is_near, is_over, on_the_circle, on_the_circle_within_one, opposite_angle, over, parts_of_a_turn,
    sum_of_angles, times, times_cancels, times_groups, times_negated, times_orders, times_regroups,
    times_signs, times_simple, times_spreads, times_swaps, turning_keeps_length, whole, wraps,
    Reading,
};
use crate::fft::TAU;
use crate::float::{Double, Float, FOUR, HALF, ONE, TWO, ZERO};
use crate::grid::{cell, cell_at, law_cells_are_apart, wraps_once};
use crate::key::Key;
use crate::layout::{inside, Area};
use crate::mesh::{canvas_on, projected, Camera, Mesh, Place, Point, Screen, Weave};
use crate::view::{framed, magnitudes, placeholder_text, Body, Ctx, Pane};

verus! {

/// How many rows the landscape has at first.
pub const DEFAULT_DEPTH: usize = 9;

/// How many rows a step on the digit keys adds.
pub const DEPTH_STEP: usize = 2;

/// Encoding of `4.0`, the height of the highest peak.
pub const PEAK_HEIGHT: u32 = 0x4080_0000;

/// Encoding of `2.4`: the power that heights are raised to, so that peaks
/// stand out.
pub const SPIKE_GAMMA: u32 = 0x4019_999a;

/// Encoding of `2.0`.
pub const CAM_HEIGHT: u32 = 0x4000_0000;

/// Encoding of `10.0`.
pub const CAM_SETBACK: u32 = 0x4120_0000;

/// Encoding of `0.66`.
pub const CAM_PITCH: u32 = 0x3f28_f5c3;

/// Encoding of `2.4`.
pub const FOCAL: u32 = 0x4019_999a;

/// Encoding of `1.4`: the landscape reaches this far to the left and to the
/// right.
pub const WORLD_HALF_WIDTH: u32 = 0x3fb3_3333;

/// Encoding of `2.0`.
pub const HORIZON_LIFT: u32 = 0x4000_0000;

/// Encoding of `0.33`: how far a row goes from the one before it toward the
/// newest spectrum.
pub const SMOOTHING: u32 = 0x3ea8_f5c3;

/// Encoding of `0.01`: how far running averages go toward the present value.
pub const ADAPT_ALPHA: u32 = 0x3c23_d70a;

/// Encoding of `1.0`.
pub const TILT_STRENGTH: u32 = 0x3f80_0000;

/// Encoding of `0.001`: heights are never scaled to a peak below this.
pub const PEAK_FLOOR: u32 = 0x3a83_126f;

/// Encodings of `-0.5`, `0.8` and `0.5`: the direction of the light.
pub const LIGHT_X: u32 = 0xbf00_0000;

pub const LIGHT_Y: u32 = 0x3f4c_cccd;

pub const LIGHT_Z: u32 = 0x3f00_0000;

/// Encoding of `0.2`: the light that reaches every face.
pub const AMBIENT: u32 = 0x3e4c_cccd;

/// Encoding of `1e-6`: no normal is taken to be shorter than this.
pub const SHORTEST_NORMAL: u32 = 0x3586_37bd;

/// From this many rows on the landscape sinks into the ground at both ends.
pub const ISLAND_MIN_DEPTH: usize = 6;

/// Encoding of `0.03`: by how much the rotary field turns in a tick at first.
pub const YAW_SPEED_DEFAULT: u32 = 0x3cf5_c28f;

/// Encoding of `0.01`.
pub const YAW_SPEED_STEP: u32 = 0x3c23_d70a;

/// Encoding of `0.3`.
pub const YAW_SPEED_MAX: u32 = 0x3e99_999a;

/// Encoding of `-0.3`.
pub const YAW_SPEED_MIN: u32 = 0xbe99_999a;

/// Encoding of `0.94`: what is left of the rotary field after a tick.
pub const FIELD_DECAY: u32 = 0x3f70_a3d7;

/// Encoding of `0.6`: how much of a spectrum is stamped onto the field.
pub const FIELD_STAMP: u32 = 0x3f19_999a;

/// Encoding of `0.18`: how wide the stamped ridge is.
pub const RIDGE: u32 = 0x3e38_51ec;

/// Encoding of half a turn.
pub const PI: u32 = 0x4049_0fdb;

/// What a landscape holds.
#[verifier::ext_equal]
pub struct Landscape {
    /// A ring of rows of bands, one row after the other.
    pub rows: Seq<Float>,
    /// Bands per row.
    pub width: int,
    /// Number of rows.
    pub depth: int,
    /// The row of the ring that the next spectrum goes to.
    pub head: int,
    /// Whether a spectrum has come since the landscape was cleared.
    pub primed: bool,
    /// Running average of where in the spectrum the energy lies.
    pub centroid: Float,
    /// Running average of the highest level.
    pub peak: Float,
    /// Whether the rotary field is shown in place of the rows.
    pub rotary: bool,
    /// The angle at which spectra are stamped onto the rotary field.
    pub yaw: Float,
    /// By how much that angle grows in a tick.
    pub yaw_speed: Float,
    /// The rotary field, one row after the other.
    pub field: Seq<Float>,
    /// Running average of the highest level of the rotary field.
    pub field_peak: Float,
}

/// A grid without a single elevation.
pub open spec fn flat(width: int, depth: int) -> Seq<Float> {
    Seq::new((depth * width) as nat, |i: int| Float(ZERO))
}

/// The level of band `x` in a spectrum; bands that it lacks are silent.
pub open spec fn level(magnitudes: Seq<Float>, x: int) -> Float {
    if x < magnitudes.len() {
        magnitudes[x]
    } else {
        Float(ZERO)
    }
}

/// A level on its way from the last one to a new one.
pub open spec fn smoothed<A: Arithmetic>(alu: &A, last: Float, target: Float) -> Float {
    alu.sum(last, alu.product(Float(SMOOTHING), alu.difference(target, last)))
}

/// A running average after one more value.
pub open spec fn approached<A: Arithmetic>(alu: &A, average: Float, value: Float) -> Float {
    alu.sum(average, alu.product(Float(ADAPT_ALPHA), alu.difference(value, average)))
}

/// The sum of the products of three pairs of coordinates.
pub open spec fn inner_product<A: Arithmetic>(alu: &A, a: Place, b: Place) -> Float {
    alu.sum(alu.sum(alu.product(a.0, b.0), alu.product(a.1, b.1)), alu.product(a.2, b.2))
}

/// A vector at right angles to two others.
pub open spec fn cross_product<A: Arithmetic>(alu: &A, a: Place, b: Place) -> Place {
    (
        alu.difference(alu.product(a.1, b.2), alu.product(a.2, b.1)),
        alu.difference(alu.product(a.2, b.0), alu.product(a.0, b.2)),
        alu.difference(alu.product(a.0, b.1), alu.product(a.1, b.0)),
    )
}

/// The way from one place to another.
pub open spec fn way<A: Arithmetic>(alu: &A, from: Place, to: Place) -> Place {
    (
        alu.difference(to.0, from.0),
        alu.difference(to.1, from.1),
        alu.difference(to.2, from.2),
    )
}

/// The normal of the face that two ways span, on its upper side.
pub open spec fn upward_normal<A: Arithmetic>(alu: &A, a: Place, b: Place) -> Place {
    let n = cross_product(alu, a, b);
    if n.1.below(Float(ZERO)) {
        (n.0.opposite(), n.1.opposite(), n.2.opposite())
    } else {
        n
    }
}

/// The direction of the light.
pub open spec fn light() -> Place {
    (Float(LIGHT_X), Float(LIGHT_Y), Float(LIGHT_Z))
}

/// How bright a face with the given normal is.
pub open spec fn brightness<A: Arithmetic>(alu: &A, normal: Place) -> Float {
    let length = alu.square_root(inner_product(alu, normal, normal)).greater(
        Float(SHORTEST_NORMAL),
    );
    let light_length = alu.square_root(inner_product(alu, light(), light()));
    let facing = alu.quotient(
        inner_product(alu, normal, light()),
        alu.product(length, light_length),
    );
    alu.fused_sum(
        facing.greater(Float(ZERO)),
        alu.difference(Float(ONE), Float(AMBIENT)),
        Float(AMBIENT),
    )
}

/// Energy, energy weighted by place in the spectrum, and highest level of the
/// first `n` cells of a ring of rows.
pub open spec fn tally<A: Arithmetic>(alu: &A, rows: Seq<Float>, width: int, n: nat) -> (
    Float,
    Float,
    Float,
)
    decreases n,
{
    if n == 0 {
        (Float(ZERO), Float(ZERO), Float(ZERO))
    } else {
        let t = tally(alu, rows, width, (n - 1) as nat);
        let m = rows[n - 1];
        let e = alu.product(m, m);
        let x = (n - 1) % width;
        let place = alu.quotient(
            alu.of_index(x as usize),
            alu.of_index((width - 1) as usize),
        );
        (alu.sum(t.0, e), alu.sum(t.1, alu.product(e, place)), t.2.greater(m))
    }
}

/// The highest of the first `n` levels, but at least zero.
pub open spec fn highest(levels: Seq<Float>, n: nat) -> Float
    decreases n,
{
    if n == 0 {
        Float(ZERO)
    } else {
        highest(levels, (n - 1) as nat).greater(levels[n - 1])
    }
}

/// The greater of a count less one and one.
pub open spec fn steps(n: int) -> usize {
    if n > 2 {
        (n - 1) as usize
    } else {
        1
    }
}

impl Landscape {
    pub open spec fn valid(self) -> bool {
        &&& self.width > 0
        &&& self.depth > 0
        &&& 0 <= self.head < self.depth
        &&& self.rows.len() == self.depth * self.width
        &&& self.field.len() == self.depth * self.width
    }

    /// The landscape before anything has been heard.
    pub open spec fn bare(width: int) -> Landscape {
        Landscape {
            rows: flat(width, DEFAULT_DEPTH as int),
            width,
            depth: DEFAULT_DEPTH as int,
            head: 0,
            primed: false,
            centroid: Float(HALF),
            peak: Float(ONE),
            rotary: false,
            yaw: Float(ZERO),
            yaw_speed: Float(YAW_SPEED_DEFAULT),
            field: flat(width, DEFAULT_DEPTH as int),
            field_peak: Float(ONE),
        }
    }

    /// The landscape cleared for a number of rows; nothing changes where it
    /// has that many already.
    pub open spec fn resized(self, depth: int) -> Landscape {
        if depth == self.depth {
            self
        } else {
            Landscape {
                rows: flat(self.width, depth),
                depth,
                head: 0,
                primed: false,
                centroid: Float(HALF),
                peak: Float(ONE),
                field: flat(self.width, depth),
                field_peak: Float(ONE),
                ..self
            }
        }
    }

    /// Where in the ring the row of age `r` stands; the newest has age 0.
    pub open spec fn ring(self, r: int) -> int {
        (self.head + self.depth - 1 - r) % self.depth
    }

    /// Band `x` of the row of age `r`.
    pub open spec fn ridge(self, r: int, x: int) -> Float {
        self.rows[cell(self.width, x, self.ring(r))]
    }

    /// The newest row.
    pub open spec fn newest(self) -> Seq<Float> {
        Seq::new(self.width as nat, |x: int| self.ridge(0, x))
    }

    /// The landscape with one more row, in the place of the oldest.
    pub open spec fn scrolled(self, row: Seq<Float>) -> Landscape {
        Landscape {
            rows: Seq::new(
                self.rows.len(),
                |i: int|
                    if i / self.width == self.head {
                        row[i % self.width]
                    } else {
                        self.rows[i]
                    },
            ),
            head: (self.head + 1) % self.depth,
            primed: true,
            ..self
        }
    }

    /// The row that a spectrum becomes: on the way to it from the newest row,
    /// or the spectrum itself where there is none.
    pub open spec fn next_row<A: Arithmetic>(self, alu: &A, magnitudes: Seq<Float>) -> Seq<Float> {
        Seq::new(
            self.width as nat,
            |x: int|
                {
                    let target = level(magnitudes, x);
                    let last = if self.primed {
                        self.ridge(0, x)
                    } else {
                        target
                    };
                    smoothed(alu, last, target)
                },
        )
    }

    pub open spec fn pushed<A: Arithmetic>(self, alu: &A, magnitudes: Seq<Float>) -> Landscape {
        self.scrolled(self.next_row(alu, magnitudes))
    }

    /// The landscape after its averages have followed what it shows.
    pub open spec fn adapted<A: Arithmetic>(self, alu: &A) -> Landscape {
        if !self.primed || self.width < 2 {
            self
        } else {
            let t = tally(alu, self.rows, self.width, self.rows.len());
            let centroid = if Float(ZERO).below(t.0) {
                alu.quotient(t.1, t.0)
            } else {
                Float(HALF)
            };
            Landscape {
                centroid: approached(alu, self.centroid, centroid),
                peak: approached(alu, self.peak, t.2),
                ..self
            }
        }
    }

    /// Where column `x` and row `z` of the rotary field stand to the ridge:
    /// along the direction that it is stamped in, and across.
    pub open spec fn bearing<A: Arithmetic>(self, alu: &A, x: int, z: int) -> (Float, Float) {
        let s = alu.sine(self.yaw);
        let c = alu.cosine(self.yaw);
        let u = alu.difference(
            alu.quotient(alu.of_index(x as usize), alu.of_index(steps(self.width))),
            Float(HALF),
        );
        let v = alu.difference(
            alu.quotient(alu.of_index(z as usize), alu.of_index(steps(self.depth))),
            Float(HALF),
        );
        (
            alu.sum(alu.product(u, c), alu.product(v, s)),
            alu.sum(alu.product(u.opposite(), s), alu.product(v, c)),
        )
    }

    /// What a spectrum leaves on a place of the rotary field.
    pub open spec fn deposit<A: Arithmetic>(
        self,
        alu: &A,
        magnitudes: Seq<Float>,
        x: int,
        z: int,
    ) -> Float {
        let (along, across) = self.bearing(alu, x, z);
        let place = alu.sum(across, Float(HALF)).clamped(Float(ZERO), Float(ONE));
        let band = alu.index_near(alu.product(place, alu.of_index(steps(self.width))));
        let weight = alu.exponential(
                alu.quotient(alu.product(along, along).opposite(),
                alu.product(Float(RIDGE), Float(RIDGE)),
            ),
        );
        alu.product(
            alu.product(level(magnitudes, band as int), weight),
            Float(FIELD_STAMP),
        )
    }

    /// The rotary field after it has faded and a spectrum was stamped onto it.
    pub open spec fn stamped_field<A: Arithmetic>(self, alu: &A, magnitudes: Seq<Float>) -> Seq<
        Float,
    > {
        Seq::new(
            self.field.len(),
            |i: int|
                alu.sum(
                    alu.product(self.field[i], Float(FIELD_DECAY)),
                    self.deposit(alu, magnitudes, i % self.width, i / self.width),
                ).lesser(Float(FOUR)),
        )
    }

    pub open spec fn stamped<A: Arithmetic>(self, alu: &A, magnitudes: Seq<Float>) -> Landscape {
        let field = self.stamped_field(alu, magnitudes);
        Landscape {
            field,
            field_peak: approached(alu, self.field_peak, highest(field, field.len())),
            ..self
        }
    }

    /// The landscape after a tick, in which a spectrum may have come.
    pub open spec fn ticked<A: Arithmetic>(self, alu: &A, magnitudes: Option<Seq<Float>>) -> Landscape {
        let turned = if self.rotary {
            Landscape {
                yaw: alu.remainder(alu.sum(self.yaw, self.yaw_speed), Float(TAU)),
                ..self
            }
        } else {
            self
        };
        match magnitudes {
            None => turned,
            Some(magnitudes) => {
                let grown = turned.pushed(alu, magnitudes).adapted(alu);
                if self.rotary {
                    grown.stamped(alu, magnitudes)
                } else {
                    grown
                }
            },
        }
    }

    /// The landscape after the rotary field was switched on or off. It starts
    /// out flat.
    pub open spec fn toggled(self) -> Landscape {
        if self.rotary {
            Landscape { rotary: false, ..self }
        } else {
            Landscape {
                rotary: true,
                field: flat(self.width, self.depth),
                field_peak: Float(ONE),
                ..self
            }
        }
    }

    /// The landscape after a key press, and whether the key meant anything.
    pub open spec fn keyed<A: Arithmetic>(self, alu: &A, key: Key) -> (Landscape, bool) {
        match key.digit() {
            Some(n) => (self.resized(n * DEPTH_STEP), true),
            None => if key == Key::Char('r') {
                (self.toggled(), true)
            } else if key == Key::Char(']') {
                (
                    Landscape {
                        yaw_speed: alu.sum(self.yaw_speed, Float(YAW_SPEED_STEP)).lesser(
                            Float(YAW_SPEED_MAX),
                        ),
                        ..self
                    },
                    true,
                )
            } else if key == Key::Char('[') {
                (
                    Landscape {
                        yaw_speed: alu.difference(self.yaw_speed, Float(YAW_SPEED_STEP)).greater(
                            Float(YAW_SPEED_MIN),
                        ),
                        ..self
                    },
                    true,
                )
            } else {
                (self, false)
            },
        }
    }

    /// How much a band stands out.
    pub open spec fn emphasis<A: Arithmetic>(self, alu: &A, x: int) -> Float {
        let place = alu.quotient(
            alu.of_index(x as usize),
            alu.of_index(steps(self.width)),
        );
        let alignment = alu.difference(
            Float(ONE),
            alu.difference(place, self.centroid).absolute(),
        ).greater(Float(ZERO));
        alu.sum(
            Float(ONE),
            alu.product(alu.difference(Float(TILT_STRENGTH), Float(ONE)), alignment),
        )
    }

    /// How high the surface is at band `x` of the row of age `r`, relative to
    /// the highest peak.
    pub open spec fn height<A: Arithmetic>(self, alu: &A, r: int, x: int) -> Float {
        if self.rotary {
            alu.quotient(
                self.field[cell(self.width, x, r)],
                self.field_peak.greater(Float(PEAK_FLOOR)),
            ).lesser(Float(ONE))
        } else {
            alu.quotient(
                alu.product(self.ridge(r, x), self.emphasis(alu, x)),
                self.peak.greater(Float(PEAK_FLOOR)),
            ).lesser(Float(ONE))
        }
    }

    /// By how much a row is raised out of the ground.
    pub open spec fn island_factor<A: Arithmetic>(self, alu: &A, r: int) -> Float {
        if self.rotary || self.depth < ISLAND_MIN_DEPTH {
            Float(ONE)
        } else {
            let t = alu.quotient(
                alu.of_index(r as usize),
                alu.of_index((self.depth - 1) as usize),
            );
            alu.sine(alu.product(t, Float(PI)))
        }
    }

    /// Where a point of the surface lies in the world.
    pub open spec fn place<A: Arithmetic>(self, alu: &A, x: int, r: int) -> Place {
        let across = alu.difference(
            alu.quotient(alu.of_index(x as usize), alu.of_index((self.width - 1) as usize)),
            Float(HALF),
        );
        (
            alu.product(alu.product(across, Float(TWO)), Float(WORLD_HALF_WIDTH)),
            alu.product(
                    alu.product(alu.power(self.height(alu, r, x), Float(SPIKE_GAMMA)),
                    Float(PEAK_HEIGHT),
                ),
                self.island_factor(alu, r),
            ),
            alu.of_index(r as usize),
        )
    }

    /// How bright the face is that starts at a point and goes to the next
    /// column and the next row, if there is one.
    pub open spec fn face_shade<A: Arithmetic>(self, alu: &A, x: int, r: int) -> Option<Float> {
        if x + 1 < self.width && r + 1 < self.depth {
            let a = self.place(alu, x, r);
            let to_right = way(alu, a, self.place(alu, x + 1, r));
            let away = way(alu, a, self.place(alu, x, r + 1));
            Some(brightness(alu, upward_normal(alu, to_right, away)))
        } else {
            None
        }
    }

    /// How bright an edge of the surface is: as the faces on both sides of it
    /// are on average. An edge goes to the next column, or to the next row.
    pub open spec fn edge_shade<A: Arithmetic>(
        self,
        alu: &A,
        x: int,
        r: int,
        along_x: bool,
    ) -> Float {
        let one = self.face_shade(alu, x, r);
        let other = if along_x {
            if r > 0 {
                self.face_shade(alu, x, r - 1)
            } else {
                None
            }
        } else {
            if x > 0 {
                self.face_shade(alu, x - 1, r)
            } else {
                None
            }
        };
        match (one, other) {
            (Some(a), Some(b)) => alu.product(Float(HALF), alu.sum(a, b)),
            (Some(a), None) => a,
            (None, Some(b)) => b,
            (None, None) => alu.sum(
                Float(AMBIENT),
                alu.product(alu.difference(Float(ONE), Float(AMBIENT)), Float(HALF)),
            ),
        }
    }
}

/// The highest level of some cells is as high as each of them that is a number,
/// and it is one of them, or zero.
pub proof fn law_highest_level_is_the_highest<A: Arithmetic>(
    alu: &A,
    rows: Seq<Float>,
    width: int,
    n: nat,
)
    requires
        n <= rows.len(),
    ensures
        ({
            let top = tally(alu, rows, width, n).2;
            &&& Float(ZERO).at_most(top)
            &&& forall|i: int| 0 <= i < n && !rows[i].nan() ==> (#[trigger] rows[i]).at_most(top)
            &&& top == Float(ZERO) || exists|i: int| 0 <= i < n && top == #[trigger] rows[i]
        }),
    decreases n,
{
    if n > 0 {
        law_highest_level_is_the_highest(alu, rows, width, (n - 1) as nat);
        let before = tally(alu, rows, width, (n - 1) as nat).2;
        let top = tally(alu, rows, width, n).2;
        if top == rows[n - 1] {
        } else {
            assert(top == before);
        }
    }
}

/// The same holds of the highest level of the rotary field.
pub proof fn law_highest_of_the_field_is_the_highest(levels: Seq<Float>, n: nat)
    requires
        n <= levels.len(),
    ensures
        ({
            let top = highest(levels, n);
            &&& Float(ZERO).at_most(top)
            &&& forall|i: int|
                0 <= i < n && !levels[i].nan() ==> (#[trigger] levels[i]).at_most(top)
            &&& top == Float(ZERO) || exists|i: int| 0 <= i < n && top == #[trigger] levels[i]
        }),
    decreases n,
{
    if n > 0 {
        law_highest_of_the_field_is_the_highest(levels, (n - 1) as nat);
        let before = highest(levels, (n - 1) as nat);
        let top = highest(levels, n);
        if top == levels[n - 1] {
        } else {
            assert(top == before);
        }
    }
}

/// Going a part of the way from one number to another: the result lies between
/// them, and on the way it covers that part of the distance.
proof fn part_of_the_way(from: real, to: real, part: real)
    requires
        0real <= part,
        part <= 1real,
    ensures
        from <= to ==> from <= from + times(part, to - from) && from + times(part, to - from) <= to,
        to <= from ==> to <= from + times(part, to - from) && from + times(part, to - from) <= from,
{
    let d = to - from;
    times_signs(part, d);
    times_signs(part, -d);
    times_negated(part, d);
    times_signs(1real - part, d);
    times_signs(1real - part, -d);
    times_negated(1real - part, d);
    times_spreads(d, 1real, part);
    times_simple(d);
    times_spreads(part, to, from);
}

/// Without rounding, a running average goes toward the present value and never
/// beyond it. It stays where it is only where it has arrived.
pub proof fn law_averages_go_toward_the_value<A: Arithmetic>(
    alu: &A,
    m: Reading,
    average: Float,
    value: Float,
)
    requires
        exact(alu, m),
        m.has(approached(alu, average, value)),
    ensures
        ({
            let (a, v) = (m.num(average), m.num(value));
            let r = m.num(approached(alu, average, value));
            &&& a <= v ==> a <= r <= v
            &&& v <= a ==> v <= r <= a
            &&& r == a <==> a == v
            &&& r - a == times(m.num(Float(ADAPT_ALPHA)), v - a)
        }),
{
    let alpha = Float(ADAPT_ALPHA);
    assert(m.has(alpha));
    assert(Float(ZERO).at_most(alpha) && alpha.at_most(Float(ONE)) && !alpha.at_most(Float(ZERO)));
    part_of_the_way(m.num(average), m.num(value), m.num(alpha));
    times_signs(m.num(alpha), m.num(value) - m.num(average));
    times_simple(m.num(alpha));
}

/// Without rounding, a row goes from the one before it toward the newest
/// spectrum and never beyond it; what stays the same is not smoothed away.
pub proof fn law_rows_go_toward_the_spectrum<A: Arithmetic>(
    alu: &A,
    m: Reading,
    last: Float,
    target: Float,
)
    requires
        exact(alu, m),
        m.has(smoothed(alu, last, target)),
    ensures
        ({
            let (a, v) = (m.num(last), m.num(target));
            let r = m.num(smoothed(alu, last, target));
            &&& a <= v ==> a <= r <= v
            &&& v <= a ==> v <= r <= a
            &&& r == a <==> a == v
            &&& r - a == times(m.num(Float(SMOOTHING)), v - a)
        }),
{
    let part = Float(SMOOTHING);
    assert(m.has(part));
    assert(Float(ZERO).at_most(part) && part.at_most(Float(ONE)) && !part.at_most(Float(ZERO)));
    part_of_the_way(m.num(last), m.num(target), m.num(part));
    times_signs(m.num(part), m.num(target) - m.num(last));
    times_simple(m.num(part));
}

/// Without rounding, the running average of the highest level follows the
/// highest level: where no level is above `h` it is never pulled above the
/// larger of `h` and itself, and where some level is at least `h` never below
/// the smaller of the two. So under a steady sound it only comes closer.
pub proof fn law_peak_follows_the_highest_level<A: Arithmetic>(
    alu: &A,
    m: Reading,
    l: Landscape,
    h: Float,
    i: int,
)
    requires
        exact(alu, m),
        l.valid(),
        l.primed,
        l.width >= 2,
        m.has(h),
        Float(ZERO).at_most(h),
        m.has(l.adapted(alu).peak),
        0 <= i < l.rows.len(),
    ensures
        ({
            let (before, after) = (m.num(l.peak), m.num(l.adapted(alu).peak));
            &&& (forall|k: int| 0 <= k < l.rows.len() ==> (#[trigger] l.rows[k]).at_most(h)) ==> {
                &&& after <= m.num(h) || after <= before
                &&& before >= m.num(h) ==> after <= before
            }
            &&& h.at_most(l.rows[i]) ==> {
                &&& after >= m.num(h) || after >= before
                &&& before <= m.num(h) ==> after >= before
            }
        }),
{
    let top = tally(alu, l.rows, l.width, l.rows.len()).2;
    law_highest_level_is_the_highest(alu, l.rows, l.width, l.rows.len());
    assert(l.adapted(alu).peak == approached(alu, l.peak, top));
    law_averages_go_toward_the_value(alu, m, l.peak, top);
    assert(m.has(top));
    if forall|k: int| 0 <= k < l.rows.len() ==> (#[trigger] l.rows[k]).at_most(h) {
        assert(top.at_most(h));
    }
    if h.at_most(l.rows[i]) {
        assert(h.at_most(top));
    }
}

/// Without rounding, the energy of some cells is not negative, and where all of
/// it lies in one column the centroid is that column's place: 0 for the first,
/// 1 for the last.
pub proof fn law_centroid_is_where_the_energy_lies<A: Arithmetic>(
    alu: &A,
    m: Reading,
    rows: Seq<Float>,
    width: int,
    n: nat,
    x: int,
)
    requires
        exact(alu, m),
        2 <= width <= usize::MAX,
        n <= rows.len(),
        0 <= x < width,
        m.has(tally(alu, rows, width, n).1),
        m.has(tally(alu, rows, width, n).0),
    ensures
        ({
            let t = tally(alu, rows, width, n);
            &&& 0real <= m.num(t.1)
            &&& m.num(t.1) <= m.num(t.0)
            &&& (forall|i: int|
                0 <= i < n && i % width != x ==> m.num(#[trigger] rows[i]) == 0real) ==> times(
                m.num(t.1),
                whole(width - 1),
            ) == times(m.num(t.0), whole(x))
            &&& n > 0 ==> m.num(t.0) == m.num(tally(alu, rows, width, (n - 1) as nat).0) + times(
                m.num(rows[n - 1]),
                m.num(rows[n - 1]),
            )
        }),
    decreases n,
{
    let last = whole(width - 1);
    times_simple(last);
    times_simple(whole(x));
    if n > 0 {
        law_centroid_is_where_the_energy_lies(alu, m, rows, width, (n - 1) as nat, x);
        let t = tally(alu, rows, width, (n - 1) as nat);
        let level = rows[n - 1];
        let c = (n - 1) % width;
        lemma_mod_bound(n - 1, width);
        let e = alu.product(level, level);
        let place = alu.quotient(
            alu.of_index(c as usize),
            alu.of_index((width - 1) as usize),
        );
        let (ve, vp) = (m.num(e), m.num(place));
        assert(m.has(alu.product(e, place)));
        assert(ve == times(m.num(level), m.num(level)));
        assert(times(vp, last) == whole(c));
        times_signs(m.num(level), m.num(level));
        times_orders(0real, vp, last);
        times_orders(vp, 1real, last);
        times_signs(ve, vp);
        times_signs(ve, 1real - vp);
        times_spreads(ve, 1real, vp);
        times_simple(ve);
        times_spreads(last, m.num(t.1), times(ve, vp));
        times_spreads(whole(x), m.num(t.0), ve);
        times_groups(ve, vp, last);
        times_simple(0real);
        times_simple(whole(c));
        times_simple(whole(x));
        if forall|i: int| 0 <= i < n && i % width != x ==> m.num(#[trigger] rows[i]) == 0real {
            if c != x {
                assert(m.num(rows[n - 1]) == 0real);
            }
        }
    }
}

/// Without rounding, a height below the limit is the level relative to the
/// running average of the highest level, or to a floor where that is lower.
pub proof fn law_heights_are_relative_to_the_peak<A: Arithmetic>(
    alu: &A,
    m: Reading,
    l: Landscape,
    r: int,
    x: int,
)
    requires
        exact(alu, m),
        m.has(l.height(alu, r, x)),
        l.height(alu, r, x).below(Float(ONE)),
        m.has(Float(PEAK_FLOOR)),
        m.has(l.peak),
        m.has(l.field_peak),
    ensures
        ({
            let h = m.num(l.height(alu, r, x));
            let floor = m.num(Float(PEAK_FLOOR));
            let (level, top) = if l.rotary {
                (m.num(l.field[cell(l.width, x, r)]), m.num(l.field_peak))
            } else {
                (m.num(l.ridge(r, x)), m.num(l.peak))
            };
            &&& top >= floor ==> times(h, top) == level
            &&& top <= floor ==> times(h, floor) == level
        }),
{
    let floor = Float(PEAK_FLOOR);
    assert(floor.at_most(l.peak) <==> m.num(floor) <= m.num(l.peak));
    assert(l.peak.at_most(floor) <==> m.num(l.peak) <= m.num(floor));
    assert(floor.at_most(l.field_peak) <==> m.num(floor) <= m.num(l.field_peak));
    assert(l.field_peak.at_most(floor) <==> m.num(l.field_peak) <= m.num(floor));
    if !l.rotary {
        let e = l.emphasis(alu, x);
        let tilt = alu.difference(Float(TILT_STRENGTH), Float(ONE));
        let raw = alu.product(l.ridge(r, x), e);
        assert(l.height(alu, r, x) == alu.quotient(raw, l.peak.greater(Float(PEAK_FLOOR))));
        assert(m.has(raw) && m.has(e));
        let place = alu.quotient(alu.of_index(x as usize), alu.of_index(steps(l.width)));
        let alignment = alu.difference(
            Float(ONE),
            alu.difference(place, l.centroid).absolute(),
        ).greater(Float(ZERO));
        assert(e == alu.sum(Float(ONE), alu.product(tilt, alignment)));
        assert(m.has(alu.product(tilt, alignment)));
        times_simple(m.num(alignment));
        times_simple(m.num(l.ridge(r, x)));
        assert(m.num(e) == 1real);
    } else {
        assert(l.height(alu, r, x) == alu.quotient(
            l.field[cell(l.width, x, r)],
            l.field_peak.greater(Float(PEAK_FLOOR)),
        ));
    }
}

/// Without rounding, a deep landscape sinks into the ground at both ends and
/// nowhere else, in the same way, as half a wave does.
pub proof fn law_landscape_sinks_at_both_ends<A: Arithmetic>(
    alu: &A,
    m: Reading,
    l: Landscape,
    r: int,
    s: int,
)
    requires
        exact(alu, m),
        ISLAND_MIN_DEPTH <= l.depth <= usize::MAX,
        0 <= r < l.depth,
        0 <= s < l.depth,
        !l.rotary,
        m.has(l.island_factor(alu, r)),
        m.has(l.island_factor(alu, s)),
    ensures
        ({
            let (a, b) = (m.num(l.island_factor(alu, r)), m.num(l.island_factor(alu, s)));
            &&& r == 0 || r == l.depth - 1 ==> a == 0real
            &&& 0 < r < l.depth - 1 ==> 0real < a <= 1real
            &&& 2 * r == l.depth - 1 ==> a == 1real
            &&& r + s == l.depth - 1 ==> a == b
            &&& a == (m.sin)(over(times(m.turn / 2real, whole(r)), whole(l.depth - 1)))
        }),
{
    let x = island_angle(alu, m, l, r);
    let y = island_angle(alu, m, l, s);
    let last = whole(l.depth - 1);
    let h = m.turn / 2real;
    parts_of_a_turn(m);
    on_the_circle_within_one(m, x);
    is_over(x, times(h, whole(r)), last);
    times_simple(h);
    times_simple(last);
    times_swaps(h, last);
    times_orders(0real, x, last);
    times_orders(x, h, last);
    times_signs(h, whole(r));
    times_orders(whole(r), last, h);
    times_swaps(h, whole(r));
    assert(0real < x && x < h ==> (m.sin)(x) > 0real) by {
        reveal(Reading::turns);
    }
    if r == 0 {
        times_cancels(x, 0real, last);
    }
    if r == l.depth - 1 {
        times_cancels(x, h, last);
    }
    if 2 * r == l.depth - 1 {
        let q = m.turn / 4real;
        assert(last == whole(r) + whole(r));
        times_spreads(q, whole(r), whole(r));
        times_spreads(whole(r), q, q);
        assert(q + q == h);
        times_cancels(x, q, last);
    }
    if r + s == l.depth - 1 {
        assert(last == whole(r) + whole(s));
        times_spreads(h, whole(r), whole(s));
        times_spreads(last, x, y);
        times_cancels(x + y, h, last);
        sum_of_angles(m, h, -x);
        opposite_angle(m, x);
        assert(h + (-x) == y);
        times_simple((m.cos)(-x));
        times_simple((m.sin)(-x));
        times_negated(1real, (m.sin)(-x));
    }
}

proof fn island_angle<A: Arithmetic>(alu: &A, m: Reading, l: Landscape, r: int) -> (x: real)
    requires
        exact(alu, m),
        ISLAND_MIN_DEPTH <= l.depth <= usize::MAX,
        0 <= r < l.depth,
        !l.rotary,
        m.has(l.island_factor(alu, r)),
    ensures
        m.num(l.island_factor(alu, r)) == (m.sin)(x),
        times(x, whole(l.depth - 1)) == times(m.turn / 2real, whole(r)),
{
    let t = alu.quotient(alu.of_index(r as usize), alu.of_index((l.depth - 1) as usize));
    let angle = alu.product(t, Float(PI));
    assert(l.island_factor(alu, r) == alu.sine(angle));
    assert(m.has(angle) && m.has(t));
    let h = m.turn / 2real;
    times_swaps(m.num(t), h);
    times_groups(h, m.num(t), whole(l.depth - 1));
    m.num(angle)
}

/// Without rounding, the landscape reaches equally far to the left and to the
/// right, its columns are evenly spaced, and a row lies as far away as it is
/// old.
pub proof fn law_places_are_evenly_spaced<A: Arithmetic>(
    alu: &A,
    m: Reading,
    l: Landscape,
    x: int,
    r: int,
)
    requires
        exact(alu, m),
        2 <= l.width <= usize::MAX,
        0 <= x < l.width,
        0 <= r <= usize::MAX,
        m.has(l.place(alu, x, r).0),
        m.has(l.place(alu, x, r).2),
    ensures
        ({
            let p = l.place(alu, x, r);
            let reach = m.num(Float(WORLD_HALF_WIDTH));
            &&& times(m.num(p.0), whole(l.width - 1)) == times(whole(2 * x - (l.width - 1)), reach)
            &&& x == 0 ==> m.num(p.0) == -reach
            &&& x == l.width - 1 ==> m.num(p.0) == reach
            &&& m.num(p.2) == whole(r)
        }),
{
    let reach = m.num(Float(WORLD_HALF_WIDTH));
    let last = whole(l.width - 1);
    let q = alu.quotient(alu.of_index(x as usize), alu.of_index((l.width - 1) as usize));
    let across = alu.difference(q, Float(HALF));
    assert(l.place(alu, x, r).0 == alu.product(
        alu.product(across, Float(TWO)),
        Float(WORLD_HALF_WIDTH),
    ));
    assert(m.has(alu.product(across, Float(TWO))));
    spread_evenly(m.num(q), last, whole(x), reach);
    times_simple(m.num(across));
    times_simple(reach);
    times_simple(last);
    assert(whole(2 * x - (l.width - 1)) == whole(x) + whole(x) - last);
    if x == 0 {
        times_negated(last, reach);
        times_swaps(last, -reach);
        times_cancels(m.num(l.place(alu, x, r).0), -reach, last);
    }
    if x == l.width - 1 {
        times_swaps(last, reach);
        times_cancels(m.num(l.place(alu, x, r).0), reach, last);
    }
}

/// A share `q` of `x` in `last`, moved to lie around zero and stretched.
pub proof fn spread_evenly(q: real, last: real, x: real, reach: real)
    requires
        times(q, last) == x,
    ensures
        ({
            let c = q - 1real / 2real;
            times(times(c + c, reach), last) == times(x + x - last, reach)
        }),
{
    let c = q - 1real / 2real;
    let d = c + c;
    assert(d == q + q - 1real);
    times_spreads(last, q + q, 1real);
    times_spreads(last, q, q);
    times_simple(last);
    assert(times(d, last) == x + x - last);
    times_groups(d, reach, last);
    times_swaps(reach, last);
    times_groups(d, last, reach);
}

/// Without rounding, what stands higher in the landscape lies higher in the
/// world, and the highest peak has the greatest height, each as far as its row
/// is raised out of the ground. Lower levels are pressed down by a power, so
/// that peaks stand out.
pub proof fn law_higher_levels_lie_higher<A: Arithmetic>(
    alu: &A,
    m: Reading,
    l: Landscape,
    x: int,
    y: int,
    r: int,
)
    requires
        exact(alu, m),
        m.has(l.place(alu, x, r).1),
        m.has(l.place(alu, y, r).1),
        0real < m.num(l.height(alu, r, x)),
        m.num(l.height(alu, r, x)) < m.num(l.height(alu, r, y)),
        0real < m.num(l.island_factor(alu, r)),
    ensures
        0real < m.num(l.place(alu, x, r).1),
        m.num(l.place(alu, x, r).1) < m.num(l.place(alu, y, r).1),
        m.num(l.height(alu, r, y)) == 1real ==> m.num(l.place(alu, y, r).1) == times(
            m.num(Float(PEAK_HEIGHT)),
            m.num(l.island_factor(alu, r)),
        ),
        m.num(l.place(alu, x, r).1) == times(
            times(
                (m.pow)(m.num(l.height(alu, r, x)), m.num(Float(SPIKE_GAMMA))),
                m.num(Float(PEAK_HEIGHT)),
            ),
            m.num(l.island_factor(alu, r)),
        ),
{
    let (g, k) = (Float(SPIKE_GAMMA), Float(PEAK_HEIGHT));
    let (pa, pb) = (alu.power(l.height(alu, r, x), g), alu.power(l.height(alu, r, y), g));
    let f = l.island_factor(alu, r);
    assert(l.place(alu, x, r).1 == alu.product(alu.product(pa, k), f));
    assert(l.place(alu, y, r).1 == alu.product(alu.product(pb, k), f));
    assert(m.has(alu.product(pa, k)) && m.has(alu.product(pb, k)));
    assert(m.has(pa) && m.has(pb) && m.has(g) && m.has(k));
    assert(!g.at_most(Float(ZERO)) && !k.at_most(Float(ZERO)));
    assert(0real < m.num(pa) && m.num(pa) < m.num(pb) && (m.num(l.height(alu, r, y)) == 1real
        ==> m.num(pb) == 1real)) by {
        reveal(Reading::grows);
    }
    times_signs(m.num(pa), m.num(k));
    times_signs(times(m.num(pa), m.num(k)), m.num(f));
    times_orders(m.num(pa), m.num(pb), m.num(k));
    times_orders(times(m.num(pa), m.num(k)), times(m.num(pb), m.num(k)), m.num(f));
    times_simple(m.num(k));
}

/// Without rounding, the ridge of the rotary field stands across the middle of
/// the field, turned by the yaw: distances from the middle stay the same, and
/// places in the direction of the yaw are along it.
pub proof fn law_field_turns_with_the_yaw<A: Arithmetic>(
    alu: &A,
    m: Reading,
    l: Landscape,
    x: int,
    z: int,
    t: real,
)
    requires
        exact(alu, m),
        l.valid(),
        0 <= x < l.width <= usize::MAX,
        0 <= z < l.depth <= usize::MAX,
        m.has(l.bearing(alu, x, z).0),
        m.has(l.bearing(alu, x, z).1),
    ensures
        ({
            let (along, across) = l.bearing(alu, x, z);
            let u = over(whole(x), whole(steps(l.width) as int)) - 1real / 2real;
            let v = over(whole(z), whole(steps(l.depth) as int)) - 1real / 2real;
            let (s, c) = ((m.sin)(m.num(l.yaw)), (m.cos)(m.num(l.yaw)));
            &&& times(m.num(along), m.num(along)) + times(m.num(across), m.num(across)) == times(
                u,
                u,
            ) + times(v, v)
            &&& u == times(t, c) && v == times(t, s) ==> m.num(along) == t && m.num(across) == 0real
            &&& u == -times(t, s) && v == times(t, c) ==> m.num(along) == 0real && m.num(across)
                == t
        }),
{
    let (along, across) = l.bearing(alu, x, z);
    let qx = alu.quotient(alu.of_index(x as usize), alu.of_index(steps(l.width)));
    let qz = alu.quotient(alu.of_index(z as usize), alu.of_index(steps(l.depth)));
    let fu = alu.difference(qx, Float(HALF));
    let fv = alu.difference(qz, Float(HALF));
    let (s, c) = ((m.sin)(m.num(l.yaw)), (m.cos)(m.num(l.yaw)));
    assert(along == alu.sum(
        alu.product(fu, alu.cosine(l.yaw)),
        alu.product(fv, alu.sine(l.yaw)),
    ));
    assert(across == alu.sum(
        alu.product(fu.opposite(), alu.sine(l.yaw)),
        alu.product(fv, alu.cosine(l.yaw)),
    ));
    assert(m.has(fu) && m.has(fv) && m.has(qx) && m.has(qz));
    is_over(m.num(qx), whole(x), whole(steps(l.width) as int));
    is_over(m.num(qz), whole(z), whole(steps(l.depth) as int));
    let (u, v) = (m.num(fu), m.num(fv));
    assert(m.num(along) == times(u, c) + times(v, s));
    assert(m.num(across) == times(-u, s) + times(v, c));
    times_negated(u, s);
    times_negated(v, s);
    times_negated(s, s);
    on_the_circle(m, m.num(l.yaw));
    // Turning by the opposite angle.
    times_negated(s, -s);
    turning_keeps_length(u, v, c, -s);
    times_negated(u, -s);
    times_groups(t, s, c);
    times_groups(t, c, s);
    times_swaps(s, c);
    times_groups(t, s, s);
    times_groups(t, c, c);
    times_spreads(t, times(s, s), times(c, c));
    times_simple(t);
    times_negated(times(t, c), s);
    times_negated(times(t, s), c);
    times_negated(times(t, s), s);
}

/// A shallow landscape and the rotary field stand on the ground as they are.
pub proof fn law_shallow_landscapes_do_not_sink<A: Arithmetic>(alu: &A, l: Landscape, r: int)
    requires
        l.rotary || l.depth < 6,
    ensures
        l.island_factor(alu, r) == Float(ONE),
{
}

/// Without rounding, the square brackets change the speed of the rotary field
/// by the same step in both directions, up to the same limit: one undoes the
/// other unless a limit was reached.
pub proof fn law_brackets_change_the_speed<A: Arithmetic>(alu: &A, m: Reading, l: Landscape)
    requires
        exact(alu, m),
        m.has(Float(YAW_SPEED_STEP)),
        m.has(Float(YAW_SPEED_MAX)),
        m.has(alu.sum(l.yaw_speed, Float(YAW_SPEED_STEP))),
        m.has(alu.difference(l.yaw_speed, Float(YAW_SPEED_STEP))),
    ensures
        ({
            let faster = m.num(l.keyed(alu, Key::Char(']')).0.yaw_speed);
            let slower = m.num(l.keyed(alu, Key::Char('[')).0.yaw_speed);
            let (now, step, limit) = (
                m.num(l.yaw_speed),
                m.num(Float(YAW_SPEED_STEP)),
                m.num(Float(YAW_SPEED_MAX)),
            );
            &&& step > 0real
            &&& now + step <= limit ==> faster == now + step
            &&& now + step >= limit ==> faster == limit
            &&& now - step >= -limit ==> slower == now - step
            &&& now - step <= -limit ==> slower == -limit
        }),
{
    let (step, limit, other) = (
        Float(YAW_SPEED_STEP),
        Float(YAW_SPEED_MAX),
        Float(YAW_SPEED_MIN),
    );
    let up = alu.sum(l.yaw_speed, step);
    let down = alu.difference(l.yaw_speed, step);
    assert(limit.opposite() == other);
    assert(!step.at_most(Float(ZERO)));
    assert(up.at_most(limit) <==> m.num(up) <= m.num(limit));
    assert(limit.at_most(up) <==> m.num(limit) <= m.num(up));
    assert(down.at_most(other) <==> m.num(down) <= m.num(other));
    assert(other.at_most(down) <==> m.num(other) <= m.num(down));
}

/// Without rounding, the angle of the rotary field grows by its speed in a tick
/// and starts anew after a full turn.
pub proof fn law_yaw_goes_round<A: Arithmetic>(
    alu: &A,
    m: Reading,
    l: Landscape,
    magnitudes: Option<Seq<Float>>,
)
    requires
        exact(alu, m),
        l.rotary,
        m.has(l.ticked(alu, magnitudes).yaw),
    ensures
        wraps(
            m.num(l.yaw) + m.num(l.yaw_speed),
            m.turn,
            m.num(l.ticked(alu, magnitudes).yaw),
        ),
{
    assert(l.ticked(alu, magnitudes).yaw == alu.remainder(
        alu.sum(l.yaw, l.yaw_speed),
        Float(TAU),
    ));
}

/// Whether all coordinates of a vector stand for numbers.
pub open spec fn is_vector(m: Reading, a: Place) -> bool {
    m.has(a.0) && m.has(a.1) && m.has(a.2)
}

/// The inner product of two vectors of numbers.
pub open spec fn dot(m: Reading, a: Place, b: Place) -> real {
    times(m.num(a.0), m.num(b.0)) + times(m.num(a.1), m.num(b.1)) + times(m.num(a.2), m.num(b.2))
}

/// Without rounding, the normal of a face is at right angles to both ways that
/// span it, and points upward.
pub proof fn law_normals_are_upright<A: Arithmetic>(alu: &A, m: Reading, a: Place, b: Place)
    requires
        exact(alu, m),
        is_vector(m, upward_normal(alu, a, b)),
    ensures
        dot(m, upward_normal(alu, a, b), a) == 0real,
        dot(m, upward_normal(alu, a, b), b) == 0real,
        m.num(upward_normal(alu, a, b).1) >= 0real,
{
    let n = cross_product(alu, a, b);
    let u = upward_normal(alu, a, b);
    assert(is_vector(m, n));
    let (a0, a1, a2) = (m.num(a.0), m.num(a.1), m.num(a.2));
    let (b0, b1, b2) = (m.num(b.0), m.num(b.1), m.num(b.2));
    let (n0, n1, n2) = (m.num(n.0), m.num(n.1), m.num(n.2));
    assert(n0 == times(a1, b2) - times(a2, b1));
    assert(n1 == times(a2, b0) - times(a0, b2));
    assert(n2 == times(a0, b1) - times(a1, b0));
    at_right_angles(a0, a1, a2, b0, b1, b2);
    at_right_angles(b0, b1, b2, a0, a1, a2);
    times_swaps(a1, b2);
    times_swaps(a2, b1);
    times_swaps(a2, b0);
    times_swaps(a0, b2);
    times_swaps(a0, b1);
    times_swaps(a1, b0);
    times_negated(n0, a0);
    times_negated(n1, a1);
    times_negated(n2, a2);
    times_negated(n0, b0);
    times_negated(n1, b1);
    times_negated(n2, b2);
    assert(Float(ZERO).at_most(n.1) <==> 0real <= n1);
}

/// `(a x b) * a == 0` and `(b x a) * a == 0`.
proof fn at_right_angles(a0: real, a1: real, a2: real, b0: real, b1: real, b2: real)
    ensures
        times(times(a1, b2) - times(a2, b1), a0) + times(times(a2, b0) - times(a0, b2), a1) + times(
            times(a0, b1) - times(a1, b0),
            a2,
        ) == 0real,
        times(times(a2, b1) - times(a1, b2), a0) + times(times(a0, b2) - times(a2, b0), a1) + times(
            times(a1, b0) - times(a0, b1),
            a2,
        ) == 0real,
{
    times_spreads(a0, times(a1, b2), times(a2, b1));
    times_spreads(a1, times(a2, b0), times(a0, b2));
    times_spreads(a2, times(a0, b1), times(a1, b0));
    times_spreads(a0, times(a2, b1), times(a1, b2));
    times_spreads(a1, times(a0, b2), times(a2, b0));
    times_spreads(a2, times(a1, b0), times(a0, b1));
    exchanged(a1, b2, a0);
    exchanged(a2, b1, a0);
    exchanged(a2, b0, a1);
}

/// `(x * y) * z == (z * y) * x`.
proof fn exchanged(x: real, y: real, z: real)
    ensures
        times(times(x, y), z) == times(times(z, y), x),
{
    times_swaps(times(x, y), z);
    times_swaps(x, y);
    times_groups(z, y, x);
}

/// Without rounding, no face is darker than the light that reaches every face,
/// a face that is turned away from the light has just that, and one that
/// directly faces it is fully lit. In between, the rest of the light reaches a
/// face in proportion to the cosine of the angle at which it comes: the inner
/// product with its direction, over the lengths `k` and `n` of both.
pub proof fn law_faces_are_lit_from_one_side<A: Arithmetic>(
    alu: &A,
    m: Reading,
    normal: Place,
    t: real,
    k: real,
    n: real,
)
    requires
        exact(alu, m),
        is_vector(m, normal),
        0real <= k && times(k, k) == dot(m, normal, normal),
        0real <= n && times(n, n) == dot(m, light(), light()),
        m.has(brightness(alu, normal)),
        ({
            let length = alu.square_root(inner_product(alu, normal, normal));
            &&& Float(SHORTEST_NORMAL).at_most(length)
            &&& m.has(length)
            &&& m.has(
                alu.quotient(
                    inner_product(alu, normal, light()),
                    alu.product(
                        length.greater(Float(SHORTEST_NORMAL)),
                        alu.square_root(inner_product(alu, light(), light())),
                    ),
                ),
            )
        }),
    ensures
        m.num(brightness(alu, normal)) >= m.num(Float(AMBIENT)),
        dot(m, normal, light()) <= 0real ==> m.num(brightness(alu, normal)) == m.num(
            Float(AMBIENT),
        ),
        dot(m, normal, light()) > 0real ==> m.num(brightness(alu, normal)) > m.num(Float(AMBIENT))
            && times(m.num(brightness(alu, normal)) - m.num(Float(AMBIENT)), times(k, n)) == times(
            dot(m, normal, light()),
            1real - m.num(Float(AMBIENT)),
        ),
        t > 0real && m.num(normal.0) == times(t, m.num(light().0)) && m.num(normal.1) == times(
            t,
            m.num(light().1),
        ) && m.num(normal.2) == times(t, m.num(light().2)) ==> m.num(brightness(alu, normal))
            == 1real,
{
    let root = alu.square_root(inner_product(alu, normal, normal));
    let length = root.greater(Float(SHORTEST_NORMAL));
    assert(length == root);
    let light_length = alu.square_root(inner_product(alu, light(), light()));
    let ip = inner_product(alu, normal, light());
    let facing = alu.quotient(ip, alu.product(length, light_length));
    let lit = facing.greater(Float(ZERO));
    let rest = alu.difference(Float(ONE), Float(AMBIENT));
    assert(brightness(alu, normal) == alu.fused_sum(lit, rest, Float(AMBIENT)));
    assert(m.has(facing) && m.has(ip) && m.has(alu.product(length, light_length)));
    assert(m.has(light_length) && m.has(inner_product(alu, light(), light())));
    assert(m.has(inner_product(alu, normal, normal)));
    assert(m.num(ip) == dot(m, normal, light()));
    let (ll, f) = (m.num(light_length), m.num(facing));
    same_square(k, m.num(length));
    same_square(n, ll);
    times_signs(k, ll);
    let kl = times(k, ll);
    assert(kl > 0real);
    times_orders(f, 0real, kl);
    times_orders(0real, f, kl);
    times_simple(kl);
    assert(Float(ZERO).at_most(facing) <==> 0real <= f);
    assert(facing.at_most(Float(ZERO)) <==> f <= 0real);
    let a = m.num(Float(AMBIENT));
    assert(!Float(ONE).at_most(Float(AMBIENT)));
    let v = m.num(lit);
    times_signs(v, 1real - a);
    times_simple(1real - a);
    times_groups(v, 1real - a, kl);
    times_swaps(1real - a, kl);
    times_groups(v, kl, 1real - a);
    if t > 0real && m.num(normal.0) == times(t, m.num(light().0)) && m.num(normal.1) == times(
        t,
        m.num(light().1),
    ) && m.num(normal.2) == times(t, m.num(light().2)) {
        let (x, y, z) = (m.num(light().0), m.num(light().1), m.num(light().2));
        let sq = times(x, x) + times(y, y) + times(z, z);
        assert(times(ll, ll) == sq);
        times_regroups(t, x, t, x);
        times_regroups(t, y, t, y);
        times_regroups(t, z, t, z);
        times_spreads(times(t, t), times(x, x) + times(y, y), times(z, z));
        times_spreads(times(t, t), times(x, x), times(y, y));
        assert(times(k, k) == times(times(t, t), sq));
        times_groups(t, x, x);
        times_groups(t, y, y);
        times_groups(t, z, z);
        times_spreads(t, times(x, x) + times(y, y), times(z, z));
        times_spreads(t, times(x, x), times(y, y));
        assert(m.num(ip) == times(t, sq));
        times_regroups(t, ll, t, ll);
        times_signs(t, ll);
        same_square(k, times(t, ll));
        times_groups(t, ll, ll);
        assert(kl == times(t, sq));
        times_cancels(f, 1real, kl);
    }
}

/// Numbers that are not negative are equal if their squares are.
proof fn same_square(a: real, b: real)
    requires
        a >= 0real,
        b >= 0real,
        times(a, a) == times(b, b),
    ensures
        a == b,
{
    times_spreads(a + b, a, b);
    times_spreads(a, a, b);
    times_spreads(b, a, b);
    times_swaps(a, b);
    times_signs(a - b, a + b);
    times_spreads(a - b, a, b);
}

/// Without rounding, an edge between two faces is as bright as they are on
/// average, so not darker than both nor brighter.
pub proof fn law_edges_are_as_bright_as_their_faces<A: Arithmetic>(
    alu: &A,
    m: Reading,
    l: Landscape,
    x: int,
    r: int,
)
    requires
        exact(alu, m),
        0 < x,
        0 < r,
        x + 1 < l.width,
        r + 1 < l.depth,
        m.has(l.edge_shade(alu, x, r, true)),
        m.has(l.edge_shade(alu, x, r, false)),
    ensures
        ({
            let face = m.num(l.face_shade(alu, x, r)->0);
            let nearer = m.num(l.face_shade(alu, x, r - 1)->0);
            let left = m.num(l.face_shade(alu, x - 1, r)->0);
            let across = m.num(l.edge_shade(alu, x, r, true));
            let along = m.num(l.edge_shade(alu, x, r, false));
            across + across == face + nearer && along + along == face + left
        }),
{
    let h = 1real / 2real;
    let face = m.num(l.face_shade(alu, x, r)->0);
    let nearer = m.num(l.face_shade(alu, x, r - 1)->0);
    let left = m.num(l.face_shade(alu, x - 1, r)->0);
    times_spreads(face + nearer, h, h);
    times_spreads(face + left, h, h);
    times_simple(face + nearer);
    times_simple(face + left);
    assert(h + h == 1real);
}

/// An edge at the border of the surface is as bright as the one face that it
/// has.
pub proof fn law_border_edges_have_one_face<A: Arithmetic>(alu: &A, l: Landscape, x: int, r: int)
    requires
        0 <= x < l.width,
        0 <= r < l.depth,
        l.width >= 2,
        l.depth >= 2,
    ensures
        r == 0 && x + 1 < l.width ==> l.face_shade(alu, x, 0) == Some(
            l.edge_shade(alu, x, r, true),
        ),
        r + 1 == l.depth && x + 1 < l.width ==> l.face_shade(alu, x, r - 1) == Some(
            l.edge_shade(alu, x, r, true),
        ),
        x == 0 && r + 1 < l.depth ==> l.face_shade(alu, 0, r) == Some(
            l.edge_shade(alu, x, r, false),
        ),
        x + 1 == l.width && r + 1 < l.depth ==> l.face_shade(alu, x - 1, r) == Some(
            l.edge_shade(alu, x, r, false),
        ),
{
}

/// Without rounding, a spectrum leaves on a place of the rotary field a share of
/// the level of the band that lies there: all of it on the ridge, and less the
/// farther away from it, as a bell curve falls off.
pub proof fn law_deposits_fade_from_the_ridge<A: Arithmetic>(
    alu: &A,
    m: Reading,
    l: Landscape,
    magnitudes: Seq<Float>,
    x: int,
    z: int,
)
    requires
        exact(alu, m),
        m.has(l.deposit(alu, magnitudes, x, z)),
        m.has(alu.sum(l.bearing(alu, x, z).1, Float(HALF))),
        1 <= l.width < usize::MAX,
        m.has(
            alu.product(
                alu.sum(l.bearing(alu, x, z).1, Float(HALF)).clamped(Float(ZERO), Float(ONE)),
                alu.of_index(steps(l.width)),
            ),
        ),
    ensures
        exists|band: int|
            {
                let (along, across) = l.bearing(alu, x, z);
                let d = m.num(l.deposit(alu, magnitudes, x, z));
                let full = times(m.num(#[trigger] level(magnitudes, band)), m.num(Float(FIELD_STAMP)));
                let at = m.num(across) + 1real / 2real;
                &&& 0 <= band
                &&& 0real <= at <= 1real ==> is_near(band, times(at, whole(steps(l.width) as int)))
                &&& at < 0real ==> band == 0
                &&& at > 1real ==> band == steps(l.width)
                &&& m.num(level(magnitudes, band)) >= 0real ==> 0real <= d <= full
                &&& m.num(along) == 0real ==> d == full
                &&& d == times(
                    full,
                    (m.exp)(
                        over(
                            -times(m.num(along), m.num(along)),
                            times(m.num(Float(RIDGE)), m.num(Float(RIDGE))),
                        ),
                    ),
                )
                &&& m.num(level(magnitudes, band)) > 0real && m.num(along) != 0real ==> d < full
            },
{
    let (along, across) = l.bearing(alu, x, z);
    let shifted = alu.sum(across, Float(HALF));
    let place = shifted.clamped(Float(ZERO), Float(ONE));
    let spot = alu.product(place, alu.of_index(steps(l.width)));
    let band = alu.index_near(spot);
    let square = alu.product(along, along);
    let wide = alu.product(Float(RIDGE), Float(RIDGE));
    let power = alu.quotient(square.opposite(), wide);
    let weight = alu.exponential(power);
    let lev = level(magnitudes, band as int);
    let part = alu.product(lev, weight);
    assert(l.deposit(alu, magnitudes, x, z) == alu.product(part, Float(FIELD_STAMP)));
    assert(m.has(part) && m.has(weight) && m.has(power) && m.has(square) && m.has(wide));
    let (a, w, p) = (m.num(along), m.num(wide), m.num(power));
    assert(m.has(Float(RIDGE)) && m.has(Float(FIELD_STAMP)));
    assert(!Float(RIDGE).at_most(Float(ZERO)));
    assert(!Float(FIELD_STAMP).at_most(Float(ZERO)));
    times_signs(m.num(Float(RIDGE)), m.num(Float(RIDGE)));
    times_signs(a, a);
    times_orders(p, 0real, w);
    times_simple(w);
    times_simple(0real);
    let e = m.num(weight);
    assert(e > 0real && (p < 0real ==> e < 1real) && (p == 0real ==> e == 1real)) by {
        reveal(Reading::grows);
    }
    if a == 0real {
        times_cancels(p, 0real, w);
    }
    let v = m.num(lev);
    let s = m.num(Float(FIELD_STAMP));
    times_signs(v, e);
    times_signs(v, 1real - e);
    times_spreads(v, 1real, e);
    times_simple(v);
    times_orders(0real, times(v, e), s);
    times_orders(times(v, e), v, s);
    times_simple(s);
    is_over(p, -times(a, a), w);
    times_groups(v, e, s);
    times_swaps(e, s);
    times_groups(v, s, e);
    // Where on the ridge the place lies.
    let last = whole(steps(l.width) as int);
    assert(Float(ZERO).at_most(shifted) <==> 0real <= m.num(shifted));
    assert(shifted.at_most(Float(ONE)) <==> m.num(shifted) <= 1real);
    assert(shifted.at_most(Float(ZERO)) <==> m.num(shifted) <= 0real);
    assert(Float(ONE).at_most(shifted) <==> 1real <= m.num(shifted));
    times_simple(last);
    if 0real <= m.num(shifted) && m.num(shifted) <= 1real {
        assert(place == shifted);
        times_signs(m.num(place), last);
        times_orders(m.num(place), 1real, last);
    } else if m.num(shifted) < 0real {
        assert(place == Float(ZERO));
        assert(m.num(spot) == 0real);
        assert(is_near(band as int, 0real));
    } else {
        assert(place == Float(ONE));
        assert(m.num(spot) == last);
        assert(is_near(band as int, last));
    }
    assert(level(magnitudes, band as int) == lev);
}

/// Without rounding, the rotary field fades: where a spectrum leaves nothing,
/// the field keeps the same share of its height everywhere, and less than all.
pub proof fn law_field_fades<A: Arithmetic>(
    alu: &A,
    m: Reading,
    l: Landscape,
    magnitudes: Seq<Float>,
    i: int,
)
    requires
        exact(alu, m),
        0 <= i < l.field.len(),
        m.has(l.stamped_field(alu, magnitudes)[i]),
        l.stamped_field(alu, magnitudes)[i].below(Float(FOUR)),
    ensures
        ({
            let (before, after) = (m.num(l.field[i]), m.num(l.stamped_field(alu, magnitudes)[i]));
            let left = m.num(l.deposit(alu, magnitudes, i % l.width, i / l.width));
            &&& after - left == times(before, m.num(Float(FIELD_DECAY)))
            &&& before > 0real ==> 0real < after - left && after - left < before
        }),
{
    let kept = alu.product(l.field[i], Float(FIELD_DECAY));
    let left = l.deposit(alu, magnitudes, i % l.width, i / l.width);
    assert(l.stamped_field(alu, magnitudes)[i] == alu.sum(kept, left));
    assert(m.has(kept) && m.has(Float(FIELD_DECAY)));
    assert(!Float(FIELD_DECAY).at_most(Float(ZERO)) && !Float(ONE).at_most(Float(FIELD_DECAY)));
    let (b, d) = (m.num(l.field[i]), m.num(Float(FIELD_DECAY)));
    times_signs(b, d);
    times_signs(b, 1real - d);
    times_spreads(b, 1real, d);
    times_simple(b);
}

/// A new row becomes the newest, every row that stays grows older by one, and
/// the oldest row is gone.
pub proof fn law_landscape_scrolls(l: Landscape, row: Seq<Float>, x: int)
    requires
        l.valid(),
        row.len() == l.width,
        0 <= x < l.width,
    ensures
        l.scrolled(row).valid(),
        l.scrolled(row).ridge(0, x) == row[x],
        forall|r: int|
            0 <= r < l.depth - 1 ==> l.scrolled(row).ridge(r + 1, x) == #[trigger] l.ridge(r, x),
{
    let s = l.scrolled(row);
    wraps_once(l.head + 1, l.depth);
    wraps_once(s.head + l.depth - 1, l.depth);
    law_cells_are_apart(l.width, l.depth, x, l.head);
    assert(s.ring(0) == l.head);
    assert forall|r: int| 0 <= r < l.depth - 1 implies s.ridge(r + 1, x) == #[trigger] l.ridge(
        r,
        x,
    ) by {
        wraps_once(l.head + l.depth - 1 - r, l.depth);
        wraps_once(s.head + l.depth - 1 - (r + 1), l.depth);
        assert(s.ring(r + 1) == l.ring(r));
        law_cells_are_apart(l.width, l.depth, x, l.ring(r));
    }
}

/// Without rounding, the row that a spectrum becomes lies in each band between
/// the row before it and the spectrum. The first row is the spectrum itself.
/// The other rows grow older by one.
pub proof fn law_spectra_scroll_into_the_landscape<A: Arithmetic>(
    alu: &A,
    m: Reading,
    l: Landscape,
    magnitudes: Seq<Float>,
    r: int,
    x: int,
)
    requires
        exact(alu, m),
        l.valid(),
        0 <= x < l.width,
        0 <= r < l.depth,
        m.has(l.pushed(alu, magnitudes).ridge(0, x)),
    ensures
        ({
            let now = m.num(l.pushed(alu, magnitudes).ridge(0, x));
            let heard = m.num(
                if x < magnitudes.len() {
                    magnitudes[x]
                } else {
                    Float(ZERO)
                },
            );
            let last = m.num(l.ridge(0, x));
            &&& !l.primed ==> now == heard
            &&& l.primed && last <= heard ==> last <= now <= heard
            &&& l.primed && heard <= last ==> heard <= now <= last
            &&& l.primed && last != heard ==> last != now
            &&& r < l.depth - 1 ==> l.pushed(alu, magnitudes).ridge(r + 1, x) == l.ridge(r, x)
        }),
{
    let row = l.next_row(alu, magnitudes);
    law_landscape_scrolls(l, row, x);
    assert(l.pushed(alu, magnitudes).ridge(0, x) == row[x]);
    assert(r < l.depth - 1 ==> l.scrolled(row).ridge(r + 1, x) == l.ridge(r, x));
    let target = level(magnitudes, x);
    let last = if l.primed {
        l.ridge(0, x)
    } else {
        target
    };
    assert(row[x] == smoothed(alu, last, target));
    law_rows_go_toward_the_spectrum(alu, m, last, target);
}

/// Without rounding, the running average of where the energy lies goes toward
/// the column that all energy lies in, if it lies in one, and never beyond it.
pub proof fn law_centroid_follows_the_energy<A: Arithmetic>(
    alu: &A,
    m: Reading,
    l: Landscape,
    x: int,
)
    requires
        exact(alu, m),
        l.valid(),
        l.primed,
        2 <= l.width <= usize::MAX,
        0 <= x < l.width,
        m.has(l.adapted(alu).centroid),
        forall|i: int|
            0 <= i < l.rows.len() && i % l.width != x ==> m.num(#[trigger] l.rows[i]) == 0real,
        ({
            let t = tally(alu, l.rows, l.width, l.rows.len());
            m.has(t.0) && m.has(t.1) && m.num(t.0) > 0real
        }),
    ensures
        ({
            let (before, after) = (m.num(l.centroid), m.num(l.adapted(alu).centroid));
            let place = over(whole(x), whole(l.width - 1));
            &&& before <= place ==> before <= after <= place
            &&& place <= before ==> place <= after <= before
            &&& before != place ==> after != before
        }),
{
    let t = tally(alu, l.rows, l.width, l.rows.len());
    law_centroid_is_where_the_energy_lies(alu, m, l.rows, l.width, l.rows.len(), x);
    assert(t.0.at_most(Float(ZERO)) <==> m.num(t.0) <= 0real);
    assert(Float(ZERO).below(t.0));
    let c = alu.quotient(t.1, t.0);
    assert(l.adapted(alu).centroid == approached(alu, l.centroid, c));
    law_averages_go_toward_the_value(alu, m, l.centroid, c);
    assert(m.has(c));
    let (v, e, last) = (m.num(c), m.num(t.0), whole(l.width - 1));
    // v * e * last == e * x
    times_groups(v, e, last);
    times_swaps(e, last);
    times_groups(v, last, e);
    times_swaps(e, whole(x));
    times_cancels(times(v, last), whole(x), e);
    is_over(v, whole(x), last);
}

/// Without rounding, without any energy the running average of where it lies
/// goes toward the middle.
pub proof fn law_centroid_rests_in_the_middle<A: Arithmetic>(alu: &A, m: Reading, l: Landscape)
    requires
        exact(alu, m),
        l.primed,
        l.width >= 2,
        m.has(l.adapted(alu).centroid),
        tally(alu, l.rows, l.width, l.rows.len()).0.at_most(Float(ZERO)),
    ensures
        ({
            let (before, after) = (m.num(l.centroid), m.num(l.adapted(alu).centroid));
            let middle = 1real / 2real;
            &&& before <= middle ==> before <= after <= middle
            &&& middle <= before ==> middle <= after <= before
        }),
{
    law_averages_go_toward_the_value(alu, m, l.centroid, Float(HALF));
}

/// Without rounding, a tick first scrolls the spectrum in and then lets the
/// averages follow what the landscape shows with it, and without a spectrum
/// neither happens.
pub proof fn law_a_tick_shows_the_spectrum<A: Arithmetic>(
    alu: &A,
    m: Reading,
    l: Landscape,
    magnitudes: Seq<Float>,
    h: Float,
    i: int,
    x: int,
)
    requires
        exact(alu, m),
        l.valid(),
        l.width >= 2,
        0 <= x < l.width,
        m.has(h),
        Float(ZERO).at_most(h),
        m.has(l.ticked(alu, Some(magnitudes)).peak),
        0 <= i < l.rows.len(),
    ensures
        ({
            let t = l.ticked(alu, Some(magnitudes));
            let (before, after) = (m.num(l.peak), m.num(t.peak));
            &&& t.primed
            &&& t.ridge(0, x) == l.pushed(alu, magnitudes).ridge(0, x)
            &&& t.rows == l.pushed(alu, magnitudes).rows
            &&& (forall|k: int| 0 <= k < t.rows.len() ==> (#[trigger] t.rows[k]).at_most(h)) ==> {
                &&& after <= m.num(h) || after <= before
                &&& before >= m.num(h) ==> after <= before
            }
            &&& h.at_most(t.rows[i]) ==> {
                &&& after >= m.num(h) || after >= before
                &&& before <= m.num(h) ==> after >= before
            }
        }),
        ({
            let t = l.ticked(alu, None);
            &&& t.rows == l.rows
            &&& t.field == l.field
            &&& t.peak == l.peak
            &&& t.primed == l.primed
        }),
{
    let turned = Landscape { yaw: l.ticked(alu, None).yaw, ..l };
    assert(l.ticked(alu, None) == turned);
    let grown = turned.pushed(alu, magnitudes);
    law_landscape_scrolls(turned, turned.next_row(alu, magnitudes), x);
    assert(turned.next_row(alu, magnitudes) =~= l.next_row(alu, magnitudes));
    assert(grown.rows =~= l.pushed(alu, magnitudes).rows);
    assert(grown.valid());
    assert(l.ticked(alu, Some(magnitudes)).peak == grown.adapted(alu).peak);
    law_peak_follows_the_highest_level(alu, m, grown, h, i);
}

/// Without rounding, the running average of the highest level of the rotary
/// field goes toward the highest level, and never beyond it.
pub proof fn law_field_peak_follows_the_highest_level<A: Arithmetic>(
    alu: &A,
    m: Reading,
    l: Landscape,
    magnitudes: Seq<Float>,
    h: Float,
    i: int,
)
    requires
        exact(alu, m),
        l.valid(),
        m.has(h),
        Float(ZERO).at_most(h),
        m.has(l.stamped(alu, magnitudes).field_peak),
        0 <= i < l.field.len(),
    ensures
        ({
            let field = l.stamped(alu, magnitudes).field;
            let (before, after) = (
                m.num(l.field_peak),
                m.num(l.stamped(alu, magnitudes).field_peak),
            );
            &&& (forall|k: int| 0 <= k < field.len() ==> (#[trigger] field[k]).at_most(h)) ==> {
                &&& after <= m.num(h) || after <= before
                &&& before >= m.num(h) ==> after <= before
            }
            &&& h.at_most(field[i]) ==> {
                &&& after >= m.num(h) || after >= before
                &&& before <= m.num(h) ==> after >= before
            }
        }),
{
    let field = l.stamped(alu, magnitudes).field;
    let top = highest(field, field.len());
    law_highest_of_the_field_is_the_highest(field, field.len());
    law_averages_go_toward_the_value(alu, m, l.field_peak, top);
    assert(m.has(top));
    if forall|k: int| 0 <= k < field.len() ==> (#[trigger] field[k]).at_most(h) {
        assert(top.at_most(h));
    }
    if h.at_most(field[i]) {
        assert(h.at_most(top));
    }
}

/// Without rounding, the surface reaches the limit only where the level reaches
/// what heights are relative to.
pub proof fn law_only_peaks_reach_the_limit<A: Arithmetic>(
    alu: &A,
    m: Reading,
    l: Landscape,
    r: int,
    x: int,
)
    requires
        exact(alu, m),
        m.has(l.peak),
        m.has(l.field_peak),
        m.num(Float(PEAK_FLOOR)) <= m.num(l.peak),
        m.num(Float(PEAK_FLOOR)) <= m.num(l.field_peak),
        m.has(Float(PEAK_FLOOR)),
        l.rotary ==> m.has(alu.quotient(l.field[cell(l.width, x, r)], l.field_peak)),
        !l.rotary ==> m.has(alu.quotient(alu.product(l.ridge(r, x), l.emphasis(alu, x)), l.peak)),
    ensures
        l.rotary ==> (l.height(alu, r, x).below(Float(ONE)) <==> m.num(
            l.field[cell(l.width, x, r)],
        ) < m.num(l.field_peak)),
        !l.rotary ==> (l.height(alu, r, x).below(Float(ONE)) <==> m.num(l.ridge(r, x)) < m.num(
            l.peak,
        )),
        m.has(l.height(alu, r, x)),
{
    let floor = Float(PEAK_FLOOR);
    assert(floor.at_most(l.peak) && floor.at_most(l.field_peak));
    assert(!floor.at_most(Float(ZERO)));
    let top = if l.rotary {
        l.field_peak
    } else {
        l.peak
    };
    let q = if l.rotary {
        alu.quotient(l.field[cell(l.width, x, r)], l.field_peak)
    } else {
        alu.quotient(alu.product(l.ridge(r, x), l.emphasis(alu, x)), l.peak)
    };
    assert(top.greater(floor) == top);
    assert(l.height(alu, r, x) == q.lesser(Float(ONE)));
    assert(Float(ONE).at_most(q) <==> 1real <= m.num(q));
    times_simple(m.num(top));
    times_orders(1real, m.num(q), m.num(top));
    if !l.rotary {
        let e = l.emphasis(alu, x);
        let tilt = alu.difference(Float(TILT_STRENGTH), Float(ONE));
        assert(m.has(e));
        let place = alu.quotient(alu.of_index(x as usize), alu.of_index(steps(l.width)));
        let alignment = alu.difference(
            Float(ONE),
            alu.difference(place, l.centroid).absolute(),
        ).greater(Float(ZERO));
        assert(e == alu.sum(Float(ONE), alu.product(tilt, alignment)));
        times_simple(m.num(alignment));
        times_simple(m.num(l.ridge(r, x)));
    }
}

/// Without rounding, a face is lit according to a normal that stands upright on
/// it: at right angles to the ways from its point to the next column and to the
/// next row.
pub proof fn law_faces_are_lit_by_their_normals<A: Arithmetic>(
    alu: &A,
    m: Reading,
    l: Landscape,
    x: int,
    r: int,
)
    requires
        exact(alu, m),
        x + 1 < l.width,
        r + 1 < l.depth,
        ({
            let a = l.place(alu, x, r);
            is_vector(
                m,
                upward_normal(
                    alu,
                    way(alu, a, l.place(alu, x + 1, r)),
                    way(alu, a, l.place(alu, x, r + 1)),
                ),
            )
        }),
    ensures
        exists|n: Place|
            {
                let a = l.place(alu, x, r);
                let b = l.place(alu, x + 1, r);
                let c = l.place(alu, x, r + 1);
                &&& is_vector(m, n)
                &&& l.face_shade(alu, x, r) == Some(#[trigger] brightness(alu, n))
                &&& m.num(n.1) >= 0real
                &&& times(m.num(n.0), m.num(b.0) - m.num(a.0)) + times(
                    m.num(n.1),
                    m.num(b.1) - m.num(a.1),
                ) + times(m.num(n.2), m.num(b.2) - m.num(a.2)) == 0real
                &&& times(m.num(n.0), m.num(c.0) - m.num(a.0)) + times(
                    m.num(n.1),
                    m.num(c.1) - m.num(a.1),
                ) + times(m.num(n.2), m.num(c.2) - m.num(a.2)) == 0real
            },
{
    let a = l.place(alu, x, r);
    let u = way(alu, a, l.place(alu, x + 1, r));
    let v = way(alu, a, l.place(alu, x, r + 1));
    let n = upward_normal(alu, u, v);
    law_normals_are_upright(alu, m, u, v);
    let c = cross_product(alu, u, v);
    assert(is_vector(m, c));
    assert(is_vector(m, u) && is_vector(m, v));
    assert(l.face_shade(alu, x, r) == Some(brightness(alu, n)));
}

/// The landscape after several rows, the first of which came first.
pub open spec fn scrolled_by(l: Landscape, rows: Seq<Seq<Float>>) -> Landscape
    decreases rows.len(),
{
    if rows.len() == 0 {
        l
    } else {
        scrolled_by(l, rows.drop_last()).scrolled(rows.last())
    }
}

/// Once as many rows have come as the landscape holds, it shows the latest of
/// them and nothing else.
pub proof fn law_landscape_is_the_latest_rows(
    l: Landscape,
    rows: Seq<Seq<Float>>,
    r: int,
    x: int,
)
    requires
        l.valid(),
        forall|i: int| 0 <= i < rows.len() ==> (#[trigger] rows[i]).len() == l.width,
        0 <= r < l.depth,
        r < rows.len(),
        0 <= x < l.width,
    ensures
        scrolled_by(l, rows).valid(),
        scrolled_by(l, rows).width == l.width,
        scrolled_by(l, rows).depth == l.depth,
        scrolled_by(l, rows).ridge(r, x) == rows[rows.len() - 1 - r][x],
    decreases rows.len(),
{
    let before = scrolled_by(l, rows.drop_last());
    scrolled_shape(l, rows.drop_last());
    law_landscape_scrolls(before, rows.last(), x);
    if r > 0 {
        law_landscape_is_the_latest_rows(l, rows.drop_last(), r - 1, x);
        assert(before.ridge(r - 1, x) == rows[rows.len() - 1 - r][x]);
    }
}

proof fn scrolled_shape(l: Landscape, rows: Seq<Seq<Float>>)
    requires
        l.valid(),
        forall|i: int| 0 <= i < rows.len() ==> (#[trigger] rows[i]).len() == l.width,
    ensures
        scrolled_by(l, rows).valid(),
        scrolled_by(l, rows).width == l.width,
        scrolled_by(l, rows).depth == l.depth,
    decreases rows.len(),
{
    if rows.len() > 0 {
        scrolled_shape(l, rows.drop_last());
        law_landscape_scrolls(scrolled_by(l, rows.drop_last()), rows.last(), 0);
    }
}

/// Asking for another depth clears the landscape: until the next spectrum
/// comes there is nothing to see. Asking for the depth that it has changes
/// nothing.
pub proof fn law_resizing_clears(l: Landscape, depth: int, r: int, x: int)
    requires
        l.valid(),
        depth > 0,
        0 <= r < depth,
        0 <= x < l.width,
    ensures
        depth == l.depth ==> l.resized(depth) == l,
        depth != l.depth ==> !l.resized(depth).primed && l.resized(depth).ridge(r, x) == Float(
            ZERO,
        ),
{
    if depth != l.depth {
        wraps_once(depth - 1 - r, depth);
        law_cells_are_apart(l.width, depth, x, l.resized(depth).ring(r));
    }
}

/// Switching the rotary field on and off leaves the rows as they were; what
/// the field held is gone.
pub proof fn law_rotary_keeps_the_rows(l: Landscape)
    ensures
        l.toggled().rows == l.rows,
        l.toggled().toggled() == (Landscape {
            field: flat(l.width, l.depth),
            field_peak: Float(ONE),
            ..l
        }),
{
}

/// Every operation keeps a landscape valid and its width.
pub proof fn law_landscape_stays_valid<A: Arithmetic>(
    alu: &A,
    l: Landscape,
    magnitudes: Option<Seq<Float>>,
    key: Key,
)
    requires
        l.valid(),
    ensures
        l.ticked(alu, magnitudes).valid(),
        l.ticked(alu, magnitudes).width == l.width,
        l.ticked(alu, magnitudes).depth == l.depth,
        l.keyed(alu, key).0.valid(),
        l.keyed(alu, key).0.width == l.width,
{
    wraps_once(l.head + 1, l.depth);
    match key.digit() {
        Some(n) => {
            assert(n * DEPTH_STEP * l.width >= 0) by (nonlinear_arith)
                requires
                    n > 0,
                    l.width > 0,
            ;
        },
        None => {
            assert(l.depth * l.width >= 0) by (nonlinear_arith)
                requires
                    l.depth > 0,
                    l.width > 0,
            ;
        },
    }
}

/// The camera that the landscape is seen through.
pub open spec fn camera() -> Camera {
    Camera {
        height: Float(CAM_HEIGHT),
        setback: Float(CAM_SETBACK),
        pitch: Float(CAM_PITCH),
        focal: Float(FOCAL),
        lift: Float(HORIZON_LIFT),
    }
}

/// A vertex of the wireframe on the screen, if it can be seen.
pub open spec fn vertex<A: Arithmetic>(
    alu: &A,
    l: Landscape,
    screen: Screen,
    x: int,
    r: int,
) -> Option<Point> {
    projected(alu, camera(), screen, l.place(alu, x, r))
}

/// The color of the line that goes from a vertex to the next column.
pub open spec fn color_across<A: Arithmetic>(alu: &A, l: Landscape, x: int, r: int) -> Color {
    surface(alu, l.edge_shade(alu, x, r, true))
}

/// The color of the line that goes from a vertex to the row before. No such
/// line starts in the first row, which has the other color here.
pub open spec fn color_along<A: Arithmetic>(alu: &A, l: Landscape, x: int, r: int) -> Color {
    if r > 0 {
        surface(alu, l.edge_shade(alu, x, r - 1, false))
    } else {
        color_across(alu, l, x, r)
    }
}

/// The wireframe of a landscape on a screen.
pub open spec fn woven<A: Arithmetic>(alu: &A, l: Landscape, screen: Screen) -> Weave {
    let n = l.rows.len();
    let w = l.width;
    Weave {
        points: Seq::new(n, |i: int| vertex(alu, l, screen, i % w, i / w)),
        across: Seq::new(n, |i: int| color_across(alu, l, i % w, i / w)),
        along: Seq::new(n, |i: int| color_along(alu, l, i % w, i / w)),
        width: w,
        depth: l.depth,
    }
}

/// The wireframe shows each point of the surface where the camera sees it, and
/// each line in the color of the edge of the surface that it draws.
pub proof fn law_wireframe_draws_the_surface<A: Arithmetic>(
    alu: &A,
    l: Landscape,
    screen: Screen,
    x: int,
    r: int,
)
    requires
        l.valid(),
        0 <= x < l.width,
        0 <= r < l.depth,
    ensures
        ({
            let i = r * l.width + x;
            let w = woven(alu, l, screen);
            &&& w.valid()
            &&& w.points[i] == projected(alu, camera(), screen, l.place(alu, x, r))
            &&& w.across[i] == surface(alu, l.edge_shade(alu, x, r, true))
            &&& r > 0 ==> w.along[i] == surface(alu, l.edge_shade(alu, x, r - 1, false))
        }),
{
    law_cells_are_apart(l.width, l.depth, x, r);
}

/// Without rounding, the wireframe shows each point of the surface where the
/// camera sees it, and each line between two faces in the color of a surface
/// that is as bright as they are on average: one to the next column has the
/// face before it and the one behind it, one to the row before has those on its
/// left and on its right.
pub proof fn law_wireframe_shows_the_surface<A: Arithmetic>(
    alu: &A,
    m: Reading,
    l: Landscape,
    screen: Screen,
    x: int,
    r: int,
)
    requires
        exact(alu, m),
        l.valid(),
        0 < x,
        x + 1 < l.width,
        1 < r,
        r + 1 < l.depth,
        m.has(l.edge_shade(alu, x, r, true)),
        m.has(l.edge_shade(alu, x, r - 1, false)),
        m.has(l.edge_shade(alu, x, r, false)),
        m.has(l.edge_shade(alu, x, r - 1, true)),
    ensures
        ({
            let i = r * l.width + x;
            let w = woven(alu, l, screen);
            &&& w.valid()
            &&& w.points[i] == projected(alu, camera(), screen, l.place(alu, x, r))
            &&& exists|s: Float|
                {
                    &&& w.across[i] == #[trigger] surface(alu, s)
                    &&& m.num(s) + m.num(s) == m.num(l.face_shade(alu, x, r)->0) + m.num(
                        l.face_shade(alu, x, r - 1)->0,
                    )
                }
            &&& exists|s: Float|
                {
                    &&& w.along[i] == #[trigger] surface(alu, s)
                    &&& m.num(s) + m.num(s) == m.num(l.face_shade(alu, x, r - 1)->0) + m.num(
                        l.face_shade(alu, x - 1, r - 1)->0,
                    )
                }
        }),
{
    law_cells_are_apart(l.width, l.depth, x, r);
    law_edges_are_as_bright_as_their_faces(alu, m, l, x, r);
    law_edges_are_as_bright_as_their_faces(alu, m, l, x, r - 1);
    let i = cell(l.width, x, r);
    let w = woven(alu, l, screen);
    assert(w.across[i] == surface(alu, l.edge_shade(alu, x, r, true)));
    assert(w.along[i] == surface(alu, l.edge_shade(alu, x, r - 1, false)));
}

fn inner<A: Arithmetic>(alu: &A, a: Place, b: Place) -> (r: Float)
    ensures
        steady(alu) ==> r == inner_product(alu, a, b),
{
    alu.add(alu.add(alu.mul(a.0, b.0), alu.mul(a.1, b.1)), alu.mul(a.2, b.2))
}

fn between<A: Arithmetic>(alu: &A, from: Place, to: Place) -> (r: Place)
    ensures
        steady(alu) ==> r == way(alu, from, to),
{
    (alu.sub(to.0, from.0), alu.sub(to.1, from.1), alu.sub(to.2, from.2))
}

fn normal_above<A: Arithmetic>(alu: &A, a: Place, b: Place) -> (r: Place)
    ensures
        steady(alu) ==> r == upward_normal(alu, a, b),
{
    let n = (
        alu.sub(alu.mul(a.1, b.2), alu.mul(a.2, b.1)),
        alu.sub(alu.mul(a.2, b.0), alu.mul(a.0, b.2)),
        alu.sub(alu.mul(a.0, b.1), alu.mul(a.1, b.0)),
    );
    if n.1.lt(Float(ZERO)) {
        (n.0.neg(), n.1.neg(), n.2.neg())
    } else {
        n
    }
}

fn shade<A: Arithmetic>(alu: &A, normal: Place) -> (r: Float)
    ensures
        steady(alu) ==> r == brightness(alu, normal),
{
    let l = (Float(LIGHT_X), Float(LIGHT_Y), Float(LIGHT_Z));
    let length = alu.sqrt(inner(alu, normal, normal)).max(Float(SHORTEST_NORMAL));
    let light_length = alu.sqrt(inner(alu, l, l));
    let facing = alu.div(inner(alu, normal, l), alu.mul(length, light_length));
    alu.fused(
        facing.max(Float(ZERO)),
        alu.sub(Float(ONE), Float(AMBIENT)),
        Float(AMBIENT),
    )
}

fn approach<A: Arithmetic>(alu: &A, average: Float, value: Float) -> (r: Float)
    ensures
        steady(alu) ==> r == approached(alu, average, value),
{
    alu.add(average, alu.mul(Float(ADAPT_ALPHA), alu.sub(value, average)))
}

pub(crate) fn level_of(magnitudes: &[Float], x: usize) -> (r: Float)
    ensures
        r == level(magnitudes@, x as int),
{
    if x < magnitudes.len() {
        magnitudes[x]
    } else {
        Float(ZERO)
    }
}

fn last_step(n: usize) -> (r: usize)
    ensures
        r == steps(n as int),
{
    if n > 2 {
        n - 1
    } else {
        1
    }
}

/// A rolling height-field built from successive spectra.
pub struct Terrain {
    rows: Vec<Float>,
    width: usize,
    depth: usize,
    head: usize,
    primed: bool,
    centroid: Float,
    peak: Float,
    rotary: bool,
    yaw: Float,
    yaw_speed: Float,
    field: Vec<Float>,
    field_peak: Float,
}

impl vstd::view::View for Terrain {
    type V = Landscape;

    closed spec fn view(&self) -> Landscape {
        Landscape {
            rows: self.rows@,
            width: self.width as int,
            depth: self.depth as int,
            head: self.head as int,
            primed: self.primed,
            centroid: self.centroid,
            peak: self.peak,
            rotary: self.rotary,
            yaw: self.yaw,
            yaw_speed: self.yaw_speed,
            field: self.field@,
            field_peak: self.field_peak,
        }
    }
}

/// The bytes that the deepest landscape takes that the digit keys make, per
/// band.
pub const DEEPEST_BYTES: usize = 72;

impl Terrain {
    /// Validity. The deepest landscape that the digit keys can ask for has to
    /// fit into memory.
    pub open spec fn wf(&self) -> bool {
        &&& self@.valid()
        &&& DEEPEST_BYTES * self@.width <= isize::MAX
        &&& self@.depth * self@.width <= usize::MAX
    }

    /// A flat landscape of rows of `width` bands, but at least one.
    pub fn new(width: usize) -> (t: Terrain)
        requires
            DEEPEST_BYTES * width <= isize::MAX,
        ensures
            t.wf(),
            t@ == Landscape::bare(
                if width > 0 {
                    width as int
                } else {
                    1
                },
            ),
    {
        let width: usize = if width > 0 {
            width
        } else {
            1
        };
        let t = Terrain {
            rows: vec![Float(ZERO); DEFAULT_DEPTH * width],
            width,
            depth: DEFAULT_DEPTH,
            head: 0,
            primed: false,
            centroid: Float(HALF),
            peak: Float(ONE),
            rotary: false,
            yaw: Float(ZERO),
            yaw_speed: Float(YAW_SPEED_DEFAULT),
            field: vec![Float(ZERO); DEFAULT_DEPTH * width],
            field_peak: Float(ONE),
        };
        assert(t@.rows =~= flat(width as int, DEFAULT_DEPTH as int));
        assert(t@.field =~= flat(width as int, DEFAULT_DEPTH as int));
        t
    }

    /// Resizes the landscape to `depth` rows, clearing it.
    pub fn set_depth(&mut self, depth: usize)
        requires
            old(self).wf(),
            depth > 0,
            depth * old(self)@.width <= usize::MAX,
        ensures
            final(self).wf(),
            final(self)@ == old(self)@.resized(depth as int),
    {
        if depth == self.depth {
            return;
        }
        let ghost before = self@;
        self.depth = depth;
        self.rows = vec![Float(ZERO); depth * self.width];
        self.field = vec![Float(ZERO); depth * self.width];
        self.field_peak = Float(ONE);
        self.head = 0;
        self.primed = false;
        self.centroid = Float(HALF);
        self.peak = Float(ONE);
        assert(self@ =~= before.resized(depth as int));
    }

    /// Where in the ring the row of age `r` stands.
    fn ring(&self, r: usize) -> (i: usize)
        requires
            self.wf(),
            r < self@.depth,
        ensures
            i == self@.ring(r as int),
            i < self@.depth,
    {
        proof {
            wraps_once(self.head + self.depth - 1 - r, self.depth as int);
        }
        if self.head > r {
            self.head - 1 - r
        } else {
            self.depth - 1 - (r - self.head)
        }
    }

    /// Takes in the latest spectrum, scrolling the landscape away by one row.
    pub fn push<A: Arithmetic>(&mut self, alu: &A, magnitudes: &[Float])
        requires
            old(self).wf(),
        ensures
            final(self).wf(),
            final(self)@ == old(self)@.scrolled(final(self)@.newest()),
            steady(alu) ==> final(self)@ == old(self)@.pushed(alu, magnitudes@),
    {
        let ghost before = self@;
        let w: usize = self.width;
        let d: usize = self.depth;
        let h: usize = self.head;
        let prev = self.ring(0);
        let mut x: usize = 0;
        let ghost mut fresh: Seq<Float> = Seq::empty();
        while x < w
            invariant
                self.wf(),
                before.valid(),
                w == self.width,
                d == self.depth,
                h == self.head,
                h < d,
                prev < d,
                prev == before.ring(0),
                x <= w,
                before.width == w,
                before.depth == d,
                before.head == h,
                before.primed == self.primed,
                self@ == (Landscape { rows: self@.rows, ..before }),
                fresh.len() == x,
                forall|i: int|
                    0 <= i < before.rows.len() ==> #[trigger] self@.rows[i] == if i / (w as int)
                        == h && i % (w as int) < x {
                        fresh[i % (w as int)]
                    } else {
                        before.rows[i]
                    },
                steady(alu) ==> forall|j: int|
                    0 <= j < x ==> #[trigger] fresh[j] == before.next_row(alu, magnitudes@)[j],
            decreases w - x,
        {
            let target = level_of(magnitudes, x);
            let from = cell_at(w, d, x, prev);
            let to = cell_at(w, d, x, h);
            proof {
                law_cells_are_apart(w as int, d as int, x as int, prev as int);
                law_cells_are_apart(w as int, d as int, x as int, h as int);
            }
            let last = if self.primed {
                self.rows[from]
            } else {
                target
            };
            let value = alu.add(last, alu.mul(Float(SMOOTHING), alu.sub(target, last)));
            let ghost was = self@;
            self.rows[to] = value;
            proof {
                fresh = fresh.push(value);
                assert forall|i: int| 0 <= i < before.rows.len() implies #[trigger] self@.rows[i]
                    == if i / (w as int) == h && i % (w as int) < x + 1 {
                    fresh[i % (w as int)]
                } else {
                    before.rows[i]
                } by {
                    if i / (w as int) == h && i % (w as int) == x {
                        lemma_fundamental_div_mod(i, w as int);
                        assert((w as int) * (h as int) == (h as int) * (w as int))
                            by (nonlinear_arith);
                        assert(i == to);
                    } else {
                        assert(i != to);
                        assert(self@.rows[i] == was.rows[i]);
                    }
                }
                assert(self@ =~= (Landscape { rows: self@.rows, ..before }));
            }
            x = x + 1;
        }
        proof {
            wraps_once(h + 1, d as int);
        }
        self.head = if h + 1 < d {
            h + 1
        } else {
            0
        };
        self.primed = true;
        proof {
            assert forall|i: int| 0 <= i < before.rows.len() implies #[trigger] (i % (w as int)) < w by {
                lemma_mod_bound(i, w as int);
            }
            assert(self@ =~= before.scrolled(fresh));
            assert forall|j: int| 0 <= j < w implies self@.newest()[j] == fresh[j] by {
                law_landscape_scrolls(before, fresh, j);
            }
            assert(self@.newest() =~= fresh);
            if steady(alu) {
                assert(fresh =~= before.next_row(alu, magnitudes@));
            }
        }
    }

    /// Lets the averages follow what the landscape shows.
    pub fn adapt<A: Arithmetic>(&mut self, alu: &A)
        requires
            old(self).wf(),
        ensures
            final(self).wf(),
            final(self)@ == (Landscape {
                centroid: final(self)@.centroid,
                peak: final(self)@.peak,
                ..old(self)@
            }),
            steady(alu) ==> final(self)@ == old(self)@.adapted(alu),
    {
        if !self.primed || self.width < 2 {
            return;
        }
        let w: usize = self.width;
        let d: usize = self.depth;
        let ghost rows = self@.rows;
        let mut energy = Float(ZERO);
        let mut weighted = Float(ZERO);
        let mut peak = Float(ZERO);
        let span = alu.from_index(w - 1);
        let mut ring: usize = 0;
        while ring < d
            invariant
                self.wf(),
                *self == *old(self),
                w == self.width,
                d == self.depth,
                w >= 2,
                ring <= d,
                rows == self@.rows,
                steady(alu) ==> span == alu.of_index((w - 1) as usize),
                steady(alu) ==> (energy, weighted, peak) == tally(
                    alu,
                    rows,
                    w as int,
                    (ring * w) as nat,
                ),
            decreases d - ring,
        {
            let mut x: usize = 0;
            while x < w
                invariant
                    self.wf(),
                    *self == *old(self),
                    w == self.width,
                    d == self.depth,
                    w >= 2,
                    ring < d,
                    x <= w,
                    rows == self@.rows,
                    steady(alu) ==> span == alu.of_index((w - 1) as usize),
                    steady(alu) ==> (energy, weighted, peak) == tally(
                        alu,
                        rows,
                        w as int,
                        (ring * w + x) as nat,
                    ),
                decreases w - x,
            {
                let i = cell_at(w, d, x, ring);
                proof {
                    law_cells_are_apart(w as int, d as int, x as int, ring as int);
                }
                let m = self.rows[i];
                let e = alu.mul(m, m);
                energy = alu.add(energy, e);
                weighted = alu.add(weighted, alu.mul(e, alu.div(alu.from_index(x), span)));
                peak = peak.max(m);
                x = x + 1;
            }
            assert(ring * w + w == (ring + 1) * w) by (nonlinear_arith);
            ring = ring + 1;
        }
        let centroid = if Float(ZERO).lt(energy) {
            alu.div(weighted, energy)
        } else {
            Float(HALF)
        };
        self.centroid = approach(alu, self.centroid, centroid);
        self.peak = approach(alu, self.peak, peak);
    }

    /// What a spectrum leaves on a place of the rotary field.
    fn deposit<A: Arithmetic>(
        &self,
        alu: &A,
        magnitudes: &[Float],
        turn: (Float, Float),
        x: usize,
        z: usize,
    ) -> (r: Float)
        requires
            steady(alu) ==> turn == (alu.sine(self@.yaw), alu.cosine(self@.yaw)),
        ensures
            steady(alu) ==> r == self@.deposit(alu, magnitudes@, x as int, z as int),
    {
        let (s, c) = turn;
        let last_x = alu.from_index(last_step(self.width));
        let last_z = alu.from_index(last_step(self.depth));
        let v = alu.sub(alu.div(alu.from_index(z), last_z), Float(HALF));
        let u = alu.sub(alu.div(alu.from_index(x), last_x), Float(HALF));
        let along = alu.add(alu.mul(u, c), alu.mul(v, s));
        let across = alu.add(alu.mul(u.neg(), s), alu.mul(v, c));
        let place = alu.add(across, Float(HALF)).clamp(Float(ZERO), Float(ONE));
        let band = alu.round_index(alu.mul(place, last_x));
        let mag = level_of(magnitudes, band);
        let weight = alu.exp(
            alu.div(alu.mul(along, along).neg(), alu.mul(Float(RIDGE), Float(RIDGE))),
        );
        alu.mul(alu.mul(mag, weight), Float(FIELD_STAMP))
    }

    /// Fades the rotary field and stamps a spectrum onto it.
    pub fn stamp_field<A: Arithmetic>(&mut self, alu: &A, magnitudes: &[Float])
        requires
            old(self).wf(),
        ensures
            final(self).wf(),
            final(self)@ == (Landscape {
                field: final(self)@.field,
                field_peak: final(self)@.field_peak,
                ..old(self)@
            }),
            forall|i: int|
                0 <= i < final(self)@.field.len() ==> (#[trigger] final(self)@.field[i]).at_most(
                    Float(FOUR),
                ),
            steady(alu) ==> final(self)@ == old(self)@.stamped(alu, magnitudes@),
    {
        let ghost before = self@;
        let ghost wanted = before.stamped_field(alu, magnitudes@);
        let turn = (alu.sin(self.yaw), alu.cos(self.yaw));
        let w: usize = self.width;
        let d: usize = self.depth;
        let mut peak = Float(ZERO);
        let mut z: usize = 0;
        assert(0 * w == 0) by (nonlinear_arith);
        while z < d
            invariant
                self.wf(),
                before.valid(),
                before.width == w,
                before.depth == d,
                w == self.width,
                d == self.depth,
                z <= d,
                wanted == before.stamped_field(alu, magnitudes@),
                self@ == (Landscape { field: self@.field, ..before }),
                steady(alu) ==> turn == (alu.sine(before.yaw), alu.cosine(before.yaw)),
                forall|i: int|
                    0 <= i < z * w ==> (#[trigger] self@.field[i]).at_most(Float(FOUR)),
                forall|i: int|
                    z * w <= i < d * w ==> #[trigger] self@.field[i] == before.field[i],
                steady(alu) ==> forall|i: int|
                    0 <= i < z * w ==> #[trigger] self@.field[i] == wanted[i],
                steady(alu) ==> peak == highest(wanted, (z * w) as nat),
            decreases d - z,
        {
            proof {
                assert(z * w + w <= d * w) by (nonlinear_arith)
                    requires
                        z < d,
                        0 <= w,
                ;
            }
            let mut x: usize = 0;
            while x < w
                invariant
                    self.wf(),
                    before.valid(),
                    before.width == w,
                    before.depth == d,
                    w == self.width,
                    d == self.depth,
                    z < d,
                    x <= w,
                    wanted == before.stamped_field(alu, magnitudes@),
                    self@ == (Landscape { field: self@.field, ..before }),
                    steady(alu) ==> turn == (alu.sine(before.yaw), alu.cosine(before.yaw)),
                    forall|i: int|
                        0 <= i < z * w + x ==> (#[trigger] self@.field[i]).at_most(Float(FOUR)),
                    forall|i: int|
                        z * w + x <= i < d * w ==> #[trigger] self@.field[i] == before.field[i],
                    steady(alu) ==> forall|i: int|
                        0 <= i < z * w + x ==> #[trigger] self@.field[i] == wanted[i],
                    steady(alu) ==> peak == highest(wanted, (z * w + x) as nat),
                decreases w - x,
            {
                let i = cell_at(w, d, x, z);
                proof {
                    law_cells_are_apart(w as int, d as int, x as int, z as int);
                }
                let deposit = self.deposit(alu, magnitudes, turn, x, z);
                assert(steady(alu) ==> deposit == before.deposit(
                    alu,
                    magnitudes@,
                    x as int,
                    z as int,
                ));
                let val = alu.add(alu.mul(self.field[i], Float(FIELD_DECAY)), deposit).min(
                    Float(FOUR),
                );
                let ghost was = self@.field;
                self.field[i] = val;
                assert(self@.field == was.update(i as int, val));
                assert(self@ =~= (Landscape { field: self@.field, ..before }));
                peak = peak.max(val);
                x = x + 1;
            }
            assert(z * w + w == (z + 1) * w) by (nonlinear_arith);
            z = z + 1;
        }
        self.field_peak = approach(alu, self.field_peak, peak);
        proof {
            if steady(alu) {
                assert(self@.field =~= wanted);
                assert(self@ =~= before.stamped(alu, magnitudes@));
            }
        }
    }

    fn emphasis<A: Arithmetic>(&self, alu: &A, x: usize) -> (r: Float)
        ensures
            steady(alu) ==> r == self@.emphasis(alu, x as int),
    {
        let place = alu.div(alu.from_index(x), alu.from_index(last_step(self.width)));
        let alignment = alu.sub(Float(ONE), alu.sub(place, self.centroid).abs()).max(Float(ZERO));
        alu.add(
            Float(ONE),
            alu.mul(alu.sub(Float(TILT_STRENGTH), Float(ONE)), alignment),
        )
    }

    /// How high the surface is at band `x` of the row of age `r`.
    pub fn height<A: Arithmetic>(&self, alu: &A, r: usize, x: usize) -> (h: Float)
        requires
            self.wf(),
            r < self@.depth,
            x < self@.width,
        ensures
            h.at_most(Float(ONE)),
            steady(alu) ==> h == self@.height(alu, r as int, x as int),
    {
        if self.rotary {
            let raw = self.field[cell_at(self.width, self.depth, x, r)];
            return alu.div(raw, self.field_peak.max(Float(PEAK_FLOOR))).min(Float(ONE));
        }
        let norm = self.peak.max(Float(PEAK_FLOOR));
        let ring = self.ring(r);
        let raw = self.rows[cell_at(self.width, self.depth, x, ring)];
        alu.div(alu.mul(raw, self.emphasis(alu, x)), norm).min(Float(ONE))
    }

    fn island_factor<A: Arithmetic>(&self, alu: &A, r: usize) -> (f: Float)
        ensures
            steady(alu) ==> f == self@.island_factor(alu, r as int),
    {
        if self.rotary || self.depth < ISLAND_MIN_DEPTH {
            return Float(ONE);
        }
        let t = alu.div(alu.from_index(r), alu.from_index(self.depth - 1));
        alu.sin(alu.mul(t, Float(PI)))
    }

    fn surface_y<A: Arithmetic>(&self, alu: &A, x: usize, r: usize) -> (y: Float)
        requires
            self.wf(),
            r < self@.depth,
            x < self@.width,
        ensures
            steady(alu) ==> y == self@.place(alu, x as int, r as int).1,
    {
        alu.mul(
            alu.mul(alu.powf(self.height(alu, r, x), Float(SPIKE_GAMMA)), Float(PEAK_HEIGHT)),
            self.island_factor(alu, r),
        )
    }

    /// Where a point of the surface lies in the world.
    pub fn world<A: Arithmetic>(&self, alu: &A, x: usize, r: usize) -> (p: Place)
        requires
            self.wf(),
            r < self@.depth,
            x < self@.width,
        ensures
            steady(alu) ==> p == self@.place(alu, x as int, r as int),
    {
        let across = alu.sub(
            alu.div(alu.from_index(x), alu.from_index(self.width - 1)),
            Float(HALF),
        );
        let wx = alu.mul(alu.mul(across, Float(TWO)), Float(WORLD_HALF_WIDTH));
        let wy = self.surface_y(alu, x, r);
        let wz = alu.from_index(r);
        (wx, wy, wz)
    }

    /// How bright the face that starts at a point is, if there is one.
    pub fn face_shade<A: Arithmetic>(&self, alu: &A, x: usize, r: usize) -> (s: Option<Float>)
        requires
            self.wf(),
        ensures
            s is Some <==> x + 1 < self@.width && r + 1 < self@.depth,
            steady(alu) ==> s == self@.face_shade(alu, x as int, r as int),
    {
        if x >= self.width - 1 || r >= self.depth - 1 {
            return None;
        }
        let a = self.world(alu, x, r);
        let b = self.world(alu, x + 1, r);
        let c = self.world(alu, x, r + 1);
        let normal = normal_above(alu, between(alu, a, b), between(alu, a, c));
        Some(shade(alu, normal))
    }

    /// How bright an edge of the surface is.
    pub fn edge_shade<A: Arithmetic>(&self, alu: &A, x: usize, r: usize, along_x: bool) -> (s:
        Float)
        requires
            self.wf(),
        ensures
            steady(alu) ==> s == self@.edge_shade(alu, x as int, r as int, along_x),
    {
        let one = self.face_shade(alu, x, r);
        let other = if along_x {
            if r > 0 {
                self.face_shade(alu, x, r - 1)
            } else {
                None
            }
        } else {
            if x > 0 {
                self.face_shade(alu, x - 1, r)
            } else {
                None
            }
        };
        match (one, other) {
            (Some(a), Some(b)) => alu.mul(Float(HALF), alu.add(a, b)),
            (Some(a), None) => a,
            (None, Some(b)) => b,
            (None, None) => alu.add(
                Float(AMBIENT),
                alu.mul(alu.sub(Float(ONE), Float(AMBIENT)), Float(HALF)),
            ),
        }
    }

    /// The wireframe of the landscape on a screen.
    pub fn wireframe<A: Arithmetic>(&self, alu: &A, screen: Screen) -> (mesh: Mesh)
        requires
            self.wf(),
        ensures
            mesh.wf(),
            mesh@.width == self@.width,
            mesh@.depth == self@.depth,
            steady(alu) ==> mesh@ == woven(alu, self@, screen),
    {
        let w: usize = self.width;
        let d: usize = self.depth;
        let eye = Camera {
            height: Float(CAM_HEIGHT),
            setback: Float(CAM_SETBACK),
            pitch: Float(CAM_PITCH),
            focal: Float(FOCAL),
            lift: Float(HORIZON_LIFT),
        };
        let mut points: Vec<Option<Point>> = Vec::new();
        let mut across: Vec<Color> = Vec::new();
        let mut along: Vec<Color> = Vec::new();
        let ghost l = self@;
        let ghost wanted = woven(alu, l, screen);
        let mut r: usize = 0;
        assert(0 * w == 0) by (nonlinear_arith);
        while r < d
            invariant
                self.wf(),
                l == self@,
                wanted == woven(alu, l, screen),
                w == self.width,
                d == self.depth,
                eye == camera(),
                r <= d,
                points@.len() == r * w,
                across@.len() == r * w,
                along@.len() == r * w,
                steady(alu) ==> forall|i: int|
                    0 <= i < r * w ==> #[trigger] points@[i] == wanted.points[i],
                steady(alu) ==> forall|i: int|
                    0 <= i < r * w ==> #[trigger] across@[i] == wanted.across[i],
                steady(alu) ==> forall|i: int|
                    0 <= i < r * w ==> #[trigger] along@[i] == wanted.along[i],
            decreases d - r,
        {
            let mut x: usize = 0;
            while x < w
                invariant
                    self.wf(),
                    l == self@,
                    wanted == woven(alu, l, screen),
                    w == self.width,
                    d == self.depth,
                    eye == camera(),
                    r < d,
                    x <= w,
                    points@.len() == r * w + x,
                    across@.len() == r * w + x,
                    along@.len() == r * w + x,
                    steady(alu) ==> forall|i: int|
                        0 <= i < r * w + x ==> #[trigger] points@[i] == wanted.points[i],
                    steady(alu) ==> forall|i: int|
                        0 <= i < r * w + x ==> #[trigger] across@[i] == wanted.across[i],
                    steady(alu) ==> forall|i: int|
                        0 <= i < r * w + x ==> #[trigger] along@[i] == wanted.along[i],
                decreases w - x,
            {
                proof {
                    law_cells_are_apart(w as int, d as int, x as int, r as int);
                }
                points.push(eye.project(alu, screen, self.world(alu, x, r)));
                let color = surface_color(alu, self.edge_shade(alu, x, r, true));
                across.push(color);
                along.push(
                    if r > 0 {
                        surface_color(alu, self.edge_shade(alu, x, r - 1, false))
                    } else {
                        color
                    },
                );
                x = x + 1;
            }
            assert(r * w + w == (r + 1) * w) by (nonlinear_arith);
            r = r + 1;
        }
        let mesh = Mesh { points, across, along, width: w, depth: d };
        assert(steady(alu) ==> mesh@ =~= wanted);
        mesh
    }
}

/// What a landscape is drawn as before the first spectrum.
pub open spec fn warming_up() -> Seq<char> {
    "warming up…"@
}

/// Whether a body shows a landscape on an area inside a frame.
pub open spec fn shows<A: Arithmetic>(alu: &A, l: Landscape, inner: Area, body: Body) -> bool {
    if !l.primed {
        body.is_text(warming_up())
    } else if l.width < 2 {
        body is Blank
    } else {
        let screen = canvas_on(alu, inner.width, inner.height);
        match body {
            Body::Canvas { x_bounds, y_bounds, lines } => {
                &&& x_bounds == (Double(0), screen.width)
                &&& y_bounds == (Double(0), screen.height)
                &&& lines@ == woven(alu, l, screen).strokes()
            },
            _ => false,
        }
    }
}

impl Terrain {
    /// Draws the wireframe into an area.
    pub fn render_wireframe<A: Arithmetic>(&self, alu: &A, inner: Area) -> (body: Body)
        requires
            self.wf(),
        ensures
            !self@.primed || self@.width < 2 ==> body is Blank,
            self@.primed && self@.width >= 2 ==> body is Canvas,
            steady(alu) && self@.primed ==> shows(alu, self@, inner, body),
    {
        if !self.primed || self.width < 2 {
            return Body::Blank;
        }
        let screen = Screen::new(alu, inner.width, inner.height);
        let mesh = self.wireframe(alu, screen);
        Body::Canvas {
            x_bounds: (Double(0), screen.width),
            y_bounds: (Double(0), screen.height),
            lines: mesh.draw(),
        }
    }
}

impl crate::view::View for Terrain {
    open spec fn valid(&self) -> bool {
        self.wf()
    }

    open spec fn named(&self) -> Seq<char> {
        "3D terrain"@
    }

    fn name(&self) -> &str {
        "3D terrain"
    }

    fn tick<A: Arithmetic>(&mut self, alu: &A, ctx: &Ctx)
        ensures
            final(self)@.width == old(self)@.width,
            final(self)@.depth == old(self)@.depth,
            final(self)@.rotary == old(self)@.rotary,
            final(self)@.yaw_speed == old(self)@.yaw_speed,
            final(self)@.primed == (old(self)@.primed || ctx.spectrum is Some),
            steady(alu) ==> final(self)@ == old(self)@.ticked(alu, ctx.levels()),
    {
        if self.rotary {
            self.yaw = alu.modulo(alu.add(self.yaw, self.yaw_speed), Float(TAU));
        }
        if let Some(spectrum) = ctx.spectrum {
            let row = magnitudes(spectrum.bands());
            self.push(alu, &row);
            self.adapt(alu);
            if self.rotary {
                self.stamp_field(alu, &row);
            }
        }
    }

    /// Keys 1 to 9 set the number of rows, r switches the rotary field, and
    /// the square brackets change its speed.
    fn handle_key<A: Arithmetic>(&mut self, alu: &A, key: Key) -> (r: bool)
        ensures
            final(self)@.width == old(self)@.width,
            r == old(self)@.keyed(alu, key).1,
            key != Key::Char(']') && key != Key::Char('[') ==> final(self)@ == old(self)@.keyed(
                alu,
                key,
            ).0,
            key == Key::Char(']') ==> final(self)@ == (Landscape {
                yaw_speed: final(self)@.yaw_speed,
                ..old(self)@
            }) && final(self)@.yaw_speed.at_most(Float(YAW_SPEED_MAX)),
            key == Key::Char('[') ==> final(self)@ == (Landscape {
                yaw_speed: final(self)@.yaw_speed,
                ..old(self)@
            }) && Float(YAW_SPEED_MIN).at_most(final(self)@.yaw_speed),
            steady(alu) ==> final(self)@ == old(self)@.keyed(alu, key).0,
    {
        let ghost before = self@;
        match key.digit_value() {
            Some(n) => {
                proof {
                    assert(n * DEPTH_STEP * before.width <= usize::MAX) by (nonlinear_arith)
                        requires
                            n <= 9,
                            before.width > 0,
                            72 * before.width <= isize::MAX,
                    ;
                }
                self.set_depth(n * DEPTH_STEP);
                return true;
            },
            None => {},
        }
        if key == Key::Char('r') {
            self.rotary = !self.rotary;
            if self.rotary {
                self.field = vec![Float(ZERO); self.depth * self.width];
                self.field_peak = Float(ONE);
                assert(self@.field =~= flat(before.width, before.depth));
            }
            true
        } else if key == Key::Char(']') {
            self.yaw_speed = alu.add(self.yaw_speed, Float(YAW_SPEED_STEP)).min(
                Float(YAW_SPEED_MAX),
            );
            true
        } else if key == Key::Char('[') {
            self.yaw_speed = alu.sub(self.yaw_speed, Float(YAW_SPEED_STEP)).max(
                Float(YAW_SPEED_MIN),
            );
            true
        } else {
            false
        }
    }

    fn render<A: Arithmetic>(&self, alu: &A, area: Area, ctx: &Ctx) -> (panes: Vec<Pane>)
        ensures
            panes@.len() == 1,
            panes@[0].frame.goes_round(area, self.named()),
            !self@.primed ==> panes@[0].body.is_text(warming_up()),
            steady(alu) ==> shows(alu, self@, inside(area), panes@[0].body),
    {
        let frame = framed(area, "3D terrain");
        let body = if self.primed {
            self.render_wireframe(alu, frame.inner)
        } else {
            placeholder_text("warming up…")
        };
        vec![Pane { frame, body }]
    }
}

} // verus!
