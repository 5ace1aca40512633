//! Areas of the terminal.

use vstd::prelude::*;

verus! {

/// An area of terminal cells.
#[derive(Clone, Copy, PartialEq, Eq, Structural, Debug)]
pub struct Area {
    pub x: u16,
    pub y: u16,
    pub width: u16,
    pub height: u16,
}

impl Area {
    /// Whether the far corner of the area has coordinates.
    pub open spec fn fits(self) -> bool {
        &&& self.x + self.width <= u16::MAX
        &&& self.y + self.height <= u16::MAX
    }

    /// Whether the area lies inside another one.
    pub open spec fn lies_in(self, other: Area) -> bool {
        &&& other.x <= self.x
        &&& other.y <= self.y
        &&& self.x + self.width <= other.x + other.width
        &&& self.y + self.height <= other.y + other.height
    }

    /// Whether the area ends before another one begins, from top to bottom.
    pub open spec fn lies_above(self, other: Area) -> bool {
        self.y + self.height <= other.y
    }
}

/// The lesser of two numbers.
pub open spec fn lower(a: int, b: int) -> int {
    if a < b {
        a
    } else {
        b
    }
}

/// What is left of an area inside a border of one cell on each side.
pub open spec fn inside(area: Area) -> Area {
    Area {
        x: lower(area.x + 1, area.x + area.width) as u16,
        y: lower(area.y + 1, area.y + area.height) as u16,
        width: if area.width > 2 {
            (area.width - 2) as u16
        } else {
            0
        },
        height: if area.height > 2 {
            (area.height - 2) as u16
        } else {
            0
        },
    }
}

/// What a border leaves lies inside the area that it goes round.
pub proof fn law_a_border_stays_outside(area: Area)
    requires
        area.fits(),
    ensures
        inside(area).fits(),
        inside(area).lies_in(area),
{
}

/// Calls `ratatui::widgets::Block::inner` on a block with all four borders and
/// a title on top: one cell is taken away on each side, as far as there is
/// one. The title needs no room beside the border.
#[verifier::external_body]
pub(crate) fn block_inner(area: Area, title: &str) -> (r: Area)
    requires
        area.fits(),
    ensures
        r == inside(area),
{
    let outer = ratatui::layout::Rect::new(area.x, area.y, area.width, area.height);
    let r = ratatui::widgets::Block::default()
        .borders(ratatui::widgets::Borders::ALL)
        .title(title.to_string())
        .inner(outer);
    Area { x: r.x, y: r.y, width: r.width, height: r.height }
}

/// How much of an area a row of it should have.
#[derive(Clone, Copy, PartialEq, Eq, Structural, Debug)]
pub enum Extent {
    /// So many cells.
    Length(u16),
    /// So many cells or more.
    Min(u16),
}

/// The first of two rows that share an area, with a given height.
pub open spec fn top_rows(area: Area, height: int) -> Area {
    Area { x: area.x, y: area.y, width: area.width, height: height as u16 }
}

/// What a first row of a given height leaves of an area.
pub open spec fn rows_below(area: Area, height: int) -> Area {
    Area {
        x: area.x,
        y: (area.y + height) as u16,
        width: area.width,
        height: (area.height - height) as u16,
    }
}

/// Calls `ratatui::layout::Layout::vertical` with two constraints and splits
/// an area by it. Both rows are as wide as the area. They lie within it, which
/// the solver behind it is required to keep to, and the first ends where the
/// second begins or before, because the gap between them counts for more than
/// any wish for a size. A row of a given length that the area has room for
/// gets it, from the top on, and a row of any size gets the rest. Two rows with
/// the same minimum share the height equally, also where the area has not
/// enough for both, because all that the solver asks of one it asks of the
/// other, and that they be alike; the edge between them is rounded to a whole
/// cell, so that the first row gets the odd one. How other constraints share
/// the height out is not part of this contract.
#[verifier::external_body]
pub(crate) fn split_rows(area: Area, first: Extent, second: Extent) -> (r: (Area, Area))
    requires
        area.fits(),
    ensures
        r.0.x == area.x && r.0.width == area.width,
        r.1.x == area.x && r.1.width == area.width,
        area.y <= r.0.y && r.0.y + r.0.height <= area.y + area.height,
        area.y <= r.1.y && r.1.y + r.1.height <= area.y + area.height,
        r.0.lies_above(r.1),
        first matches Extent::Length(n) ==> (second == Extent::Min(0) && n <= area.height ==> r.0
            == top_rows(area, n as int) && r.1 == rows_below(area, n as int)),
        first is Min && first == second ==> r.0 == top_rows(area, (area.height + 1) / 2) && r.1
            == rows_below(area, (area.height + 1) / 2),
{
    let constraint = |e: Extent| match e {
        Extent::Length(n) => ratatui::layout::Constraint::Length(n),
        Extent::Min(n) => ratatui::layout::Constraint::Min(n),
    };
    let whole = ratatui::layout::Rect::new(area.x, area.y, area.width, area.height);
    let rows = ratatui::layout::Layout::vertical([constraint(first), constraint(second)])
        .split(whole);
    let area_of = |r: ratatui::layout::Rect| Area { x: r.x, y: r.y, width: r.width, height: r.height };
    (area_of(rows[0]), area_of(rows[1]))
}

} // verus!
