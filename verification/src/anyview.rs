//! The views that can be selected.

use vstd::prelude::*;
use vstd::view::View as _;

use crate::arith::{steady, Arithmetic};
use crate::combined::{is_spectrum, is_waveform, Combined};
use crate::float::Float;
use crate::key::Key;
use crate::layout::{inside, rows_below, top_rows, Area};
use crate::terrain::{shows, Terrain};
use crate::view::{Ctx, Pane, Placeholder, Scene, View};

verus! {

/// A view of any kind.
pub enum AnyView {
    Terrain(Terrain),
    Combined(Combined),
    Placeholder(Placeholder),
}

/// Whether two views are of one kind.
pub open spec fn same_kind(a: AnyView, b: AnyView) -> bool {
    &&& a is Terrain <==> b is Terrain
    &&& a is Combined <==> b is Combined
    &&& a is Placeholder <==> b is Placeholder
}

/// Whether a view is what it should be after a tick in which a spectrum with
/// the given levels may have come: the landscape has moved on, other views
/// have nothing to keep.
pub open spec fn followed<A: Arithmetic>(
    alu: &A,
    before: AnyView,
    after: AnyView,
    levels: Option<Seq<Float>>,
) -> bool {
    match before {
        AnyView::Terrain(t) => match after {
            AnyView::Terrain(u) => u@ == t@.ticked(alu, levels),
            _ => false,
        },
        _ => after == before,
    }
}

/// Whether a view is what it should be after a key press.
pub open spec fn obeyed<A: Arithmetic>(
    alu: &A,
    before: AnyView,
    after: AnyView,
    key: Key,
) -> bool {
    match before {
        AnyView::Terrain(t) => match after {
            AnyView::Terrain(u) => u@ == t@.keyed(alu, key).0,
            _ => false,
        },
        _ => after == before,
    }
}

/// Whether a view makes use of a key.
pub open spec fn uses_key<A: Arithmetic>(alu: &A, view: AnyView, key: Key) -> bool {
    match view {
        AnyView::Terrain(t) => t@.keyed(alu, key).1,
        _ => false,
    }
}

/// Whether panes show a view on an area.
pub open spec fn pictures<A: Arithmetic>(
    alu: &A,
    view: AnyView,
    area: Area,
    scene: Scene,
    panes: Seq<Pane>,
) -> bool {
    match view {
        AnyView::Terrain(t) => {
            &&& panes.len() == 1
            &&& panes[0].frame.goes_round(area, "3D terrain"@)
            &&& shows(alu, t@, inside(area), panes[0].body)
        },
        AnyView::Combined(_) => {
            &&& panes.len() == 2
            &&& panes[0].frame.area.lies_in(area)
            &&& panes[1].frame.area.lies_in(area)
            &&& panes[0].frame.area.lies_above(panes[1].frame.area)
            &&& panes[0].frame.area == top_rows(area, (area.height + 1) / 2)
            &&& panes[1].frame.area == rows_below(area, (area.height + 1) / 2)
            &&& is_waveform(alu, panes[0], panes[0].frame.area, scene)
            &&& is_spectrum(alu, panes[1], panes[1].frame.area, scene)
        },
        AnyView::Placeholder(p) => {
            &&& panes.len() == 1
            &&& panes[0].frame.goes_round(area, p.named())
            &&& panes[0].body.is_text(p.body())
        },
    }
}

impl View for AnyView {
    open spec fn valid(&self) -> bool {
        match self {
            AnyView::Terrain(v) => v.valid(),
            AnyView::Combined(v) => v.valid(),
            AnyView::Placeholder(v) => v.valid(),
        }
    }

    open spec fn named(&self) -> Seq<char> {
        match self {
            AnyView::Terrain(v) => v.named(),
            AnyView::Combined(v) => v.named(),
            AnyView::Placeholder(v) => v.named(),
        }
    }

    fn name(&self) -> &str {
        match self {
            AnyView::Terrain(v) => v.name(),
            AnyView::Combined(v) => v.name(),
            AnyView::Placeholder(v) => v.name(),
        }
    }

    fn tick<A: Arithmetic>(&mut self, alu: &A, ctx: &Ctx)
        ensures
            same_kind(*old(self), *final(self)),
            steady(alu) ==> followed(alu, *old(self), *final(self), ctx.levels()),
            !((*old(self)) is Terrain) ==> *final(self) == *old(self),
    {
        match self {
            AnyView::Terrain(v) => v.tick(alu, ctx),
            AnyView::Combined(v) => v.tick(alu, ctx),
            AnyView::Placeholder(v) => v.tick(alu, ctx),
        }
    }

    fn handle_key<A: Arithmetic>(&mut self, alu: &A, key: Key) -> (r: bool)
        ensures
            same_kind(*old(self), *final(self)),
            r == uses_key(alu, *old(self), key),
            steady(alu) ==> obeyed(alu, *old(self), *final(self), key),
            !((*old(self)) is Terrain) ==> *final(self) == *old(self),
    {
        match self {
            AnyView::Terrain(v) => v.handle_key(alu, key),
            AnyView::Combined(v) => v.handle_key(alu, key),
            AnyView::Placeholder(v) => v.handle_key(alu, key),
        }
    }

    fn render<A: Arithmetic>(&self, alu: &A, area: Area, ctx: &Ctx) -> (panes: Vec<Pane>)
        ensures
            steady(alu) ==> pictures(alu, *self, area, ctx.scene(), panes@),
    {
        match self {
            AnyView::Terrain(v) => v.render(alu, area, ctx),
            AnyView::Combined(v) => v.render(alu, area, ctx),
            AnyView::Placeholder(v) => v.render(alu, area, ctx),
        }
    }
}

} // verus!
