//! The application of the plain edition.

use vstd::prelude::*;
use vstd::view::View as _;

use crate::app::selected;
use crate::arith::{steady, Arithmetic};
use crate::classic::combined::{is_scanned_waveform, Combined};
use crate::classic::terrain::{shows, Ridges, Terrain};
use crate::combined::is_spectrum;
use crate::engine::{
    channel_after, zoomed_in, zoomed_out, Engine, N_BANDS, WINDOW_DEFAULT,
};
use crate::float::Float;
use crate::key::Key;
use crate::layout::{inside, rows_below, split_rows, top_rows, Area, Extent};
use crate::scope::WaveScope;
use crate::status::{ready_status, waiting_status, write_ready_status, write_waiting_status};
use crate::view::{placeholder_body, placeholder_name, Ctx, Pane, Placeholder, Scene, View};

verus! {

/// How many views there are, one for each of the first function keys.
pub const VIEW_COUNT: usize = 8;

/// A view of any kind.
pub enum AnyView {
    Terrain(Terrain),
    Combined(Combined),
    Placeholder(Placeholder),
}

/// Whether a view is what it should be after a tick in which a spectrum with
/// the given levels may have come.
pub open spec fn followed(before: AnyView, after: AnyView, levels: Option<Seq<Float>>) -> bool {
    match before {
        AnyView::Terrain(t) => match after {
            AnyView::Terrain(u) => u@ == t@.ticked(levels),
            _ => false,
        },
        _ => after == before,
    }
}

/// Whether a view is what it should be after a key press.
pub open spec fn obeyed(before: AnyView, after: AnyView, key: Key) -> bool {
    match before {
        AnyView::Terrain(t) => match after {
            AnyView::Terrain(u) => u@ == t@.keyed(key),
            _ => false,
        },
        _ => after == before,
    }
}

/// Whether panes show a view on an area.
pub open spec fn pictures<A: Arithmetic>(
    alu: &A,
    view: AnyView,
    area: Area,
    scene: Scene,
    panes: Seq<Pane>,
) -> bool {
    match view {
        AnyView::Terrain(t) => {
            &&& panes.len() == 1
            &&& panes[0].frame.goes_round(area, "3D terrain"@)
            &&& shows(alu, t@, inside(area), panes[0].body)
        },
        AnyView::Combined(_) => {
            &&& panes.len() == 2
            &&& panes[0].frame.area.lies_in(area)
            &&& panes[1].frame.area.lies_in(area)
            &&& panes[0].frame.area.lies_above(panes[1].frame.area)
            &&& panes[0].frame.area == top_rows(area, (area.height + 1) / 2)
            &&& panes[1].frame.area == rows_below(area, (area.height + 1) / 2)
            &&& is_scanned_waveform(alu, panes[0], panes[0].frame.area, scene)
            &&& is_spectrum(alu, panes[1], panes[1].frame.area, scene)
        },
        AnyView::Placeholder(p) => {
            &&& panes.len() == 1
            &&& panes[0].frame.goes_round(area, p.named())
            &&& panes[0].body.is_text(p.body())
        },
    }
}

impl View for AnyView {
    open spec fn valid(&self) -> bool {
        match self {
            AnyView::Terrain(v) => v.valid(),
            AnyView::Combined(v) => v.valid(),
            AnyView::Placeholder(v) => v.valid(),
        }
    }

    open spec fn named(&self) -> Seq<char> {
        match self {
            AnyView::Terrain(v) => v.named(),
            AnyView::Combined(v) => v.named(),
            AnyView::Placeholder(v) => v.named(),
        }
    }

    fn name(&self) -> &str {
        match self {
            AnyView::Terrain(v) => v.name(),
            AnyView::Combined(v) => v.name(),
            AnyView::Placeholder(v) => v.name(),
        }
    }

    fn tick<A: Arithmetic>(&mut self, alu: &A, ctx: &Ctx)
        ensures
            followed(*old(self), *final(self), ctx.levels()),
    {
        match self {
            AnyView::Terrain(v) => v.tick(alu, ctx),
            AnyView::Combined(v) => v.tick(alu, ctx),
            AnyView::Placeholder(v) => v.tick(alu, ctx),
        }
    }

    fn handle_key<A: Arithmetic>(&mut self, alu: &A, key: Key) -> (r: bool)
        ensures
            r == ((*old(self)) is Terrain && key.digit() is Some),
            obeyed(*old(self), *final(self), key),
    {
        match self {
            AnyView::Terrain(v) => v.handle_key(alu, key),
            AnyView::Combined(v) => v.handle_key(alu, key),
            AnyView::Placeholder(v) => v.handle_key(alu, key),
        }
    }

    fn render<A: Arithmetic>(&self, alu: &A, area: Area, ctx: &Ctx) -> (panes: Vec<Pane>)
        ensures
            steady(alu) ==> pictures(alu, *self, area, ctx.scene(), panes@),
    {
        match self {
            AnyView::Terrain(v) => v.render(alu, area, ctx),
            AnyView::Combined(v) => v.render(alu, area, ctx),
            AnyView::Placeholder(v) => v.render(alu, area, ctx),
        }
    }
}

/// What a key press asks for.
#[derive(Clone, Copy, PartialEq, Eq, Structural, Debug)]
pub enum Command {
    Quit,
    ZoomIn,
    ZoomOut,
    NextChannel,
    /// Show the view on a function key.
    SelectView(u8),
    /// Let the view that is shown decide.
    Forward,
}

/// What a key press asks for.
pub open spec fn command_of(key: Key) -> Command {
    match key {
        Key::Esc => Command::Quit,
        Key::Tab => Command::NextChannel,
        Key::F(n) => Command::SelectView(n),
        Key::Char(c) => if c == 'q' {
            Command::Quit
        } else if c == '+' || c == '=' {
            Command::ZoomIn
        } else if c == '-' || c == '_' {
            Command::ZoomOut
        } else if c == 'c' {
            Command::NextChannel
        } else {
            Command::Forward
        },
        Key::Other => Command::Forward,
    }
}

/// Finds out what a key press asks for.
pub fn command_for(key: Key) -> (r: Command)
    ensures
        r == command_of(key),
{
    match key {
        Key::Esc => Command::Quit,
        Key::Tab => Command::NextChannel,
        Key::F(n) => Command::SelectView(n),
        Key::Char(c) => if c == 'q' {
            Command::Quit
        } else if c == '+' || c == '=' {
            Command::ZoomIn
        } else if c == '-' || c == '_' {
            Command::ZoomOut
        } else if c == 'c' {
            Command::NextChannel
        } else {
            Command::Forward
        },
        Key::Other => Command::Forward,
    }
}

/// No key that sets the depth of the landscape is claimed by anything else.
pub proof fn law_digits_reach_the_view(key: Key)
    requires
        key.digit() is Some,
    ensures
        command_of(key) == Command::Forward,
{
}

/// What the whole screen shows.
pub struct Picture {
    pub status_area: Area,
    pub status: String,
    pub body_area: Area,
    pub panes: Vec<Pane>,
}

/// Owns the audio and the list of selectable views.
pub struct App {
    pub engine: Engine,
    pub views: Vec<AnyView>,
    pub active: usize,
}

/// Whether a view is of the kind that belongs to function key `i + 1`.
pub open spec fn belongs(view: AnyView, i: int) -> bool {
    if i == 0 {
        view is Terrain
    } else if i == 1 {
        view is Combined
    } else {
        &&& view matches AnyView::Placeholder(p)
        &&& p.named() == placeholder_name((i + 1) as u8)
        &&& p.body() == placeholder_body((i + 1) as u8)
    }
}

/// The line of keys that is hinted at while audio comes in.
pub open spec fn ready_hint() -> Seq<char> {
    "[F1-F8 view · +/- zoom · Tab channel · q quit]"@
}

/// The line of keys that is hinted at as long as no audio has come.
pub open spec fn waiting_hint() -> Seq<char> {
    "[q quit]"@
}

fn tick_views<A: Arithmetic>(views: &mut Vec<AnyView>, alu: &A, ctx: &Ctx)
    requires
        ctx.valid(),
        forall|i: int| 0 <= i < old(views)@.len() ==> (#[trigger] old(views)@[i]).valid(),
    ensures
        final(views)@.len() == old(views)@.len(),
        forall|i: int|
            0 <= i < old(views)@.len() ==> {
                &&& (#[trigger] final(views)@[i]).valid()
                &&& final(views)@[i].named() == old(views)@[i].named()
                &&& followed(old(views)@[i], final(views)@[i], ctx.levels())
            },
{
    let ghost before = views@;
    let n: usize = views.len();
    let mut i: usize = 0;
    while i < n
        invariant
            ctx.valid(),
            n == views@.len(),
            n == before.len(),
            i <= n,
            forall|j: int| 0 <= j < n ==> (#[trigger] before[j]).valid(),
            forall|j: int| i <= j < n ==> #[trigger] views@[j] == before[j],
            forall|j: int|
                0 <= j < i ==> {
                    &&& (#[trigger] views@[j]).valid()
                    &&& views@[j].named() == before[j].named()
                    &&& followed(before[j], views@[j], ctx.levels())
                },
        decreases n - i,
    {
        assert(views@[i as int] == before[i as int]);
        views[i].tick(alu, ctx);
        i = i + 1;
    }
}

impl App {
    pub open spec fn wf(&self) -> bool {
        &&& self.engine.wf()
        &&& self.views@.len() == VIEW_COUNT
        &&& forall|i: int| 0 <= i < VIEW_COUNT ==> (#[trigger] self.views@[i]).valid()
        &&& forall|i: int| 0 <= i < VIEW_COUNT ==> belongs(#[trigger] self.views@[i], i)
        &&& self.active < VIEW_COUNT
    }

    /// Starts out on the first view.
    pub fn new(wave: WaveScope) -> (r: App)
        requires
            wave.wf(),
        ensures
            r.wf(),
            r.engine == (Engine { wave, spectrum: None, window: WINDOW_DEFAULT, channel: 0 }),
            r.views@[0] matches AnyView::Terrain(t) && t@ == Ridges::bare(N_BANDS as int),
            r.active == 0,
    {
        let views = vec![
            AnyView::Terrain(Terrain::new(N_BANDS)),
            AnyView::Combined(Combined),
            AnyView::Placeholder(Placeholder::new(3)),
            AnyView::Placeholder(Placeholder::new(4)),
            AnyView::Placeholder(Placeholder::new(5)),
            AnyView::Placeholder(Placeholder::new(6)),
            AnyView::Placeholder(Placeholder::new(7)),
            AnyView::Placeholder(Placeholder::new(8)),
        ];
        App { engine: Engine::new(wave), views, active: 0 }
    }

    /// What views read from.
    pub fn ctx(&self) -> (r: Ctx<'_>)
        requires
            self.wf(),
        ensures
            r.valid(),
            r.scene() == self.engine.scene(),
            r.spectrum is Some <==> self.engine.spectrum is Some,
            r.spectrum is Some ==> *r.spectrum->0 == self.engine.spectrum->0,
    {
        self.engine.ctx()
    }

    /// Lets every view follow the audio and the spectrum at hand.
    pub fn tick_views<A: Arithmetic>(&mut self, alu: &A)
        requires
            old(self).wf(),
        ensures
            final(self).wf(),
            *final(self) == (App { views: final(self).views, ..*old(self) }),
            forall|i: int|
                0 <= i < VIEW_COUNT ==> followed(
                    old(self).views@[i],
                    #[trigger] final(self).views@[i],
                    old(self).engine.levels(),
                ),
    {
        let ctx = self.engine.ctx();
        tick_views(&mut self.views, alu, &ctx);
    }

    /// Pulls fresh audio, brings the spectrum up to date with it, and lets
    /// every view follow.
    pub fn tick<A: Arithmetic>(&mut self, alu: &A)
        requires
            old(self).wf(),
        ensures
            final(self).wf(),
            final(self).engine.wave.ticked_from(&old(self).engine.wave),
            final(self).engine.window == old(self).engine.window,
            final(self).engine.channel == old(self).engine.channel,
            final(self).engine.refreshed_from(alu, &old(self).engine),
            final(self).active == old(self).active,
            forall|i: int|
                0 <= i < VIEW_COUNT ==> followed(
                    old(self).views@[i],
                    #[trigger] final(self).views@[i],
                    final(self).engine.levels(),
                ),
    {
        self.engine.tick(alu);
        self.tick_views(alu);
    }

    /// Shows the view on function key `n`, if there is one.
    pub fn select_fkey(&mut self, n: u8)
        requires
            old(self).wf(),
        ensures
            final(self).wf(),
            *final(self) == (App {
                active: selected(old(self).active as int, n as int, VIEW_COUNT as int) as usize,
                ..*old(self)
            }),
    {
        if 1 <= n && (n as usize) <= self.views.len() {
            self.active = n as usize - 1;
        }
    }

    /// Hands a key that nothing else claims to the view that is shown.
    pub fn forward_key<A: Arithmetic>(&mut self, alu: &A, key: Key)
        requires
            old(self).wf(),
        ensures
            final(self).wf(),
            *final(self) == (App { views: final(self).views, ..*old(self) }),
            final(self).views@ == old(self).views@.update(
                old(self).active as int,
                final(self).views@[old(self).active as int],
            ),
            obeyed(
                old(self).views@[old(self).active as int],
                final(self).views@[old(self).active as int],
                key,
            ),
    {
        let active: usize = self.active;
        let ghost before = self.views@;
        assert(before[active as int].valid());
        assert(belongs(before[active as int], active as int));
        self.views[active].handle_key(alu, key);
        assert(self.views@ =~= before.update(active as int, self.views@[active as int]));
    }

    /// Does what a key press asks for. Returns whether that is to quit.
    pub fn on_key<A: Arithmetic>(&mut self, alu: &A, key: Key) -> (quit: bool)
        requires
            old(self).wf(),
        ensures
            final(self).wf(),
            quit == (command_of(key) == Command::Quit),
            match command_of(key) {
                Command::Quit => *final(self) == *old(self),
                Command::ZoomIn => *final(self) == (App {
                    engine: Engine {
                        window: zoomed_in(old(self).engine.window as int) as usize,
                        ..old(self).engine
                    },
                    ..*old(self)
                }),
                Command::ZoomOut => *final(self) == (App {
                    engine: Engine {
                        window: zoomed_out(old(self).engine.window as int) as usize,
                        ..old(self).engine
                    },
                    ..*old(self)
                }),
                Command::NextChannel => *final(self) == (App {
                    engine: Engine {
                        channel: channel_after(
                            old(self).engine.channel as int,
                            old(self).engine.wave.histories().len() as int,
                        ) as usize,
                        ..old(self).engine
                    },
                    ..*old(self)
                }),
                Command::SelectView(n) => *final(self) == (App {
                    active: selected(
                        old(self).active as int,
                        n as int,
                        VIEW_COUNT as int,
                    ) as usize,
                    ..*old(self)
                }),
                Command::Forward => {
                    &&& *final(self) == (App { views: final(self).views, ..*old(self) })
                    &&& final(self).views@ == old(self).views@.update(
                        old(self).active as int,
                        final(self).views@[old(self).active as int],
                    )
                    &&& obeyed(
                        old(self).views@[old(self).active as int],
                        final(self).views@[old(self).active as int],
                        key,
                    )
                },
            },
    {
        match command_for(key) {
            Command::Quit => {
                return true;
            },
            Command::ZoomIn => self.engine.zoom_in(),
            Command::ZoomOut => self.engine.zoom_out(),
            Command::NextChannel => self.engine.next_channel(),
            Command::SelectView(n) => self.select_fkey(n),
            Command::Forward => self.forward_key(alu, key),
        }
        false
    }

    /// The status line for a sample rate, or without one while there is no
    /// audio yet.
    pub fn status_for(&self, rate: Option<u32>) -> (s: String)
        requires
            self.wf(),
        ensures
            s@ == self.status_text(rate),
    {
        match rate {
            Some(rate) => write_ready_status(
                self.views[self.active].name(),
                self.engine.channel,
                self.engine.wave.channel_count(),
                rate,
                self.engine.window,
                "[F1-F8 view · +/- zoom · Tab channel · q quit]",
            ),
            None => write_waiting_status("[q quit]"),
        }
    }

    /// What the status line says, once a sample rate is known or before.
    pub open spec fn status_text(&self, rate: Option<u32>) -> Seq<char> {
        match rate {
            Some(rate) => ready_status(
                self.views@[self.active as int].named(),
                self.engine.channel as nat,
                self.engine.wave.histories().len(),
                rate as nat,
                self.engine.window as nat,
                ready_hint(),
            ),
            None => waiting_status(waiting_hint()),
        }
    }

    /// The status line. Whether audio is coming in, and at which rate, is up
    /// to the capture.
    pub fn status(&self) -> (s: String)
        requires
            self.wf(),
        ensures
            exists|rate: Option<u32>|
                s@ == #[trigger] self.status_text(rate)
                    && self.engine.wave.format().shows_known(rate),
    {
        let rate = if self.engine.wave.is_ready() {
            Some(self.engine.wave.sample_rate())
        } else {
            None
        };
        self.status_for(rate)
    }

    /// What the whole screen shows: a status row, and the active view's body
    /// below it.
    pub fn ui<A: Arithmetic>(&self, alu: &A, area: Area) -> (r: Picture)
        requires
            self.wf(),
            area.fits(),
        ensures
            area.height > 0 ==> r.status_area == top_rows(area, 1) && r.body_area == rows_below(
                area,
                1,
            ),
            r.status_area.lies_in(area),
            r.status_area.width == area.width,
            r.status_area.lies_above(r.body_area),
            exists|rate: Option<u32>|
                r.status@ == #[trigger] self.status_text(rate)
                    && self.engine.wave.format().shows_known(rate),
            r.body_area.lies_in(area),
            r.body_area.width == area.width,
            steady(alu) ==> pictures(
                alu,
                self.views@[self.active as int],
                r.body_area,
                self.engine.scene(),
                r.panes@,
            ),
    {
        let (top, body) = split_rows(area, Extent::Length(1), Extent::Min(0));
        let status = self.status();
        let ctx = self.ctx();
        assert(self.views@[self.active as int].valid());
        let panes = self.views[self.active].render(alu, body, &ctx);
        Picture { status_area: top, status, body_area: body, panes }
    }
}

} // verus!
