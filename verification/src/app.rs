//! The application: the audio, the views to select from, and what keys do.

use vstd::prelude::*;
use vstd::view::View as _;

use crate::anyview::{followed, obeyed, pictures, same_kind, uses_key, AnyView};
use crate::arith::{steady, Arithmetic};
use crate::combined::Combined;
use crate::engine::{channel_after, zoomed_in, zoomed_out, Engine, N_BANDS};
use crate::key::Key;
use crate::layout::{rows_below, split_rows, top_rows, Area, Extent};
use crate::overlay::{
    content_cells, countable, help_sayings, is_panel, render_help, render_settings,
    settings_sayings, Overlay, Panel,
};
use crate::scope::WaveScope;
use crate::status::{ready_status, waiting_status, write_ready_status, write_waiting_status};
use crate::terrain::{Landscape, Terrain};
use crate::view::{placeholder_body, placeholder_name, Ctx, Pane, Placeholder, View};

verus! {

/// How many views there are, one for each of the first function keys.
pub const VIEW_COUNT: usize = 8;

/// The function key that opens and closes the help panel.
pub const HELP_KEY: u8 = 9;

/// The function key that opens and closes the settings panel.
pub const SETTINGS_KEY: u8 = 10;

/// What a key press asks for.
#[derive(Clone, Copy, PartialEq, Eq, Structural, Debug)]
pub enum Command {
    Quit,
    CloseOverlay,
    ToggleOverlay(Overlay),
    ZoomIn,
    ZoomOut,
    NextChannel,
    /// Show the view on a function key.
    SelectView(u8),
    /// Let the view that is shown decide.
    Forward,
}

/// What a key press asks for while a panel may be open.
pub open spec fn command_of(key: Key, overlay: Overlay) -> Command {
    match key {
        Key::Esc => if overlay != Overlay::Closed {
            Command::CloseOverlay
        } else {
            Command::Quit
        },
        Key::Tab => Command::NextChannel,
        Key::F(n) => if n == HELP_KEY {
            Command::ToggleOverlay(Overlay::Help)
        } else if n == SETTINGS_KEY {
            Command::ToggleOverlay(Overlay::Settings)
        } else {
            Command::SelectView(n)
        },
        Key::Char(c) => if c == 'q' {
            Command::Quit
        } else if c == '+' || c == '=' {
            Command::ZoomIn
        } else if c == '-' || c == '_' {
            Command::ZoomOut
        } else if c == 'c' {
            Command::NextChannel
        } else {
            Command::Forward
        },
        Key::Other => Command::Forward,
    }
}

/// Finds out what a key press asks for.
pub fn command_for(key: Key, overlay: Overlay) -> (r: Command)
    ensures
        r == command_of(key, overlay),
{
    match key {
        Key::Esc => if overlay != Overlay::Closed {
            Command::CloseOverlay
        } else {
            Command::Quit
        },
        Key::Tab => Command::NextChannel,
        Key::F(n) => if n == HELP_KEY {
            Command::ToggleOverlay(Overlay::Help)
        } else if n == SETTINGS_KEY {
            Command::ToggleOverlay(Overlay::Settings)
        } else {
            Command::SelectView(n)
        },
        Key::Char(c) => if c == 'q' {
            Command::Quit
        } else if c == '+' || c == '=' {
            Command::ZoomIn
        } else if c == '-' || c == '_' {
            Command::ZoomOut
        } else if c == 'c' {
            Command::NextChannel
        } else {
            Command::Forward
        },
        Key::Other => Command::Forward,
    }
}

/// Escape closes an open panel before it quits, and only it and q quit.
pub proof fn law_escape_closes_first(key: Key, overlay: Overlay)
    ensures
        overlay != Overlay::Closed ==> command_of(Key::Esc, overlay) == Command::CloseOverlay,
        command_of(key, overlay) == Command::Quit <==> key == Key::Char('q') || (key == Key::Esc
            && overlay == Overlay::Closed),
{
}

/// Each of the function keys F1 to F8 shows the view on it, F9 and F10 open and
/// close the panels, and no other function key does anything.
pub proof fn law_function_keys(n: u8, overlay: Overlay, active: int)
    ensures
        1 <= n <= VIEW_COUNT ==> command_of(Key::F(n), overlay) == Command::SelectView(n)
            && selected(active, n as int, VIEW_COUNT as int) == n - 1,
        command_of(Key::F(9), overlay) == Command::ToggleOverlay(Overlay::Help),
        command_of(Key::F(10), overlay) == Command::ToggleOverlay(Overlay::Settings),
        n == 0 || n > SETTINGS_KEY ==> command_of(Key::F(n), overlay) == Command::SelectView(n)
            && selected(active, n as int, VIEW_COUNT as int) == active,
{
}

/// No key that the landscape makes use of is claimed by anything else.
pub proof fn law_landscape_keys_reach_the_view<A: Arithmetic>(
    alu: &A,
    l: Landscape,
    key: Key,
    overlay: Overlay,
)
    requires
        l.keyed(alu, key).1,
    ensures
        command_of(key, overlay) == Command::Forward,
{
}

/// Which panel is open after one was asked for: that one, unless it was open.
pub open spec fn toggled(overlay: Overlay, asked: Overlay) -> Overlay {
    if overlay == asked {
        Overlay::Closed
    } else {
        asked
    }
}

/// Asking for a panel twice leaves things as they were, unless another panel
/// was open.
pub proof fn law_toggling_twice(overlay: Overlay, asked: Overlay)
    requires
        overlay == Overlay::Closed || overlay == asked,
    ensures
        toggled(toggled(overlay, asked), asked) == overlay,
{
}

/// The view that is shown after function key `n`, counted from 1: the one on
/// that key, or, where there is none, the same as before.
pub open spec fn selected(active: int, n: int, count: int) -> int {
    if 1 <= n <= count {
        n - 1
    } else {
        active
    }
}

/// What the whole screen shows.
pub struct Picture {
    pub status_area: Area,
    pub status: String,
    /// What the view and an open panel share.
    pub body_area: Area,
    pub panes: Vec<Pane>,
    /// The open panel, laid over the rest.
    pub panel: Option<Panel>,
}

/// Owns the audio and the list of selectable views.
pub struct App {
    pub engine: Engine,
    pub views: Vec<AnyView>,
    pub active: usize,
    pub overlay: Overlay,
}

/// Whether a view is of the kind that belongs to function key `i + 1`.
pub open spec fn belongs(view: AnyView, i: int) -> bool {
    if i == 0 {
        view is Terrain
    } else if i == 1 {
        view is Combined
    } else {
        &&& view matches AnyView::Placeholder(p)
        &&& p.named() == placeholder_name((i + 1) as u8)
        &&& p.body() == placeholder_body((i + 1) as u8)
    }
}

/// The line of keys that is hinted at while audio comes in.
pub open spec fn ready_hint() -> Seq<char> {
    "[F9 help · F10 settings]"@
}

/// The line of keys that is hinted at as long as no audio has come.
pub open spec fn waiting_hint() -> Seq<char> {
    "[F9 help · q quit]"@
}

fn tick_views<A: Arithmetic>(views: &mut Vec<AnyView>, alu: &A, ctx: &Ctx)
    requires
        ctx.valid(),
        forall|i: int| 0 <= i < old(views)@.len() ==> (#[trigger] old(views)@[i]).valid(),
    ensures
        final(views)@.len() == old(views)@.len(),
        forall|i: int|
            0 <= i < old(views)@.len() ==> {
                &&& (#[trigger] final(views)@[i]).valid()
                &&& final(views)@[i].named() == old(views)@[i].named()
                &&& same_kind(old(views)@[i], final(views)@[i])
                &&& !(old(views)@[i] is Terrain) ==> final(views)@[i] == old(views)@[i]
                &&& steady(alu) ==> followed(
                    alu,
                    old(views)@[i],
                    final(views)@[i],
                    ctx.levels(),
                )
            },
{
    let ghost before = views@;
    let n: usize = views.len();
    let mut i: usize = 0;
    while i < n
        invariant
            ctx.valid(),
            n == views@.len(),
            n == before.len(),
            i <= n,
            forall|j: int| 0 <= j < n ==> (#[trigger] before[j]).valid(),
            forall|j: int| i <= j < n ==> #[trigger] views@[j] == before[j],
            forall|j: int|
                0 <= j < i ==> {
                    &&& (#[trigger] views@[j]).valid()
                    &&& views@[j].named() == before[j].named()
                    &&& same_kind(before[j], views@[j])
                    &&& !(before[j] is Terrain) ==> views@[j] == before[j]
                    &&& steady(alu) ==> followed(alu, before[j], views@[j], ctx.levels())
                },
        decreases n - i,
    {
        assert(views@[i as int] == before[i as int]);
        views[i].tick(alu, ctx);
        i = i + 1;
    }
}

impl App {
    pub open spec fn wf(&self) -> bool {
        &&& self.engine.wf()
        &&& self.views@.len() == VIEW_COUNT
        &&& forall|i: int| 0 <= i < VIEW_COUNT ==> (#[trigger] self.views@[i]).valid()
        &&& forall|i: int| 0 <= i < VIEW_COUNT ==> belongs(#[trigger] self.views@[i], i)
        &&& self.active < VIEW_COUNT
    }

    /// Starts out on the first view, with no panel open.
    pub fn new(wave: WaveScope) -> (r: App)
        requires
            wave.wf(),
        ensures
            r.wf(),
            r.engine == (Engine {
                wave,
                spectrum: None,
                window: crate::engine::WINDOW_DEFAULT,
                channel: 0,
            }),
            r.views@[0] matches AnyView::Terrain(t) && t@ == Landscape::bare(N_BANDS as int),
            r.active == 0,
            r.overlay == Overlay::Closed,
    {
        let views = vec![
            AnyView::Terrain(Terrain::new(N_BANDS)),
            AnyView::Combined(Combined),
            AnyView::Placeholder(Placeholder::new(3)),
            AnyView::Placeholder(Placeholder::new(4)),
            AnyView::Placeholder(Placeholder::new(5)),
            AnyView::Placeholder(Placeholder::new(6)),
            AnyView::Placeholder(Placeholder::new(7)),
            AnyView::Placeholder(Placeholder::new(8)),
        ];
        App { engine: Engine::new(wave), views, active: 0, overlay: Overlay::Closed }
    }

    /// What views read from.
    pub fn ctx(&self) -> (r: Ctx<'_>)
        requires
            self.wf(),
        ensures
            r.valid(),
            r.scene() == self.engine.scene(),
            r.spectrum is Some <==> self.engine.spectrum is Some,
            r.spectrum is Some ==> *r.spectrum->0 == self.engine.spectrum->0,
    {
        self.engine.ctx()
    }

    /// Lets every view follow the audio and the spectrum at hand.
    pub fn tick_views<A: Arithmetic>(&mut self, alu: &A)
        requires
            old(self).wf(),
        ensures
            final(self).wf(),
            *final(self) == (App { views: final(self).views, ..*old(self) }),
            steady(alu) ==> forall|i: int|
                0 <= i < VIEW_COUNT ==> followed(
                    alu,
                    old(self).views@[i],
                    #[trigger] final(self).views@[i],
                    old(self).engine.levels(),
                ),
    {
        let ctx = self.engine.ctx();
        tick_views(&mut self.views, alu, &ctx);
    }

    /// Pulls fresh audio, brings the spectrum up to date with it, and lets
    /// every view follow.
    pub fn tick<A: Arithmetic>(&mut self, alu: &A)
        requires
            old(self).wf(),
        ensures
            final(self).wf(),
            final(self).engine.wave.ticked_from(&old(self).engine.wave),
            final(self).engine.window == old(self).engine.window,
            final(self).engine.channel == old(self).engine.channel,
            final(self).engine.refreshed_from(alu, &old(self).engine),
            final(self).active == old(self).active,
            final(self).overlay == old(self).overlay,
            steady(alu) ==> forall|i: int|
                0 <= i < VIEW_COUNT ==> followed(
                    alu,
                    old(self).views@[i],
                    #[trigger] final(self).views@[i],
                    final(self).engine.levels(),
                ),
    {
        self.engine.tick(alu);
        self.tick_views(alu);
    }

    /// Shows the view on function key `n`, if there is one.
    pub fn select_fkey(&mut self, n: u8)
        requires
            old(self).wf(),
        ensures
            final(self).wf(),
            *final(self) == (App {
                active: selected(old(self).active as int, n as int, VIEW_COUNT as int) as usize,
                ..*old(self)
            }),
    {
        if 1 <= n && (n as usize) <= self.views.len() {
            self.active = n as usize - 1;
        }
    }

    pub fn zoom_in(&mut self)
        requires
            old(self).wf(),
        ensures
            final(self).wf(),
            *final(self) == (App {
                engine: Engine {
                    window: zoomed_in(old(self).engine.window as int) as usize,
                    ..old(self).engine
                },
                ..*old(self)
            }),
    {
        self.engine.zoom_in();
    }

    pub fn zoom_out(&mut self)
        requires
            old(self).wf(),
        ensures
            final(self).wf(),
            *final(self) == (App {
                engine: Engine {
                    window: zoomed_out(old(self).engine.window as int) as usize,
                    ..old(self).engine
                },
                ..*old(self)
            }),
    {
        self.engine.zoom_out();
    }

    pub fn next_channel(&mut self)
        requires
            old(self).wf(),
        ensures
            final(self).wf(),
            *final(self) == (App {
                engine: Engine {
                    channel: channel_after(
                        old(self).engine.channel as int,
                        old(self).engine.wave.histories().len() as int,
                    ) as usize,
                    ..old(self).engine
                },
                ..*old(self)
            }),
    {
        self.engine.next_channel();
    }

    /// Opens a panel, or closes it if it is open.
    pub fn toggle_overlay(&mut self, overlay: Overlay)
        requires
            old(self).wf(),
        ensures
            final(self).wf(),
            *final(self) == (App {
                overlay: toggled(old(self).overlay, overlay),
                ..*old(self)
            }),
    {
        self.overlay = if self.overlay == overlay {
            Overlay::Closed
        } else {
            overlay
        };
    }

    /// Hands a key to the view that is shown.
    pub fn forward_key<A: Arithmetic>(&mut self, alu: &A, key: Key)
        requires
            old(self).wf(),
        ensures
            final(self).wf(),
            *final(self) == (App { views: final(self).views, ..*old(self) }),
            final(self).views@ == old(self).views@.update(
                old(self).active as int,
                final(self).views@[old(self).active as int],
            ),
            steady(alu) ==> obeyed(
                alu,
                old(self).views@[old(self).active as int],
                final(self).views@[old(self).active as int],
                key,
            ),
            !uses_key(alu, old(self).views@[old(self).active as int], key) ==> final(self).views@
                == old(self).views@,
    {
        let active: usize = self.active;
        let ghost before = self.views@;
        assert(before[active as int].valid());
        assert(belongs(before[active as int], active as int));
        self.views[active].handle_key(alu, key);
        assert(self.views@ =~= before.update(active as int, self.views@[active as int]));
    }

    /// Does what a key press asks for. Returns whether that is to quit.
    pub fn on_key<A: Arithmetic>(&mut self, alu: &A, key: Key) -> (quit: bool)
        requires
            old(self).wf(),
        ensures
            final(self).wf(),
            quit == (command_of(key, old(self).overlay) == Command::Quit),
            match command_of(key, old(self).overlay) {
                Command::Quit => *final(self) == *old(self),
                Command::CloseOverlay => *final(self) == (App {
                    overlay: Overlay::Closed,
                    ..*old(self)
                }),
                Command::ToggleOverlay(asked) => *final(self) == (App {
                    overlay: toggled(old(self).overlay, asked),
                    ..*old(self)
                }),
                Command::ZoomIn => *final(self) == (App {
                    engine: Engine {
                        window: zoomed_in(old(self).engine.window as int) as usize,
                        ..old(self).engine
                    },
                    ..*old(self)
                }),
                Command::ZoomOut => *final(self) == (App {
                    engine: Engine {
                        window: zoomed_out(old(self).engine.window as int) as usize,
                        ..old(self).engine
                    },
                    ..*old(self)
                }),
                Command::NextChannel => *final(self) == (App {
                    engine: Engine {
                        channel: channel_after(
                            old(self).engine.channel as int,
                            old(self).engine.wave.histories().len() as int,
                        ) as usize,
                        ..old(self).engine
                    },
                    ..*old(self)
                }),
                Command::SelectView(n) => *final(self) == (App {
                    active: selected(
                        old(self).active as int,
                        n as int,
                        VIEW_COUNT as int,
                    ) as usize,
                    ..*old(self)
                }),
                Command::Forward => {
                    &&& *final(self) == (App { views: final(self).views, ..*old(self) })
                    &&& final(self).views@ == old(self).views@.update(
                        old(self).active as int,
                        final(self).views@[old(self).active as int],
                    )
                    &&& steady(alu) ==> obeyed(
                        alu,
                        old(self).views@[old(self).active as int],
                        final(self).views@[old(self).active as int],
                        key,
                    )
                },
            },
    {
        match command_for(key, self.overlay) {
            Command::Quit => {
                return true;
            },
            Command::CloseOverlay => {
                self.overlay = Overlay::Closed;
            },
            Command::ToggleOverlay(overlay) => self.toggle_overlay(overlay),
            Command::ZoomIn => self.zoom_in(),
            Command::ZoomOut => self.zoom_out(),
            Command::NextChannel => self.next_channel(),
            Command::SelectView(n) => self.select_fkey(n),
            Command::Forward => self.forward_key(alu, key),
        }
        false
    }

    /// The status line for a sample rate, or without one while there is no
    /// audio yet.
    pub fn status_for(&self, rate: Option<u32>) -> (s: String)
        requires
            self.wf(),
        ensures
            s@ == self.status_text(rate),
    {
        match rate {
            Some(rate) => write_ready_status(
                self.views[self.active].name(),
                self.engine.channel,
                self.engine.wave.channel_count(),
                rate,
                self.engine.window,
                "[F9 help · F10 settings]",
            ),
            None => write_waiting_status("[F9 help · q quit]"),
        }
    }

    /// What the status line says, once a sample rate is known or before.
    pub open spec fn status_text(&self, rate: Option<u32>) -> Seq<char> {
        match rate {
            Some(rate) => ready_status(
                self.views@[self.active as int].named(),
                self.engine.channel as nat,
                self.engine.wave.histories().len(),
                rate as nat,
                self.engine.window as nat,
                ready_hint(),
            ),
            None => waiting_status(waiting_hint()),
        }
    }

    /// The status line. Whether audio is coming in, and at which rate, is up
    /// to the capture.
    pub fn status(&self) -> (s: String)
        requires
            self.wf(),
        ensures
            exists|rate: Option<u32>|
                s@ == #[trigger] self.status_text(rate)
                    && self.engine.wave.format().shows_known(rate),
    {
        let rate = if self.engine.wave.is_ready() {
            Some(self.engine.wave.sample_rate())
        } else {
            None
        };
        self.status_for(rate)
    }

    /// Whether the open panel, if one is, is laid over an area as it should
    /// be. There is no panel if its size cannot be counted.
    pub open spec fn panel_is(&self, area: Area, panel: Option<Panel>) -> bool {
        match self.overlay {
            Overlay::Closed => panel is None,
            Overlay::Help => {
                &&& panel is Some <==> countable(content_cells(" Help "@, help_sayings()), 12)
                &&& panel is Some ==> is_panel(panel->0, area, " Help "@, help_sayings())
            },
            Overlay::Settings => {
                &&& panel is Some <==> countable(
                    content_cells(" Settings "@, settings_sayings()),
                    3,
                )
                &&& panel is Some ==> is_panel(
                    panel->0,
                    area,
                    " Settings "@,
                    settings_sayings(),
                )
            },
        }
    }

    /// The open panel, laid over an area.
    pub fn panel(&self, area: Area) -> (r: Option<Panel>)
        requires
            area.fits(),
        ensures
            self.panel_is(area, r),
    {
        match self.overlay {
            Overlay::Closed => None,
            Overlay::Help => render_help(area),
            Overlay::Settings => render_settings(area),
        }
    }

    /// What the whole screen shows: a status row, the active view's body below
    /// it, and the open panel on top.
    pub fn ui<A: Arithmetic>(&self, alu: &A, area: Area) -> (r: Picture)
        requires
            self.wf(),
            area.fits(),
        ensures
            area.height > 0 ==> r.status_area == top_rows(area, 1) && r.body_area == rows_below(
                area,
                1,
            ),
            r.status_area.lies_in(area),
            r.status_area.width == area.width,
            r.status_area.lies_above(r.body_area),
            exists|rate: Option<u32>|
                r.status@ == #[trigger] self.status_text(rate)
                    && self.engine.wave.format().shows_known(rate),
            r.body_area.lies_in(area),
            r.body_area.width == area.width,
            steady(alu) ==> pictures(
                alu,
                self.views@[self.active as int],
                r.body_area,
                self.engine.scene(),
                r.panes@,
            ),
            self.panel_is(r.body_area, r.panel),
    {
        let (top, body) = split_rows(area, Extent::Length(1), Extent::Min(0));
        let status = self.status();
        let ctx = self.ctx();
        assert(self.views@[self.active as int].valid());
        let panes = self.views[self.active].render(alu, body, &ctx);
        let panel = self.panel(body);
        Picture { status_area: top, status, body_area: body, panes, panel }
    }
}

} // verus!
