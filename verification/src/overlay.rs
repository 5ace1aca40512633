//! Panels that are laid over a view.

use vstd::prelude::*;
use vstd::utf8::encode_utf8;

use crate::layout::{block_inner, inside, lower, Area};
use crate::text::{
    declared, pad_right, padded_right, said, Phrase, Saying, Span, Style, TextLine,
};

verus! {

/// Which panel is open.
#[derive(Clone, Copy, PartialEq, Eq, Structural, Debug)]
pub enum Overlay {
    /// No panel is open.
    Closed,
    Help,
    Settings,
}

/// How many cells a panel has beside its content from left to right.
pub const PANEL_MARGIN: u16 = 4;

/// How many cells a panel has beside its lines from top to bottom.
pub const PANEL_BORDER: u16 = 2;

/// How many cells the names of keys take in the help panel.
pub const KEY_COLUMN: usize = 10;

/// How many terminal cells a line takes that is made of pieces of text.
pub uninterp spec fn line_cells(texts: Seq<Seq<char>>) -> usize;

/// Calls `ratatui::text::Line::width`: the number of cells that the line
/// takes, which the texts of its pieces decide.
#[verifier::external_body]
fn line_width(line: &TextLine) -> (w: usize)
    ensures
        w == line_cells(line@.texts()),
{
    let spans: Vec<ratatui::text::Span> = line.spans
        .iter()
        .map(|span| ratatui::text::Span::raw(span.text.as_str()))
        .collect();
    ratatui::text::Line::from(spans).width()
}

/// What lines of text say.
pub open spec fn sayings(lines: Seq<TextLine>) -> Seq<Saying> {
    Seq::new(lines.len(), |i: int| lines[i]@)
}

/// How many cells the widest of some lines takes.
pub open spec fn widest(lines: Seq<Saying>) -> usize
    decreases lines.len(),
{
    if lines.len() == 0 {
        0
    } else {
        let before = widest(lines.drop_last());
        let last = line_cells(lines.last().texts());
        if before < last {
            last
        } else {
            before
        }
    }
}

/// How many bytes a title has.
pub open spec fn title_bytes(title: Seq<char>) -> usize {
    encode_utf8(title).len() as usize
}

/// How wide the content of a panel is: as its widest line or its title.
pub open spec fn content_cells(title: Seq<char>, lines: Seq<Saying>) -> usize {
    if widest(lines) < title_bytes(title) {
        title_bytes(title)
    } else {
        widest(lines)
    }
}

/// Whether the size of a panel can be counted.
pub open spec fn countable(content: usize, lines: usize) -> bool {
    &&& (content as u16) + PANEL_MARGIN <= u16::MAX
    &&& (lines as u16) + PANEL_BORDER <= u16::MAX
}

/// The area of a panel in the middle of another area: as large as its content
/// and its border, but no larger than the area round it.
pub open spec fn panel_on(area: Area, content: u16, lines: u16) -> Area {
    let w = lower(content + PANEL_MARGIN, area.width as int);
    let h = lower(lines + PANEL_BORDER, area.height as int);
    Area {
        x: (area.x + (area.width - w) / 2) as u16,
        y: (area.y + (area.height - h) / 2) as u16,
        width: w as u16,
        height: h as u16,
    }
}

/// A panel lies inside the area that it is laid over, with as many cells free
/// on either side, or one more on the right and at the bottom.
pub proof fn law_a_panel_is_in_the_middle(area: Area, content: u16, lines: u16)
    requires
        area.fits(),
    ensures
        ({
            let panel = panel_on(area, content, lines);
            let left = panel.x - area.x;
            let right = area.x + area.width - (panel.x + panel.width);
            let above = panel.y - area.y;
            let below = area.y + area.height - (panel.y + panel.height);
            &&& panel.fits()
            &&& panel.lies_in(area)
            &&& left == right || left + 1 == right
            &&& above == below || above + 1 == below
        }),
{
}

/// Finds the area of a panel.
pub fn panel_area(area: Area, content: u16, lines: u16) -> (r: Area)
    requires
        area.fits(),
        content + PANEL_MARGIN <= u16::MAX,
        lines + PANEL_BORDER <= u16::MAX,
    ensures
        r == panel_on(area, content, lines),
        r.fits(),
{
    let w: u16 = if content + PANEL_MARGIN < area.width {
        content + PANEL_MARGIN
    } else {
        area.width
    };
    let h: u16 = if lines + PANEL_BORDER < area.height {
        lines + PANEL_BORDER
    } else {
        area.height
    };
    Area {
        x: area.x + (area.width - w) / 2,
        y: area.y + (area.height - h) / 2,
        width: w,
        height: h,
    }
}

/// A panel of text.
pub struct Panel {
    /// What the panel covers, with its border.
    pub area: Area,
    /// Where its lines go.
    pub inner: Area,
    pub title: String,
    pub lines: Vec<TextLine>,
}

/// Whether a panel with the given title and lines is laid over an area as it
/// should be.
pub open spec fn is_panel(panel: Panel, area: Area, title: Seq<char>, lines: Seq<Saying>) -> bool {
    &&& panel.area == panel_on(
        area,
        content_cells(title, lines) as u16,
        lines.len() as usize as u16,
    )
    &&& panel.inner == inside(panel.area)
    &&& panel.title@ == title
    &&& sayings(panel.lines@) == lines
}

/// Lays a panel over an area. There is none if its size cannot be counted.
pub fn render_overlay(area: Area, title: &str, lines: Vec<TextLine>) -> (r: Option<Panel>)
    requires
        area.fits(),
    ensures
        r is Some <==> countable(
            content_cells(title@, sayings(lines@)),
            lines@.len() as usize,
        ),
        r is Some ==> is_panel(r->0, area, title@, sayings(lines@)),
{
    let n: usize = lines.len();
    let ghost all = sayings(lines@);
    let mut content: usize = 0;
    let mut i: usize = 0;
    assert(all.take(0) =~= Seq::<Saying>::empty());
    while i < n
        invariant
            n == lines@.len(),
            all == sayings(lines@),
            i <= n,
            content == widest(all.take(i as int)),
        decreases n - i,
    {
        let w = line_width(&lines[i]);
        if content < w {
            content = w;
        }
        i = i + 1;
        assert(all.take(i as int).drop_last() =~= all.take(i - 1));
    }
    assert(all.take(n as int) =~= all);
    if content < title.len() {
        content = title.len();
    }
    let cells: u16 = content as u16;
    let rows: u16 = n as u16;
    if cells > u16::MAX - PANEL_MARGIN || rows > u16::MAX - PANEL_BORDER {
        return None;
    }
    let panel = panel_area(area, cells, rows);
    let inner = block_inner(panel, title);
    Some(Panel { area: panel, inner, title: title.to_string(), lines })
}

/// A line of the help panel that says what a key does.
pub open spec fn key_saying(key: Seq<char>, what: Seq<char>) -> Saying {
    Saying {
        phrases: seq![
            Phrase { text: padded_right(key, KEY_COLUMN as int), style: Style::Bold },
            Phrase { text: what, style: Style::Plain },
        ],
        style: Style::Plain,
    }
}

fn key_line(key: &str, what: &str) -> (line: TextLine)
    ensures
        line@ == key_saying(key@, what@),
{
    let line = TextLine {
        spans: vec![
            Span { text: pad_right(key, KEY_COLUMN), style: Style::Bold },
            Span { text: what.to_string(), style: Style::Plain },
        ],
        style: Style::Plain,
    };
    assert(line@ =~= key_saying(key@, what@));
    line
}

/// What the help panel says.
pub open spec fn help_sayings() -> Seq<Saying> {
    seq![
        key_saying("F1-F8"@, "switch view"@),
        key_saying("+ / -"@, "zoom window"@),
        key_saying("Tab / c"@, "next channel"@),
        key_saying("F9"@, "toggle this help"@),
        key_saying("F10"@, "settings"@),
        key_saying("Esc"@, "close overlay"@),
        key_saying("q"@, "quit"@),
        declared(""@, Style::Plain),
        said("3D terrain (F1)"@, Style::Dim),
        key_saying("1-9"@, "terrain depth"@),
        key_saying("r"@, "toggle rotary mode"@),
        key_saying("[ / ]"@, "rotary speed -/+"@),
    ]
}

/// The lines of the help panel.
pub fn help_lines() -> (lines: Vec<TextLine>)
    ensures
        sayings(lines@) == help_sayings(),
{
    let lines = vec![
        key_line("F1-F8", "switch view"),
        key_line("+ / -", "zoom window"),
        key_line("Tab / c", "next channel"),
        key_line("F9", "toggle this help"),
        key_line("F10", "settings"),
        key_line("Esc", "close overlay"),
        key_line("q", "quit"),
        TextLine::of_text("", Style::Plain),
        TextLine::of_span("3D terrain (F1)", Style::Dim),
        key_line("1-9", "terrain depth"),
        key_line("r", "toggle rotary mode"),
        key_line("[ / ]", "rotary speed -/+"),
    ];
    assert(sayings(lines@) =~= help_sayings());
    lines
}

/// What the settings panel says.
pub open spec fn settings_sayings() -> Seq<Saying> {
    seq![
        declared("Settings coming soon."@, Style::Dim),
        declared(""@, Style::Plain),
        declared("Press F10 or Esc to close."@, Style::Plain),
    ]
}

/// The lines of the settings panel.
pub fn settings_lines() -> (lines: Vec<TextLine>)
    ensures
        sayings(lines@) == settings_sayings(),
{
    let lines = vec![
        TextLine::of_text("Settings coming soon.", Style::Dim),
        TextLine::of_text("", Style::Plain),
        TextLine::of_text("Press F10 or Esc to close.", Style::Plain),
    ];
    assert(sayings(lines@) =~= settings_sayings());
    lines
}

/// Lays the help panel over an area.
pub fn render_help(area: Area) -> (r: Option<Panel>)
    requires
        area.fits(),
    ensures
        r is Some <==> countable(content_cells(" Help "@, help_sayings()), 12),
        r is Some ==> is_panel(r->0, area, " Help "@, help_sayings()),
{
    render_overlay(area, " Help ", help_lines())
}

/// Lays the settings panel over an area.
pub fn render_settings(area: Area) -> (r: Option<Panel>)
    requires
        area.fits(),
    ensures
        r is Some <==> countable(content_cells(" Settings "@, settings_sayings()), 3),
        r is Some ==> is_panel(r->0, area, " Settings "@, settings_sayings()),
{
    render_overlay(area, " Settings ", settings_lines())
}

} // verus!
