use termwaves::anyview::AnyView;
use termwaves::app::{command_for, App, Command};
use termwaves::arith::Arithmetic;
use termwaves::audio::{open_capture, CaptureState};
use termwaves::color::{heat_color, surface_color, Color};
use termwaves::combined::{columns_on, draw_bars, draw_wave, Combined};
use termwaves::float::{Double, Float};
use termwaves::key::Key;
use termwaves::layout::Area;
use termwaves::mesh::{Camera, Mesh, Screen, Segment};
use termwaves::overlay::{
    help_lines, panel_area, render_help, render_overlay, render_settings, settings_lines, Overlay,
};
use termwaves::scope::{Envelope, WaveScope};
use termwaves::spectrum::Band;
use termwaves::status::{write_ready_status, write_waiting_status};
use termwaves::terrain::Terrain;
use termwaves::text::{pad_right, to_decimal, Style, TextLine};
use termwaves::view::{framed, placeholder_text, Bar, Body, Placeholder, View};

/// The machine's own arithmetic.
struct Machine;

fn num(a: Float) -> f32 {
    f32::from_bits(a.0)
}

fn enc(a: f32) -> Float {
    Float(a.to_bits())
}

fn wide_num(a: Double) -> f64 {
    f64::from_bits(a.0)
}

fn wide_enc(a: f64) -> Double {
    Double(a.to_bits())
}

impl Arithmetic for Machine {
    fn add(&self, a: Float, b: Float) -> Float {
        enc(num(a) + num(b))
    }
    fn sub(&self, a: Float, b: Float) -> Float {
        enc(num(a) - num(b))
    }
    fn mul(&self, a: Float, b: Float) -> Float {
        enc(num(a) * num(b))
    }
    fn div(&self, a: Float, b: Float) -> Float {
        enc(num(a) / num(b))
    }
    fn fused(&self, a: Float, b: Float, c: Float) -> Float {
        enc(num(a).mul_add(num(b), num(c)))
    }
    fn modulo(&self, a: Float, b: Float) -> Float {
        enc(num(a).rem_euclid(num(b)))
    }
    fn sqrt(&self, a: Float) -> Float {
        enc(num(a).sqrt())
    }
    fn sin(&self, a: Float) -> Float {
        enc(num(a).sin())
    }
    fn cos(&self, a: Float) -> Float {
        enc(num(a).cos())
    }
    fn exp(&self, a: Float) -> Float {
        enc(num(a).exp())
    }
    fn log10(&self, a: Float) -> Float {
        enc(num(a).log10())
    }
    fn powf(&self, a: Float, b: Float) -> Float {
        enc(num(a).powf(num(b)))
    }
    fn powi(&self, a: Float, n: i32) -> Float {
        enc(num(a).powi(n))
    }
    fn from_index(&self, n: usize) -> Float {
        enc(n as f32)
    }
    fn floor_index(&self, a: Float) -> usize {
        num(a).floor() as usize
    }
    fn ceil_index(&self, a: Float) -> usize {
        num(a).ceil() as usize
    }
    fn round_index(&self, a: Float) -> usize {
        num(a).round() as usize
    }
    fn round_byte(&self, a: Float) -> u8 {
        num(a).round() as u8
    }
    fn round_count(&self, a: Float) -> u64 {
        num(a).round() as u64
    }
    fn widen(&self, a: Float) -> Double {
        wide_enc(num(a) as f64)
    }
    fn wide_from(&self, n: u32) -> Double {
        wide_enc(n as f64)
    }
    fn wide_add(&self, a: Double, b: Double) -> Double {
        wide_enc(wide_num(a) + wide_num(b))
    }
    fn wide_mul(&self, a: Double, b: Double) -> Double {
        wide_enc(wide_num(a) * wide_num(b))
    }
    fn wide_div(&self, a: Double, b: Double) -> Double {
        wide_enc(wide_num(a) / wide_num(b))
    }
}

fn send(state: &mut CaptureState, samples: &[f32]) {
    let bytes: Vec<u8> = samples.iter().flat_map(|s| s.to_le_bytes()).collect();
    assert_eq!(state.process(&bytes, bytes.len()), samples.len());
}

fn tone(n: usize) -> Vec<f32> {
    (0..n).map(|i| (i as f32 * 0.3).sin() * 0.8).collect()
}

fn area(x: u16, y: u16, width: u16, height: u16) -> Area {
    Area { x, y, width, height }
}

fn app() -> (CaptureState, App) {
    let (state, handle) = open_capture();
    (state, App::new(WaveScope::new(handle)))
}

/// An app that has heard a tone on two channels.
fn running_app() -> (CaptureState, App) {
    let (mut state, mut app) = app();
    state.negotiated(2, 48_000);
    send(&mut state, &tone(9600));
    app.tick(&Machine);
    (state, app)
}

fn lines_of(body: &Body) -> &[Segment] {
    match body {
        Body::Canvas { lines, .. } => lines,
        _ => panic!("no canvas"),
    }
}

fn text_of(line: &TextLine) -> String {
    line.spans.iter().map(|s| s.text.as_str()).collect()
}

#[test]
fn encodings_of_the_landscape_are_right() {
    for (bits, value) in [
        (termwaves::terrain::PEAK_HEIGHT, 4.0f32),
        (termwaves::terrain::SPIKE_GAMMA, 2.4),
        (termwaves::terrain::CAM_HEIGHT, 2.0),
        (termwaves::terrain::CAM_SETBACK, 10.0),
        (termwaves::terrain::CAM_PITCH, 0.66),
        (termwaves::terrain::FOCAL, 2.4),
        (termwaves::terrain::WORLD_HALF_WIDTH, 1.4),
        (termwaves::terrain::HORIZON_LIFT, 2.0),
        (termwaves::terrain::SMOOTHING, 0.33),
        (termwaves::terrain::ADAPT_ALPHA, 0.01),
        (termwaves::terrain::TILT_STRENGTH, 1.0),
        (termwaves::terrain::PEAK_FLOOR, 0.001),
        (termwaves::terrain::LIGHT_X, -0.5),
        (termwaves::terrain::LIGHT_Y, 0.8),
        (termwaves::terrain::LIGHT_Z, 0.5),
        (termwaves::terrain::AMBIENT, 0.2),
        (termwaves::terrain::SHORTEST_NORMAL, 1e-6),
        (termwaves::terrain::YAW_SPEED_DEFAULT, 0.03),
        (termwaves::terrain::YAW_SPEED_STEP, 0.01),
        (termwaves::terrain::YAW_SPEED_MAX, 0.3),
        (termwaves::terrain::YAW_SPEED_MIN, -0.3),
        (termwaves::terrain::FIELD_DECAY, 0.94),
        (termwaves::terrain::FIELD_STAMP, 0.6),
        (termwaves::terrain::RIDGE, 0.18),
        (termwaves::terrain::PI, std::f32::consts::PI),
        (termwaves::mesh::NEAR_PLANE, 0.05),
    ] {
        assert_eq!(f32::from_bits(bits), value);
    }
    assert_eq!(f64::from_bits(termwaves::mesh::WIDE_HALF), 0.5);
    assert_eq!(f64::from_bits(termwaves::mesh::CELL_ASPECT_SQUARED), 4.0);
    assert_eq!(f64::from_bits(termwaves::combined::FULL_SCALE), 1.0);
    assert_eq!(f64::from_bits(termwaves::combined::NEG_FULL_SCALE), -1.0);
}

#[test]
fn surfaces_go_from_shadow_to_highlight() {
    let color = |b: f32| surface_color(&Machine, enc(b));
    assert_eq!(color(0.0), Color::Rgb(80, 0, 40));
    assert_eq!(color(1.0), Color::Rgb(0, 250, 255));
    assert_eq!(color(0.5), Color::Rgb(40, 125, 148));
    assert_eq!(color(-3.0), color(0.0));
    assert_eq!(color(7.0), color(1.0));
}

#[test]
fn heat_goes_from_blue_to_red() {
    let color = |t: f32| heat_color(&Machine, enc(t));
    assert_eq!(color(0.0), Color::Rgb(0, 0, 255));
    assert_eq!(color(0.125), Color::Rgb(0, 128, 255));
    assert_eq!(color(0.25), Color::Rgb(0, 255, 255));
    assert_eq!(color(0.5), Color::Rgb(0, 255, 0));
    assert_eq!(color(0.75), Color::Rgb(255, 255, 0));
    assert_eq!(color(1.0), Color::Rgb(255, 0, 0));
    assert_eq!(color(-1.0), color(0.0));
    assert_eq!(color(2.0), color(1.0));
}

#[test]
fn a_canvas_has_two_by_four_dots_per_cell() {
    let screen = Screen::new(&Machine, 80, 24);
    assert_eq!(wide_num(screen.width), 160.0);
    assert_eq!(wide_num(screen.height), 96.0);
    assert_eq!(wide_num(screen.aspect), 96.0 / 160.0 * 4.0);
    let nothing = Screen::new(&Machine, 0, 0);
    assert_eq!((wide_num(nothing.width), wide_num(nothing.height)), (1.0, 1.0));
}

#[test]
fn a_camera_projects_what_lies_ahead() {
    let camera = Camera {
        height: enc(0.0),
        setback: enc(2.0),
        pitch: enc(0.0),
        focal: enc(1.0),
        lift: enc(0.0),
    };
    let screen = Screen { width: wide_enc(100.0), height: wide_enc(50.0), aspect: wide_enc(1.0) };
    let (x, y) = camera
        .project(&Machine, screen, (enc(1.0), enc(0.5), enc(0.0)))
        .unwrap();
    // Two ahead, one to the right, half up.
    assert_eq!(wide_num(x), 75.0);
    assert_eq!(wide_num(y), 31.25);
    assert!(camera.project(&Machine, screen, (enc(1.0), enc(0.5), enc(-2.0))).is_none());
    assert!(camera.project(&Machine, screen, (enc(1.0), enc(0.5), enc(-9.0))).is_none());
}

#[test]
fn a_mesh_is_drawn_back_to_front() {
    let point = |x: f64, y: f64| Some((wide_enc(x), wide_enc(y)));
    let mesh = Mesh {
        points: vec![point(0.0, 0.0), point(1.0, 0.0), point(0.0, 1.0), None],
        across: vec![Color::Rgb(1, 1, 1), Color::Rgb(2, 2, 2), Color::Rgb(3, 3, 3), Color::Cyan],
        along: vec![Color::Rgb(5, 5, 5), Color::Rgb(6, 6, 6), Color::Rgb(7, 7, 7), Color::Cyan],
        width: 2,
        depth: 2,
    };
    let segment = |x1: f64, y1: f64, x2: f64, y2: f64, color: Color| Segment {
        x1: wide_enc(x1),
        y1: wide_enc(y1),
        x2: wide_enc(x2),
        y2: wide_enc(y2),
        color,
    };
    // The point that cannot be seen has no lines.
    assert_eq!(
        mesh.draw(),
        vec![
            segment(0.0, 1.0, 0.0, 0.0, Color::Rgb(7, 7, 7)),
            segment(0.0, 0.0, 1.0, 0.0, Color::Rgb(1, 1, 1)),
        ]
    );
}

#[test]
fn rows_are_smoothed_and_scroll() {
    let mut t = Terrain::new(2);
    t.push(&Machine, &[enc(1.0), enc(0.5)]);
    t.push(&Machine, &[enc(0.0)]);
    // With the first peak average of one, heights are the levels themselves.
    let second = [1.0f32 + 0.33 * (0.0 - 1.0), 0.5 + 0.33 * (0.0 - 0.5)];
    assert_eq!(num(t.height(&Machine, 0, 0)), second[0]);
    assert_eq!(num(t.height(&Machine, 0, 1)), second[1]);
    assert_eq!(num(t.height(&Machine, 1, 0)), 1.0);
    assert_eq!(num(t.height(&Machine, 1, 1)), 0.5);
    assert_eq!(num(t.height(&Machine, 2, 0)), 0.0);
}

#[test]
fn the_landscape_holds_as_many_rows_as_it_is_deep() {
    let mut t = Terrain::new(1);
    t.set_depth(2);
    // A constant level stays what it is under smoothing.
    for _ in 0..5 {
        t.push(&Machine, &[enc(0.25)]);
    }
    assert_eq!(num(t.height(&Machine, 0, 0)), 0.25);
    assert_eq!(num(t.height(&Machine, 1, 0)), 0.25);
    // The same depth changes nothing, another one clears.
    t.set_depth(2);
    assert_eq!(num(t.height(&Machine, 1, 0)), 0.25);
    t.set_depth(4);
    assert_eq!(num(t.height(&Machine, 0, 0)), 0.0);
}

#[test]
fn averages_follow_slowly() {
    let mut t = Terrain::new(2);
    t.push(&Machine, &[enc(0.0), enc(0.5)]);
    t.adapt(&Machine);
    let peak = 1.0f32 + 0.01 * (0.5 - 1.0);
    assert_eq!(num(t.height(&Machine, 0, 1)), 0.5 / peak);
}

#[test]
fn heights_never_exceed_the_highest_peak() {
    let mut t = Terrain::new(3);
    t.push(&Machine, &[enc(5.0), enc(0.0), enc(-1.0)]);
    assert_eq!(num(t.height(&Machine, 0, 0)), 1.0);
}

#[test]
fn the_surface_sinks_at_both_ends() {
    let mut t = Terrain::new(3);
    for _ in 0..9 {
        t.push(&Machine, &[enc(0.5), enc(0.5), enc(0.5)]);
    }
    let middle = t.world(&Machine, 1, 4);
    assert_eq!(num(middle.0), 0.0);
    assert!((num(middle.1) - 0.5f32.powf(2.4) * 4.0).abs() < 1e-5);
    assert_eq!(num(middle.2), 4.0);
    assert_eq!(num(t.world(&Machine, 1, 0).1), 0.0);
    assert_eq!(num(t.world(&Machine, 0, 0).0), -1.4);
    assert_eq!(num(t.world(&Machine, 2, 0).0), 1.4);
}

#[test]
fn faces_are_lit_from_one_side() {
    let t = Terrain::new(3);
    // A flat face looks straight up.
    let up = 0.8f32 / (0.25f32 + 0.64 + 0.25).sqrt();
    let flat = num(t.face_shade(&Machine, 0, 0).unwrap());
    assert!((flat - (0.2 + 0.8 * up)).abs() < 1e-5);
    assert!(t.face_shade(&Machine, 2, 0).is_none());
    assert!(t.face_shade(&Machine, 0, 8).is_none());
    assert!(t.face_shade(&Machine, 0, 9).is_none());
    assert!(t.face_shade(&Machine, 3, 0).is_none());
    assert!(t.face_shade(&Machine, usize::MAX, usize::MAX).is_none());
    assert_eq!(num(t.edge_shade(&Machine, usize::MAX, 50, false)), 0.2 + (1.0 - 0.2) * 0.5);
    // Between two faces alike, beside one, and beside none.
    assert!((num(t.edge_shade(&Machine, 0, 1, true)) - flat).abs() < 1e-6);
    assert_eq!(num(t.edge_shade(&Machine, 0, 0, true)), flat);
    assert_eq!(num(t.edge_shade(&Machine, 0, 0, false)), flat);
    assert_eq!(num(t.edge_shade(&Machine, 0, 8, true)), flat);
    assert_eq!(num(t.edge_shade(&Machine, 2, 8, true)), 0.2 + (1.0 - 0.2) * 0.5);
}

#[test]
fn a_landscape_in_view_has_all_its_lines() {
    let mut t = Terrain::new(32);
    t.push(&Machine, &[enc(0.5); 32]);
    let body = t.render_wireframe(&Machine, area(0, 0, 80, 24));
    let lines = lines_of(&body);
    assert_eq!(lines.len(), 31 * 9 + 32 * 8);
    assert!(lines.iter().all(|l| matches!(l.color, Color::Rgb(..))));
    // The first line lies in the farthest row.
    let screen = Screen::new(&Machine, 80, 24);
    let mesh = t.wireframe(&Machine, screen);
    let (x, y) = mesh.points[8 * 32].unwrap();
    assert_eq!((lines[0].x1, lines[0].y1), (x, y));
}

#[test]
fn a_single_band_has_no_surface() {
    let mut t = Terrain::new(0);
    assert!(matches!(t.render_wireframe(&Machine, area(0, 0, 80, 24)), Body::Blank));
    t.push(&Machine, &[enc(0.5)]);
    assert!(matches!(t.render_wireframe(&Machine, area(0, 0, 80, 24)), Body::Blank));
}

#[test]
fn keys_change_the_landscape() {
    let mut t = Terrain::new(2);
    t.push(&Machine, &[enc(0.5), enc(0.5)]);
    assert!(!t.handle_key(&Machine, Key::Char('0')));
    assert!(!t.handle_key(&Machine, Key::Char('x')));
    assert!(!t.handle_key(&Machine, Key::F(1)));
    assert_eq!(num(t.height(&Machine, 0, 0)), 0.5);
    assert!(t.handle_key(&Machine, Key::Char('3')));
    assert_eq!(t.wireframe(&Machine, Screen::new(&Machine, 8, 8)).depth, 6);
    assert_eq!(num(t.height(&Machine, 0, 0)), 0.0);
    assert!(t.handle_key(&Machine, Key::Char('9')));
    assert_eq!(t.wireframe(&Machine, Screen::new(&Machine, 8, 8)).depth, 18);
}

#[test]
fn the_rotary_field_collects_spectra() {
    let mut t = Terrain::new(4);
    t.push(&Machine, &[enc(0.9); 4]);
    assert!(t.handle_key(&Machine, Key::Char('r')));
    // The field starts out flat.
    assert_eq!(num(t.height(&Machine, 4, 1)), 0.0);
    t.stamp_field(&Machine, &[enc(0.9); 4]);
    // In the middle of the field, along the direction of the ridge.
    let along = -1.0f32 / 6.0;
    let deposit = 0.9 * (-(along * along) / (0.18f32 * 0.18)).exp() * 0.6;
    let raw = num(t.height(&Machine, 4, 1));
    let corner = num(t.height(&Machine, 4, 0));
    assert!(raw > corner && corner > 0.0);
    // Divided by the average of the highest level, which starts at one.
    assert!((raw - deposit).abs() < 0.02);
    for _ in 0..200 {
        t.stamp_field(&Machine, &[enc(9.0); 4]);
    }
    assert_eq!(num(t.height(&Machine, 4, 1)), 1.0);
    // Off and on again: the field is flat, the rows are as they were.
    assert!(t.handle_key(&Machine, Key::Char('r')));
    assert_eq!(num(t.height(&Machine, 0, 0)), 0.9);
    assert!(t.handle_key(&Machine, Key::Char('r')));
    assert_eq!(num(t.height(&Machine, 4, 1)), 0.0);
}

#[test]
fn the_rotary_speed_is_limited() {
    // With the field turning at its limit, more presses make no difference.
    let turned = |presses: usize, key: char| {
        let (_state, mut app) = running_app();
        app.on_key(&Machine, Key::Char('r'));
        for _ in 0..presses {
            app.on_key(&Machine, Key::Char(key));
        }
        for _ in 0..5 {
            app.tick(&Machine);
        }
        app.ui(&Machine, area(0, 0, 80, 24)).panes.remove(0).body
    };
    assert_eq!(lines_of(&turned(60, ']')), lines_of(&turned(61, ']')));
    assert_eq!(lines_of(&turned(60, '[')), lines_of(&turned(61, '[')));
    assert_ne!(lines_of(&turned(1, ']')), lines_of(&turned(2, ']')));
    assert_ne!(lines_of(&turned(60, ']')), lines_of(&turned(60, '[')));
}

#[test]
fn numbers_are_written_in_decimal() {
    for n in [0u64, 7, 9, 10, 99, 100, 48_000, 65_535, u64::MAX] {
        assert_eq!(to_decimal(n), format!("{n}"));
    }
}

#[test]
fn texts_are_filled_up_with_spaces() {
    assert_eq!(pad_right("F9", 10), "F9        ");
    assert_eq!(pad_right("", 3), "   ");
    assert_eq!(pad_right("0123456789", 10), "0123456789");
    assert_eq!(pad_right("longer than that", 10), "longer than that");
    assert_eq!(pad_right("…", 3), "…  ");
}

#[test]
fn a_frame_takes_one_cell_on_each_side() {
    let frame = framed(area(3, 4, 10, 5), "title");
    assert_eq!(frame.area, area(3, 4, 10, 5));
    assert_eq!(frame.title, "title");
    assert_eq!(frame.inner, area(4, 5, 8, 3));
    assert_eq!(framed(area(3, 4, 2, 2), "t").inner, area(4, 5, 0, 0));
    assert_eq!(framed(area(3, 4, 1, 1), "t").inner, area(4, 5, 0, 0));
    assert_eq!(framed(area(3, 4, 0, 0), "t").inner, area(3, 4, 0, 0));
    assert_eq!(framed(area(65_535, 65_535, 0, 0), "t").inner, area(65_535, 65_535, 0, 0));
}

#[test]
fn a_panel_lies_in_the_middle() {
    assert_eq!(panel_area(area(0, 1, 80, 23), 28, 12), area(24, 5, 32, 14));
    assert_eq!(panel_area(area(0, 0, 81, 24), 28, 12), area(24, 5, 32, 14));
    // No larger than the area round it.
    assert_eq!(panel_area(area(5, 6, 10, 4), 28, 12), area(5, 6, 10, 4));
}

#[test]
fn the_help_panel_fits_its_lines() {
    let panel = render_help(area(0, 1, 80, 23)).unwrap();
    // The widest line: a key column of ten and "toggle rotary mode".
    assert_eq!(panel.area, area(24, 5, 32, 14));
    assert_eq!(panel.inner, area(25, 6, 30, 12));
    assert_eq!(panel.title, " Help ");
    let texts: Vec<String> = panel.lines.iter().map(text_of).collect();
    assert_eq!(
        texts,
        vec![
            "F1-F8     switch view",
            "+ / -     zoom window",
            "Tab / c   next channel",
            "F9        toggle this help",
            "F10       settings",
            "Esc       close overlay",
            "q         quit",
            "",
            "3D terrain (F1)",
            "1-9       terrain depth",
            "r         toggle rotary mode",
            "[ / ]     rotary speed -/+",
        ]
    );
    let lines = help_lines();
    assert_eq!(lines[0].spans[0].style, Style::Bold);
    assert_eq!(lines[0].spans[1].style, Style::Plain);
    assert_eq!(lines[8].spans[0].style, Style::Dim);
}

#[test]
fn the_settings_panel_fits_its_lines() {
    let panel = render_settings(area(0, 0, 80, 24)).unwrap();
    assert_eq!(panel.area, area(25, 9, 30, 5));
    assert_eq!(panel.title, " Settings ");
    let lines = settings_lines();
    assert_eq!(text_of(&lines[0]), "Settings coming soon.");
    assert_eq!(lines[0].style, Style::Dim);
    assert_eq!(text_of(&lines[1]), "");
    assert_eq!(text_of(&lines[2]), "Press F10 or Esc to close.");
}

#[test]
fn the_width_of_a_line_is_counted_in_cells() {
    let line = |text: &str| vec![TextLine::of_text(text, Style::Plain)];
    let width = |title: &str, text: &str| {
        render_overlay(area(0, 0, 80, 24), title, line(text)).unwrap().area.width
    };
    assert_eq!(width("", "abc"), 7);
    assert_eq!(width("", "…"), 5);
    // Wide characters take two cells.
    assert_eq!(width("", "漢字"), 8);
    // A title counts by its bytes.
    assert_eq!(width("title", "abc"), 9);
    assert_eq!(width("…", ""), 7);
    assert_eq!(render_overlay(area(0, 0, 80, 24), "", vec![]).unwrap().area, area(38, 11, 4, 2));
}

#[test]
fn a_panel_that_cannot_be_counted_is_not_shown() {
    let lines = |n: usize| vec![TextLine::of_span(&"a".repeat(n), Style::Plain)];
    let whole = area(0, 0, 80, 24);
    assert_eq!(render_overlay(whole, "", lines(65_531)).unwrap().area.width, 80);
    assert!(render_overlay(whole, "", lines(65_532)).is_none());
    assert!(render_overlay(whole, "", lines(65_535)).is_none());
}

#[test]
fn status_lines_say_what_is_shown() {
    assert_eq!(
        write_ready_status("combined", 1, 2, 48_000, 4800, "[hint]"),
        " termwaves: combined · ch 1/2 @ 48000 Hz · window 4800 samp   [hint]"
    );
    assert_eq!(write_waiting_status("[hint]"), " termwaves: waiting for audio…   [hint]");
}

#[test]
fn placeholders_are_named_after_their_key() {
    let p = Placeholder::new(7);
    assert_eq!(p.name(), "view F7");
    let (_state, app) = app();
    let panes = p.render(&Machine, area(0, 0, 20, 10), &app.ctx());
    assert_eq!(panes.len(), 1);
    assert_eq!(panes[0].frame.title, "view F7");
    assert!(matches!(&panes[0].body, Body::Text(t) if t == "view F7: not implemented yet"));
    assert_eq!(Placeholder::new(255).name(), "view F255");
    assert!(matches!(placeholder_text("x"), Body::Text(t) if t == "x"));
}

#[test]
fn a_waveform_has_a_line_per_column() {
    assert_eq!(columns_on(78), 156);
    assert_eq!(columns_on(0), 1);
    let envelopes = [
        Envelope { min: enc(-0.5), max: enc(0.25) },
        Envelope { min: enc(0.0), max: enc(1.0) },
    ];
    match draw_wave(&Machine, 2, &envelopes) {
        Body::Canvas { x_bounds, y_bounds, lines } => {
            assert_eq!(x_bounds, (wide_enc(0.0), wide_enc(2.0)));
            assert_eq!(y_bounds, (wide_enc(-1.0), wide_enc(1.0)));
            assert_eq!(lines.len(), 2);
            assert_eq!(wide_num(lines[0].y1), -0.5);
            assert_eq!(wide_num(lines[0].y2), 0.25);
            assert_eq!((wide_num(lines[1].x1), wide_num(lines[1].x2)), (1.0, 1.0));
            assert_eq!(lines[1].color, Color::Cyan);
        }
        _ => panic!("no canvas"),
    }
}

#[test]
fn bars_are_as_high_as_their_bands() {
    let bands =
        [0.0f32, 0.5, 1.0].map(|m| Band { center_hz: enc(100.0), magnitude: enc(m) });
    match draw_bars(&Machine, area(0, 0, 10, 20), &bands) {
        Body::Bars { bars, bar_width, max } => {
            assert_eq!(
                bars,
                vec![
                    Bar { value: 0, color: Color::Rgb(0, 0, 255) },
                    Bar { value: 10, color: Color::Rgb(0, 255, 0) },
                    Bar { value: 20, color: Color::Rgb(255, 0, 0) },
                ]
            );
            assert_eq!((bar_width, max), (3, 20));
        }
        _ => panic!("no bars"),
    }
    // Never less than a cell, never less than one row.
    assert!(matches!(
        draw_bars(&Machine, area(0, 0, 2, 0), &bands),
        Body::Bars { bar_width: 1, max: 1, .. }
    ));
    assert!(matches!(
        draw_bars(&Machine, area(0, 0, 9, 5), &[]),
        Body::Bars { bar_width: 9, max: 5, .. }
    ));
}

#[test]
fn the_combined_view_has_two_halves() {
    let (_state, app) = running_app();
    let panes = Combined.render(&Machine, area(0, 1, 80, 22), &app.ctx());
    assert_eq!(panes.len(), 2);
    assert_eq!(panes[0].frame.title, "waveform");
    assert_eq!(panes[0].frame.area, area(0, 1, 80, 11));
    assert_eq!(panes[1].frame.title, "spectrum");
    assert_eq!(panes[1].frame.area, area(0, 12, 80, 11));
    assert_eq!(lines_of(&panes[0].body).len(), 156);
    assert!(matches!(
        &panes[1].body,
        Body::Bars { bars, bar_width: 2, max: 9 } if bars.len() == 32
    ));
    assert_eq!(Combined.name(), "combined");
}

#[test]
fn the_halves_share_the_height_equally() {
    let (_state, app) = running_app();
    for y in [0u16, 1, 7, 40_000] {
        for height in (0..=140u16).chain([999, 1_000, 20_001, 25_535]) {
            let half = (height + 1) / 2;
            let panes = Combined.render(&Machine, area(5, y, 4, height), &app.ctx());
            assert_eq!(panes[0].frame.area, area(5, y, 4, half));
            assert_eq!(panes[1].frame.area, area(5, y + half, 4, height - half));
        }
    }
}

#[test]
fn keys_without_a_view_of_their_own_show_a_placeholder() {
    let (_state, mut app) = running_app();
    for n in 3..=8u8 {
        assert!(!app.on_key(&Machine, Key::F(n)));
        app.tick(&Machine);
        let picture = app.ui(&Machine, area(0, 0, 40, 12));
        assert_eq!(picture.panes.len(), 1);
        assert_eq!(picture.panes[0].frame.title, format!("view F{n}"));
        let said = format!("view F{n}: not implemented yet");
        assert!(matches!(&picture.panes[0].body, Body::Text(t) if *t == said));
    }
}

#[test]
fn without_a_spectrum_there_are_no_bars() {
    let (_state, app) = app();
    let panes = Combined.render(&Machine, area(0, 0, 80, 22), &app.ctx());
    assert!(lines_of(&panes[0].body).is_empty());
    assert!(matches!(panes[1].body, Body::Blank));
}

#[test]
fn keys_are_commands() {
    let command = |key: Key| command_for(key, Overlay::Closed);
    assert_eq!(command(Key::Char('q')), Command::Quit);
    assert_eq!(command(Key::Esc), Command::Quit);
    assert_eq!(command_for(Key::Esc, Overlay::Help), Command::CloseOverlay);
    assert_eq!(command_for(Key::Char('q'), Overlay::Help), Command::Quit);
    assert_eq!(command(Key::F(9)), Command::ToggleOverlay(Overlay::Help));
    assert_eq!(command(Key::F(10)), Command::ToggleOverlay(Overlay::Settings));
    assert_eq!(command(Key::F(3)), Command::SelectView(3));
    assert_eq!(command(Key::Char('+')), Command::ZoomIn);
    assert_eq!(command(Key::Char('=')), Command::ZoomIn);
    assert_eq!(command(Key::Char('-')), Command::ZoomOut);
    assert_eq!(command(Key::Char('_')), Command::ZoomOut);
    assert_eq!(command(Key::Tab), Command::NextChannel);
    assert_eq!(command(Key::Char('c')), Command::NextChannel);
    assert_eq!(command(Key::Char('r')), Command::Forward);
    assert_eq!(command(Key::Char('5')), Command::Forward);
    assert_eq!(command(Key::Other), Command::Forward);
}

#[test]
fn function_keys_select_views() {
    let (_state, mut app) = app();
    assert_eq!(app.views.len(), 8);
    for n in 1..=8u8 {
        app.select_fkey(n);
        assert_eq!(app.active, n as usize - 1);
    }
    app.select_fkey(0);
    app.select_fkey(9);
    app.select_fkey(255);
    assert_eq!(app.active, 7);
    let names: Vec<&str> = app.views.iter().map(|v| v.name()).collect();
    assert_eq!(
        names,
        vec!["3D terrain", "combined", "view F3", "view F4", "view F5", "view F6", "view F7", "view F8"]
    );
}

#[test]
fn the_window_stays_within_its_limits() {
    let (_state, mut app) = app();
    assert_eq!(app.engine.window, 4800);
    app.zoom_in();
    assert_eq!(app.engine.window, 2400);
    app.zoom_out();
    assert_eq!(app.engine.window, 4800);
    for _ in 0..20 {
        app.zoom_in();
    }
    assert_eq!(app.engine.window, 200);
    for _ in 0..20 {
        app.zoom_out();
    }
    assert_eq!(app.engine.window, 24_000);
}

#[test]
fn channels_go_round() {
    let (_state, mut silent) = app();
    silent.next_channel();
    assert_eq!(silent.engine.channel, 0);
    let (_state, mut app) = running_app();
    app.next_channel();
    assert_eq!(app.engine.channel, 1);
    app.next_channel();
    assert_eq!(app.engine.channel, 0);
}

#[test]
fn panels_open_and_close() {
    let (_state, mut app) = app();
    assert!(!app.on_key(&Machine, Key::F(9)));
    assert_eq!(app.overlay, Overlay::Help);
    assert!(!app.on_key(&Machine, Key::F(10)));
    assert_eq!(app.overlay, Overlay::Settings);
    assert!(app.panel(area(0, 0, 80, 24)).is_some());
    assert!(!app.on_key(&Machine, Key::F(10)));
    assert_eq!(app.overlay, Overlay::Closed);
    assert!(app.panel(area(0, 0, 80, 24)).is_none());
    app.toggle_overlay(Overlay::Help);
    assert!(!app.on_key(&Machine, Key::Esc));
    assert_eq!(app.overlay, Overlay::Closed);
    assert!(app.on_key(&Machine, Key::Esc));
    assert!(app.on_key(&Machine, Key::Char('q')));
}

#[test]
fn other_keys_go_to_the_view_that_is_shown() {
    let (_state, mut app) = running_app();
    let depth = |app: &App| match &app.views[0] {
        AnyView::Terrain(t) => t.wireframe(&Machine, Screen::new(&Machine, 8, 8)).depth,
        _ => panic!("no landscape"),
    };
    assert_eq!(depth(&app), 9);
    assert!(!app.on_key(&Machine, Key::Char('2')));
    assert_eq!(depth(&app), 4);
    // Another view has no use for it.
    app.on_key(&Machine, Key::F(2));
    app.on_key(&Machine, Key::Char('7'));
    assert_eq!(depth(&app), 4);
    app.on_key(&Machine, Key::F(1));
    app.forward_key(&Machine, Key::Char('7'));
    assert_eq!(depth(&app), 14);
}

#[test]
fn an_app_waits_for_audio() {
    let (_state, mut app) = app();
    app.tick(&Machine);
    assert!(app.engine.spectrum.is_none());
    let picture = app.ui(&Machine, area(0, 0, 80, 24));
    assert_eq!(picture.status, " termwaves: waiting for audio…   [F9 help · q quit]");
    assert_eq!(picture.status_area, area(0, 0, 80, 1));
    assert_eq!(picture.body_area, area(0, 1, 80, 23));
    assert_eq!(picture.panes.len(), 1);
    assert!(matches!(&picture.panes[0].body, Body::Text(t) if t == "warming up…"));
    assert!(picture.panel.is_none());
}

#[test]
fn the_body_lies_below_the_status_row() {
    let (_state, app) = running_app();
    for y in [0u16, 3, 1000] {
        for height in 1..80u16 {
            let picture = app.ui(&Machine, area(2, y, 40, height));
            assert_eq!(picture.status_area, area(2, y, 40, 1));
            assert_eq!(picture.body_area, area(2, y + 1, 40, height - 1));
            let panes = Combined.render(&Machine, area(2, y, 40, height), &app.ctx());
            let (top, bottom) = (panes[0].frame.area, panes[1].frame.area);
            assert!(y <= top.y && top.y + top.height <= bottom.y);
            assert!(bottom.y + bottom.height <= y + height);
        }
    }
    let nothing = app.ui(&Machine, area(2, 3, 40, 0));
    assert_eq!((nothing.status_area.height, nothing.body_area.height), (0, 0));
}

#[test]
fn a_spectrum_is_built_once_the_stream_is_ready() {
    let (mut state, mut app) = app();
    send(&mut state, &tone(100));
    // Channels alone are not enough.
    state.negotiated(1, 0);
    app.tick(&Machine);
    assert!(app.engine.spectrum.is_none());
    assert!(app.status().contains("waiting for audio"));
    state.negotiated(1, 48_000);
    app.tick(&Machine);
    assert!(app.engine.spectrum.is_some());
    assert!(app.status().contains("@ 48000 Hz"));
}

#[test]
fn an_app_follows_the_audio() {
    let (mut state, mut app) = running_app();
    assert_eq!(app.engine.spectrum.as_ref().unwrap().bands().len(), 32);
    let picture = app.ui(&Machine, area(0, 0, 80, 24));
    assert_eq!(
        picture.status,
        " termwaves: 3D terrain · ch 0/2 @ 48000 Hz · window 4800 samp   [F9 help · F10 settings]"
    );
    assert_eq!(picture.panes[0].frame.title, "3D terrain");
    assert_eq!(picture.panes[0].frame.inner, area(1, 2, 78, 21));
    assert_eq!(lines_of(&picture.panes[0].body).len(), 31 * 9 + 32 * 8);
    // The spectrum keeps its tuning; the landscape moves on.
    let bins = app.engine.spectrum.as_ref().unwrap().band_bins().to_vec();
    state.negotiated(2, 44_100);
    send(&mut state, &[0.5; 100]);
    app.tick(&Machine);
    assert_eq!(app.engine.spectrum.as_ref().unwrap().band_bins(), bins);
    app.on_key(&Machine, Key::F(9));
    let with_help = app.ui(&Machine, area(0, 0, 80, 24));
    assert!(with_help.status.contains("@ 44100 Hz"));
    assert_eq!(with_help.panel.unwrap().title, " Help ");
    assert_ne!(lines_of(&with_help.panes[0].body), lines_of(&picture.panes[0].body));
}
