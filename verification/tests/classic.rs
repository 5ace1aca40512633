use termwaves::arith::Arithmetic;
use termwaves::audio::{open_capture, CaptureState};
use termwaves::classic::app::{command_for, AnyView, App, Command};
use termwaves::classic::combined::Combined;
use termwaves::classic::terrain::Terrain;
use termwaves::color::{heat_color, Color};
use termwaves::float::{Double, Float};
use termwaves::key::Key;
use termwaves::layout::Area;
use termwaves::mesh::{Screen, Segment};
use termwaves::scope::WaveScope;
use termwaves::view::{Body, View};

/// The machine's own arithmetic.
struct Machine;

fn num(a: Float) -> f32 {
    f32::from_bits(a.0)
}

fn enc(a: f32) -> Float {
    Float(a.to_bits())
}

fn wide_num(a: Double) -> f64 {
    f64::from_bits(a.0)
}

fn wide_enc(a: f64) -> Double {
    Double(a.to_bits())
}

impl Arithmetic for Machine {
    fn add(&self, a: Float, b: Float) -> Float {
        enc(num(a) + num(b))
    }
    fn sub(&self, a: Float, b: Float) -> Float {
        enc(num(a) - num(b))
    }
    fn mul(&self, a: Float, b: Float) -> Float {
        enc(num(a) * num(b))
    }
    fn div(&self, a: Float, b: Float) -> Float {
        enc(num(a) / num(b))
    }
    fn fused(&self, a: Float, b: Float, c: Float) -> Float {
        enc(num(a).mul_add(num(b), num(c)))
    }
    fn modulo(&self, a: Float, b: Float) -> Float {
        enc(num(a).rem_euclid(num(b)))
    }
    fn sqrt(&self, a: Float) -> Float {
        enc(num(a).sqrt())
    }
    fn sin(&self, a: Float) -> Float {
        enc(num(a).sin())
    }
    fn cos(&self, a: Float) -> Float {
        enc(num(a).cos())
    }
    fn exp(&self, a: Float) -> Float {
        enc(num(a).exp())
    }
    fn log10(&self, a: Float) -> Float {
        enc(num(a).log10())
    }
    fn powf(&self, a: Float, b: Float) -> Float {
        enc(num(a).powf(num(b)))
    }
    fn powi(&self, a: Float, n: i32) -> Float {
        enc(num(a).powi(n))
    }
    fn from_index(&self, n: usize) -> Float {
        enc(n as f32)
    }
    fn floor_index(&self, a: Float) -> usize {
        num(a).floor() as usize
    }
    fn ceil_index(&self, a: Float) -> usize {
        num(a).ceil() as usize
    }
    fn round_index(&self, a: Float) -> usize {
        num(a).round() as usize
    }
    fn round_byte(&self, a: Float) -> u8 {
        num(a).round() as u8
    }
    fn round_count(&self, a: Float) -> u64 {
        num(a).round() as u64
    }
    fn widen(&self, a: Float) -> Double {
        wide_enc(num(a) as f64)
    }
    fn wide_from(&self, n: u32) -> Double {
        wide_enc(n as f64)
    }
    fn wide_add(&self, a: Double, b: Double) -> Double {
        wide_enc(wide_num(a) + wide_num(b))
    }
    fn wide_mul(&self, a: Double, b: Double) -> Double {
        wide_enc(wide_num(a) * wide_num(b))
    }
    fn wide_div(&self, a: Double, b: Double) -> Double {
        wide_enc(wide_num(a) / wide_num(b))
    }
}

fn send(state: &mut CaptureState, samples: &[f32]) {
    let bytes: Vec<u8> = samples.iter().flat_map(|s| s.to_le_bytes()).collect();
    assert_eq!(state.process(&bytes, bytes.len()), samples.len());
}

fn tone(n: usize) -> Vec<f32> {
    (0..n).map(|i| (i as f32 * 0.3).sin() * 0.8).collect()
}

fn area(x: u16, y: u16, width: u16, height: u16) -> Area {
    Area { x, y, width, height }
}

fn app() -> (CaptureState, App) {
    let (state, handle) = open_capture();
    (state, App::new(WaveScope::new(handle)))
}

fn lines_of(body: &Body) -> &[Segment] {
    match body {
        Body::Canvas { lines, .. } => lines,
        _ => panic!("no canvas"),
    }
}

#[test]
fn encodings_of_the_plain_landscape_are_right() {
    for (bits, value) in [
        (termwaves::classic::terrain::PEAK_HEIGHT, 6.6f32),
        (termwaves::classic::terrain::SPIKE_GAMMA, 2.4),
        (termwaves::classic::terrain::CAM_HEIGHT, 2.5),
        (termwaves::classic::terrain::CAM_SETBACK, 8.0),
        (termwaves::classic::terrain::CAM_PITCH, 0.6),
        (termwaves::classic::terrain::FOCAL, 1.2),
        (termwaves::classic::terrain::WORLD_HALF_WIDTH, 1.5),
        (termwaves::classic::terrain::HORIZON_LIFT, 1.2),
    ] {
        assert_eq!(f32::from_bits(bits), value);
    }
}

#[test]
fn plain_rows_are_shown_as_they_come() {
    let mut t = Terrain::new(3);
    t.set_depth(2);
    t.push(&[enc(0.1), enc(0.2), enc(0.3)]);
    t.push(&[enc(0.4), enc(0.5)]);
    assert_eq!(num(t.height(0, 0)), 0.4);
    assert_eq!(num(t.height(0, 1)), 0.5);
    // Bands that a spectrum lacks are silent.
    assert_eq!(num(t.height(0, 2)), 0.0);
    assert_eq!(num(t.height(1, 2)), 0.3);
    t.push(&[enc(0.6), enc(0.7), enc(0.8), enc(0.9)]);
    assert_eq!(num(t.height(0, 2)), 0.8);
    assert_eq!(num(t.height(1, 0)), 0.4);
}

#[test]
fn plain_depth_is_the_number_on_the_key() {
    let mut t = Terrain::new(2);
    let depth = |t: &Terrain| t.wireframe(&Machine, Screen::new(&Machine, 8, 8)).depth;
    assert_eq!(depth(&t), 1);
    assert!(t.handle_key(&Machine, Key::Char('5')));
    assert_eq!(depth(&t), 5);
    t.push(&[enc(0.5), enc(0.5)]);
    // The same depth again clears nothing.
    assert!(t.handle_key(&Machine, Key::Char('5')));
    assert_eq!(num(t.height(0, 0)), 0.5);
    assert!(t.handle_key(&Machine, Key::Char('9')));
    assert_eq!(num(t.height(0, 0)), 0.0);
    assert!(!t.handle_key(&Machine, Key::Char('0')));
    assert!(!t.handle_key(&Machine, Key::Char('r')));
}

#[test]
fn plain_lines_have_the_color_of_their_height() {
    let mut t = Terrain::new(2);
    t.set_depth(2);
    t.push(&[enc(0.25), enc(1.0)]);
    t.push(&[enc(0.5), enc(0.0)]);
    let (wx, wy, wz) = t.world(&Machine, 1, 1);
    assert_eq!((num(wx), num(wy), num(wz)), (1.5, 6.6, 1.0));
    let body = t.render_wireframe(&Machine, area(0, 0, 40, 20));
    let colors: Vec<Color> = lines_of(&body).iter().map(|l| l.color).collect();
    let heat = |v: f32| heat_color(&Machine, enc(v));
    // Far row: to the right and to the near row, then the last column; then
    // the near row.
    assert_eq!(colors, vec![heat(0.25), heat(0.25), heat(1.0), heat(0.5)]);
}

#[test]
fn a_single_plain_band_has_no_surface() {
    let mut t = Terrain::new(0);
    t.push(&[enc(0.5)]);
    assert!(matches!(t.render_wireframe(&Machine, area(0, 0, 8, 8)), Body::Blank));
}

#[test]
fn plain_keys_are_commands() {
    assert_eq!(command_for(Key::Char('q')), Command::Quit);
    assert_eq!(command_for(Key::Esc), Command::Quit);
    assert_eq!(command_for(Key::Tab), Command::NextChannel);
    assert_eq!(command_for(Key::Char('c')), Command::NextChannel);
    assert_eq!(command_for(Key::Char('+')), Command::ZoomIn);
    assert_eq!(command_for(Key::Char('=')), Command::ZoomIn);
    assert_eq!(command_for(Key::Char('-')), Command::ZoomOut);
    assert_eq!(command_for(Key::Char('_')), Command::ZoomOut);
    assert_eq!(command_for(Key::F(9)), Command::SelectView(9));
    assert_eq!(command_for(Key::Char('4')), Command::Forward);
    assert_eq!(command_for(Key::Other), Command::Forward);
}

#[test]
fn the_plain_app_shows_audio() {
    let (mut state, mut app) = app();
    app.tick(&Machine);
    let waiting = app.ui(&Machine, area(0, 0, 80, 24));
    assert_eq!(waiting.status, " termwaves: waiting for audio…   [q quit]");
    assert!(matches!(&waiting.panes[0].body, Body::Text(t) if t == "warming up…"));
    state.negotiated(1, 48_000);
    send(&mut state, &tone(4800));
    app.tick(&Machine);
    let picture = app.ui(&Machine, area(0, 0, 80, 24));
    assert_eq!(
        picture.status,
        " termwaves: 3D terrain · ch 0/1 @ 48000 Hz · window 4800 samp   [F1-F8 view · +/- zoom · Tab channel · q quit]"
    );
    assert_eq!(lines_of(&picture.panes[0].body).len(), 31);
    assert!(!app.on_key(&Machine, Key::Char('3')));
    assert!(matches!(&app.views[0], AnyView::Terrain(t)
        if t.wireframe(&Machine, Screen::new(&Machine, 8, 8)).depth == 3));
    assert!(!app.on_key(&Machine, Key::F(2)));
    assert_eq!(app.active, 1);
    assert!(!app.on_key(&Machine, Key::F(9)));
    assert_eq!(app.active, 1);
    assert!(!app.on_key(&Machine, Key::Char('+')));
    assert_eq!(app.engine.window, 2400);
    assert!(!app.on_key(&Machine, Key::Char('-')));
    assert_eq!(app.engine.window, 4800);
    assert!(!app.on_key(&Machine, Key::Tab));
    assert_eq!(app.engine.channel, 0);
    let combined = app.ui(&Machine, area(0, 0, 80, 24));
    assert_eq!(combined.panes.len(), 2);
    assert_eq!(combined.panes[0].frame.title, "waveform");
    assert_eq!(lines_of(&combined.panes[0].body).len(), 156);
    assert!(app.on_key(&Machine, Key::Esc));
}

#[test]
fn the_plain_halves_share_the_height_equally() {
    let (_state, mut app) = app();
    assert!(!app.on_key(&Machine, Key::F(2)));
    for height in 1..=140u16 {
        let half = height / 2;
        let panes = app.ui(&Machine, area(5, 3, 40, height)).panes;
        assert_eq!(panes[0].frame.area, area(5, 4, 40, half));
        assert_eq!(panes[1].frame.area, area(5, 4 + half, 40, height - 1 - half));
    }
}

#[test]
fn plain_keys_without_a_view_of_their_own_show_a_placeholder() {
    let (_state, mut app) = app();
    for n in 3..=8u8 {
        assert!(!app.on_key(&Machine, Key::F(n)));
        app.tick(&Machine);
        let panes = app.ui(&Machine, area(0, 0, 40, 12)).panes;
        assert_eq!(panes[0].frame.title, format!("view F{n}"));
        let said = format!("view F{n}: not implemented yet");
        assert!(matches!(&panes[0].body, Body::Text(t) if *t == said));
    }
}

#[test]
fn the_plain_waveform_looks_at_every_sample() {
    let (mut state, mut app) = app();
    state.negotiated(1, 48_000);
    send(&mut state, &[0.25, 0.5, 0.75]);
    app.tick(&Machine);
    // One cell inside the frame: two columns for three samples.
    let panes = Combined.render(&Machine, area(0, 0, 3, 20), &app.ctx());
    let spans: Vec<(f64, f64)> = lines_of(&panes[0].body)
        .iter()
        .map(|l| (wide_num(l.y1), wide_num(l.y2)))
        .collect();
    assert_eq!(spans, vec![(0.25, 0.5), (0.75, 0.75)]);
}
