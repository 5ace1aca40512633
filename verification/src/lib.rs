//! Real-time audio visualization for the terminal.
pub mod anyview;
pub mod app;
pub mod arith;
pub mod audio;
pub mod classic;
pub mod color;
pub mod combined;
pub mod dft;
pub mod engine;
pub mod exact;
pub mod fft;
pub mod float;
pub mod fourier;
pub mod grid;
pub mod key;
pub mod layout;
pub mod mesh;
pub mod overlay;
pub mod scope;
pub mod spectrum;
pub mod status;
pub mod terrain;
pub mod text;
pub mod view;
