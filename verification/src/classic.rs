//! The plain edition: the same audio and spectrum, with a landscape that shows
//! spectra as they come, colored by their height, and no panels.

pub mod app;
pub mod combined;
pub mod terrain;
