//! Turns a list of timed musical notes into a "comb" pattern: evenly spaced
//! vertical teeth whose spacing encodes the acoustic wavelength of whichever
//! note is sounding at each instant.
//!
//! All quantities are integers in caller-chosen units: note times in abstract
//! time units (for example MIDI ticks or beats), spacings and tooth positions
//! in abstract distance units (for example pixels or subpixels).  The pipeline
//! is: notes -> [`segments::build_segments`] -> [`teeth::emit_teeth`].

pub mod calibration;
pub mod laws;
pub mod midi;
pub mod notes;
pub mod segments;
pub mod spacing;
pub mod teeth;
