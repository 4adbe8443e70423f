//! Reads rhythm-game song files and times their charts.
//!
//! A song file declares its tempo changes at beats and lists, for each chart,
//! the note-lines of one measure after the other. The library places tempo
//! changes and note-lines on one grid of rows, 192 to the measure, and gives
//! every note-line its time in microseconds. A timed chart can be written as
//! a beatmap.

pub mod converter;
pub mod decoding;
pub mod number;
pub mod structs;
pub mod text;
pub mod timing;
pub mod utils;
