//! Extraction of printable character runs from byte streams.
//!
//! Given a source of bytes, the scanner finds every maximal run of printable
//! symbols that reaches a configured minimum length and renders it, with an
//! optional file name and offset in front, under one of six character
//! encodings and one of several presentations of multi-byte UTF-8 characters.
//!
//! - [`options`]: the parameters of a scan.
//! - [`utils`]: which symbols are printable, and which windows of bytes hold
//!   a multi-byte character.
//! - [`source`] and [`stream`]: the readers that a scan takes its input
//!   from, over a slice in memory and over a one-pass stream.
//! - [`display`]: how offsets, names and multi-byte characters are written.
//! - [`model`]: what a scan finds and writes, stated over the bytes of the
//!   input; [`search`] and [`laws`]: what follows from that.
//! - [`scanner`], [`unicode`] and [`scan`]: the scan itself, by symbol, by
//!   character, and of a whole input.
//! - [`object_file`]: the scan of the sections of an object file.

pub mod display;
pub mod laws;
pub mod model;
pub mod object_file;
pub mod options;
pub mod scan;
pub mod scanner;
pub mod search;
pub mod source;
pub mod stream;
mod terminal;
pub mod unicode;
pub mod utils;
