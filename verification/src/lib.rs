//! A chunked UTF-8 rope with verified text metrics, together with the
//! property functions that hold it against slow reference models.
//!
//! - `text`: the text model (chars, UTF-8 and UTF-16 widths, line breaks).
//! - `fnv_hash`: FNV-1a through the `fnv` crate, and a hasher that marks the
//!   end of every write.
//! - `rope`: the rope, its builder, slices and line iterator.
//! - `etna`: the property functions and their helpers.
//! - `harness`: what the property runner decides: witness replay, property
//!   names, JSON strings.

pub mod fnv_hash;
pub mod text;

pub mod rope;

pub mod etna;
pub mod harness;
