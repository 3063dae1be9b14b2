//! A small build-automation library: a parser for a makefile-like text
//! format, a writer for it, and a planner that orders the work needed to
//! build a target.
//!
//! - `parse`: the model (`Makefile`, `Target`) and `Makefile::from_str`.
//! - `plan`: `Makefile::make`, the steps of a build in the order they run.
//! - `render`: `Makefile::to_text`, the model written back as text.
//! - `laws` and `round_trip`: what holds of these together.
//! - `text`: whitespace, trimming, lines and words.
pub mod laws;
pub mod parse;
pub mod plan;
pub mod render;
pub mod round_trip;
pub mod text;
