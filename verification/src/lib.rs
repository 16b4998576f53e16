//! Escape-time field computation for the Mandelbrot set.
//!
//! The library verifies the float-free core of a fractal renderer: splitting
//! textual coordinate pairs, classifying pixels into an escape-time field in
//! row-major order, and the determinism of that field. The floating-point
//! iteration itself is supplied by the caller as a per-pixel evaluator.

mod complex;
pub mod field;
pub mod parse;

pub use field::band_covers;
pub use field::cell;
pub use field::compute_band;
pub use field::lemma_band_concat;
pub use field::compute_field;
pub use field::field_matches;
pub use field::lemma_eval_pins_field;
pub use field::lemma_field_deterministic;
pub use field::ImageDimensions;
pub use field::IterationResult;
pub use parse::parse_complex;
pub use parse::parse_pair;
pub use parse::parse_usize;
pub use parse::split_pair;


