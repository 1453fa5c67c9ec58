//! Grayscale escape-time rendering.
//!
//! The crate holds the discrete part of an escape-time renderer: the search
//! for the iteration at which an orbit leaves its region, the shade of a
//! pixel, the walk over a row-major pixel buffer, and the partition of an
//! image into bands of whole rows that can be rendered independently of one
//! another. The arithmetic of the plane itself is a parameter: the point
//! type is generic, and both the map from pixels to points and the single
//! step of the orbit are functions handed in by the caller. Every contract
//! is stated relative to what those two functions promise.

pub mod shade;
pub mod escape;
pub mod render;
pub mod bands;
pub mod parse;

pub use crate::bands::{band_corners, plan_bands, render_banded, Band};
pub use crate::escape::escape_time;
pub use crate::parse::{pair_fields, parse_pair, split_pair};
pub use crate::render::render;
pub use crate::shade::{shade, ITERATION_LIMIT};
