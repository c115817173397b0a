//! An anti-aliased scan-conversion rasterizer for vector outline glyphs.
//!
//! Outlines are sequences of directed line segments and quadratic Bezier
//! curves.  Curves are flattened into line segments; each segment deposits
//! exact signed trapezoidal area deltas into an accumulator buffer; a
//! left-to-right prefix sum of a row, clamped to the unit interval, is the
//! fractional coverage of each pixel.  All geometry is carried in 16.16
//! fixed-point coordinates.

pub mod accum;
pub mod engine;
pub mod fixed;
pub mod flatten;
pub mod geom;
pub mod image;
pub mod script;

pub use engine::{RasterError, Rasterizer};
pub use fixed::{COORD_LIMIT, MAX_DIM, SCALE};
pub use flatten::{flatten_quad, DEFAULT_TOLERANCE, MAX_SPLIT_DEPTH};
pub use geom::{Point, Segment};
pub use image::serialize_to_rgba;
pub use script::{commands_wf, parse_point, parse_script, rasterize_glyph, Command, ScriptError};
