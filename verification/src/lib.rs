//! Renders the Mandelbrot set as a grayscale raster.
//!
//! Coordinates on the complex plane are carried in signed binary fixed
//! point (see [`Fixed`]), so the whole pipeline is exact integer
//! arithmetic under proved contracts: [`pixel_to_point`] maps a pixel of
//! the raster onto the viewport, [`escape_time`] decides whether and when
//! a point leaves the radius-2 circle under z <- z*z + c, and [`render`]
//! ties them together over a row-major byte buffer. [`parse_pair`] and
//! [`parse_complex`] read the dimensions and corner points from text.

pub mod complex;
pub mod coord;
pub mod escape;
pub mod fixed;
pub mod parse;
pub mod raster;

pub use complex::COORD_MAX;
pub use complex::Complex;
pub use coord::VIEW_MAX;
pub use coord::pixel_to_point;
pub use escape::escape_time;
pub use fixed::Fixed;
pub use fixed::SCALE;
pub use parse::FromText;
pub use parse::parse_complex;
pub use parse::parse_pair;
pub use raster::ITERATION_LIMIT;
pub use raster::render;
