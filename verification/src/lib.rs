//! Escape-time rendering of the Mandelbrot set into a grayscale raster.
//!
//! The crate holds the integer side of the renderer: the row-major layout of
//! the pixel buffer, the bounded escape-time search, the intensity ramp and the
//! loop that fills the buffer, together with the splitting of `"AxB"`-style
//! argument pairs. Floating-point arithmetic is left to the caller, who hands
//! it in as closures; every contract here speaks of what those closures answer.

pub mod escape;
pub mod parse;
pub mod raster;
pub mod render;

pub use escape::escape_time;
pub use parse::{from_str_or, parse_pair, split_at_exlusive};
pub use raster::{intensity, pixel_index, Point, LIMIT};
pub use render::render;
