//! A minimal 2D raster-graphics library: an in-memory canvas of packed
//! 32-bit RGBA pixels, fill algorithms for rectangles, circles, lines and
//! triangles (all silently clipped to the canvas), and an encoder for a
//! plain-text image format.

use vstd::prelude::*;

pub mod canvas;
pub mod geometry;
pub mod ppm;
pub mod shapes;

pub use canvas::Canvas;
pub use canvas::Color;
pub use shapes::Circle;
pub use shapes::Line;
pub use shapes::Rect;
pub use shapes::Triangle;
