//! A software 3D rasterizer: 2D/3D vector algebra, an incremental
//! (Bresenham-style) line walker, barycentric triangle filling gated by a
//! depth buffer, and a flat-shaded per-face render loop.
//!
//! Real-valued coordinates are modelled in fixed point: an `i64` component
//! holds the real value times [`geo::SCALE`], and every quotient is truncated
//! toward zero.  Rasterization maps the normalized device range `[-1, 1]`
//! onto integer pixel coordinates, clamped to the raster.

pub mod buffer;
pub mod geo;
pub mod model;
pub mod render;
