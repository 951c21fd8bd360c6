//! A small immediate-mode 2D rasteriser: packed ARGB colours, Bresenham
//! tracing, scanline fills, polygon triangulation and keyframe transitions.

pub mod color;
pub mod circle;
pub mod line;
pub mod mask;
pub mod transition;
pub mod geometry;
pub mod paint;
pub mod sketch;
pub mod triangulate;
pub mod input;
