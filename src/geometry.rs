//! Drawing modes and shape kinds.
use vstd::prelude::*;

verus! {

/// The pen shape that strokes are drawn with.
pub enum StrokeMode {
    /// A disk whose radius is the stroke weight.
    Circle,
    /// The outline of a square whose half-side is the stroke weight.
    Square,
    /// Offsets that the caller generated for the current stroke weight.
    Custom(Vec<(i8, i8)>),
}

/// The typeface that text is set in.
pub enum FontMode {
    TimesNewRoman,
    Arial,
    Custom { file_path: String },
}

/// What the vertices between `begin_shape` and `end_shape` describe.
#[derive(PartialEq, Eq, Structural, Clone, Copy, Debug)]
pub enum ShapeType {
    /// A filled polygon, holes allowed.
    Polygon,
    /// Straight segments through the vertices, closed when `loops`.
    LinearSpline { loops: bool },
    /// Cubic Bézier segments; not drawn.
    CubicBezierSpline { loops: bool },
}

/// Geometric helpers.
pub struct Geometry {}

/// The user data that a sketch carries from frame to frame.
pub trait State: Default {}

} // verus!
