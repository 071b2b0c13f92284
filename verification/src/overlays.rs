use vstd::prelude::*;

verus! {

/// Indicates which way the flat primitives are facing in 3D space.
#[derive(Clone, Copy, Debug, PartialEq, Eq, Structural)]
pub enum ShapeOrientation {
    XPositive,
    XNegative,
    YPositive,
    YNegative,
    ZPositive,
    ZNegative,
}

impl Default for ShapeOrientation {
    fn default() -> (res: Self)
        ensures
            res == ShapeOrientation::ZPositive,
    {
        ShapeOrientation::ZPositive
    }
}

/// A marker for the start or end of a shape.
#[derive(Clone, Copy, Debug, PartialEq, Eq, Structural)]
pub enum StrokeMarker {
    /// No marker.
    NoMarker,
    /// Arrowhead marker.
    Arrowhead,
}

impl Default for StrokeMarker {
    fn default() -> (res: Self)
        ensures
            res == StrokeMarker::NoMarker,
    {
        StrokeMarker::NoMarker
    }
}

/// Plugin for the overlays module.
pub struct QuillOverlaysPlugin;

} // verus!
