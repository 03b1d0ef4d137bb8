//! The failures that abort a shape computation.
use vstd::prelude::*;

verus! {

/// Why a computation could not produce its result.
#[derive(Clone, Copy, Debug, PartialEq, Eq, Structural)]
pub enum ShapeError {
    /// A contour had fewer points than the operation needs.
    TooFewPoints,
    /// A computed point fell outside the coordinate range.
    OutOfRange,
    /// A corner folded back on itself, so that no offset point exists for it.
    FoldedCorner,
    /// A hole had no vertex of the outer contour above it to bridge to.
    NoBridge,
    /// The ear clipper found no ear: the polygon was not simple and counter-clockwise.
    NoEar,
    /// A vertex buffer grew past what 32-bit indices can address.
    TooManyVertices,
}

} // verus!
