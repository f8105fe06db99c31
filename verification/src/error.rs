//! The ways in which a request can fail.

use vstd::prelude::*;

verus! {

/// Why no mesh was produced. Every failure is final for the request at hand:
/// the same input fails the same way again.
#[derive(Clone, Copy, Debug, PartialEq, Eq, Structural)]
pub enum Error {
    /// The image data could not be interpreted: the decoder rejected the bytes,
    /// or the sample buffer does not hold one sample for each pixel.
    Decode,
    /// The image has no opaque pixel, so there is no contour to trace.
    EmptyImage,
    /// Fewer than three points where a triangulation needs three or more.
    DegeneratePolygon,
    /// The triangulator reported a failure, or returned indices that do not
    /// describe triangles over the points it was given.
    Triangulation,
    /// A width, a height or a distance does not fit the 16-bit coordinate range.
    CoordinateOverflow,
}

} // verus!
