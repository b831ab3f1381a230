//! The data model: a face's bounding rectangle and a tagged face record.

use vstd::prelude::*;

verus! {

/// An axis-aligned bounding box (x, y, width, height) for a detected face,
/// in pixel coordinates with the origin at the top left.
#[derive(Clone, Copy, PartialEq, Eq, Structural, Debug)]
pub struct Rect {
    pub x: i32,
    pub y: i32,
    pub w: i32,
    pub h: i32,
}

/// One tagged face: a 1-based rank, an age estimate, and the face's bounding
/// box, each rendered as a string exactly as it appears in the JSON output.
#[derive(Debug)]
pub struct TaggedFace {
    /// Decimal rendering of the 1-based rank in age order.
    pub tag: String,
    /// Decimal rendering of the estimated age.
    pub age: String,
    /// The bounding box rendered as "(x, y, w, h)".
    pub coordinates: String,
}

} // verus!
