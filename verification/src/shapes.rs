use crate::bounding_box::BoundingBox;
use crate::point_location::PointLocation;
use crate::position::Position;
use crate::regular::Regular;
use vstd::prelude::*;

pub mod ellipse;

pub use ellipse::Ellipse;

verus! {

/// A figure in the plane.
pub trait Shape: Regular {
    /// The shape that the given box encloses.
    fn new_inside(bounding_box: BoundingBox) -> Self;

    /// Where `point` lies with respect to the shape.
    fn point_location(&self, point: Position) -> PointLocation;

    /// The box that encloses the shape.
    fn bounding_box(&self) -> BoundingBox;
}

} // verus!
