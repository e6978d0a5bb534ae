use crate::bounding_box::{half, BoundingBox};
use crate::position::Position;
use vstd::prelude::*;

verus! {

/// An ellipse with axes parallel to the coordinate axes.
#[derive(Clone, PartialEq, Eq, Debug, Copy, Structural)]
pub struct Ellipse {
    pub centre: Position,
    pub semi_major_axis: i32,
    pub semi_minor_axis: i32,
}

impl Ellipse {
    /// The ellipse that the given box encloses: centred on the box's centre,
    /// with half the box's width and half its height as semi-axes.
    pub fn new_inside(bounding_box: BoundingBox) -> (e: Self)
        requires
            i32::MIN <= bounding_box.top_left.x + bounding_box.bottom_right.x <= i32::MAX,
            i32::MIN <= bounding_box.top_left.y + bounding_box.bottom_right.y <= i32::MAX,
            i32::MIN <= bounding_box.bottom_right.x - bounding_box.top_left.x <= i32::MAX,
            i32::MIN <= bounding_box.bottom_right.y - bounding_box.top_left.y <= i32::MAX,
        ensures
            e.centre.x == half(bounding_box.top_left.x + bounding_box.bottom_right.x),
            e.centre.y == half(bounding_box.top_left.y + bounding_box.bottom_right.y),
            e.semi_major_axis == half(bounding_box.bottom_right.x - bounding_box.top_left.x),
            e.semi_minor_axis == half(bounding_box.bottom_right.y - bounding_box.top_left.y),
            bounding_box.wf() ==> e.semi_major_axis >= 0 && e.semi_minor_axis >= 0,
    {
        let centre = bounding_box.centre();
        let semi_major_axis = bounding_box.width() / 2;
        let semi_minor_axis = bounding_box.height() / 2;
        Self { centre, semi_major_axis, semi_minor_axis }
    }
}

} // verus!
