use vstd::prelude::*;

verus! {

/// Where a point lies with respect to a shape.
#[derive(Clone, Copy, Debug, PartialEq, Eq, Structural)]
pub enum PointLocation {
    Inside,
    OnBorder,
    Outside,
}

} // verus!
