use vstd::prelude::*;

verus! {

/// A point with integer coordinates.
#[derive(Debug, PartialEq, Eq, Clone, Copy, Structural)]
pub struct Position {
    pub x: i32,
    pub y: i32,
}

impl Position {
    #[verifier::allow_in_spec]
    pub fn new(x: i32, y: i32) -> (p: Self)
        ensures
            p == (Position { x, y }),
        returns
            (Position { x, y }),
    {
        Position { x, y }
    }
}

} // verus!
