use crate::color::Color;
use crate::position::Position;
use crate::textures::Texture;
use vstd::prelude::*;

verus! {

/// The pattern that leaves every pixel as it is.
pub struct NoTexture {}

impl Texture for NoTexture {
    fn color_at(&mut self, _pos: Position, prev_color: Color) -> (c: Color)
        ensures
            c == prev_color,
    {
        prev_color
    }
}

} // verus!
