use crate::color::Color;
use crate::position::Position;
use vstd::prelude::*;

pub mod no_texture;

pub use no_texture::NoTexture;

verus! {

/// A pattern that decides the colour of each pixel it is painted onto.
pub trait Texture {
    /// The colour that the pattern gives the pixel at `pos`, which held
    /// `prev_color`.
    fn color_at(&mut self, pos: Position, prev_color: Color) -> Color;
}

} // verus!
