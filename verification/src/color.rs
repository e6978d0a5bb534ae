use vstd::prelude::*;
use vstd::std_specs::cmp::PartialEqSpecImpl;

verus! {

/// A pixel value: three 8-bit channels, compared by value.
#[derive(Debug, Clone, Copy)]
pub struct Color {
    pub r: u8,
    pub g: u8,
    pub b: u8,
}

impl PartialEq for Color {
    fn eq(&self, other: &Self) -> (same: bool) {
        self.r == other.r && self.g == other.g && self.b == other.b
    }
}

impl PartialEqSpecImpl for Color {
    open spec fn obeys_eq_spec() -> bool {
        true
    }

    open spec fn eq_spec(&self, other: &Self) -> bool {
        self.r == other.r && self.g == other.g && self.b == other.b
    }
}

impl Eq for Color {

}

impl Color {
    #[verifier::allow_in_spec]
    pub fn new(r: u8, g: u8, b: u8) -> (c: Self)
        ensures
            c == (Color { r, g, b }),
        returns
            (Color { r, g, b }),
    {
        Color { r, g, b }
    }

    #[verifier::allow_in_spec]
    pub fn white() -> (c: Self)
        ensures
            c == (Color { r: 255, g: 255, b: 255 }),
        returns
            (Color { r: 255, g: 255, b: 255 }),
    {
        Color::new(255, 255, 255)
    }

    #[verifier::allow_in_spec]
    pub fn black() -> (c: Self)
        ensures
            c == (Color { r: 0, g: 0, b: 0 }),
        returns
            (Color { r: 0, g: 0, b: 0 }),
    {
        Color::new(0, 0, 0)
    }

    #[verifier::allow_in_spec]
    pub fn red() -> (c: Self)
        ensures
            c == (Color { r: 255, g: 0, b: 0 }),
        returns
            (Color { r: 255, g: 0, b: 0 }),
    {
        Color::new(255, 0, 0)
    }

    #[verifier::allow_in_spec]
    pub fn green() -> (c: Self)
        ensures
            c == (Color { r: 0, g: 255, b: 0 }),
        returns
            (Color { r: 0, g: 255, b: 0 }),
    {
        Color::new(0, 255, 0)
    }

    #[verifier::allow_in_spec]
    pub fn blue() -> (c: Self)
        ensures
            c == (Color { r: 0, g: 0, b: 255 }),
        returns
            (Color { r: 0, g: 0, b: 255 }),
    {
        Color::new(0, 0, 255)
    }
}

} // verus!
