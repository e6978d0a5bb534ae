use vstd::prelude::*;

verus! {

/// A type whose values can be moved, dropped and compared for equality.
pub trait SemiRegular: Eq + Sized {

}

impl<T> SemiRegular for T where T: Eq + Sized {

}

/// A `SemiRegular` type whose values can be cloned.
pub trait Regular: SemiRegular + Clone {

}

impl<T> Regular for T where T: SemiRegular + Clone {

}

} // verus!
