//! Basic operations.
//!
//! Each operation states its contract through spec functions that every
//! implementing type defines: what it needs of its operands, and what it
//! leaves.
use vstd::prelude::*;

verus! {

/// A multiplication.
pub trait Multiply<Right, Output> {
    /// The operands fit together.
    spec fn multiply_requires(&self, right: &Right) -> bool;

    /// `r` is the product.
    spec fn multiply_ensures(&self, right: &Right, r: &Output) -> bool;

    /// Perform the multiplication.
    fn multiply(&self, right: &Right) -> (r: Output)
        requires
            self.multiply_requires(right),
        ensures
            self.multiply_ensures(right, &r),
    ;
}

/// A multiplication that adds the result to a third object.
pub trait MultiplyInto<Right, Output> {
    /// The operands and the output fit together.
    spec fn multiply_into_requires(&self, right: &Right, result: &Output) -> bool;

    /// `after` is `before` plus the product.
    spec fn multiply_into_ensures(&self, right: &Right, before: &Output, after: &Output) -> bool;

    /// Perform the multiplication.
    fn multiply_into(&self, right: &Right, result: &mut Output)
        requires
            self.multiply_into_requires(right, old(result)),
        ensures
            self.multiply_into_ensures(right, old(result), final(result)),
    ;
}

/// A multiplication that overwrites the receiver with the result.
pub trait MultiplySelf<Right> {
    /// The operands fit together.
    spec fn multiply_self_requires(&self, right: &Right) -> bool;

    /// `after` is the product of `before` and `right`.
    spec fn multiply_self_ensures(before: &Self, right: &Right, after: &Self) -> bool;

    /// Perform the multiplication.
    fn multiply_self(&mut self, right: &Right)
        requires
            old(self).multiply_self_requires(right),
        ensures
            Self::multiply_self_ensures(old(self), right, final(self)),
    ;
}

/// The transpose.
pub trait Transpose: Sized {
    /// The matrix can be transposed.
    spec fn transpose_requires(&self) -> bool;

    /// `r` is the transpose of the matrix.
    spec fn transpose_ensures(&self, r: &Self) -> bool;

    /// Perform the transpose.
    fn transpose(&self) -> (r: Self)
        requires
            self.transpose_requires(),
        ensures
            self.transpose_ensures(&r),
    ;
}

} // verus!
