//! Integer square roots for the primitive fixed-width integer types.
//!
//! The single trait [`IntegerSquareRoot`] is implemented for every primitive
//! integer type. Its methods compute the largest integer `root` with
//! `root * root <= n`, working entirely within the input's own width: no
//! floating point, and no wider intermediate type.

use vstd::prelude::*;

pub mod floor_sqrt;
mod widths;

use crate::floor_sqrt::is_floor_sqrt;

verus! {

/// A trait implementing integer square root.
pub trait IntegerSquareRoot: Sized {
    /// The mathematical value of `self`.
    spec fn as_int(&self) -> int;

    /// Find the integer square root.
    ///
    /// For signed types this function panics on negative input; verified
    /// callers rule such input out through the precondition.
    fn integer_sqrt(&self) -> (root: Self)
        requires
            self.as_int() >= 0,
        ensures
            is_floor_sqrt(self.as_int(), root.as_int()),
    {
        self.integer_sqrt_checked().expect("cannot calculate square root of negative number")
    }

    /// Find the integer square root, returning `None` if the number is negative
    /// (this can never happen for unsigned types).
    fn integer_sqrt_checked(&self) -> (root: Option<Self>)
        ensures
            root is None <==> self.as_int() < 0,
            root matches Some(r) ==> is_floor_sqrt(self.as_int(), r.as_int()),
    ;
}

} // verus!
