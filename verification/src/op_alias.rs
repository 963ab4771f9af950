//! Shorthand bounds for closed arithmetic operations.
//!
//! These aliases name the capability sets that generic numeric code
//! asks of its scalars: adding or subtracting a value of the same type,
//! and multiplying or dividing by a scalar of another type.

use vstd::prelude::*;

verus! {

/// Types closed under addition with themselves.
pub trait AddSelf: Sized + core::ops::Add<Output = Self> {

}

impl<T> AddSelf for T where T: core::ops::Add<Output = Self> {

}

/// Types closed under subtraction with themselves.
pub trait SubSelf: Sized + core::ops::Sub<Output = Self> {

}

impl<T> SubSelf for T where T: core::ops::Sub<Output = Self> {

}

/// Types closed under multiplication by a scalar of type `S`.
pub trait MulScalar<S>: Sized + core::ops::Mul<S, Output = Self> {

}

impl<T, S> MulScalar<S> for T where T: core::ops::Mul<S, Output = Self> {

}

/// Types closed under division by a scalar of type `S`.
pub trait DivScalar<S>: Sized + core::ops::Div<S, Output = Self> {

}

impl<T, S> DivScalar<S> for T where T: core::ops::Div<S, Output = Self> {

}

} // verus!
