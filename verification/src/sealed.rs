//! The seal that closes the set of formattable integer types.
use vstd::prelude::*;

verus! {

/// Implemented only for the primitive integer types inside this crate, so
/// that `Integer` cannot be implemented downstream.
pub trait Sealed {

}

} // verus!
