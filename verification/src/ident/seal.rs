//! The trait that keeps [`Scalar`](crate::ident::scalar::Scalar) closed to
//! the types of this crate.

use vstd::prelude::*;

verus! {

/// Implemented only by the types of this crate
pub trait Seal {}

} // verus!
