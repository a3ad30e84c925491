//! The distance abstraction the neighbour searches are generic over.

use vstd::prelude::*;
use crate::fixed::Fixed;

verus! {

/// A dissimilarity measure over values of type `T`.
///
/// Unlike [`crate::kernel::Kernel`], this trait deliberately carries no
/// spec function: tests and callers implement it for their own point
/// types outside any verified context, which a spec obligation would
/// forbid. The cost is that a search generic over it can promise nothing
/// about the distances themselves; the exact selection guarantees live
/// one call down, on the verified selection over the computed distances.
pub trait Distance<T> {
    /// The distance from `a` to `b`.
    fn distance(&self, a: &T, b: &T) -> Fixed;
}

} // verus!
