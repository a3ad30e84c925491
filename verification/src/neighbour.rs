//! The common face of the nearest-neighbour searches.

use vstd::prelude::*;

verus! {

/// Which nearest-neighbour structure a caller asks for.
#[derive(Clone, Copy, Debug, PartialEq, Eq, Structural)]
pub enum KNNAlgorithmName {
    /// A cover-tree index.
    CoverTree,
    /// An exhaustive scan.
    LinearSearch,
}

/// A structure that can report the `k` stored points nearest to a query.
pub trait KNNAlgorithm<T> {
    /// The positions of the `k` stored points nearest to `from`.
    fn find(&self, from: &T, k: usize) -> Vec<usize>;
}

} // verus!
