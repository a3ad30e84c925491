//! Hyperparameters of regression-tree fitting.

use vstd::prelude::*;

verus! {

/// Growth limits for a regression tree.
#[derive(Clone, Copy, Debug)]
pub struct DecisionTreeRegressorParameters {
    /// Deepest level the tree may reach, or no limit.
    pub max_depth: Option<u16>,
    /// Fewest samples a leaf may hold.
    pub min_samples_leaf: usize,
    /// Fewest samples a node needs before it may split.
    pub min_samples_split: usize,
}

impl Default for DecisionTreeRegressorParameters {
    /// No depth limit, single-sample leaves, splits from two samples up.
    fn default() -> (r: DecisionTreeRegressorParameters)
        ensures
            r.max_depth is None,
            r.min_samples_leaf == 1,
            r.min_samples_split == 2,
    {
        DecisionTreeRegressorParameters {
            max_depth: None,
            min_samples_leaf: 1,
            min_samples_split: 2,
        }
    }
}

} // verus!
