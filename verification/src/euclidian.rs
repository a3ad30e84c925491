//! Euclidean distance over feature rows.

use vstd::prelude::*;
use crate::distance::Distance;
use crate::fixed::{Fixed, spec_add, spec_sub, spec_mul, lemma_spec_mul_square, SCALE};

verus! {

/// The Euclidean metric.
#[derive(Clone, Copy, Debug, PartialEq, Eq, Structural)]
pub struct Euclidian {}

/// Sum of squared coordinate differences over the first `n` coordinates,
/// accumulated left to right with the saturating operations.
pub open spec fn spec_squared_distance(x: Seq<Fixed>, y: Seq<Fixed>, n: int) -> int
    decreases n,
{
    if n <= 0 {
        0
    } else {
        let d = spec_sub(x[n - 1].m as int, y[n - 1].m as int);
        spec_add(spec_squared_distance(x, y, n - 1), spec_mul(d, d))
    }
}

/// The accumulated sum of squares never goes negative.
proof fn lemma_squared_distance_nonneg(x: Seq<Fixed>, y: Seq<Fixed>, n: int)
    ensures
        spec_squared_distance(x, y, n) >= 0,
    decreases n,
{
    if n > 0 {
        lemma_squared_distance_nonneg(x, y, n - 1);
        let d = spec_sub(x[n - 1].m as int, y[n - 1].m as int);
        lemma_spec_mul_square(d);
    }
}

impl Euclidian {
    /// The squared Euclidean distance between two rows of equal width.
    pub fn squared_distance(x: &Vec<Fixed>, y: &Vec<Fixed>) -> (r: Fixed)
        requires
            x@.len() == y@.len(),
        ensures
            r.m == spec_squared_distance(x@, y@, x@.len() as int),
            r.m >= 0,
    {
        let mut sum: Fixed = Fixed::zero();
        let n: usize = x.len();
        let mut i: usize = 0;
        while i < n
            invariant
                i <= n,
                n == x@.len(),
                x@.len() == y@.len(),
                sum.m == spec_squared_distance(x@, y@, i as int),
                sum.m >= 0,
            decreases n - i,
        {
            let d: Fixed = x[i].sub(y[i]);
            proof {
                lemma_spec_mul_square(d.m as int);
            }
            sum = sum.add(d.mul(d));
            i = i + 1;
        }
        sum
    }

    /// The Euclidean distance between two rows of equal width: the
    /// truncated square root of the squared distance.
    pub fn distance(&self, x: &Vec<Fixed>, y: &Vec<Fixed>) -> (r: Fixed)
        requires
            x@.len() == y@.len(),
        ensures
            r.m >= 0,
            r.m * r.m <= spec_squared_distance(x@, y@, x@.len() as int) * (SCALE as int),
            spec_squared_distance(x@, y@, x@.len() as int) * (SCALE as int) < (r.m + 1) * (r.m
                + 1),
    {
        let s: Fixed = Euclidian::squared_distance(x, y);
        s.sqrt()
    }
}

impl Distance<Vec<Fixed>> for Euclidian {
    /// The Euclidean distance; rows of different widths are incomparable
    /// and report the positive sentinel.
    fn distance(&self, a: &Vec<Fixed>, b: &Vec<Fixed>) -> Fixed {
        if a.len() != b.len() {
            Fixed::max_value()
        } else {
            let s: Fixed = Euclidian::squared_distance(a, b);
            s.sqrt()
        }
    }
}

} // verus!
