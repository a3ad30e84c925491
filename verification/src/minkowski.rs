//! Minkowski distance of whole-number order over feature rows.

use vstd::prelude::*;
use crate::distance::Distance;
use crate::fixed::{Fixed, SCALE, clip, iabs, spec_add, spec_sub, spec_mul, lemma_spec_mul_nonneg};

verus! {

/// The Minkowski metric of order `p`: the `p`-th root of the sum of the
/// coordinate differences' `p`-th powers. The order is a whole number of
/// at least one.
#[derive(Clone, Copy, Debug, PartialEq, Eq, Structural)]
pub struct Minkowski {
    /// The order of the metric.
    pub p: u32,
}

/// The `p`-th fixed-point power of a mantissa, accumulated by repeated
/// saturating multiplication starting from one.
pub open spec fn spec_pow(a: int, p: int) -> int
    decreases p,
{
    if p <= 0 {
        SCALE as int
    } else {
        spec_mul(spec_pow(a, p - 1), a)
    }
}

/// Powers of non-negative mantissas are non-negative.
proof fn lemma_spec_pow_nonneg(a: int, p: int)
    requires
        a >= 0,
    ensures
        spec_pow(a, p) >= 0,
    decreases p,
{
    if p > 0 {
        lemma_spec_pow_nonneg(a, p - 1);
        lemma_spec_mul_nonneg(spec_pow(a, p - 1), a);
    }
}

/// Magnitude of the coordinate difference, as a mantissa.
pub open spec fn spec_abs_diff(a: Fixed, b: Fixed) -> int {
    clip(iabs(spec_sub(a.m as int, b.m as int)))
}

/// Sum of the `p`-th powers of the coordinate differences' magnitudes over
/// the first `n` coordinates.
pub open spec fn spec_minkowski_sum(x: Seq<Fixed>, y: Seq<Fixed>, p: int, n: int) -> int
    decreases n,
{
    if n <= 0 {
        0
    } else {
        spec_add(
            spec_minkowski_sum(x, y, p, n - 1),
            spec_pow(spec_abs_diff(x[n - 1], y[n - 1]), p),
        )
    }
}

/// The accumulated sum of powers never goes negative.
proof fn lemma_minkowski_sum_nonneg(x: Seq<Fixed>, y: Seq<Fixed>, p: int, n: int)
    ensures
        spec_minkowski_sum(x, y, p, n) >= 0,
    decreases n,
{
    if n > 0 {
        lemma_minkowski_sum_nonneg(x, y, p, n - 1);
        lemma_spec_pow_nonneg(spec_abs_diff(x[n - 1], y[n - 1]), p);
    }
}

/// The `p`-th fixed-point power of a scalar.
fn pow_fixed(a: Fixed, p: u32) -> (r: Fixed)
    ensures
        r.m == spec_pow(a.m as int, p as int),
{
    let mut acc: Fixed = Fixed::one();
    let mut t: u32 = 0;
    while t < p
        invariant
            t <= p,
            acc.m == spec_pow(a.m as int, t as int),
        decreases p - t,
    {
        acc = acc.mul(a);
        t = t + 1;
    }
    acc
}

/// The truncated `p`-th root of a non-negative scalar on the fixed-point
/// grid: a mantissa whose `p`-th fixed-point power does not exceed the
/// value while the next mantissa's does.
fn root_fixed(v: Fixed, p: u32) -> (r: Fixed)
    requires
        v.m >= 0,
        p >= 1,
    ensures
        r.m >= 0,
        spec_pow(r.m as int, p as int) <= v.m,
        r.m < i64::MAX ==> spec_pow(r.m + 1, p as int) > v.m,
{
    let mut lo: i64 = 0;
    let mut hi: i64 = i64::MAX;
    let top: Fixed = pow_fixed(Fixed { m: i64::MAX }, p);
    if top.m <= v.m {
        return Fixed { m: i64::MAX };
    }
    while lo < hi
        invariant
            0 <= lo <= hi <= i64::MAX,
            spec_pow(lo as int, p as int) <= v.m,
            hi < i64::MAX ==> spec_pow(hi + 1, p as int) > v.m,
            hi == i64::MAX ==> spec_pow(i64::MAX as int, p as int) > v.m,
        decreases hi - lo,
    {
        let mid: i64 = lo + 1 + (hi - 1 - lo) / 2;
        let pw: Fixed = pow_fixed(Fixed { m: mid }, p);
        if pw.m <= v.m {
            lo = mid;
        } else {
            hi = mid - 1;
        }
    }
    Fixed { m: lo }
}

impl Minkowski {
    /// The Minkowski distance of order `p` between two rows of equal
    /// width: the truncated `p`-th root of the summed `p`-th powers of the
    /// coordinate differences' magnitudes.
    pub fn distance(&self, x: &Vec<Fixed>, y: &Vec<Fixed>) -> (r: Fixed)
        requires
            x@.len() == y@.len(),
            self.p >= 1,
        ensures
            r.m >= 0,
            spec_pow(r.m as int, self.p as int) <= spec_minkowski_sum(
                x@,
                y@,
                self.p as int,
                x@.len() as int,
            ),
            r.m < i64::MAX ==> spec_pow(r.m + 1, self.p as int) > spec_minkowski_sum(
                x@,
                y@,
                self.p as int,
                x@.len() as int,
            ),
    {
        let mut dist: Fixed = Fixed::zero();
        let n: usize = x.len();
        let mut i: usize = 0;
        while i < n
            invariant
                i <= n,
                n == x@.len(),
                x@.len() == y@.len(),
                dist.m == spec_minkowski_sum(x@, y@, self.p as int, i as int),
                dist.m >= 0,
            decreases n - i,
        {
            let d: Fixed = x[i].sub(y[i]).abs();
            proof {
                lemma_spec_pow_nonneg(d.m as int, self.p as int);
            }
            dist = dist.add(pow_fixed(d, self.p));
            i = i + 1;
        }
        root_fixed(dist, self.p)
    }
}

impl Distance<Vec<Fixed>> for Minkowski {
    /// The Minkowski distance; rows of different widths, or an order below
    /// one, are incomparable and report the positive sentinel.
    fn distance(&self, a: &Vec<Fixed>, b: &Vec<Fixed>) -> Fixed {
        if a.len() != b.len() || self.p < 1 {
            Fixed::max_value()
        } else {
            Minkowski::distance(self, a, b)
        }
    }
}

} // verus!
