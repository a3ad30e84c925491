//! The kernel: a pure, symmetric similarity function over feature vectors.
//!
//! The solver never inspects which kernel is in use; it relies only on the
//! contract here: `apply` returns exactly the value of the implementation's
//! own spec function, and that function is symmetric in its arguments.

use vstd::prelude::*;
use crate::fixed::{Fixed, spec_add, spec_mul};

verus! {

/// A similarity function over two feature vectors.
///
/// Implementations fix the mathematical meaning of `apply` through
/// `spec_apply` and must prove it symmetric.
pub trait Kernel: Sized {
    /// The mantissa of the kernel value on the two rows.
    spec fn spec_apply(&self, a: Seq<Fixed>, b: Seq<Fixed>) -> int;

    /// The kernel is symmetric.
    proof fn lemma_symmetric(&self, a: Seq<Fixed>, b: Seq<Fixed>)
        ensures
            self.spec_apply(a, b) == self.spec_apply(b, a),
    ;

    /// Evaluate the kernel.
    fn apply(&self, a: &Vec<Fixed>, b: &Vec<Fixed>) -> (r: Fixed)
        ensures
            r.m == self.spec_apply(a@, b@),
    ;
}

/// The shorter of the two lengths.
pub open spec fn min_len(a: Seq<Fixed>, b: Seq<Fixed>) -> int {
    if a.len() <= b.len() {
        a.len() as int
    } else {
        b.len() as int
    }
}

/// Fixed-point dot product of the first `n` coordinates, accumulated left to
/// right with the saturating operations.
pub open spec fn dot_upto(a: Seq<Fixed>, b: Seq<Fixed>, n: int) -> int
    decreases n,
{
    if n <= 0 {
        0
    } else {
        spec_add(dot_upto(a, b, n - 1), spec_mul(a[n - 1].m as int, b[n - 1].m as int))
    }
}

proof fn lemma_dot_upto_symmetric(a: Seq<Fixed>, b: Seq<Fixed>, n: int)
    ensures
        dot_upto(a, b, n) == dot_upto(b, a, n),
    decreases n,
{
    if n > 0 {
        lemma_dot_upto_symmetric(a, b, n - 1);
        assert((a[n - 1].m as int) * (b[n - 1].m as int) == (b[n - 1].m as int) * (a[n - 1].m
            as int)) by (nonlinear_arith);
    }
}

/// The inner-product kernel.
#[derive(Clone, Copy, Debug, PartialEq, Eq, Structural)]
pub struct LinearKernel {}

impl Kernel for LinearKernel {
    open spec fn spec_apply(&self, a: Seq<Fixed>, b: Seq<Fixed>) -> int {
        dot_upto(a, b, min_len(a, b))
    }

    proof fn lemma_symmetric(&self, a: Seq<Fixed>, b: Seq<Fixed>) {
        lemma_dot_upto_symmetric(a, b, min_len(a, b));
    }

    fn apply(&self, a: &Vec<Fixed>, b: &Vec<Fixed>) -> (r: Fixed) {
        let n: usize = if a.len() <= b.len() {
            a.len()
        } else {
            b.len()
        };
        let mut acc: Fixed = Fixed::zero();
        let mut i: usize = 0;
        while i < n
            invariant
                i <= n,
                n == min_len(a@, b@),
                acc.m == dot_upto(a@, b@, i as int),
            decreases n - i,
        {
            acc = acc.add(a[i].mul(b[i]));
            i = i + 1;
        }
        acc
    }
}

} // verus!
