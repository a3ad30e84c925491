//! A dense, rectangular matrix of fixed-point scalars.

use vstd::prelude::*;
use crate::fixed::{Fixed, spec_add, spec_sub};

verus! {

/// A dense matrix: a vector of rows, each exactly `cols` wide.
pub struct DenseMatrix {
    /// The rows, top to bottom.
    pub data: Vec<Vec<Fixed>>,
    /// The common width of the rows.
    pub cols: usize,
}

impl DenseMatrix {
    /// Every row is exactly `cols` wide.
    pub open spec fn wf(&self) -> bool {
        forall|i: int| 0 <= i < self.data@.len() ==> (#[trigger] self.data@[i])@.len() == self.cols
    }

    /// Number of rows.
    pub open spec fn nrows(&self) -> int {
        self.data@.len() as int
    }

    /// The cell at `(i, j)`.
    pub open spec fn at(&self, i: int, j: int) -> int {
        self.data@[i]@[j].m as int
    }

    /// An `m`-by-`n` matrix of zeros.
    pub fn zeros(m: usize, n: usize) -> (r: DenseMatrix)
        ensures
            r.wf(),
            r.nrows() == m,
            r.cols == n,
            forall|i: int, j: int| 0 <= i < m && 0 <= j < n ==> r.at(i, j) == 0,
    {
        let mut data: Vec<Vec<Fixed>> = Vec::new();
        let mut i: usize = 0;
        while i < m
            invariant
                i <= m,
                data@.len() == i,
                forall|t: int| 0 <= t < i ==> (#[trigger] data@[t])@.len() == n,
                forall|t: int, j: int|
                    0 <= t < i && 0 <= j < n ==> (#[trigger] data@[t]@[j]).m == 0,
            decreases m - i,
        {
            let mut row: Vec<Fixed> = Vec::new();
            let mut j: usize = 0;
            while j < n
                invariant
                    j <= n,
                    row@.len() == j,
                    forall|u: int| 0 <= u < j ==> (#[trigger] row@[u]).m == 0,
                decreases n - j,
            {
                row.push(Fixed::zero());
                j = j + 1;
            }
            data.push(row);
            i = i + 1;
        }
        DenseMatrix { data, cols: n }
    }

    /// A matrix over the given equally-wide rows.
    pub fn from_rows(rows: Vec<Vec<Fixed>>, cols: usize) -> (r: DenseMatrix)
        requires
            forall|i: int| 0 <= i < rows@.len() ==> (#[trigger] rows@[i])@.len() == cols,
        ensures
            r.wf(),
            r.data == rows,
            r.cols == cols,
    {
        DenseMatrix { data: rows, cols }
    }

    /// The pair of row and column counts.
    pub fn shape(&self) -> (r: (usize, usize))
        ensures
            r.0 == self.nrows(),
            r.1 == self.cols,
    {
        (self.data.len(), self.cols)
    }

    /// The cell at `(i, j)`.
    pub fn get(&self, i: usize, j: usize) -> (v: Fixed)
        requires
            self.wf(),
            i < self.nrows(),
            j < self.cols,
        ensures
            v.m == self.at(i as int, j as int),
    {
        self.data[i][j]
    }

    /// Replace the cell at `(i, j)`, leaving all else in place.
    pub fn set(&mut self, i: usize, j: usize, v: Fixed)
        requires
            old(self).wf(),
            i < old(self).nrows(),
            j < old(self).cols,
        ensures
            final(self).wf(),
            final(self).nrows() == old(self).nrows(),
            final(self).cols == old(self).cols,
            forall|a: int, b: int|
                #![trigger final(self).at(a, b)]
                0 <= a < old(self).nrows() && 0 <= b < old(self).cols && !(a == i && b == j)
                    ==> final(self).at(a, b) == old(self).at(a, b),
            final(self).at(i as int, j as int) == v.m,
    {
        let mut row: Vec<Fixed> = self.data.remove(i);
        let ghost row_pre = row@;
        let _old: Fixed = row.remove(j);
        row.insert(j, v);
        proof {
            assert(row@ =~= row_pre.update(j as int, v));
        }
        self.data.insert(i, row);
        proof {
            assert(self.data@ =~= old(self).data@.update(i as int, self.data@[i as int]));
        }
    }

    /// Add `v` to the cell at `(i, j)`, saturating, leaving all else in
    /// place.
    pub fn add_element(&mut self, i: usize, j: usize, v: Fixed)
        requires
            old(self).wf(),
            i < old(self).nrows(),
            j < old(self).cols,
        ensures
            final(self).wf(),
            final(self).nrows() == old(self).nrows(),
            final(self).cols == old(self).cols,
            forall|a: int, b: int|
                #![trigger final(self).at(a, b)]
                0 <= a < old(self).nrows() && 0 <= b < old(self).cols && !(a == i && b == j)
                    ==> final(self).at(a, b) == old(self).at(a, b),
            final(self).at(i as int, j as int) == spec_add(
                old(self).at(i as int, j as int),
                v.m as int,
            ),
    {
        let cur: Fixed = self.get(i, j);
        self.set(i, j, cur.add(v));
    }

    /// Subtract `v` from the cell at `(i, j)`, saturating, leaving all
    /// else in place.
    pub fn sub_element(&mut self, i: usize, j: usize, v: Fixed)
        requires
            old(self).wf(),
            i < old(self).nrows(),
            j < old(self).cols,
        ensures
            final(self).wf(),
            final(self).nrows() == old(self).nrows(),
            final(self).cols == old(self).cols,
            forall|a: int, b: int|
                #![trigger final(self).at(a, b)]
                0 <= a < old(self).nrows() && 0 <= b < old(self).cols && !(a == i && b == j)
                    ==> final(self).at(a, b) == old(self).at(a, b),
            final(self).at(i as int, j as int) == spec_sub(
                old(self).at(i as int, j as int),
                v.m as int,
            ),
    {
        let cur: Fixed = self.get(i, j);
        self.set(i, j, cur.sub(v));
    }

    /// Divide the cell at `(i, j)` by a nonzero scalar, leaving all else
    /// in place.
    pub fn div_element(&mut self, i: usize, j: usize, v: Fixed)
        requires
            old(self).wf(),
            i < old(self).nrows(),
            j < old(self).cols,
            v.m != 0,
        ensures
            final(self).wf(),
            final(self).nrows() == old(self).nrows(),
            final(self).cols == old(self).cols,
            forall|a: int, b: int|
                #![trigger final(self).at(a, b)]
                0 <= a < old(self).nrows() && 0 <= b < old(self).cols && !(a == i && b == j)
                    ==> final(self).at(a, b) == old(self).at(a, b),
            final(self).at(i as int, j as int) == crate::fixed::spec_div(
                old(self).at(i as int, j as int),
                v.m as int,
            ),
    {
        let cur: Fixed = self.get(i, j);
        self.set(i, j, cur.div(v));
    }

    /// An independent copy of the matrix.
    pub fn duplicate(&self) -> (r: DenseMatrix)
        requires
            self.wf(),
        ensures
            r.wf(),
            r.nrows() == self.nrows(),
            r.cols == self.cols,
            forall|a: int, b: int|
                #![trigger r.at(a, b)]
                0 <= a < self.nrows() && 0 <= b < self.cols ==> r.at(a, b) == self.at(a, b),
    {
        let mut data: Vec<Vec<Fixed>> = Vec::new();
        let m: usize = self.data.len();
        let mut i: usize = 0;
        while i < m
            invariant
                i <= m,
                m == self.nrows(),
                self.wf(),
                data@.len() == i,
                forall|t: int| 0 <= t < i ==> (#[trigger] data@[t])@.len() == self.cols,
                forall|t: int, b: int|
                    0 <= t < i && 0 <= b < self.cols ==> (#[trigger] data@[t]@[b]).m
                        == self.at(t, b),
            decreases m - i,
        {
            let src: &Vec<Fixed> = &self.data[i];
            let mut row: Vec<Fixed> = Vec::new();
            let mut j: usize = 0;
            while j < src.len()
                invariant
                    j <= src@.len(),
                    src@ == self.data@[i as int]@,
                    i < m,
                    m == self.nrows(),
                    row@.len() == j,
                    forall|u: int| 0 <= u < j ==> (#[trigger] row@[u]) == src@[u],
                decreases src@.len() - j,
            {
                row.push(src[j]);
                j = j + 1;
            }
            data.push(row);
            i = i + 1;
        }
        DenseMatrix { data, cols: self.cols }
    }
}

} // verus!
