//! QR decomposition by Householder reflections, over [`DenseMatrix`].

#![allow(non_snake_case)]

use vstd::prelude::*;
use crate::fixed::Fixed;
use crate::matrix::DenseMatrix;

verus! {

/// Wherever the stored diagonal entry is nonzero, the packed factor's own
/// diagonal cell is nonzero too, so back-substitution never divides by
/// zero.
pub open spec fn diag_ok(qr: DenseMatrix, tau: Seq<Fixed>) -> bool {
    forall|k: int|
        0 <= k < qr.cols && (#[trigger] tau[k]).m != 0 ==> qr.at(k, k) != 0
}

/// A packed QR decomposition: the Householder vectors and upper factor in
/// one matrix, the diagonal of the upper factor alongside, and whether the
/// factorization found a zero diagonal (a rank-deficient input).
pub struct QR {
    /// The packed factor.
    pub qr: DenseMatrix,
    /// Diagonal of the upper factor.
    pub tau: Vec<Fixed>,
    /// Did any diagonal entry vanish?
    pub singular: bool,
}

impl QR {
    /// The packed factor is rectangular and at least as tall as wide, one
    /// diagonal entry is stored per column, and nonzero diagonal entries
    /// are backed by nonzero cells.
    pub open spec fn wf(&self) -> bool {
        &&& self.qr.wf()
        &&& self.tau@.len() == self.qr.cols
        &&& self.qr.nrows() >= self.qr.cols
        &&& diag_ok(self.qr, self.tau@)
    }

    /// Wrap a packed factor and its diagonal; the decomposition is marked
    /// singular exactly when some diagonal entry is zero.
    pub fn new(QR: DenseMatrix, tau: Vec<Fixed>) -> (r: QR)
        requires
            QR.wf(),
            tau@.len() == QR.cols,
            QR.nrows() >= QR.cols,
            diag_ok(QR, tau@),
        ensures
            r.wf(),
            r.qr == QR,
            r.tau == tau,
            r.singular == exists|j: int| 0 <= j < tau@.len() && (#[trigger] tau@[j]).m == 0,
    {
        let mut singular: bool = false;
        let mut j: usize = 0;
        while j < tau.len()
            invariant
                j <= tau@.len(),
                singular == exists|t: int| 0 <= t < j && (#[trigger] tau@[t]).m == 0,
            decreases tau@.len() - j,
        {
            if tau[j].m == 0 {
                singular = true;
                proof {
                    assert(tau@[j as int].m == 0);
                }
            }
            j = j + 1;
        }
        QR { qr: QR, tau, singular }
    }

    /// The upper factor as its own square matrix: the stored diagonal on
    /// the diagonal, the packed factor's cells strictly above it, zeros
    /// below.
    #[verifier::loop_isolation(false)]
    pub fn R(&self) -> (r: DenseMatrix)
        requires
            self.wf(),
        ensures
            r.wf(),
            r.nrows() == self.qr.cols,
            r.cols == self.qr.cols,
            forall|i: int, j: int|
                #![trigger r.at(i, j)]
                0 <= i < self.qr.cols && 0 <= j < self.qr.cols ==> r.at(i, j) == (if i == j {
                    self.tau@[i].m as int
                } else if j > i {
                    self.qr.at(i, j)
                } else {
                    0
                }),
    {
        let n: usize = self.qr.cols;
        let mut R: DenseMatrix = DenseMatrix::zeros(n, n);
        let mut i: usize = 0;
        while i < n
            invariant
                i <= n,
                R.wf(),
                R.nrows() == n,
                R.cols == n,
                forall|a: int, b: int|
                    #![trigger R.at(a, b)]
                    0 <= a < i && 0 <= b < n ==> R.at(a, b) == (if a == b {
                        self.tau@[a].m as int
                    } else if b > a {
                        self.qr.at(a, b)
                    } else {
                        0
                    }),
                forall|a: int, b: int|
                    #![trigger R.at(a, b)]
                    i <= a < n && 0 <= b < n ==> R.at(a, b) == 0,
            decreases n - i,
        {
            R.set(i, i, self.tau[i]);
            let mut j: usize = i + 1;
            while j < n
                invariant
                    i < j <= n,
                    i < n,
                    R.wf(),
                    R.nrows() == n,
                    R.cols == n,
                    forall|a: int, b: int|
                        #![trigger R.at(a, b)]
                        0 <= a < i && 0 <= b < n ==> R.at(a, b) == (if a == b {
                            self.tau@[a].m as int
                        } else if b > a {
                            self.qr.at(a, b)
                        } else {
                            0
                        }),
                    R.at(i as int, i as int) == self.tau@[i as int].m,
                    forall|b: int|
                        #![trigger R.at(i as int, b)]
                        i < b < j ==> R.at(i as int, b) == self.qr.at(i as int, b),
                    forall|b: int|
                        #![trigger R.at(i as int, b)]
                        (0 <= b < i || j <= b < n) ==> R.at(i as int, b) == 0,
                    forall|a: int, b: int|
                        #![trigger R.at(a, b)]
                        i < a < n && 0 <= b < n ==> R.at(a, b) == 0,
                decreases n - j,
            {
                R.set(i, j, self.qr.get(i, j));
                j = j + 1;
            }
            i = i + 1;
        }
        R
    }

    /// The orthogonal factor accumulated from the Householder vectors,
    /// with the shape of the input.
    #[verifier::loop_isolation(false)]
    pub fn Q(&self) -> (r: DenseMatrix)
        requires
            self.wf(),
            self.qr.cols >= 1,
        ensures
            r.wf(),
            r.nrows() == self.qr.nrows(),
            r.cols == self.qr.cols,
    {
        let (m, n): (usize, usize) = self.qr.shape();
        let mut Q: DenseMatrix = DenseMatrix::zeros(m, n);
        let mut k: usize = n - 1;
        loop
            invariant
                k < n,
                n <= m,
                self.wf(),
                m == self.qr.nrows(),
                n == self.qr.cols,
                Q.wf(),
                Q.nrows() == m,
                Q.cols == n,
            decreases k,
        {
            Q.set(k, k, Fixed::one());
            let mut j: usize = k;
            while j < n
                invariant
                    k <= j <= n,
                    k < n <= m,
                    self.wf(),
                    m == self.qr.nrows(),
                    n == self.qr.cols,
                    Q.wf(),
                    Q.nrows() == m,
                    Q.cols == n,
                decreases n - j,
            {
                if self.qr.get(k, k).m != 0 {
                    let mut s: Fixed = Fixed::zero();
                    let mut i: usize = k;
                    while i < m
                        invariant
                            k <= i <= m,
                            k < n <= m,
                            self.wf(),
                            m == self.qr.nrows(),
                            n == self.qr.cols,
                            j < n,
                            Q.wf(),
                            Q.nrows() == m,
                            Q.cols == n,
                        decreases m - i,
                    {
                        s = s.add(self.qr.get(i, k).mul(Q.get(i, j)));
                        i = i + 1;
                    }
                    let denom: Fixed = self.qr.get(k, k);
                    s = s.neg().div(denom);
                    let mut i2: usize = k;
                    while i2 < m
                        invariant
                            k <= i2 <= m,
                            k < n <= m,
                            self.wf(),
                            m == self.qr.nrows(),
                            n == self.qr.cols,
                            j < n,
                            Q.wf(),
                            Q.nrows() == m,
                            Q.cols == n,
                        decreases m - i2,
                    {
                        Q.add_element(i2, j, s.mul(self.qr.get(i2, k)));
                        i2 = i2 + 1;
                    }
                }
                j = j + 1;
            }
            if k == 0 {
                break ;
            }
            k = k - 1;
        }
        Q
    }

    /// Solve the triangular systems the packed factor encodes against the
    /// given right-hand side, in place: apply the reflections, then
    /// back-substitute through the upper factor. The decomposition must
    /// not be singular.
    #[verifier::loop_isolation(false)]
    pub fn solve(&self, b: DenseMatrix) -> (r: DenseMatrix)
        requires
            self.wf(),
            b.wf(),
            !self.singular,
            b.nrows() == self.qr.nrows(),
            forall|k: int| 0 <= k < self.tau@.len() ==> (#[trigger] self.tau@[k]).m != 0,
        ensures
            r.wf(),
            r.nrows() == b.nrows(),
            r.cols == b.cols,
    {
        let (m, n): (usize, usize) = self.qr.shape();
        let b_ncols: usize = b.cols;
        let mut out: DenseMatrix = b;
        let mut k: usize = 0;
        while k < n
            invariant
                k <= n,
                n <= m,
                self.wf(),
                m == self.qr.nrows(),
                n == self.qr.cols,
                forall|t: int| 0 <= t < self.tau@.len() ==> (#[trigger] self.tau@[t]).m != 0,
                out.wf(),
                out.nrows() == m,
                out.cols == b_ncols,
            decreases n - k,
        {
            let mut j: usize = 0;
            while j < b_ncols
                invariant
                    j <= b_ncols,
                    k < n <= m,
                    self.wf(),
                    m == self.qr.nrows(),
                    n == self.qr.cols,
                    forall|t: int| 0 <= t < self.tau@.len() ==> (#[trigger] self.tau@[t]).m != 0,
                    out.wf(),
                    out.nrows() == m,
                    out.cols == b_ncols,
                decreases b_ncols - j,
            {
                let mut s: Fixed = Fixed::zero();
                let mut i: usize = k;
                while i < m
                    invariant
                        k <= i <= m,
                        k < n <= m,
                        j < b_ncols,
                        self.wf(),
                        m == self.qr.nrows(),
                        n == self.qr.cols,
                        out.wf(),
                        out.nrows() == m,
                        out.cols == b_ncols,
                    decreases m - i,
                {
                    s = s.add(self.qr.get(i, k).mul(out.get(i, j)));
                    i = i + 1;
                }
                proof {
                    assert(self.tau@[k as int].m != 0);
                    assert(self.qr.at(k as int, k as int) != 0);
                }
                let denom: Fixed = self.qr.get(k, k);
                s = s.neg().div(denom);
                let mut i2: usize = k;
                while i2 < m
                    invariant
                        k <= i2 <= m,
                        k < n <= m,
                        j < b_ncols,
                        self.wf(),
                        m == self.qr.nrows(),
                        n == self.qr.cols,
                        out.wf(),
                        out.nrows() == m,
                        out.cols == b_ncols,
                    decreases m - i2,
                {
                    out.add_element(i2, j, s.mul(self.qr.get(i2, k)));
                    i2 = i2 + 1;
                }
                j = j + 1;
            }
            k = k + 1;
        }
        let mut k2: usize = n;
        while k2 > 0
            invariant
                k2 <= n,
                n <= m,
                self.wf(),
                m == self.qr.nrows(),
                n == self.qr.cols,
                forall|t: int| 0 <= t < self.tau@.len() ==> (#[trigger] self.tau@[t]).m != 0,
                out.wf(),
                out.nrows() == m,
                out.cols == b_ncols,
            decreases k2,
        {
            k2 = k2 - 1;
            let mut j: usize = 0;
            while j < b_ncols
                invariant
                    j <= b_ncols,
                    k2 < n <= m,
                    self.wf(),
                    m == self.qr.nrows(),
                    n == self.qr.cols,
                    self.tau@[k2 as int].m != 0,
                    out.wf(),
                    out.nrows() == m,
                    out.cols == b_ncols,
                decreases b_ncols - j,
            {
                let v: Fixed = out.get(k2, j).div(self.tau[k2]);
                out.set(k2, j, v);
                j = j + 1;
            }
            let mut i: usize = 0;
            while i < k2
                invariant
                    i <= k2,
                    k2 < n <= m,
                    self.wf(),
                    m == self.qr.nrows(),
                    n == self.qr.cols,
                    out.wf(),
                    out.nrows() == m,
                    out.cols == b_ncols,
                decreases k2 - i,
            {
                let mut j2: usize = 0;
                while j2 < b_ncols
                    invariant
                        j2 <= b_ncols,
                        i < k2 < n <= m,
                        self.wf(),
                        m == self.qr.nrows(),
                        n == self.qr.cols,
                        out.wf(),
                        out.nrows() == m,
                        out.cols == b_ncols,
                    decreases b_ncols - j2,
                {
                    let v: Fixed = out.get(k2, j2).mul(self.qr.get(i, k2));
                    out.sub_element(i, j2, v);
                    j2 = j2 + 1;
                }
                i = i + 1;
            }
        }
        out
    }
}

/// A matrix that can factor itself into an orthogonal and an upper
/// triangular part.
pub trait QRDecomposableMatrix: Sized {
    /// The decomposition of a copy of the matrix.
    fn qr(&self) -> (r: QR)
        requires
            self.qr_able(),
        ensures
            r.wf(),
    ;

    /// Is the matrix shaped for a decomposition: rectangular and at least
    /// as tall as wide?
    spec fn qr_able(&self) -> bool;

    /// The decomposition, consuming the matrix.
    fn qr_mut(self) -> (r: QR)
        requires
            self.qr_able(),
        ensures
            r.wf(),
    ;

    /// Solve against the right-hand side through the decomposition;
    /// nothing when the matrix turns out rank deficient.
    fn qr_solve_mut(self, b: Self) -> (r: Option<Self>)
        requires
            self.qr_able(),
            b.qr_ok_rhs(&self),
    ;

    /// Is `self` an admissible right-hand side for the other matrix?
    spec fn qr_ok_rhs(&self, a: &Self) -> bool;
}

impl QRDecomposableMatrix for DenseMatrix {
    open spec fn qr_able(&self) -> bool {
        self.wf() && self.nrows() >= self.cols
    }

    open spec fn qr_ok_rhs(&self, a: &DenseMatrix) -> bool {
        self.wf()
    }

    fn qr(&self) -> (r: QR) {
        let copy: DenseMatrix = self.duplicate();
        copy.qr_mut()
    }

    /// Householder factorization: for each column, fold its tail into a
    /// norm, and when the norm is nonzero normalize the tail and fold the
    /// reflection through the remaining columns; the negated norms become
    /// the stored diagonal.
    #[verifier::loop_isolation(false)]
    fn qr_mut(self) -> (r: QR) {
        let (m, n): (usize, usize) = self.shape();
        let mut a: DenseMatrix = self;
        let mut r_diagonal: Vec<Fixed> = Vec::new();
        let mut k: usize = 0;
        while k < n
            invariant
                k <= n,
                n <= m,
                a.wf(),
                a.nrows() == m,
                a.cols == n,
                r_diagonal@.len() == k,
                forall|c: int|
                    0 <= c < k && (#[trigger] r_diagonal@[c]).m != 0 ==> a.at(c, c) != 0,
            decreases n - k,
        {
            let ghost a_entry = a;
            let mut nrm: Fixed = Fixed::zero();
            let mut i: usize = k;
            while i < m
                invariant
                    k <= i <= m,
                    k < n <= m,
                    a == a_entry,
                    a.wf(),
                    a.nrows() == m,
                    a.cols == n,
                    nrm.m >= 0,
                decreases m - i,
            {
                nrm = nrm.hypot(a.get(i, k));
                i = i + 1;
            }
            if nrm.m != 0 {
                if a.get(k, k).m < 0 {
                    nrm = nrm.neg();
                }
                proof {
                    crate::fixed::lemma_spec_div_nonneg(
                        a.at(k as int, k as int),
                        nrm.m as int,
                    );
                }
                a.div_element(k, k, nrm);
                let mut i2: usize = k + 1;
                while i2 < m
                    invariant
                        k < i2 <= m,
                        k < n <= m,
                        nrm.m != 0,
                        a.wf(),
                        a.nrows() == m,
                        a.cols == n,
                        a.at(k as int, k as int) >= 0,
                        forall|c: int|
                            0 <= c < k && (#[trigger] r_diagonal@[c]).m != 0 ==> a.at(c, c) != 0,
                    decreases m - i2,
                {
                    a.div_element(i2, k, nrm);
                    i2 = i2 + 1;
                }
                a.add_element(k, k, Fixed::one());
                let mut j: usize = k + 1;
                while j < n
                    invariant
                        k < j <= n,
                        k < n <= m,
                        a.wf(),
                        a.nrows() == m,
                        a.cols == n,
                        a.at(k as int, k as int) != 0,
                        forall|c: int|
                            0 <= c < k && (#[trigger] r_diagonal@[c]).m != 0 ==> a.at(c, c) != 0,
                    decreases n - j,
                {
                    let mut s: Fixed = Fixed::zero();
                    let mut i3: usize = k;
                    while i3 < m
                        invariant
                            k <= i3 <= m,
                            k < j < n <= m,
                            a.wf(),
                            a.nrows() == m,
                            a.cols == n,
                        decreases m - i3,
                    {
                        s = s.add(a.get(i3, k).mul(a.get(i3, j)));
                        i3 = i3 + 1;
                    }
                    let denom: Fixed = a.get(k, k);
                    s = s.neg().div(denom);
                    let mut i4: usize = k;
                    while i4 < m
                        invariant
                            k <= i4 <= m,
                            k < j < n <= m,
                            a.wf(),
                            a.nrows() == m,
                            a.cols == n,
                            a.at(k as int, k as int) != 0,
                            forall|c: int|
                                0 <= c < k && (#[trigger] r_diagonal@[c]).m != 0 ==> a.at(c, c)
                                    != 0,
                        decreases m - i4,
                    {
                        a.add_element(i4, j, s.mul(a.get(i4, k)));
                        i4 = i4 + 1;
                    }
                    j = j + 1;
                }
            }
            r_diagonal.push(nrm.neg());
            k = k + 1;
        }
        QR::new(a, r_diagonal)
    }

    fn qr_solve_mut(self, b: DenseMatrix) -> (r: Option<DenseMatrix>) {
        let dec: QR = self.qr_mut();
        if dec.singular {
            return None;
        }
        if b.shape().0 != dec.qr.shape().0 {
            return None;
        }
        let mut t: usize = 0;
        while t < dec.tau.len()
            invariant
                t <= dec.tau@.len(),
                dec.wf(),
                forall|j: int| 0 <= j < t ==> (#[trigger] dec.tau@[j]).m != 0,
            decreases dec.tau@.len() - t,
        {
            if dec.tau[t].m == 0 {
                return None;
            }
            t = t + 1;
        }
        Some(dec.solve(b))
    }
}

} // verus!
