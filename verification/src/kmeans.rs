//! Lloyd-style k-means clustering with a k-means++ style seeding.

use vstd::prelude::*;
use crate::euclidian::{Euclidian, spec_squared_distance};
use crate::fixed::{Fixed, SCALE};
use crate::rng::SplitMix;

verus! {

/// Largest admissible cluster count or sample count: keeps counts exactly
/// representable on the scalar grid.
pub const CLUSTER_LIMIT: i64 = 9_223_372_036;

/// Clustering hyperparameters.
#[derive(Clone, Copy, Debug)]
pub struct KMeansParameters {
    /// Upper bound on refinement passes.
    pub max_iter: usize,
    /// Seed of the initial centroid choice, so runs are reproducible.
    pub seed: u64,
}

impl Default for KMeansParameters {
    /// One hundred refinement passes at most.
    fn default() -> (r: KMeansParameters)
        ensures
            r.max_iter == 100,
            r.seed == 42,
    {
        KMeansParameters { max_iter: 100, seed: 42 }
    }
}

/// The index and squared distance of the nearest of the first `n`
/// centroids to the row, the earliest on ties, starting from the sentinel.
pub open spec fn nearest_upto(c: Seq<Vec<Fixed>>, row: Seq<Fixed>, n: int) -> (int, int)
    decreases n,
{
    if n <= 0 {
        (0, i64::MAX as int)
    } else {
        let prev = nearest_upto(c, row, n - 1);
        let dj = spec_squared_distance(row, c[n - 1]@, row.len() as int);
        if dj < prev.1 {
            (n - 1, dj)
        } else {
            prev
        }
    }
}

/// How many of the first `n` assignments name cluster `c`.
pub open spec fn count_assign(y: Seq<usize>, c: int, n: int) -> int
    decreases n,
{
    if n <= 0 {
        0
    } else {
        count_assign(y, c, n - 1) + (if y[n - 1] == c {
            1int
        } else {
            0int
        })
    }
}

/// Sum of the first `n` counts.
pub open spec fn sum_counts(s: Seq<usize>, n: int) -> int
    decreases n,
{
    if n <= 0 {
        0
    } else {
        sum_counts(s, n - 1) + s[n - 1]
    }
}

/// Counting ignores what lies beyond the counted prefix.
proof fn lemma_count_assign_congruence(y1: Seq<usize>, y2: Seq<usize>, c: int, n: int)
    requires
        n <= y1.len(),
        n <= y2.len(),
        forall|j: int| 0 <= j < n ==> y1[j] == y2[j],
    ensures
        count_assign(y1, c, n) == count_assign(y2, c, n),
    decreases n,
{
    if n > 0 {
        lemma_count_assign_congruence(y1, y2, c, n - 1);
    }
}

/// Replacing one count shifts the sum by the difference.
proof fn lemma_sum_counts_update(s: Seq<usize>, c: int, v: usize, n: int)
    requires
        0 <= c < s.len(),
        n <= s.len(),
    ensures
        sum_counts(s.update(c, v), n) == if c < n {
            sum_counts(s, n) - s[c] + v
        } else {
            sum_counts(s, n)
        },
    decreases n,
{
    if n > 0 {
        lemma_sum_counts_update(s, c, v, n - 1);
    }
}

/// A prefix of zeros sums to zero.
proof fn lemma_sum_counts_zero(s: Seq<usize>, n: int)
    requires
        n <= s.len(),
        forall|j: int| 0 <= j < n ==> #[trigger] s[j] == 0,
    ensures
        sum_counts(s, n) == 0,
    decreases n,
{
    if n > 0 {
        lemma_sum_counts_zero(s, n - 1);
    }
}

/// Two count vectors agreeing on a prefix have the same prefix sum.
proof fn lemma_sum_counts_congruence(s1: Seq<usize>, s2: Seq<usize>, n: int)
    requires
        n <= s1.len(),
        n <= s2.len(),
        forall|j: int| 0 <= j < n ==> s1[j] == s2[j],
    ensures
        sum_counts(s1, n) == sum_counts(s2, n),
    decreases n,
{
    if n > 0 {
        lemma_sum_counts_congruence(s1, s2, n - 1);
    }
}

/// A fitted clustering: per-sample assignments and the cluster centroids.
pub struct KMeans {
    /// Number of clusters.
    pub k: usize,
    /// Cluster assigned to each training sample.
    pub y: Vec<usize>,
    /// Number of samples assigned to each cluster.
    pub size: Vec<usize>,
    /// Total within-cluster squared distance at the accepted pass.
    pub distortion: Fixed,
    /// Mean feature row of each cluster.
    pub centroids: Vec<Vec<Fixed>>,
}

impl KMeans {
    /// The clustering's shape is sound: at least two clusters, within the
    /// representable bound, one centroid and one size per cluster, all
    /// centroids of one width, every assignment a valid cluster.
    pub open spec fn wf(&self) -> bool {
        &&& 2 <= self.k
        &&& self.k as int <= CLUSTER_LIMIT
        &&& self.centroids@.len() == self.k
        &&& self.size@.len() == self.k
        &&& forall|i: int|
            0 <= i < self.centroids@.len() ==> (#[trigger] self.centroids@[i])@.len()
                == self.centroids@[0]@.len()
        &&& forall|i: int| 0 <= i < self.y@.len() ==> #[trigger] self.y@[i] < self.k
    }

    /// Width of the feature rows the clustering was fitted on.
    pub open spec fn width(&self) -> int {
        self.centroids@[0]@.len() as int
    }

    /// Fit `k` clusters to the samples: seed assignments, then repeat
    /// passes of nearest-centroid assignment and centroid recomputation
    /// until the distortion stops improving or the pass bound is reached.
    #[verifier::loop_isolation(false)]
    pub fn new(data: &Vec<Vec<Fixed>>, k: usize, parameters: KMeansParameters) -> (r: KMeans)
        requires
            data@.len() >= 1,
            data@.len() as int <= CLUSTER_LIMIT,
            2 <= k,
            k as int <= CLUSTER_LIMIT,
            parameters.max_iter >= 1,
            forall|i: int|
                0 <= i < data@.len() ==> (#[trigger] data@[i])@.len() == data@[0]@.len(),
        ensures
            r.wf(),
            r.k == k,
            r.y@.len() == data@.len(),
            r.width() == data@[0]@.len(),
            forall|c: int|
                0 <= c < k ==> (#[trigger] r.size@[c]) as int == count_assign(
                    r.y@,
                    c,
                    data@.len() as int,
                ),
            sum_counts(r.size@, k as int) == data@.len(),
    {
        let n: usize = data.len();
        let d: usize = data[0].len();
        let mut rng: SplitMix = SplitMix::new(parameters.seed);
        let mut distortion: Fixed = Fixed::max_value();
        let mut y: Vec<usize> = Self::kmeans_plus_plus(data, k, &mut rng);
        let mut size: Vec<usize> = zero_counts(k);
        let mut centroids: Vec<Vec<Fixed>> = zero_matrix(k, d);

        proof {
            lemma_sum_counts_zero(size@, k as int);
        }
        let mut i: usize = 0;
        while i < n
            invariant
                i <= n,
                n == data@.len(),
                y@.len() == n,
                size@.len() == k,
                forall|t: int| 0 <= t < n ==> #[trigger] y@[t] < k,
                forall|c: int| 0 <= c < k ==> #[trigger] size@[c] <= i,
                forall|c: int|
                    0 <= c < k ==> (#[trigger] size@[c]) as int == count_assign(y@, c, i as int),
                sum_counts(size@, k as int) == i,
            decreases n - i,
        {
            let ghost pre_size = size@;
            let c0: usize = y[i];
            bump_count(&mut size, c0);
            proof {
                lemma_sum_counts_update(pre_size, c0 as int, (pre_size[c0 as int] + 1) as usize, k as int);
            }
            i = i + 1;
        }

        let mut i2: usize = 0;
        while i2 < n
            invariant
                i2 <= n,
                n == data@.len(),
                y@.len() == n,
                centroids@.len() == k,
                forall|t: int| 0 <= t < n ==> #[trigger] y@[t] < k,
                forall|c: int|
                    0 <= c < centroids@.len() ==> (#[trigger] centroids@[c])@.len() == d,
                forall|t: int| 0 <= t < n ==> (#[trigger] data@[t])@.len() == d,
            decreases n - i2,
        {
            let mut j: usize = 0;
            while j < d
                invariant
                    j <= d,
                    i2 < n,
                    centroids@.len() == k,
                    y@[i2 as int] < k,
                    forall|c: int|
                        0 <= c < centroids@.len() ==> (#[trigger] centroids@[c])@.len() == d,
                    data@[i2 as int]@.len() == d,
                decreases d - j,
            {
                let c: usize = y[i2];
                let v: Fixed = mat_get(&centroids, c, j).add(data[i2][j]);
                mat_set(&mut centroids, c, j, v);
                j = j + 1;
            }
            i2 = i2 + 1;
        }

        divide_centroids(&mut centroids, &size, d);

        let mut it: usize = 0;
        while it < parameters.max_iter
            invariant
                n == data@.len(),
                y@.len() == n,
                size@.len() == k,
                centroids@.len() == k,
                forall|t: int| 0 <= t < n ==> #[trigger] y@[t] < k,
                forall|c: int|
                    0 <= c < centroids@.len() ==> (#[trigger] centroids@[c])@.len() == d,
                forall|t: int| 0 <= t < n ==> (#[trigger] data@[t])@.len() == d,
                forall|c: int|
                    0 <= c < k ==> (#[trigger] size@[c]) as int == count_assign(y@, c, n as int),
                sum_counts(size@, k as int) == n,
            decreases parameters.max_iter - it,
        {
            let mut sums: Vec<Vec<Fixed>> = zero_matrix(k, d);
            let mut new_size: Vec<usize> = zero_counts(k);
            proof {
                lemma_sum_counts_zero(new_size@, k as int);
            }
            let mut dist: Fixed = Fixed::zero();
            let mut s: usize = 0;
            while s < n
                invariant
                    s <= n,
                    n == data@.len(),
                    y@.len() == n,
                    new_size@.len() == k,
                    sums@.len() == k,
                    centroids@.len() == k,
                    forall|t: int| 0 <= t < n ==> #[trigger] y@[t] < k,
                    forall|c: int| 0 <= c < sums@.len() ==> (#[trigger] sums@[c])@.len() == d,
                    forall|c: int|
                        0 <= c < centroids@.len() ==> (#[trigger] centroids@[c])@.len() == d,
                    forall|t: int| 0 <= t < n ==> (#[trigger] data@[t])@.len() == d,
                    forall|c: int| 0 <= c < k ==> #[trigger] new_size@[c] <= s,
                    forall|c: int|
                        0 <= c < k ==> (#[trigger] new_size@[c]) as int == count_assign(
                            y@,
                            c,
                            s as int,
                        ),
                    sum_counts(new_size@, k as int) == s,
                decreases n - s,
            {
                let best: usize = nearest_centroid(&centroids, &data[s], k, d);
                let bd: Fixed = Euclidian::squared_distance(&data[s], &centroids[best]);
                dist = dist.add(bd);
                let ghost pre_y = y@;
                let ghost pre_ns = new_size@;
                set_count(&mut y, s, best);
                proof {
                    assert forall|c: int| 0 <= c < k implies (#[trigger] pre_ns[c]) as int
                        == count_assign(y@, c, s as int) by {
                        lemma_count_assign_congruence(y@, pre_y, c, s as int);
                    }
                }
                bump_count(&mut new_size, best);
                proof {
                    lemma_sum_counts_update(
                        pre_ns,
                        best as int,
                        (pre_ns[best as int] + 1) as usize,
                        k as int,
                    );
                }
                let mut j: usize = 0;
                while j < d
                    invariant
                        j <= d,
                        s < n,
                        best < k,
                        sums@.len() == k,
                        forall|c: int| 0 <= c < sums@.len() ==> (#[trigger] sums@[c])@.len() == d,
                        data@[s as int]@.len() == d,
                    decreases d - j,
                {
                    let v: Fixed = mat_get(&sums, best, j).add(data[s][j]);
                    mat_set(&mut sums, best, j, v);
                    j = j + 1;
                }
                s = s + 1;
            }
            divide_centroids(&mut sums, &new_size, d);
            let mut c2: usize = 0;
            while c2 < k
                invariant
                    c2 <= k,
                    size@.len() == k,
                    new_size@.len() == k,
                    centroids@.len() == k,
                    sums@.len() == k,
                    forall|c: int| 0 <= c < sums@.len() ==> (#[trigger] sums@[c])@.len() == d,
                    forall|c: int|
                        0 <= c < centroids@.len() ==> (#[trigger] centroids@[c])@.len() == d,
                    forall|c: int| 0 <= c < c2 ==> #[trigger] size@[c] == new_size@[c],
                decreases k - c2,
            {
                if new_size[c2] > 0 {
                    let row: Vec<Fixed> = copy_mat_row(&sums, c2);
                    set_mat_row(&mut centroids, c2, row);
                }
                set_count(&mut size, c2, new_size[c2]);
                c2 = c2 + 1;
            }
            proof {
                lemma_sum_counts_congruence(size@, new_size@, k as int);
            }
            if distortion.m <= dist.m {
                break ;
            }
            distortion = dist;
            it = it + 1;
        }

        KMeans { k, y, size, distortion, centroids }
    }

    /// The cluster of each row: the nearest centroid's index, carried as a
    /// whole number on the scalar grid.
    #[verifier::loop_isolation(false)]
    pub fn predict(&self, x: &Vec<Vec<Fixed>>) -> (r: Vec<Fixed>)
        requires
            self.wf(),
            forall|i: int| 0 <= i < x@.len() ==> (#[trigger] x@[i])@.len() == self.width(),
        ensures
            r@.len() == x@.len(),
            forall|i: int|
                0 <= i < x@.len() ==> (#[trigger] r@[i]).m as int == nearest_upto(
                    self.centroids@,
                    x@[i]@,
                    self.k as int,
                ).0 * (SCALE as int),
    {
        let n: usize = x.len();
        let d: usize = self.centroids[0].len();
        let mut result: Vec<Fixed> = Vec::new();
        let mut i: usize = 0;
        while i < n
            invariant
                i <= n,
                n == x@.len(),
                d == self.width(),
                result@.len() == i,
                forall|t: int|
                    0 <= t < i ==> (#[trigger] result@[t]).m as int == nearest_upto(
                        self.centroids@,
                        x@[t]@,
                        self.k as int,
                    ).0 * (SCALE as int),
            decreases n - i,
        {
            let best: usize = nearest_centroid(&self.centroids, &x[i], self.k, d);
            proof {
                assert((best as int) * (SCALE as int) <= CLUSTER_LIMIT * (SCALE as int))
                    by (nonlinear_arith)
                    requires
                        0 <= best as int <= CLUSTER_LIMIT,
                ;
            }
            result.push(Fixed::from_int(best as i64));
            i = i + 1;
        }
        result
    }

    /// Seed assignments: pick a shuffled starting centroid, then assign
    /// each sample to the most recently chosen centroid that came nearest,
    /// spreading the seeds by accumulated distance.
    #[verifier::loop_isolation(false)]
    pub fn kmeans_plus_plus(data: &Vec<Vec<Fixed>>, k: usize, rng: &mut SplitMix) -> (r: Vec<
        usize,
    >)
        requires
            data@.len() >= 1,
            1 <= k,
            forall|i: int|
                0 <= i < data@.len() ==> (#[trigger] data@[i])@.len() == data@[0]@.len(),
        ensures
            r@.len() == data@.len(),
            forall|i: int| 0 <= i < r@.len() ==> #[trigger] r@[i] < k,
    {
        let n: usize = data.len();
        let mut y: Vec<usize> = zero_counts(n);
        let mut centroid: Vec<Fixed> = copy_mat_row(data, rng.below(n));
        let mut d: Vec<Fixed> = max_vec(n);
        let mut j: usize = 1;
        while j < k
            invariant
                1 <= j <= k,
                n == data@.len(),
                y@.len() == n,
                d@.len() == n,
                centroid@.len() == data@[0]@.len(),
                forall|i: int| 0 <= i < n ==> #[trigger] y@[i] < k,
                forall|i: int| 0 <= i < n ==> (#[trigger] data@[i])@.len() == data@[0]@.len(),
            decreases k - j,
        {
            let mut i: usize = 0;
            while i < n
                invariant
                    i <= n,
                    n == data@.len(),
                    y@.len() == n,
                    d@.len() == n,
                    j < k,
                    1 <= j,
                    centroid@.len() == data@[0]@.len(),
                    forall|t: int| 0 <= t < n ==> #[trigger] y@[t] < k,
                    forall|t: int|
                        0 <= t < n ==> (#[trigger] data@[t])@.len() == data@[0]@.len(),
                decreases n - i,
            {
                let dist: Fixed = Euclidian::squared_distance(&data[i], &centroid);
                if dist.m < d[i].m {
                    set_fixed(&mut d, i, dist);
                    set_count(&mut y, i, j - 1);
                }
                i = i + 1;
            }
            let mut sum: Fixed = Fixed::zero();
            let mut t: usize = 0;
            while t < n
                invariant
                    t <= n,
                    d@.len() == n,
                decreases n - t,
            {
                sum = sum.add(d[t]);
                t = t + 1;
            }
            let frac: Fixed = Fixed { m: (rng.next_word() % (SCALE as u64)) as i64 };
            let cutoff: Fixed = frac.mul(sum);
            let mut cost: Fixed = Fixed::zero();
            let mut pick: usize = 0;
            let mut u: usize = 0;
            while u < n
                invariant
                    u <= n,
                    n >= 1,
                    d@.len() == n,
                    pick < n,
                decreases n - u,
            {
                cost = cost.add(d[u]);
                if cost.m >= cutoff.m {
                    pick = u;
                    break ;
                }
                u = u + 1;
            }
            centroid = copy_mat_row(data, pick);
            j = j + 1;
        }
        let mut i3: usize = 0;
        while i3 < n
            invariant
                i3 <= n,
                n == data@.len(),
                y@.len() == n,
                d@.len() == n,
                1 <= k,
                centroid@.len() == data@[0]@.len(),
                forall|t: int| 0 <= t < n ==> #[trigger] y@[t] < k,
                forall|t: int| 0 <= t < n ==> (#[trigger] data@[t])@.len() == data@[0]@.len(),
            decreases n - i3,
        {
            let dist: Fixed = Euclidian::squared_distance(&data[i3], &centroid);
            if dist.m < d[i3].m {
                set_fixed(&mut d, i3, dist);
                set_count(&mut y, i3, k - 1);
            }
            i3 = i3 + 1;
        }
        y
    }
}

/// The index of the nearest of the first `k` centroids to the row, the
/// earliest on ties.
#[verifier::loop_isolation(false)]
fn nearest_centroid(centroids: &Vec<Vec<Fixed>>, row: &Vec<Fixed>, k: usize, d: usize) -> (r:
    usize)
    requires
        1 <= k <= centroids@.len(),
        row@.len() == d,
        forall|c: int| 0 <= c < centroids@.len() ==> (#[trigger] centroids@[c])@.len() == d,
    ensures
        r as int == nearest_upto(centroids@, row@, k as int).0,
        r < k,
{
    let mut min_dist: Fixed = Fixed::max_value();
    let mut best: usize = 0;
    let mut j: usize = 0;
    while j < k
        invariant
            j <= k,
            best as int == nearest_upto(centroids@, row@, j as int).0,
            min_dist.m as int == nearest_upto(centroids@, row@, j as int).1,
            best < k,
        decreases k - j,
    {
        let dist: Fixed = Euclidian::squared_distance(row, &centroids[j]);
        if dist.m < min_dist.m {
            min_dist = dist;
            best = j;
        }
        j = j + 1;
    }
    best
}

/// Divide each accumulated row by its cluster's count, where the count is
/// positive.
#[verifier::loop_isolation(false)]
fn divide_centroids(centroids: &mut Vec<Vec<Fixed>>, size: &Vec<usize>, d: usize)
    requires
        size@.len() >= old(centroids)@.len(),
        forall|c: int|
            0 <= c < old(centroids)@.len() ==> (#[trigger] old(centroids)@[c])@.len() == d,
        forall|c: int| 0 <= c < size@.len() ==> #[trigger] size@[c] as int <= CLUSTER_LIMIT,
    ensures
        final(centroids)@.len() == old(centroids)@.len(),
        forall|c: int|
            0 <= c < final(centroids)@.len() ==> (#[trigger] final(centroids)@[c])@.len() == d,
{
    let k: usize = centroids.len();
    let mut c: usize = 0;
    while c < k
        invariant
            c <= k,
            k == centroids@.len(),
            forall|t: int| 0 <= t < centroids@.len() ==> (#[trigger] centroids@[t])@.len() == d,
        decreases k - c,
    {
        if size[c] > 0 {
            let divisor: Fixed = Fixed::from_int(size[c] as i64);
            let mut j: usize = 0;
            while j < d
                invariant
                    j <= d,
                    c < k,
                    k == centroids@.len(),
                    divisor.m != 0,
                    forall|t: int|
                        0 <= t < centroids@.len() ==> (#[trigger] centroids@[t])@.len() == d,
                decreases d - j,
            {
                let v: Fixed = mat_get(centroids, c, j).div(divisor);
                mat_set(centroids, c, j, v);
                j = j + 1;
            }
        }
        c = c + 1;
    }
}

/// A vector of `n` zero counts.
fn zero_counts(n: usize) -> (r: Vec<usize>)
    ensures
        r@.len() == n,
        forall|i: int| 0 <= i < n ==> #[trigger] r@[i] == 0,
{
    let mut r: Vec<usize> = Vec::new();
    let mut i: usize = 0;
    while i < n
        invariant
            i <= n,
            r@.len() == i,
            forall|t: int| 0 <= t < i ==> #[trigger] r@[t] == 0,
        decreases n - i,
    {
        r.push(0);
        i = i + 1;
    }
    r
}

/// A vector of `n` positive sentinels.
fn max_vec(n: usize) -> (r: Vec<Fixed>)
    ensures
        r@.len() == n,
{
    let mut r: Vec<Fixed> = Vec::new();
    let mut i: usize = 0;
    while i < n
        invariant
            i <= n,
            r@.len() == i,
        decreases n - i,
    {
        r.push(Fixed::max_value());
        i = i + 1;
    }
    r
}

/// An `r`-by-`c` matrix of zeros.
fn zero_matrix(rows: usize, cols: usize) -> (r: Vec<Vec<Fixed>>)
    ensures
        r@.len() == rows,
        forall|i: int| 0 <= i < rows ==> (#[trigger] r@[i])@.len() == cols,
{
    let mut r: Vec<Vec<Fixed>> = Vec::new();
    let mut i: usize = 0;
    while i < rows
        invariant
            i <= rows,
            r@.len() == i,
            forall|t: int| 0 <= t < i ==> (#[trigger] r@[t])@.len() == cols,
        decreases rows - i,
    {
        let mut row: Vec<Fixed> = Vec::new();
        let mut j: usize = 0;
        while j < cols
            invariant
                j <= cols,
                row@.len() == j,
            decreases cols - j,
        {
            row.push(Fixed::zero());
            j = j + 1;
        }
        r.push(row);
        i = i + 1;
    }
    r
}

/// The cell at `(r, c)`.
fn mat_get(m: &Vec<Vec<Fixed>>, r: usize, c: usize) -> (v: Fixed)
    requires
        r < m@.len(),
        c < m@[r as int]@.len(),
    ensures
        v == m@[r as int]@[c as int],
{
    m[r][c]
}

/// Replace the cell at `(r, c)`, leaving all else in place.
fn mat_set(m: &mut Vec<Vec<Fixed>>, r: usize, c: usize, v: Fixed)
    requires
        r < old(m)@.len(),
        c < old(m)@[r as int]@.len(),
    ensures
        final(m)@.len() == old(m)@.len(),
        forall|i: int| 0 <= i < old(m)@.len() && i != r ==> final(m)@[i] == old(m)@[i],
        final(m)@[r as int]@ == old(m)@[r as int]@.update(c as int, v),
{
    let mut row: Vec<Fixed> = m.remove(r);
    let ghost row_pre = row@;
    let _old: Fixed = row.remove(c);
    row.insert(c, v);
    proof {
        assert(row@ =~= row_pre.update(c as int, v));
    }
    m.insert(r, row);
    proof {
        assert(final(m)@ =~= old(m)@.update(r as int, final(m)@[r as int]));
    }
}

/// Replace a whole row, leaving the others in place.
fn set_mat_row(m: &mut Vec<Vec<Fixed>>, r: usize, row: Vec<Fixed>)
    requires
        r < old(m)@.len(),
    ensures
        final(m)@.len() == old(m)@.len(),
        forall|i: int| 0 <= i < old(m)@.len() && i != r ==> final(m)@[i] == old(m)@[i],
        final(m)@[r as int] == row,
{
    let _old: Vec<Fixed> = m.remove(r);
    m.insert(r, row);
    proof {
        assert(final(m)@ =~= old(m)@.update(r as int, final(m)@[r as int]));
    }
}

/// An owned copy of row `r`.
fn copy_mat_row(m: &Vec<Vec<Fixed>>, r: usize) -> (v: Vec<Fixed>)
    requires
        r < m@.len(),
    ensures
        v@ == m@[r as int]@,
{
    let src: &Vec<Fixed> = &m[r];
    let mut out: Vec<Fixed> = Vec::new();
    let mut j: usize = 0;
    while j < src.len()
        invariant
            j <= src@.len(),
            src@ == m@[r as int]@,
            out@ == src@.take(j as int),
        decreases src@.len() - j,
    {
        out.push(src[j]);
        proof {
            assert(out@ =~= src@.take(j + 1));
        }
        j = j + 1;
    }
    proof {
        assert(src@.take(src@.len() as int) =~= src@);
    }
    out
}

/// Replace one count, leaving the others in place.
fn set_count(v: &mut Vec<usize>, i: usize, val: usize)
    requires
        i < old(v)@.len(),
    ensures
        final(v)@ == old(v)@.update(i as int, val),
{
    let _old: usize = v.remove(i);
    v.insert(i, val);
    proof {
        assert(final(v)@ =~= old(v)@.update(i as int, val));
    }
}

/// Replace one scalar, leaving the others in place.
fn set_fixed(v: &mut Vec<Fixed>, i: usize, val: Fixed)
    requires
        i < old(v)@.len(),
    ensures
        final(v)@ == old(v)@.update(i as int, val),
{
    let _old: Fixed = v.remove(i);
    v.insert(i, val);
    proof {
        assert(final(v)@ =~= old(v)@.update(i as int, val));
    }
}

/// Add one to the count at `i`.
fn bump_count(v: &mut Vec<usize>, i: usize)
    requires
        i < old(v)@.len(),
        old(v)@[i as int] < usize::MAX,
    ensures
        final(v)@ == old(v)@.update(i as int, (old(v)@[i as int] + 1) as usize),
{
    let cur: usize = v[i];
    set_count(v, i, cur + 1);
}

} // verus!
