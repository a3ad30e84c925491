//! The support-vector classifier and its incremental solver.
//!
//! Training solves the dual problem by sequential minimal optimization: an
//! active set of [`SupportVector`]s is grown one admitted sample at a time,
//! pairs of dual coefficients are updated under their box constraints, and a
//! memoized kernel [`Cache`] avoids recomputing pairwise similarities. The
//! cache keys each pair canonically by `(min, max)` of the two stable sample
//! indices, so a single eviction rule purges every reference to a retired
//! sample and lookups in either order read the same slot.

use vstd::prelude::*;
use crate::error::Failed;
use crate::fixed::{Fixed, SCALE, spec_add, spec_sub, spec_mul, spec_div};
use crate::kernel::Kernel;
use crate::rng::{SplitMix, permutation};

verus! {

/// Training hyperparameters.
#[derive(Clone, Copy, Debug)]
pub struct SVCParameters {
    /// Number of full passes over the shuffled samples.
    pub epoch: usize,
    /// Regularization bound on the dual coefficients.
    pub c: Fixed,
    /// Duality-gap tolerance for fine-grained convergence.
    pub tol: Fixed,
    /// Coarse duality-gap threshold bounding per-sample refinement during
    /// the epoch loop; looser than `tol`.
    pub coarse_tol: Fixed,
    /// Seed of the sample-order shuffle, so runs are reproducible.
    pub seed: u64,
}

impl Default for SVCParameters {
    /// Two epochs, unit regularization, a tolerance of one thousandth, the
    /// customary coarse threshold of one thousand.
    fn default() -> (r: SVCParameters)
        ensures
            r.epoch == 2,
            r.c.m == SCALE,
            r.tol.m == SCALE / 1000,
            r.coarse_tol.m == 1000 * (SCALE as int),
            r.seed == 42,
    {
        SVCParameters {
            epoch: 2,
            c: Fixed { m: SCALE },
            tol: Fixed { m: SCALE / 1000 },
            coarse_tol: Fixed { m: 1000 * SCALE },
            seed: 42,
        }
    }
}

/// Per-sample dual-optimization state.
pub struct SupportVector {
    /// Stable identifier of the original sample; never reused in one run.
    pub index: usize,
    /// The sample's feature vector, owned.
    pub x: Vec<Fixed>,
    /// Dual coefficient; always inside `[cmin, cmax]`.
    pub alpha: Fixed,
    /// Maintained estimate of the loss gradient at this sample.
    pub grad: Fixed,
    /// Lower box bound: `-c` for a negative label, zero otherwise.
    pub cmin: Fixed,
    /// Upper box bound: `c` for a positive label, zero otherwise.
    pub cmax: Fixed,
    /// Cached self-similarity of the sample.
    pub k: Fixed,
}

impl SupportVector {
    /// A fresh vector for an admitted sample: zero coefficient, box bounds
    /// fixed by the label's sign, self-similarity computed once.
    pub fn new<K: Kernel>(i: usize, x: Vec<Fixed>, y: Fixed, g: Fixed, c: Fixed, kernel: &K) -> (
        r: SupportVector)
        ensures
            r.index == i,
            r.x@ == x@,
            r.alpha.m == 0,
            r.grad == g,
            r.k.m == kernel.spec_apply(x@, x@),
            y.m > 0 ==> r.cmin.m == 0 && r.cmax.m == c.m,
            y.m <= 0 ==> r.cmin.m as int == crate::fixed::clip(-(c.m as int)) && r.cmax.m == 0,
    {
        let k_v: Fixed = kernel.apply(&x, &x);
        let neg_c: Fixed = c.neg();
        if y.m > 0 {
            SupportVector {
                index: i,
                x,
                grad: g,
                k: k_v,
                alpha: Fixed::zero(),
                cmin: Fixed::zero(),
                cmax: c,
            }
        } else {
            SupportVector {
                index: i,
                x,
                grad: g,
                k: k_v,
                alpha: Fixed::zero(),
                cmin: neg_c,
                cmax: Fixed::zero(),
            }
        }
    }
}

/// The canonical cache key for a pair of sample indices: smaller first.
pub open spec fn canon_key(i: int, j: int) -> (int, int) {
    if i <= j {
        (i, j)
    } else {
        (j, i)
    }
}

/// One memoized kernel value, keyed canonically (`lo <= hi`).
struct CacheEntry {
    lo: usize,
    hi: usize,
    value: Fixed,
}

/// What a sequence of entries means: a map from canonical index pairs to
/// kernel values, later entries overriding earlier ones.
spec fn entries_map(s: Seq<CacheEntry>) -> Map<(int, int), Fixed>
    decreases s.len(),
{
    if s.len() == 0 {
        Map::empty()
    } else {
        entries_map(s.drop_last()).insert((s.last().lo as int, s.last().hi as int), s.last().value)
    }
}

/// Memoized kernel evaluations between pairs of active samples, keyed by
/// their canonical pair of stable sample indices.
pub struct Cache {
    entries: Vec<CacheEntry>,
}

impl View for Cache {
    type V = Map<(int, int), Fixed>;

    closed spec fn view(&self) -> Map<(int, int), Fixed> {
        entries_map(self.entries@)
    }
}

/// Does the sequence hold this value?
pub open spec fn seq_has(s: Seq<usize>, v: int) -> bool {
    exists|t: int| 0 <= t < s.len() && s[t] == v
}

/// Every cached value is the kernel of the two sample rows its key names.
pub open spec fn cache_coherent<K: Kernel>(
    m: Map<(int, int), Fixed>,
    x: Seq<Vec<Fixed>>,
    kernel: K,
) -> bool {
    forall|k: (int, int)| #[trigger]
        m.contains_key(k) ==> 0 <= k.0 < x.len() && 0 <= k.1 < x.len() && m[k].m
            == kernel.spec_apply(x[k.0]@, x[k.1]@)
}

/// The value a lookup for the pair `(a, b)` yields on this map: the cached
/// value if the canonical key is present, the kernel of the two rows
/// otherwise.
pub open spec fn lookup_value<K: Kernel>(
    m: Map<(int, int), Fixed>,
    kernel: K,
    a: SupportVector,
    b: SupportVector,
) -> int {
    if m.contains_key(canon_key(a.index as int, b.index as int)) {
        m[canon_key(a.index as int, b.index as int)].m as int
    } else {
        kernel.spec_apply(a.x@, b.x@)
    }
}

/// Cache symmetry: for a symmetric kernel, looking a pair up in either
/// order yields the same value, whether the canonical slot is filled or the
/// kernel is consulted.
pub proof fn lemma_cache_symmetry<K: Kernel>(
    m: Map<(int, int), Fixed>,
    kernel: K,
    a: SupportVector,
    b: SupportVector,
)
    ensures
        canon_key(a.index as int, b.index as int) == canon_key(b.index as int, a.index as int),
        lookup_value(m, kernel, a, b) == lookup_value(m, kernel, b, a),
{
    kernel.lemma_symmetric(a.x@, b.x@);
}

impl Cache {
    /// An empty cache.
    pub fn new() -> (r: Cache)
        ensures
            r@ == Map::<(int, int), Fixed>::empty(),
    {
        Cache { entries: Vec::new() }
    }

    /// The memoized kernel value for the pair `(a, b)`, computed and stored
    /// on first request.
    #[verifier::loop_isolation(false)]
    pub fn get<K: Kernel>(&mut self, a: &SupportVector, b: &SupportVector, kernel: &K) -> (r:
        Fixed)
        ensures
            r.m == lookup_value(old(self)@, *kernel, *a, *b),
            old(self)@.contains_key(canon_key(a.index as int, b.index as int)) ==> final(self)@
                == old(self)@,
            !old(self)@.contains_key(canon_key(a.index as int, b.index as int)) ==> final(self)@
                == old(self)@.insert(canon_key(a.index as int, b.index as int), r),
            forall|k: (int, int)| #[trigger]
                old(self)@.contains_key(k) ==> final(self)@.contains_key(k) && final(self)@[k]
                    == old(self)@[k],
    {
        let lo: usize = if a.index <= b.index {
            a.index
        } else {
            b.index
        };
        let hi: usize = if a.index <= b.index {
            b.index
        } else {
            a.index
        };
        let mut t: usize = self.entries.len();
        proof {
            assert(self.entries@.take(t as int) =~= self.entries@);
        }
        while t > 0
            invariant
                t <= self.entries@.len(),
                entries_map(self.entries@).contains_key((lo as int, hi as int)) ==> entries_map(
                    self.entries@.take(t as int),
                ).contains_key((lo as int, hi as int)) && entries_map(
                    self.entries@.take(t as int),
                )[(lo as int, hi as int)] == entries_map(self.entries@)[(lo as int, hi as int)],
                entries_map(self.entries@.take(t as int)).contains_key((lo as int, hi as int))
                    ==> entries_map(self.entries@).contains_key((lo as int, hi as int)),
            decreases t,
        {
            proof {
                assert(self.entries@.take(t as int).drop_last() =~= self.entries@.take(t - 1));
                assert(self.entries@.take(t as int).last() == self.entries@[t - 1]);
            }
            let e_lo: usize = self.entries[t - 1].lo;
            let e_hi: usize = self.entries[t - 1].hi;
            if e_lo == lo && e_hi == hi {
                proof {
                    assert(entries_map(self.entries@.take(t as int)).contains_key(
                        (lo as int, hi as int),
                    ));
                    assert(entries_map(self.entries@.take(t as int))[(lo as int, hi as int)]
                        == self.entries@[t - 1].value);
                    assert(entries_map(self.entries@).contains_key((lo as int, hi as int)));
                }
                return self.entries[t - 1].value;
            }
            t = t - 1;
        }
        proof {
            assert(self.entries@.take(0) =~= Seq::<CacheEntry>::empty());
            assert(!entries_map(self.entries@).contains_key((lo as int, hi as int)));
        }
        let v: Fixed = kernel.apply(&a.x, &b.x);
        self.entries.push(CacheEntry { lo, hi, value: v });
        proof {
            assert(self.entries@.drop_last() =~= old(self).entries@);
        }
        v
    }

    /// Pre-populate the pair's canonical slot with an already-computed value.
    pub fn insert(&mut self, i: usize, j: usize, value: Fixed)
        ensures
            final(self)@ == old(self)@.insert(canon_key(i as int, j as int), value),
    {
        let lo: usize = if i <= j {
            i
        } else {
            j
        };
        let hi: usize = if i <= j {
            j
        } else {
            i
        };
        self.entries.push(CacheEntry { lo, hi, value });
        proof {
            assert(self.entries@.drop_last() =~= old(self).entries@);
        }
    }

    /// Purge every entry that references any of the given sample indices,
    /// in either key component.
    pub fn drop(&mut self, idxs: &Vec<usize>)
        ensures
            forall|k: (int, int)| #[trigger]
                final(self)@.contains_key(k) <==> (old(self)@.contains_key(k) && !seq_has(
                    idxs@,
                    k.0,
                ) && !seq_has(idxs@, k.1)),
            forall|k: (int, int)| #[trigger]
                final(self)@.contains_key(k) ==> final(self)@[k] == old(self)@[k],
    {
        let ghost orig = self.entries@;
        let mut kept: Vec<CacheEntry> = Vec::new();
        let mut i: usize = 0;
        while i < self.entries.len()
            invariant
                i <= orig.len(),
                self.entries@ == orig,
                forall|k: (int, int)| #[trigger]
                    entries_map(kept@).contains_key(k) <==> (entries_map(
                        orig.take(i as int),
                    ).contains_key(k) && !seq_has(idxs@, k.0) && !seq_has(idxs@, k.1)),
                forall|k: (int, int)| #[trigger]
                    entries_map(kept@).contains_key(k) ==> entries_map(kept@)[k] == entries_map(
                        orig.take(i as int),
                    )[k],
            decreases orig.len() - i,
        {
            proof {
                assert(orig.take(i + 1).drop_last() =~= orig.take(i as int));
                assert(orig.take(i + 1).last() == orig[i as int]);
            }
            let lo: usize = self.entries[i].lo;
            let hi: usize = self.entries[i].hi;
            let v: Fixed = self.entries[i].value;
            let hit: bool = contains_usize(idxs, lo) || contains_usize(idxs, hi);
            let ghost key = (lo as int, hi as int);
            if !hit {
                let ghost pre = kept@;
                kept.push(CacheEntry { lo, hi, value: v });
                proof {
                    assert(kept@.drop_last() =~= pre);
                    assert(entries_map(kept@) == entries_map(pre).insert(key, v));
                    assert forall|k: (int, int)|
                        #[trigger] entries_map(kept@).contains_key(k) <==> (entries_map(
                            orig.take(i + 1),
                        ).contains_key(k) && !seq_has(idxs@, k.0) && !seq_has(idxs@, k.1)) by {
                        if k != key {
                            assert(entries_map(kept@).contains_key(k) == entries_map(
                                pre,
                            ).contains_key(k));
                            assert(entries_map(orig.take(i + 1)).contains_key(k) == entries_map(
                                orig.take(i as int),
                            ).contains_key(k));
                        }
                    }
                    assert forall|k: (int, int)|
                        #[trigger] entries_map(kept@).contains_key(k) implies entries_map(kept@)[k]
                        == entries_map(orig.take(i + 1))[k] by {
                        if k != key {
                            assert(entries_map(pre).contains_key(k));
                            assert(entries_map(kept@)[k] == entries_map(pre)[k]);
                            assert(entries_map(orig.take(i + 1))[k] == entries_map(
                                orig.take(i as int),
                            )[k]);
                        }
                    }
                }
            } else {
                proof {
                    assert forall|k: (int, int)|
                        #[trigger] entries_map(kept@).contains_key(k) <==> (entries_map(
                            orig.take(i + 1),
                        ).contains_key(k) && !seq_has(idxs@, k.0) && !seq_has(idxs@, k.1)) by {
                        if k != key {
                            assert(entries_map(orig.take(i + 1)).contains_key(k) == entries_map(
                                orig.take(i as int),
                            ).contains_key(k));
                        }
                    }
                    assert forall|k: (int, int)|
                        #[trigger] entries_map(kept@).contains_key(k) implies entries_map(kept@)[k]
                        == entries_map(orig.take(i + 1))[k] by {
                        assert(k != key);
                        assert(entries_map(orig.take(i + 1))[k] == entries_map(
                            orig.take(i as int),
                        )[k]);
                    }
                }
            }
            i = i + 1;
        }
        proof {
            assert(orig.take(orig.len() as int) =~= orig);
        }
        self.entries = kept;
    }
}

/// Largest admissible regularization mantissa: keeps every box bound, every
/// coefficient and every clamped step inside exact `i64` arithmetic.
pub const C_LIMIT: i64 = 2_000_000_000_000_000_000;

/// May this vector's coefficient still move down? Then it competes for the
/// minimum gradient.
pub open spec fn min_eligible(v: SupportVector) -> bool {
    v.alpha.m > v.cmin.m
}

/// May this vector's coefficient still move up? Then it competes for the
/// maximum gradient.
pub open spec fn max_eligible(v: SupportVector) -> bool {
    v.alpha.m < v.cmax.m
}

/// Minimum gradient over the down-eligible vectors of the first `n`, with
/// the greatest mantissa as the empty sentinel; ties keep the earliest.
pub open spec fn gmin_upto(sv: Seq<SupportVector>, n: int) -> int
    decreases n,
{
    if n <= 0 {
        i64::MAX as int
    } else {
        let p = gmin_upto(sv, n - 1);
        if min_eligible(sv[n - 1]) && (sv[n - 1].grad.m as int) < p {
            sv[n - 1].grad.m as int
        } else {
            p
        }
    }
}

/// Minimum gradient over all down-eligible vectors.
pub open spec fn gmin_of(sv: Seq<SupportVector>) -> int {
    gmin_upto(sv, sv.len() as int)
}

/// Maximum gradient over the up-eligible vectors of the first `n`, with the
/// least mantissa as the empty sentinel; ties keep the earliest.
pub open spec fn gmax_upto(sv: Seq<SupportVector>, n: int) -> int
    decreases n,
{
    if n <= 0 {
        i64::MIN as int
    } else {
        let p = gmax_upto(sv, n - 1);
        if max_eligible(sv[n - 1]) && (sv[n - 1].grad.m as int) > p {
            sv[n - 1].grad.m as int
        } else {
            p
        }
    }
}

/// Maximum gradient over all up-eligible vectors.
pub open spec fn gmax_of(sv: Seq<SupportVector>) -> int {
    gmax_upto(sv, sv.len() as int)
}

/// Position of the first down-eligible vector among the first `n`
/// attaining the running minimum, or a negative sentinel when the fold
/// never left its own sentinel.
pub open spec fn gmin_pos_upto(sv: Seq<SupportVector>, n: int) -> int
    decreases n,
{
    if n <= 0 {
        -1
    } else if min_eligible(sv[n - 1]) && (sv[n - 1].grad.m as int) < gmin_upto(sv, n - 1) {
        n - 1
    } else {
        gmin_pos_upto(sv, n - 1)
    }
}

/// Position attaining the minimum gradient, earliest on ties.
pub open spec fn gmin_pos(sv: Seq<SupportVector>) -> int {
    gmin_pos_upto(sv, sv.len() as int)
}

/// Position of the first up-eligible vector among the first `n` attaining
/// the running maximum, or a negative sentinel.
pub open spec fn gmax_pos_upto(sv: Seq<SupportVector>, n: int) -> int
    decreases n,
{
    if n <= 0 {
        -1
    } else if max_eligible(sv[n - 1]) && (sv[n - 1].grad.m as int) > gmax_upto(sv, n - 1) {
        n - 1
    } else {
        gmax_pos_upto(sv, n - 1)
    }
}

/// Position attaining the maximum gradient, earliest on ties.
pub open spec fn gmax_pos(sv: Seq<SupportVector>) -> int {
    gmax_pos_upto(sv, sv.len() as int)
}

/// Sum of the dual coefficients of the first `n` vectors.
pub open spec fn sum_alpha_upto(sv: Seq<SupportVector>, n: int) -> int
    decreases n,
{
    if n <= 0 {
        0
    } else {
        sum_alpha_upto(sv, n - 1) + sv[n - 1].alpha.m
    }
}

/// Sum of all dual coefficients; an invariant of training keeps it at zero.
pub open spec fn sum_alpha(sv: Seq<SupportVector>) -> int {
    sum_alpha_upto(sv, sv.len() as int)
}

/// The minimum fold never exceeds the gradient of a down-eligible vector.
proof fn lemma_gmin_upto_le(sv: Seq<SupportVector>, n: int, i: int)
    requires
        0 <= i < n <= sv.len(),
        min_eligible(sv[i]),
    ensures
        gmin_upto(sv, n) <= sv[i].grad.m,
    decreases n,
{
    if i < n - 1 {
        lemma_gmin_upto_le(sv, n - 1, i);
    }
}

/// The maximum fold never falls below the gradient of an up-eligible vector.
proof fn lemma_gmax_upto_ge(sv: Seq<SupportVector>, n: int, i: int)
    requires
        0 <= i < n <= sv.len(),
        max_eligible(sv[i]),
    ensures
        gmax_upto(sv, n) >= sv[i].grad.m,
    decreases n,
{
    if i < n - 1 {
        lemma_gmax_upto_ge(sv, n - 1, i);
    }
}

/// Two sequences with the same coefficients have the same coefficient sum.
proof fn lemma_sum_alpha_congruence(s1: Seq<SupportVector>, s2: Seq<SupportVector>, n: int)
    requires
        n <= s1.len(),
        n <= s2.len(),
        forall|j: int| 0 <= j < n ==> s1[j].alpha == s2[j].alpha,
    ensures
        sum_alpha_upto(s1, n) == sum_alpha_upto(s2, n),
    decreases n,
{
    if n > 0 {
        lemma_sum_alpha_congruence(s1, s2, n - 1);
    }
}

/// Replacing one vector shifts the sum by the difference of the two
/// coefficients.
proof fn lemma_sum_alpha_update(sv: Seq<SupportVector>, j: int, v: SupportVector, n: int)
    requires
        0 <= j < sv.len(),
        n <= sv.len(),
    ensures
        sum_alpha_upto(sv.update(j, v), n) == if j < n {
            sum_alpha_upto(sv, n) - sv[j].alpha.m + v.alpha.m
        } else {
            sum_alpha_upto(sv, n)
        },
    decreases n,
{
    if n > 0 {
        lemma_sum_alpha_update(sv, j, v, n - 1);
    }
}

/// Prepending a vector adds its coefficient to the sum.
proof fn lemma_sum_alpha_prepend(sv: Seq<SupportVector>, v: SupportVector, n: int)
    requires
        0 <= n <= sv.len(),
    ensures
        sum_alpha_upto(sv.insert(0, v), n + 1) == v.alpha.m + sum_alpha_upto(sv, n),
    decreases n,
{
    let s = sv.insert(0, v);
    assert(sum_alpha_upto(s, n + 1) == sum_alpha_upto(s, n) + s[n].alpha.m);
    if n > 0 {
        lemma_sum_alpha_prepend(sv, v, n - 1);
        assert(s[n] == sv[n - 1]);
        assert(sum_alpha_upto(sv, n) == sum_alpha_upto(sv, n - 1) + sv[n - 1].alpha.m);
    } else {
        assert(s[0] == v);
        assert(sum_alpha_upto(s, 0) == 0);
        assert(sum_alpha_upto(sv, 0) == 0);
    }
}

/// A coherent cache extended by one looked-up pair stays coherent.
proof fn lemma_coherent_after_get<K: Kernel>(
    pre: Map<(int, int), Fixed>,
    post: Map<(int, int), Fixed>,
    x: Seq<Vec<Fixed>>,
    kernel: K,
    a: SupportVector,
    b: SupportVector,
    r: Fixed,
)
    requires
        cache_coherent(pre, x, kernel),
        a.index < x.len(),
        b.index < x.len(),
        a.x@ == x[a.index as int]@,
        b.x@ == x[b.index as int]@,
        r.m == lookup_value(pre, kernel, a, b),
        post == if pre.contains_key(canon_key(a.index as int, b.index as int)) {
            pre
        } else {
            pre.insert(canon_key(a.index as int, b.index as int), r)
        },
    ensures
        cache_coherent(post, x, kernel),
{
    kernel.lemma_symmetric(a.x@, b.x@);
}

/// On a coherent cache a lookup yields exactly the kernel of the two rows.
proof fn lemma_lookup_is_kernel<K: Kernel>(
    m: Map<(int, int), Fixed>,
    x: Seq<Vec<Fixed>>,
    kernel: K,
    a: SupportVector,
    b: SupportVector,
)
    requires
        cache_coherent(m, x, kernel),
        a.index < x.len(),
        b.index < x.len(),
        a.x@ == x[a.index as int]@,
        b.x@ == x[b.index as int]@,
    ensures
        lookup_value(m, kernel, a, b) == kernel.spec_apply(a.x@, b.x@),
{
    kernel.lemma_symmetric(a.x@, b.x@);
}

/// Kernel value between the rows of the active vectors at positions `a`
/// and `b` of the given set.
pub open spec fn kv_at<K: Kernel>(kernel: K, sv: Seq<SupportVector>, a: int, b: int) -> int {
    kernel.spec_apply(sv[a].x@, sv[b].x@)
}

/// Gradient a new sample would enter with against the given active set:
/// its label minus the coefficient-weighted kernel against each of the
/// first `n` vectors, accumulated left to right.
pub open spec fn cgrad<K: Kernel>(
    kernel: K,
    sv: Seq<SupportVector>,
    xr: Seq<Fixed>,
    y: Fixed,
    n: int,
) -> int
    decreases n,
{
    if n <= 0 {
        y.m as int
    } else {
        spec_sub(
            cgrad(kernel, sv, xr, y, n - 1),
            spec_mul(sv[n - 1].alpha.m as int, kernel.spec_apply(sv[n - 1].x@, xr)),
        )
    }
}

/// Does the second cache carry everything the first does, unchanged? A
/// lookup may add entries but never alters or removes one.
pub open spec fn cache_extends(pre: Map<(int, int), Fixed>, post: Map<(int, int), Fixed>) -> bool {
    forall|k: (int, int)| #[trigger]
        pre.contains_key(k) ==> post.contains_key(k) && post[k] == pre[k]
}

/// Trigger anchor for existentials over active-set snapshots.
pub open spec fn state_witness(s: Seq<SupportVector>) -> bool {
    true
}

/// Trigger anchor for existentials over whole solver states.
pub open spec fn opt_witness<K: Kernel>(o: Optimizer<K>) -> bool {
    true
}

/// Trigger anchor for existentials over step counts.
pub open spec fn steps_witness(n: nat) -> bool {
    true
}

/// Trigger anchor for existentials over sample indices.
pub open spec fn sample_witness(i: int) -> bool {
    true
}

/// The solver: owns the active set and the gradient extremes, and drives
/// the pairwise coefficient updates.
pub struct Optimizer<K: Kernel> {
    /// All feature rows, indexed by stable sample index.
    pub x: Vec<Vec<Fixed>>,
    /// All labels, parallel to `x`.
    pub y: Vec<Fixed>,
    /// The training hyperparameters.
    pub params: SVCParameters,
    /// Position in the active set attaining `gmin`, when one does.
    pub svmin: usize,
    /// Position in the active set attaining `gmax`, when one does.
    pub svmax: usize,
    /// Cached minimum gradient over down-eligible vectors.
    pub gmin: Fixed,
    /// Cached maximum gradient over up-eligible vectors.
    pub gmax: Fixed,
    /// Small positive curvature floor guarding degenerate pairs.
    pub tau: Fixed,
    /// The active set.
    pub sv: Vec<SupportVector>,
    /// The similarity function.
    pub kernel: K,
    /// Must `gmin`/`gmax` be recomputed before their next use?
    pub recalculate_minmax_grad: bool,
}

impl<K: Kernel> Optimizer<K> {
    /// One active vector is sound: it points at its own row, carries its
    /// self-similarity, and its coefficient sits inside its box, whose
    /// bounds come from the regularization strength.
    pub open spec fn sv_ok(&self, v: SupportVector) -> bool {
        &&& v.index < self.x@.len()
        &&& v.x@ == self.x@[v.index as int]@
        &&& v.k.m == self.kernel.spec_apply(v.x@, v.x@)
        &&& v.cmin.m <= v.alpha.m <= v.cmax.m
        &&& (v.cmin.m == 0 || v.cmin.m as int == -(self.params.c.m as int))
        &&& (v.cmax.m == 0 || v.cmax.m == self.params.c.m)
        &&& v.cmin.m <= 0 && 0 <= v.cmax.m
    }

    /// The cached extremes describe the current active set, and each is
    /// attained at its recorded position whenever it is not the sentinel.
    pub open spec fn extremes_ok(&self) -> bool {
        &&& self.gmin.m == gmin_of(self.sv@)
        &&& self.gmax.m == gmax_of(self.sv@)
        &&& (self.gmin.m < i64::MAX ==> self.svmin < self.sv@.len() && min_eligible(
            self.sv@[self.svmin as int],
        ) && self.sv@[self.svmin as int].grad.m == self.gmin.m && self.svmin as int == gmin_pos(
            self.sv@,
        ))
        &&& (self.gmax.m > i64::MIN ==> self.svmax < self.sv@.len() && max_eligible(
            self.sv@[self.svmax as int],
        ) && self.sv@[self.svmax as int].grad.m == self.gmax.m && self.svmax as int == gmax_pos(
            self.sv@,
        ))
    }

    /// The solver's invariant: admissible hyperparameters, sound active
    /// vectors with distinct sample indices, a zero coefficient sum, and
    /// extremes that are current unless marked stale.
    pub open spec fn wf(&self) -> bool {
        &&& 0 <= self.params.c.m <= C_LIMIT
        &&& 1 <= self.tau.m <= SCALE
        &&& self.y@.len() == self.x@.len()
        &&& forall|i: int| 0 <= i < self.sv@.len() ==> self.sv_ok(#[trigger] self.sv@[i])
        &&& forall|i: int, j: int|
            0 <= i < j < self.sv@.len() ==> self.sv@[i].index != self.sv@[j].index
        &&& sum_alpha(self.sv@) == 0
        &&& (!self.recalculate_minmax_grad ==> self.extremes_ok())
    }

    /// A fresh solver over the given samples: empty active set, sentinel
    /// extremes, stale flag raised, curvature floor of one mantissa unit.
    pub fn new(x: Vec<Vec<Fixed>>, y: Vec<Fixed>, kernel: K, parameters: SVCParameters) -> (r:
        Optimizer<K>)
        requires
            x@.len() == y@.len(),
            0 <= parameters.c.m <= C_LIMIT,
        ensures
            r.wf(),
            r.x == x,
            r.y == y,
            r.kernel == kernel,
            r.params == parameters,
            r.sv@.len() == 0,
            r.gmin.m == i64::MAX,
            r.gmax.m == i64::MIN,
            r.svmin == 0,
            r.svmax == 0,
            r.tau.m == 1,
            r.recalculate_minmax_grad,
    {
        Optimizer {
            x,
            y,
            params: parameters,
            svmin: 0,
            svmax: 0,
            gmin: Fixed::max_value(),
            gmax: Fixed::min_value(),
            tau: Fixed { m: 1 },
            sv: Vec::new(),
            kernel,
            recalculate_minmax_grad: true,
        }
    }

    /// Recompute the gradient extremes by one scan of the active set, if
    /// they are stale; otherwise change nothing.
    #[verifier::loop_isolation(false)]
    pub fn find_min_max_gradient(&mut self)
        requires
            old(self).wf(),
        ensures
            final(self).wf(),
            !final(self).recalculate_minmax_grad,
            final(self).extremes_ok(),
            final(self).sv == old(self).sv,
            final(self).x == old(self).x,
            final(self).y == old(self).y,
            final(self).params == old(self).params,
            final(self).kernel == old(self).kernel,
            final(self).tau == old(self).tau,
            !old(self).recalculate_minmax_grad ==> *final(self) == *old(self),
    {
        if !self.recalculate_minmax_grad {
            return ;
        }
        self.gmin = Fixed::max_value();
        self.gmax = Fixed::min_value();
        let mut i: usize = 0;
        while i < self.sv.len()
            invariant
                i <= self.sv@.len(),
                self.sv == old(self).sv,
                self.x == old(self).x,
                self.y == old(self).y,
                self.params == old(self).params,
                self.kernel == old(self).kernel,
                self.tau == old(self).tau,
                self.recalculate_minmax_grad,
                self.gmin.m == gmin_upto(self.sv@, i as int),
                self.gmax.m == gmax_upto(self.sv@, i as int),
                self.gmin.m < i64::MAX ==> self.svmin < self.sv@.len() && min_eligible(
                    self.sv@[self.svmin as int],
                ) && self.sv@[self.svmin as int].grad.m == self.gmin.m && self.svmin as int
                    == gmin_pos_upto(self.sv@, i as int),
                self.gmax.m > i64::MIN ==> self.svmax < self.sv@.len() && max_eligible(
                    self.sv@[self.svmax as int],
                ) && self.sv@[self.svmax as int].grad.m == self.gmax.m && self.svmax as int
                    == gmax_pos_upto(self.sv@, i as int),
            decreases self.sv@.len() - i,
        {
            let g: Fixed = self.sv[i].grad;
            let a: Fixed = self.sv[i].alpha;
            if g.m < self.gmin.m && a.m > self.sv[i].cmin.m {
                self.gmin = g;
                self.svmin = i;
            }
            if g.m > self.gmax.m && a.m < self.sv[i].cmax.m {
                self.gmax = g;
                self.svmax = i;
            }
            i = i + 1;
        }
        self.recalculate_minmax_grad = false;
    }

    /// How one active vector looks after the pair `(v1, v2)` takes the
    /// step: `v1` loses the step, `v2` gains it, and every gradient drops
    /// by the step times the difference of the two kernel columns.
    pub open spec fn updated_sv(
        kernel: K,
        pre: Seq<SupportVector>,
        v1: int,
        v2: int,
        step: Fixed,
        i: int,
        nv: SupportVector,
    ) -> bool {
        let ov = pre[i];
        &&& nv.index == ov.index
        &&& nv.x == ov.x
        &&& nv.k == ov.k
        &&& nv.cmin == ov.cmin
        &&& nv.cmax == ov.cmax
        &&& nv.alpha.m as int == if i == v1 {
            spec_sub(ov.alpha.m as int, step.m as int)
        } else if i == v2 {
            spec_add(ov.alpha.m as int, step.m as int)
        } else {
            ov.alpha.m as int
        }
        &&& nv.grad.m as int == spec_sub(
            ov.grad.m as int,
            spec_mul(step.m as int, spec_sub(kv_at(kernel, pre, v2, i), kv_at(kernel, pre, v1, i))),
        )
    }

    /// Apply the step to the selected pair and propagate it through every
    /// maintained gradient, then refresh the extremes. The caller has
    /// already clamped the step so both new coefficients stay inside their
    /// boxes.
    #[verifier::loop_isolation(false)]
    pub fn update(&mut self, v1: usize, v2: usize, step: Fixed, cache: &mut Cache)
        requires
            old(self).wf(),
            cache_coherent(old(cache)@, old(self).x@, old(self).kernel),
            v1 < old(self).sv@.len(),
            v2 < old(self).sv@.len(),
            v1 != v2,
            old(self).sv@[v1 as int].cmin.m <= spec_sub(
                old(self).sv@[v1 as int].alpha.m as int,
                step.m as int,
            ) <= old(self).sv@[v1 as int].cmax.m,
            old(self).sv@[v2 as int].cmin.m <= spec_add(
                old(self).sv@[v2 as int].alpha.m as int,
                step.m as int,
            ) <= old(self).sv@[v2 as int].cmax.m,
        ensures
            final(self).wf(),
            cache_coherent(final(cache)@, final(self).x@, final(self).kernel),
            final(self).x == old(self).x,
            final(self).y == old(self).y,
            final(self).params == old(self).params,
            final(self).kernel == old(self).kernel,
            final(self).tau == old(self).tau,
            final(self).sv@.len() == old(self).sv@.len(),
            forall|i: int|
                0 <= i < old(self).sv@.len() ==> Self::updated_sv(
                    old(self).kernel,
                    old(self).sv@,
                    v1 as int,
                    v2 as int,
                    step,
                    i,
                    #[trigger] final(self).sv@[i],
                ),
            cache_extends(old(cache)@, final(cache)@),
            !final(self).recalculate_minmax_grad,
            final(self).extremes_ok(),
    {
        let a1: Fixed = self.sv[v1].alpha.sub(step);
        set_alpha(&mut self.sv, v1, a1);
        let a2: Fixed = self.sv[v2].alpha.add(step);
        set_alpha(&mut self.sv, v2, a2);
        let n: usize = self.sv.len();
        let mut i: usize = 0;
        while i < n
            invariant
                i <= n,
                n == old(self).sv@.len(),
                self.sv@.len() == n,
                self.x == old(self).x,
                self.y == old(self).y,
                self.params == old(self).params,
                self.kernel == old(self).kernel,
                self.tau == old(self).tau,
                cache_coherent(cache@, self.x@, self.kernel),
                cache_extends(old(cache)@, cache@),
                forall|j: int|
                    0 <= j < n ==> {
                        let ov = old(self).sv@[j];
                        let nv = #[trigger] self.sv@[j];
                        nv.index == ov.index && nv.x == ov.x && nv.k == ov.k && nv.cmin == ov.cmin
                            && nv.cmax == ov.cmax && nv.alpha.m as int == (if j == v1 {
                            spec_sub(ov.alpha.m as int, step.m as int)
                        } else if j == v2 {
                            spec_add(ov.alpha.m as int, step.m as int)
                        } else {
                            ov.alpha.m as int
                        }) && (j < i ==> nv.grad.m as int == spec_sub(
                            ov.grad.m as int,
                            spec_mul(
                                step.m as int,
                                spec_sub(
                                    kv_at(old(self).kernel, old(self).sv@, v2 as int, j),
                                    kv_at(old(self).kernel, old(self).sv@, v1 as int, j),
                                ),
                            ),
                        )) && (j >= i ==> nv.grad == ov.grad)
                    },
            decreases n - i,
        {
            let ghost cache0 = cache@;
            let k2: Fixed = cache.get(&self.sv[v2], &self.sv[i], &self.kernel);
            proof {
                lemma_lookup_is_kernel(
                    cache0,
                    self.x@,
                    self.kernel,
                    self.sv@[v2 as int],
                    self.sv@[i as int],
                );
                lemma_coherent_after_get(
                    cache0,
                    cache@,
                    self.x@,
                    self.kernel,
                    self.sv@[v2 as int],
                    self.sv@[i as int],
                    k2,
                );
            }
            let ghost cache1 = cache@;
            let k1: Fixed = cache.get(&self.sv[v1], &self.sv[i], &self.kernel);
            proof {
                lemma_lookup_is_kernel(
                    cache1,
                    self.x@,
                    self.kernel,
                    self.sv@[v1 as int],
                    self.sv@[i as int],
                );
                lemma_coherent_after_get(
                    cache1,
                    cache@,
                    self.x@,
                    self.kernel,
                    self.sv@[v1 as int],
                    self.sv@[i as int],
                    k1,
                );
            }
            let g: Fixed = self.sv[i].grad.sub(step.mul(k2.sub(k1)));
            set_grad(&mut self.sv, i, g);
            i = i + 1;
        }
        self.recalculate_minmax_grad = true;
        proof {
            let pre = old(self).sv@;
            let mid1 = pre.update(v1 as int, self.sv@[v1 as int]);
            let mid2 = mid1.update(v2 as int, self.sv@[v2 as int]);
            assert(spec_sub(pre[v1 as int].alpha.m as int, step.m as int) == pre[v1 as int].alpha.m
                - step.m);
            assert(spec_add(pre[v2 as int].alpha.m as int, step.m as int) == pre[v2 as int].alpha.m
                + step.m);
            lemma_sum_alpha_update(pre, v1 as int, self.sv@[v1 as int], pre.len() as int);
            lemma_sum_alpha_update(mid1, v2 as int, self.sv@[v2 as int], pre.len() as int);
            lemma_sum_alpha_congruence(self.sv@, mid2, pre.len() as int);
        }
        self.find_min_max_gradient();
    }

    /// The active set after a step differs from the one before by exactly
    /// one box-respecting pair transfer.
    pub open spec fn pair_step(kernel: K, pre: Seq<SupportVector>, post: Seq<SupportVector>) -> bool {
        exists|v1: int, v2: int, s: Fixed|
            #![trigger pair_witness(v1, v2, s)]
            {
                &&& 0 <= v1 < pre.len()
                &&& 0 <= v2 < pre.len()
                &&& v1 != v2
                &&& forall|i: int|
                    0 <= i < pre.len() ==> Self::updated_sv(
                        kernel,
                        pre,
                        v1,
                        v2,
                        s,
                        i,
                        #[trigger] post[i],
                    )
            }
    }

    /// The active set the moment sample `i` (with row `xr` and label
    /// `yv`) joins the front of `a`: a fresh vector with its entering
    /// gradient, zero coefficient and label-sign box, ahead of the
    /// unchanged previous vectors.
    pub open spec fn admitted_state(
        kernel: K,
        c: Fixed,
        a: Seq<SupportVector>,
        i: int,
        xr: Seq<Fixed>,
        yv: Fixed,
        b: Seq<SupportVector>,
    ) -> bool {
        &&& b.len() == a.len() + 1
        &&& b[0].index == i
        &&& b[0].x@ == xr
        &&& b[0].alpha.m == 0
        &&& b[0].grad.m as int == cgrad(kernel, a, xr, yv, a.len() as int)
        &&& b[0].k.m == kernel.spec_apply(xr, xr)
        &&& (yv.m > 0 ==> b[0].cmin.m == 0 && b[0].cmax.m == c.m)
        &&& (yv.m <= 0 ==> b[0].cmin.m as int == crate::fixed::clip(-(c.m as int)) && b[0].cmax.m
            == 0)
        &&& forall|j: int| 1 <= j < b.len() ==> b[j] == a[j - 1]
    }

    /// One admissible transition of a training run over the samples
    /// `(x, y)` under regularization `c`: leave the set alone, apply one
    /// box-respecting pair transfer, clean it under its own extremes, or
    /// admit one sample at the front followed by nothing or one pair
    /// transfer.
    pub open spec fn training_step(
        kernel: K,
        x: Seq<Vec<Fixed>>,
        y: Seq<Fixed>,
        c: Fixed,
        a: Seq<SupportVector>,
        b: Seq<SupportVector>,
    ) -> bool {
        ||| Self::seq_sv_eq(a, b)
        ||| Self::pair_step(kernel, a, b)
        ||| b == cleaned(a)
        ||| exists|i: int, mid: Seq<SupportVector>|
            #![trigger sample_witness(i), state_witness(mid)]
            {
                &&& sample_witness(i)
                &&& state_witness(mid)
                &&& 0 <= i < x.len()
                &&& i < y.len()
                &&& Self::admitted_state(kernel, c, a, i, x[i]@, y[i], mid)
                &&& (Self::seq_sv_eq(mid, b) || Self::pair_step(kernel, mid, b))
            }
    }

    /// Reachability in at most `n` training transitions.
    pub open spec fn evolves_n(
        kernel: K,
        x: Seq<Vec<Fixed>>,
        y: Seq<Fixed>,
        c: Fixed,
        a: Seq<SupportVector>,
        b: Seq<SupportVector>,
        n: nat,
    ) -> bool
        decreases n,
    {
        if n == 0 {
            Self::seq_sv_eq(a, b)
        } else {
            exists|mid: Seq<SupportVector>|
                #![trigger state_witness(mid)]
                {
                    &&& state_witness(mid)
                    &&& Self::evolves_n(kernel, x, y, c, a, mid, (n - 1) as nat)
                    &&& Self::training_step(kernel, x, y, c, mid, b)
                }
        }
    }

    /// Reachability by training transitions, in any number of rounds.
    pub open spec fn evolves_to(
        kernel: K,
        x: Seq<Vec<Fixed>>,
        y: Seq<Fixed>,
        c: Fixed,
        a: Seq<SupportVector>,
        b: Seq<SupportVector>,
    ) -> bool {
        exists|n: nat|
            #![trigger steps_witness(n)]
            steps_witness(n) && Self::evolves_n(kernel, x, y, c, a, b, n)
    }

    /// Pointwise-equal active sets are the same sequence.
    proof fn lemma_seq_sv_eq_is_eq(a: Seq<SupportVector>, b: Seq<SupportVector>)
        requires
            Self::seq_sv_eq(a, b),
        ensures
            a == b,
    {
        assert(a =~= b);
    }

    /// Reachability is reflexive.
    proof fn lemma_evolves_refl(
        kernel: K,
        x: Seq<Vec<Fixed>>,
        y: Seq<Fixed>,
        c: Fixed,
        a: Seq<SupportVector>,
    )
        ensures
            Self::evolves_to(kernel, x, y, c, a, a),
    {
        assert(steps_witness(0nat));
        assert(Self::evolves_n(kernel, x, y, c, a, a, 0nat));
    }

    /// Reachability extends by one transition.
    proof fn lemma_evolves_step(
        kernel: K,
        x: Seq<Vec<Fixed>>,
        y: Seq<Fixed>,
        c: Fixed,
        a: Seq<SupportVector>,
        mid: Seq<SupportVector>,
        b: Seq<SupportVector>,
    )
        requires
            Self::evolves_to(kernel, x, y, c, a, mid),
            Self::training_step(kernel, x, y, c, mid, b),
        ensures
            Self::evolves_to(kernel, x, y, c, a, b),
    {
        let n = choose|n: nat|
            steps_witness(n) && Self::evolves_n(kernel, x, y, c, a, mid, n);
        assert(state_witness(mid));
        assert(Self::evolves_n(kernel, x, y, c, a, b, (n + 1) as nat));
        assert(steps_witness((n + 1) as nat));
    }

    /// Reachability absorbs a bounded tail.
    proof fn lemma_evolves_n_from(
        kernel: K,
        x: Seq<Vec<Fixed>>,
        y: Seq<Fixed>,
        c: Fixed,
        a: Seq<SupportVector>,
        b: Seq<SupportVector>,
        d: Seq<SupportVector>,
        n: nat,
    )
        requires
            Self::evolves_to(kernel, x, y, c, a, b),
            Self::evolves_n(kernel, x, y, c, b, d, n),
        ensures
            Self::evolves_to(kernel, x, y, c, a, d),
        decreases n,
    {
        if n == 0 {
            Self::lemma_seq_sv_eq_is_eq(b, d);
        } else {
            let mid = choose|mid: Seq<SupportVector>|
                state_witness(mid) && Self::evolves_n(kernel, x, y, c, b, mid, (n - 1) as nat)
                    && Self::training_step(kernel, x, y, c, mid, d);
            Self::lemma_evolves_n_from(kernel, x, y, c, a, b, mid, (n - 1) as nat);
            Self::lemma_evolves_step(kernel, x, y, c, a, mid, d);
        }
    }

    /// Reachability composes.
    proof fn lemma_evolves_trans(
        kernel: K,
        x: Seq<Vec<Fixed>>,
        y: Seq<Fixed>,
        c: Fixed,
        a: Seq<SupportVector>,
        b: Seq<SupportVector>,
        d: Seq<SupportVector>,
    )
        requires
            Self::evolves_to(kernel, x, y, c, a, b),
            Self::evolves_to(kernel, x, y, c, b, d),
        ensures
            Self::evolves_to(kernel, x, y, c, a, d),
    {
        let n = choose|n: nat|
            steps_witness(n) && Self::evolves_n(kernel, x, y, c, b, d, n);
        Self::lemma_evolves_n_from(kernel, x, y, c, a, b, d, n);
    }

    /// The partner search either finds nothing or a valid position other
    /// than the fixed one.
    proof fn lemma_select_second_props(
        kernel: K,
        sv: Seq<SupportVector>,
        tau: int,
        f1: int,
        n: int,
    )
        requires
            0 <= f1 < sv.len(),
            n <= sv.len(),
            tau >= 1,
        ensures
            Self::select_second_upto(kernel, sv, tau, f1, n).1 == -1 || (0 <= Self::select_second_upto(
                kernel,
                sv,
                tau,
                f1,
                n,
            ).1 < n && Self::select_second_upto(kernel, sv, tau, f1, n).1 != f1),
        decreases n,
    {
        if n > 0 {
            Self::lemma_select_second_props(kernel, sv, tau, f1, n - 1);
            if n - 1 == f1 {
                let z = spec_sub(sv[n - 1].grad.m as int, sv[f1].grad.m as int);
                let curv = Self::cand_curv(kernel, sv, f1, n - 1, tau);
                assert(z == 0);
                assert(curv >= 1);
                assert(spec_div(z, curv) == 0) by {
                    vstd::arithmetic::div_mod::lemma_div_of0(crate::fixed::iabs(curv));
                }
            }
        }
    }

    /// The mirror search either finds nothing or a valid position other
    /// than the fixed one.
    proof fn lemma_select_first_props(
        kernel: K,
        sv: Seq<SupportVector>,
        tau: int,
        f2: int,
        n: int,
    )
        requires
            0 <= f2 < sv.len(),
            n <= sv.len(),
            tau >= 1,
        ensures
            Self::select_first_upto(kernel, sv, tau, f2, n).1 == -1 || (0 <= Self::select_first_upto(
                kernel,
                sv,
                tau,
                f2,
                n,
            ).1 < n && Self::select_first_upto(kernel, sv, tau, f2, n).1 != f2),
        decreases n,
    {
        if n > 0 {
            Self::lemma_select_first_props(kernel, sv, tau, f2, n - 1);
            if n - 1 == f2 {
                let z = spec_sub(sv[f2].grad.m as int, sv[n - 1].grad.m as int);
                let curv = Self::cand_curv(kernel, sv, f2, n - 1, tau);
                assert(z == 0);
                assert(curv >= 1);
                assert(spec_div(z, curv) == 0) by {
                    vstd::arithmetic::div_mod::lemma_div_of0(crate::fixed::iabs(curv));
                }
            }
        }
    }

    /// A fixed-second-slot outcome is one training transition: the set is
    /// untouched or takes one pair transfer.
    proof fn lemma_second_outcome_is_step(
        kernel: K,
        sv: Seq<SupportVector>,
        tau: int,
        f1: int,
        post: Seq<SupportVector>,
        r: bool,
        tol: int,
    )
        requires
            Self::second_slot_outcome(kernel, sv, tau, f1, post, r, tol),
            0 <= f1 < sv.len(),
            tau >= 1,
        ensures
            Self::seq_sv_eq(sv, post) || Self::pair_step(kernel, sv, post),
    {
        let sel = Self::select_second_upto(kernel, sv, tau, f1, sv.len() as int);
        if sel.1 < 0 {
            assert(Self::seq_sv_eq(post, sv));
            assert(Self::seq_sv_eq(sv, post));
        } else {
            Self::lemma_select_second_props(kernel, sv, tau, f1, sv.len() as int);
            let s = Fixed { m: Self::pair_result_step(kernel, sv, tau, f1, sel.1) as i64 };
            assert(pair_witness(f1, sel.1, s));
            assert(Self::pair_step(kernel, sv, post));
        }
    }

    /// A fixed-first-slot outcome is one training transition.
    proof fn lemma_first_outcome_is_step(
        kernel: K,
        sv: Seq<SupportVector>,
        tau: int,
        f2: int,
        post: Seq<SupportVector>,
        r: bool,
        tol: int,
    )
        requires
            Self::first_slot_outcome(kernel, sv, tau, f2, post, r, tol),
            0 <= f2 < sv.len(),
            tau >= 1,
        ensures
            Self::seq_sv_eq(sv, post) || Self::pair_step(kernel, sv, post),
    {
        let sel = Self::select_first_upto(kernel, sv, tau, f2, sv.len() as int);
        if sel.1 < 0 {
            assert(Self::seq_sv_eq(post, sv));
            assert(Self::seq_sv_eq(sv, post));
        } else {
            Self::lemma_select_first_props(kernel, sv, tau, f2, sv.len() as int);
            let s = Fixed { m: Self::pair_result_step(kernel, sv, tau, sel.1, f2) as i64 };
            assert(pair_witness(sel.1, f2, s));
            assert(Self::pair_step(kernel, sv, post));
        }
    }

    /// The curvature floor: non-positive curvature is replaced by `tau`.
    pub open spec fn floor_tau(c: int, tau: int) -> int {
        if c <= 0 {
            tau
        } else {
            c
        }
    }

    /// The tau-floored pair curvature between the vectors at `p` and `i`:
    /// the two self-similarities minus twice their kernel value.
    pub open spec fn cand_curv(kernel: K, sv: Seq<SupportVector>, p: int, i: int, tau: int) -> int {
        Self::floor_tau(
            spec_sub(
                spec_add(sv[p].k.m as int, sv[i].k.m as int),
                spec_mul(2 * (SCALE as int), kv_at(kernel, sv, p, i)),
            ),
            tau,
        )
    }

    /// The second-order partner search when the first slot holds `f1`:
    /// over the first `n` vectors, the best positive gain `z * mu` (with
    /// `z` the gradient surplus over `f1`, `mu` the curvature-regularized
    /// step) among candidates whose coefficient can move in `mu`'s
    /// direction; the result is the pair of best gain and chosen position,
    /// a negative position standing for no candidate.
    pub open spec fn select_second_upto(
        kernel: K,
        sv: Seq<SupportVector>,
        tau: int,
        f1: int,
        n: int,
    ) -> (int, int)
        decreases n,
    {
        if n <= 0 {
            (0, -1)
        } else {
            let prev = Self::select_second_upto(kernel, sv, tau, f1, n - 1);
            let z = spec_sub(sv[n - 1].grad.m as int, sv[f1].grad.m as int);
            let mu = spec_div(z, Self::cand_curv(kernel, sv, f1, n - 1, tau));
            if ((mu > 0 && (sv[n - 1].alpha.m as int) < sv[n - 1].cmax.m) || (mu < 0 && (sv[n
                - 1].alpha.m as int) > sv[n - 1].cmin.m)) && spec_mul(z, mu) > prev.0 {
                (spec_mul(z, mu), n - 1)
            } else {
                prev
            }
        }
    }

    /// The mirror search when the second slot holds `f2`: `z` is `f2`'s
    /// gradient surplus over the candidate, and movability is reversed.
    pub open spec fn select_first_upto(
        kernel: K,
        sv: Seq<SupportVector>,
        tau: int,
        f2: int,
        n: int,
    ) -> (int, int)
        decreases n,
    {
        if n <= 0 {
            (0, -1)
        } else {
            let prev = Self::select_first_upto(kernel, sv, tau, f2, n - 1);
            let z = spec_sub(sv[f2].grad.m as int, sv[n - 1].grad.m as int);
            let mu = spec_div(z, Self::cand_curv(kernel, sv, f2, n - 1, tau));
            if ((mu > 0 && (sv[n - 1].alpha.m as int) > sv[n - 1].cmin.m) || (mu < 0 && (sv[n
                - 1].alpha.m as int) < sv[n - 1].cmax.m)) && spec_mul(z, mu) > prev.0 {
                (spec_mul(z, mu), n - 1)
            } else {
                prev
            }
        }
    }

    /// The step the resolved pair `(i1, i2)` takes: the gradient difference
    /// over the tau-floored pair curvature, then clamped four ways so
    /// neither coefficient crosses its box.
    pub open spec fn pair_result_step(
        kernel: K,
        sv: Seq<SupportVector>,
        tau: int,
        i1: int,
        i2: int,
    ) -> int {
        let s0 = spec_div(
            spec_sub(sv[i2].grad.m as int, sv[i1].grad.m as int),
            Self::cand_curv(kernel, sv, i1, i2, tau),
        );
        let a1 = sv[i1].alpha.m as int;
        let cm1 = sv[i1].cmin.m as int;
        let cx1 = sv[i1].cmax.m as int;
        let a2 = sv[i2].alpha.m as int;
        let cm2 = sv[i2].cmin.m as int;
        let cx2 = sv[i2].cmax.m as int;
        if s0 >= 0 {
            let s1 = if spec_sub(a1, cm1) < s0 {
                spec_sub(a1, cm1)
            } else {
                s0
            };
            if spec_sub(cx2, a2) < s1 {
                spec_sub(cx2, a2)
            } else {
                s1
            }
        } else {
            let s1 = if spec_sub(cm2, a2) > s0 {
                spec_sub(cm2, a2)
            } else {
                s0
            };
            if spec_sub(a1, cx1) > s1 {
                spec_sub(a1, cx1)
            } else {
                s1
            }
        }
    }

    /// Are the two active sets the same, vector for vector?
    pub open spec fn seq_sv_eq(a: Seq<SupportVector>, b: Seq<SupportVector>) -> bool {
        a.len() == b.len() && (forall|i: int| 0 <= i < a.len() ==> #[trigger] a[i] == b[i])
    }

    /// What one resolved pair does: the post set is the image of the pre
    /// set under the pair's clamped step, and the report says whether the
    /// post set's duality gap still exceeds the tolerance.
    pub open spec fn resolved_outcome(
        kernel: K,
        sv: Seq<SupportVector>,
        tau: int,
        i1: int,
        i2: int,
        post: Seq<SupportVector>,
        r: bool,
        tol: int,
    ) -> bool {
        let s = Fixed { m: Self::pair_result_step(kernel, sv, tau, i1, i2) as i64 };
        &&& post.len() == sv.len()
        &&& forall|i: int|
            0 <= i < sv.len() ==> Self::updated_sv(kernel, sv, i1, i2, s, i, #[trigger] post[i])
        &&& r == (spec_sub(gmax_of(post), gmin_of(post)) > tol)
    }

    /// The outcome of a step whose first slot was fixed at `f1`: either
    /// the partner search found nothing and the set is untouched with a
    /// negative report, or the found pair ran to its resolved outcome.
    pub open spec fn second_slot_outcome(
        kernel: K,
        sv: Seq<SupportVector>,
        tau: int,
        f1: int,
        post: Seq<SupportVector>,
        r: bool,
        tol: int,
    ) -> bool {
        let sel = Self::select_second_upto(kernel, sv, tau, f1, sv.len() as int);
        if sel.1 < 0 {
            !r && Self::seq_sv_eq(post, sv)
        } else {
            Self::resolved_outcome(kernel, sv, tau, f1, sel.1, post, r, tol)
        }
    }

    /// The mirror outcome when the second slot was fixed at `f2`.
    pub open spec fn first_slot_outcome(
        kernel: K,
        sv: Seq<SupportVector>,
        tau: int,
        f2: int,
        post: Seq<SupportVector>,
        r: bool,
        tol: int,
    ) -> bool {
        let sel = Self::select_first_upto(kernel, sv, tau, f2, sv.len() as int);
        if sel.1 < 0 {
            !r && Self::seq_sv_eq(post, sv)
        } else {
            Self::resolved_outcome(kernel, sv, tau, sel.1, f2, post, r, tol)
        }
    }

    /// Run the resolved pair `(i1v, i2v)` to its outcome: tau-floored
    /// curvature from the supplied kernel value, the clamped step, the
    /// update, and the report of whether the gap still exceeds `tol`.
    #[verifier::loop_isolation(false)]
    #[verifier::rlimit(100)]
    #[verifier::spinoff_prover]
    fn take_pair_step(&mut self, i1v: usize, i2v: usize, k12v: Fixed, tol: Fixed, cache: &mut Cache)
        -> (r: bool)
        requires
            old(self).wf(),
            cache_coherent(old(cache)@, old(self).x@, old(self).kernel),
            i1v < old(self).sv@.len(),
            i2v < old(self).sv@.len(),
            i1v != i2v,
            k12v.m == kv_at(old(self).kernel, old(self).sv@, i1v as int, i2v as int),
        ensures
            final(self).wf(),
            cache_coherent(final(cache)@, final(self).x@, final(self).kernel),
            final(self).x == old(self).x,
            final(self).y == old(self).y,
            final(self).params == old(self).params,
            final(self).kernel == old(self).kernel,
            final(self).tau == old(self).tau,
            final(self).sv@.len() == old(self).sv@.len(),
            cache_extends(old(cache)@, final(cache)@),
            forall|i: int|
                0 <= i < old(self).sv@.len() ==> {
                    let ov = old(self).sv@[i];
                    let nv = #[trigger] final(self).sv@[i];
                    nv.index == ov.index && nv.x == ov.x && nv.k == ov.k && nv.cmin == ov.cmin
                        && nv.cmax == ov.cmax
                },
            Self::pair_step(old(self).kernel, old(self).sv@, final(self).sv@),
            !final(self).recalculate_minmax_grad,
            r == (spec_sub(final(self).gmax.m as int, final(self).gmin.m as int) > tol.m),
            Self::resolved_outcome(
                old(self).kernel,
                old(self).sv@,
                old(self).tau.m as int,
                i1v as int,
                i2v as int,
                final(self).sv@,
                r,
                tol.m as int,
            ),
    {
        let mut curv: Fixed = self.sv[i1v].k.add(self.sv[i2v].k).sub(Fixed::two().mul(k12v));
        if curv.m <= 0 {
            curv = self.tau;
        }

        let mut step: Fixed = self.sv[i2v].grad.sub(self.sv[i1v].grad).div(curv);

        let a1: Fixed = self.sv[i1v].alpha;
        let cm1: Fixed = self.sv[i1v].cmin;
        let cx1: Fixed = self.sv[i1v].cmax;
        let a2: Fixed = self.sv[i2v].alpha;
        let cm2: Fixed = self.sv[i2v].cmin;
        let cx2: Fixed = self.sv[i2v].cmax;
        proof {
            assert(self.sv_ok(self.sv@[i1v as int]));
            assert(self.sv_ok(self.sv@[i2v as int]));
        }

        if step.m >= 0 {
            let ostep: Fixed = a1.sub(cm1);
            if ostep.m < step.m {
                step = ostep;
            }
            let ostep2: Fixed = cx2.sub(a2);
            if ostep2.m < step.m {
                step = ostep2;
            }
        } else {
            let ostep: Fixed = cm2.sub(a2);
            if ostep.m > step.m {
                step = ostep;
            }
            let ostep2: Fixed = a1.sub(cx1);
            if ostep2.m > step.m {
                step = ostep2;
            }
        }

        proof {
            assert(curv.m as int == Self::cand_curv(
                old(self).kernel,
                old(self).sv@,
                i1v as int,
                i2v as int,
                old(self).tau.m as int,
            ));
            assert(step.m as int == Self::pair_result_step(
                old(self).kernel,
                old(self).sv@,
                old(self).tau.m as int,
                i1v as int,
                i2v as int,
            ));
        }
        self.update(i1v, i2v, step, cache);
        let gap: Fixed = self.gmax.sub(self.gmin);
        let result: bool = gap.m > tol.m;
        proof {
            assert(pair_witness(i1v as int, i2v as int, step));
            assert(Self::pair_step(old(self).kernel, old(self).sv@, self.sv@));
            assert(step == (Fixed {
                m: Self::pair_result_step(
                    old(self).kernel,
                    old(self).sv@,
                    old(self).tau.m as int,
                    i1v as int,
                    i2v as int,
                ) as i64,
            }));
            assert(result == (spec_sub(gmax_of(self.sv@), gmin_of(self.sv@)) > tol.m));
        }
        result
    }

    /// One working-pair selection and update step.
    ///
    /// An unspecified slot is filled by the second-order heuristic: fix the
    /// side of the larger violation, then pick the partner maximizing the
    /// curvature-regularized gain. The chosen step is clamped so both
    /// coefficients stay inside their boxes, the pair is applied, and the
    /// result says whether the duality gap still exceeds `tol`. When both
    /// slots are left unspecified and the gradient extremes already
    /// satisfy `gmin >= gmax`, nothing is eligible and no coefficient
    /// moves. Where a recorded extreme position is stale because nothing
    /// is eligible on its side, the step is skipped rather than read out
    /// of bounds.
    #[verifier::loop_isolation(false)]
    #[verifier::rlimit(100)]
    #[verifier::spinoff_prover]
    pub fn smo(&mut self, idx_1: Option<usize>, idx_2: Option<usize>, tol: Fixed, cache: &mut Cache)
        -> (r: bool)
        requires
            old(self).wf(),
            cache_coherent(old(cache)@, old(self).x@, old(self).kernel),
            idx_1 matches Some(a) ==> a < old(self).sv@.len(),
            idx_2 matches Some(b) ==> b < old(self).sv@.len(),
            idx_1 matches Some(a) ==> (idx_2 matches Some(b) ==> a != b),
        ensures
            final(self).wf(),
            cache_coherent(final(cache)@, final(self).x@, final(self).kernel),
            final(self).x == old(self).x,
            final(self).y == old(self).y,
            final(self).params == old(self).params,
            final(self).kernel == old(self).kernel,
            final(self).tau == old(self).tau,
            final(self).sv@.len() == old(self).sv@.len(),
            cache_extends(old(cache)@, final(cache)@),
            forall|i: int|
                0 <= i < old(self).sv@.len() ==> {
                    let ov = old(self).sv@[i];
                    let nv = #[trigger] final(self).sv@[i];
                    nv.index == ov.index && nv.x == ov.x && nv.k == ov.k && nv.cmin == ov.cmin
                        && nv.cmax == ov.cmax
                },
            (forall|i: int|
                0 <= i < old(self).sv@.len() ==> #[trigger] final(self).sv@[i] == old(
                    self,
                ).sv@[i]) || Self::pair_step(old(self).kernel, old(self).sv@, final(self).sv@),
            r ==> !final(self).recalculate_minmax_grad && spec_sub(
                final(self).gmax.m as int,
                final(self).gmin.m as int,
            ) > tol.m,
            !r ==> ((forall|i: int|
                0 <= i < old(self).sv@.len() ==> #[trigger] final(self).sv@[i] == old(
                    self,
                ).sv@[i]) || (!final(self).recalculate_minmax_grad && spec_sub(
                final(self).gmax.m as int,
                final(self).gmin.m as int,
            ) <= tol.m)),
            (idx_1 is None && idx_2 is None && gmin_of(old(self).sv@) >= gmax_of(old(self).sv@))
                ==> !r && (forall|i: int|
                0 <= i < old(self).sv@.len() ==> #[trigger] final(self).sv@[i] == old(
                    self,
                ).sv@[i]),
            idx_1 matches Some(a) ==> (idx_2 matches Some(b) ==> Self::resolved_outcome(
                old(self).kernel,
                old(self).sv@,
                old(self).tau.m as int,
                a as int,
                b as int,
                final(self).sv@,
                r,
                tol.m as int,
            )),
            idx_1 matches Some(a) ==> (idx_2 is None ==> Self::second_slot_outcome(
                old(self).kernel,
                old(self).sv@,
                old(self).tau.m as int,
                a as int,
                final(self).sv@,
                r,
                tol.m as int,
            )),
            idx_2 matches Some(b) ==> (idx_1 is None ==> Self::first_slot_outcome(
                old(self).kernel,
                old(self).sv@,
                old(self).tau.m as int,
                b as int,
                final(self).sv@,
                r,
                tol.m as int,
            )),
            (idx_1 is None && idx_2 is None) ==> (if gmax_of(old(self).sv@) > crate::fixed::clip(
                -gmin_of(old(self).sv@),
            ) {
                Self::first_slot_outcome(
                    old(self).kernel,
                    old(self).sv@,
                    old(self).tau.m as int,
                    gmax_pos(old(self).sv@),
                    final(self).sv@,
                    r,
                    tol.m as int,
                )
            } else if gmin_of(old(self).sv@) == i64::MAX {
                !r && Self::seq_sv_eq(final(self).sv@, old(self).sv@)
            } else {
                Self::second_slot_outcome(
                    old(self).kernel,
                    old(self).sv@,
                    old(self).tau.m as int,
                    gmin_pos(old(self).sv@),
                    final(self).sv@,
                    r,
                    tol.m as int,
                )
            }),
    {
        let ghost opt = idx_1 is None && idx_2 is None && gmin_of(old(self).sv@) >= gmax_of(
            old(self).sv@,
        );
        let mut i1: Option<usize> = idx_1;
        let mut i2: Option<usize> = idx_2;
        let mut k12: Option<Fixed> = None;

        if i1.is_none() && i2.is_none() {
            self.find_min_max_gradient();
            if self.gmax.m > self.gmin.neg().m {
                i2 = Some(self.svmax);
            } else {
                if self.gmin.m == i64::MAX {
                    return false;
                }
                i1 = Some(self.svmin);
            }
        }

        if i2.is_none() {
            let f1: usize = i1.unwrap();
            let km: Fixed = self.sv[f1].k;
            let gm: Fixed = self.sv[f1].grad;
            let mut best: Fixed = Fixed::zero();
            let mut i: usize = 0;
            while i < self.sv.len()
                invariant
                    i <= self.sv@.len(),
                    self.sv == old(self).sv,
                    self.x == old(self).x,
                    self.y == old(self).y,
                    self.params == old(self).params,
                    self.kernel == old(self).kernel,
                    self.tau == old(self).tau,
                    cache_coherent(cache@, self.x@, self.kernel),
                    cache_extends(old(cache)@, cache@),
                    f1 < self.sv@.len(),
                    gm == self.sv@[f1 as int].grad,
                    i1 == Some(f1),
                    opt ==> gm.m == gmin_of(self.sv@),
                    opt ==> i2 is None,
                    i2 matches Some(v) ==> v < self.sv@.len() && v != f1,
                    i2 is None ==> k12 is None,
                    best.m as int == Self::select_second_upto(
                        old(self).kernel,
                        old(self).sv@,
                        old(self).tau.m as int,
                        f1 as int,
                        i as int,
                    ).0,
                    i2 matches Some(v) ==> v as int == Self::select_second_upto(
                        old(self).kernel,
                        old(self).sv@,
                        old(self).tau.m as int,
                        f1 as int,
                        i as int,
                    ).1,
                    i2 is None ==> Self::select_second_upto(
                        old(self).kernel,
                        old(self).sv@,
                        old(self).tau.m as int,
                        f1 as int,
                        i as int,
                    ).1 < 0,
                    i2 matches Some(v) ==> (k12 matches Some(kvv) && kvv.m == kv_at(
                        old(self).kernel,
                        old(self).sv@,
                        f1 as int,
                        v as int,
                    )),
                decreases self.sv@.len() - i,
            {
                let z: Fixed = self.sv[i].grad.sub(gm);
                let ghost cache0 = cache@;
                let k: Fixed = cache.get(&self.sv[f1], &self.sv[i], &self.kernel);
                proof {
                    lemma_lookup_is_kernel(
                        cache0,
                        self.x@,
                        self.kernel,
                        self.sv@[f1 as int],
                        self.sv@[i as int],
                    );
                    lemma_coherent_after_get(
                        cache0,
                        cache@,
                        self.x@,
                        self.kernel,
                        self.sv@[f1 as int],
                        self.sv@[i as int],
                        k,
                    );
                }
                let mut curv: Fixed = km.add(self.sv[i].k).sub(Fixed::two().mul(k));
                if curv.m <= 0 {
                    curv = self.tau;
                }
                let mu: Fixed = z.div(curv);
                if (mu.m > 0 && self.sv[i].alpha.m < self.sv[i].cmax.m) || (mu.m < 0
                    && self.sv[i].alpha.m > self.sv[i].cmin.m) {
                    proof {
                        if opt {
                            crate::fixed::lemma_spec_div_sign(z.m as int, curv.m as int);
                            if mu.m > 0 {
                                lemma_gmax_upto_ge(self.sv@, self.sv@.len() as int, i as int);
                            } else {
                                lemma_gmin_upto_le(self.sv@, self.sv@.len() as int, i as int);
                            }
                            assert(false);
                        }
                    }
                    let gain: Fixed = z.mul(mu);
                    if gain.m > best.m {
                        best = gain;
                        i2 = Some(i);
                        k12 = Some(k);
                    }
                }
                i = i + 1;
            }
        }

        if i1.is_none() {
            let f2: usize = i2.unwrap();
            let km: Fixed = self.sv[f2].k;
            let gm: Fixed = self.sv[f2].grad;
            let mut best: Fixed = Fixed::zero();
            let mut i: usize = 0;
            while i < self.sv.len()
                invariant
                    i <= self.sv@.len(),
                    self.sv == old(self).sv,
                    self.x == old(self).x,
                    self.y == old(self).y,
                    self.params == old(self).params,
                    self.kernel == old(self).kernel,
                    self.tau == old(self).tau,
                    cache_coherent(cache@, self.x@, self.kernel),
                    cache_extends(old(cache)@, cache@),
                    f2 < self.sv@.len(),
                    gm == self.sv@[f2 as int].grad,
                    i2 == Some(f2),
                    opt ==> gm.m == gmax_of(self.sv@),
                    opt ==> i1 is None,
                    i1 matches Some(v) ==> v < self.sv@.len() && v != f2,
                    best.m as int == Self::select_first_upto(
                        old(self).kernel,
                        old(self).sv@,
                        old(self).tau.m as int,
                        f2 as int,
                        i as int,
                    ).0,
                    i1 matches Some(v) ==> v as int == Self::select_first_upto(
                        old(self).kernel,
                        old(self).sv@,
                        old(self).tau.m as int,
                        f2 as int,
                        i as int,
                    ).1,
                    i1 is None ==> Self::select_first_upto(
                        old(self).kernel,
                        old(self).sv@,
                        old(self).tau.m as int,
                        f2 as int,
                        i as int,
                    ).1 < 0,
                    i1 matches Some(v) ==> (k12 matches Some(kvv) && kvv.m == kv_at(
                        old(self).kernel,
                        old(self).sv@,
                        f2 as int,
                        v as int,
                    )),
                decreases self.sv@.len() - i,
            {
                let z: Fixed = gm.sub(self.sv[i].grad);
                let ghost cache0 = cache@;
                let k: Fixed = cache.get(&self.sv[f2], &self.sv[i], &self.kernel);
                proof {
                    lemma_lookup_is_kernel(
                        cache0,
                        self.x@,
                        self.kernel,
                        self.sv@[f2 as int],
                        self.sv@[i as int],
                    );
                    lemma_coherent_after_get(
                        cache0,
                        cache@,
                        self.x@,
                        self.kernel,
                        self.sv@[f2 as int],
                        self.sv@[i as int],
                        k,
                    );
                }
                let mut curv: Fixed = km.add(self.sv[i].k).sub(Fixed::two().mul(k));
                if curv.m <= 0 {
                    curv = self.tau;
                }
                let mu: Fixed = z.div(curv);
                if (mu.m > 0 && self.sv[i].alpha.m > self.sv[i].cmin.m) || (mu.m < 0
                    && self.sv[i].alpha.m < self.sv[i].cmax.m) {
                    proof {
                        if opt {
                            crate::fixed::lemma_spec_div_sign(z.m as int, curv.m as int);
                            if mu.m > 0 {
                                lemma_gmin_upto_le(self.sv@, self.sv@.len() as int, i as int);
                            } else {
                                lemma_gmax_upto_ge(self.sv@, self.sv@.len() as int, i as int);
                            }
                            assert(false);
                        }
                    }
                    let gain: Fixed = z.mul(mu);
                    if gain.m > best.m {
                        best = gain;
                        i1 = Some(i);
                        k12 = Some(k);
                    }
                }
                i = i + 1;
            }
        }

        if i1.is_none() || i2.is_none() {
            proof {
                assert(Self::seq_sv_eq(self.sv@, old(self).sv@));
            }
            return false;
        }

        let i1v: usize = i1.unwrap();
        let i2v: usize = i2.unwrap();

        let k12v: Fixed = match k12 {
            Some(k) => k,
            None => self.kernel.apply(&self.sv[i1v].x, &self.sv[i2v].x),
        };
        proof {
            old(self).kernel.lemma_symmetric(
                old(self).sv@[i2v as int].x@,
                old(self).sv@[i1v as int].x@,
            );
            assert(k12v.m == kv_at(old(self).kernel, old(self).sv@, i1v as int, i2v as int));
        }
        let result: bool = self.take_pair_step(i1v, i2v, k12v, tol, cache);
        result
    }

    /// Retire every active vector whose coefficient is zero and whose
    /// gradient is parked on a side that cannot re-enter optimization under
    /// the current extremes, and purge their cache entries. The surviving
    /// set is exactly [`cleaned`] of the old one.
    #[verifier::loop_isolation(false)]
    pub fn clean(&mut self, cache: &mut Cache)
        requires
            old(self).wf(),
            cache_coherent(old(cache)@, old(self).x@, old(self).kernel),
        ensures
            final(self).wf(),
            cache_coherent(final(cache)@, final(self).x@, final(self).kernel),
            final(self).x == old(self).x,
            final(self).y == old(self).y,
            final(self).params == old(self).params,
            final(self).kernel == old(self).kernel,
            final(self).tau == old(self).tau,
            final(self).recalculate_minmax_grad,
            final(self).sv@ == cleaned(old(self).sv@),
            final(self).sv@.len() <= old(self).sv@.len(),
            forall|k: (int, int)| #[trigger]
                final(cache)@.contains_key(k) <==> (old(cache)@.contains_key(k) && !is_retired(
                    old(self).sv@,
                    k.0,
                ) && !is_retired(old(self).sv@, k.1)),
            forall|k: (int, int)| #[trigger]
                final(cache)@.contains_key(k) ==> final(cache)@[k] == old(cache)@[k],
    {
        self.find_min_max_gradient();
        let gmax: Fixed = self.gmax;
        let gmin: Fixed = self.gmin;
        let mut kept: Vec<SupportVector> = Vec::new();
        let mut idxs_to_drop: Vec<usize> = Vec::new();
        let ghost orig = self.sv@;
        let n: usize = self.sv.len();
        let mut i: usize = 0;
        while self.sv.len() > 0
            invariant
                i <= orig.len(),
                n == orig.len(),
                self.sv@ == orig.subrange(i as int, orig.len() as int),
                self.x == old(self).x,
                self.y == old(self).y,
                self.params == old(self).params,
                self.kernel == old(self).kernel,
                self.tau == old(self).tau,
                self.gmax == gmax,
                self.gmin == gmin,
                kept@ == cleaned_upto(orig, gmin.m as int, gmax.m as int, i as int),
                forall|v: int|
                    #[trigger] seq_has(idxs_to_drop@, v) <==> (exists|j: int|
                        0 <= j < i && (#[trigger] orig[j]).index == v && evicted(
                            orig[j],
                            gmin.m as int,
                            gmax.m as int,
                        )),
            decreases orig.len() - i,
        {
            let v: SupportVector = self.sv.remove(0);
            proof {
                assert(v == orig[i as int]);
                assert(self.sv@ =~= orig.subrange(i + 1, orig.len() as int));
            }
            let drop_it: bool = v.alpha.m == 0 && ((v.grad.m >= gmax.m && 0 >= v.cmax.m) || (
            v.grad.m <= gmin.m && 0 <= v.cmin.m));
            if drop_it {
                let ghost idxs_pre = idxs_to_drop@;
                idxs_to_drop.push(v.index);
                proof {
                    assert(drop_it == evicted(orig[i as int], gmin.m as int, gmax.m as int));
                    assert forall|w: int| #[trigger] seq_has(idxs_to_drop@, w) implies (exists|
                        j: int,
                    |
                        0 <= j < i + 1 && (#[trigger] orig[j]).index == w && evicted(
                            orig[j],
                            gmin.m as int,
                            gmax.m as int,
                        )) by {
                        let t = choose|t: int| 0 <= t < idxs_to_drop@.len() && idxs_to_drop@[t] == w;
                        if t < idxs_pre.len() {
                            assert(seq_has(idxs_pre, w));
                        } else {
                            assert(orig[i as int].index == w);
                        }
                    }
                    assert forall|w: int|
                        (exists|j: int|
                            0 <= j < i + 1 && (#[trigger] orig[j]).index == w && evicted(
                                orig[j],
                                gmin.m as int,
                                gmax.m as int,
                            )) implies #[trigger] seq_has(idxs_to_drop@, w) by {
                        let j = choose|j: int|
                            0 <= j < i + 1 && (#[trigger] orig[j]).index == w && evicted(
                                orig[j],
                                gmin.m as int,
                                gmax.m as int,
                            );
                        if j < i {
                            assert(seq_has(idxs_pre, w));
                            let t = choose|t: int| 0 <= t < idxs_pre.len() && idxs_pre[t] == w;
                            assert(idxs_to_drop@[t] == w);
                        } else {
                            assert(idxs_to_drop@[idxs_to_drop@.len() - 1] == w);
                        }
                    }
                }
            } else {
                kept.push(v);
                proof {
                    assert(!evicted(orig[i as int], gmin.m as int, gmax.m as int));
                }
            }
            proof {
                assert(i < n);
            }
            i = i + 1;
        }
        self.sv = kept;
        cache.drop(&idxs_to_drop);
        self.recalculate_minmax_grad = true;
        proof {
            assert(orig.subrange(orig.len() as int, orig.len() as int).len() == 0);
            assert(i == orig.len());
            assert forall|v: int| #[trigger]
                seq_has(idxs_to_drop@, v) == is_retired(orig, v) by {}
            lemma_cleaned_props(orig, gmin.m as int, gmax.m as int, orig.len() as int);
            assert forall|t: int| 0 <= t < self.sv@.len() implies self.sv_ok(
                #[trigger] self.sv@[t],
            ) by {
                let j = choose|j: int|
                    0 <= j < orig.len() && #[trigger] self.sv@[t] == orig[j];
                assert(old(self).sv_ok(orig[j]));
            }
            assert forall|k: (int, int)| #[trigger] cache@.contains_key(k) implies 0 <= k.0
                < self.x@.len() && 0 <= k.1 < self.x@.len() && cache@[k].m
                == self.kernel.spec_apply(self.x@[k.0]@, self.x@[k.1]@) by {
                assert(old(cache)@.contains_key(k));
            }
        }
    }

    /// One unrestricted optimization step followed by a cleaning pass:
    /// the survivors are exactly the cleaned image of the step's result,
    /// which in turn follows the side choice and partner search the step
    /// fixes. When the extremes already satisfy `gmin >= gmax`, no
    /// coefficient moves: the surviving vectors keep their state exactly,
    /// and only zero-coefficient vectors are retired.
    pub fn reprocess(&mut self, tol: Fixed, cache: &mut Cache) -> (r: bool)
        requires
            old(self).wf(),
            cache_coherent(old(cache)@, old(self).x@, old(self).kernel),
        ensures
            final(self).wf(),
            cache_coherent(final(cache)@, final(self).x@, final(self).kernel),
            final(self).x == old(self).x,
            final(self).y == old(self).y,
            final(self).params == old(self).params,
            final(self).kernel == old(self).kernel,
            final(self).tau == old(self).tau,
            final(self).sv@.len() <= old(self).sv@.len(),
            gmin_of(old(self).sv@) >= gmax_of(old(self).sv@) ==> !r && final(self).sv@ == cleaned(
                old(self).sv@,
            ),
            exists|mid: Seq<SupportVector>|
                #![trigger state_witness(mid)]
                {
                    &&& state_witness(mid)
                    &&& (if gmax_of(old(self).sv@) > crate::fixed::clip(
                        -gmin_of(old(self).sv@),
                    ) {
                        Self::first_slot_outcome(
                            old(self).kernel,
                            old(self).sv@,
                            old(self).tau.m as int,
                            gmax_pos(old(self).sv@),
                            mid,
                            r,
                            tol.m as int,
                        )
                    } else if gmin_of(old(self).sv@) == i64::MAX {
                        !r && Self::seq_sv_eq(mid, old(self).sv@)
                    } else {
                        Self::second_slot_outcome(
                            old(self).kernel,
                            old(self).sv@,
                            old(self).tau.m as int,
                            gmin_pos(old(self).sv@),
                            mid,
                            r,
                            tol.m as int,
                        )
                    })
                    &&& final(self).sv@ == cleaned(mid)
                },
            Self::evolves_to(
                old(self).kernel,
                old(self).x@,
                old(self).y@,
                old(self).params.c,
                old(self).sv@,
                final(self).sv@,
            ),
    {
        let status: bool = self.smo(None, None, tol, cache);
        proof {
            if gmin_of(old(self).sv@) >= gmax_of(old(self).sv@) {
                assert(self.sv@ =~= old(self).sv@);
            }
        }
        let ghost mid = self.sv@;
        self.clean(cache);
        proof {
            assert(state_witness(mid));
            let ker = old(self).kernel;
            let sv0 = old(self).sv@;
            let tau0 = old(self).tau.m as int;
            assert(Self::seq_sv_eq(sv0, mid) || Self::pair_step(ker, sv0, mid)) by {
                if gmax_of(sv0) > crate::fixed::clip(-gmin_of(sv0)) {
                    lemma_extreme_folds_bounded(sv0, sv0.len() as int);
                    lemma_gmax_pos_valid(sv0, sv0.len() as int);
                    Self::lemma_first_outcome_is_step(
                        ker,
                        sv0,
                        tau0,
                        gmax_pos(sv0),
                        mid,
                        status,
                        tol.m as int,
                    );
                } else if gmin_of(sv0) == i64::MAX {
                    assert(Self::seq_sv_eq(sv0, mid));
                } else {
                    lemma_extreme_folds_bounded(sv0, sv0.len() as int);
                    lemma_gmin_pos_valid(sv0, sv0.len() as int);
                    Self::lemma_second_outcome_is_step(
                        ker,
                        sv0,
                        tau0,
                        gmin_pos(sv0),
                        mid,
                        status,
                        tol.m as int,
                    );
                }
            }
            Self::lemma_evolves_refl(ker, old(self).x@, old(self).y@, old(self).params.c, sv0);
            Self::lemma_evolves_step(
                ker,
                old(self).x@,
                old(self).y@,
                old(self).params.c,
                sv0,
                sv0,
                mid,
            );
            assert(Self::training_step(
                ker,
                old(self).x@,
                old(self).y@,
                old(self).params.c,
                mid,
                self.sv@,
            ));
            Self::lemma_evolves_step(
                ker,
                old(self).x@,
                old(self).y@,
                old(self).params.c,
                sv0,
                mid,
                self.sv@,
            );
        }
        status
    }

    /// Gradient a new sample would enter with: its label minus the
    /// coefficient-weighted kernel against each of the first `n` active
    /// vectors, accumulated left to right.
    pub open spec fn candidate_grad(&self, xr: Seq<Fixed>, y: Fixed, n: int) -> int {
        cgrad(self.kernel, self.sv@, xr, y, n)
    }

    /// Is the sample with this stable index already active?
    pub open spec fn has_index(&self, i: int) -> bool {
        exists|j: int| 0 <= j < self.sv@.len() && (#[trigger] self.sv@[j]).index == i
    }

    /// The active set the moment sample `i` joins at the front: a fresh
    /// vector with its entering gradient, zero coefficient and label-sign
    /// box bounds, ahead of the unchanged previous vectors.
    pub open spec fn inserted_state(
        &self,
        i: int,
        xr: Seq<Fixed>,
        y: Fixed,
        ins: Seq<SupportVector>,
    ) -> bool {
        Self::admitted_state(self.kernel, self.params.c, self.sv@, i, xr, y, ins)
    }

    /// Try to admit sample `i` into the active set.
    ///
    /// An already-active sample is rejected without change, as is one
    /// whose entering gradient shows it cannot improve the solution while
    /// the extremes are well ordered. Otherwise the sample joins at the
    /// front of the active set, the kernel values computed along the way
    /// pre-populate the cache, and one directed pairwise step is attempted
    /// against the best opposite-side partner.
    #[verifier::loop_isolation(false)]
    pub fn process(&mut self, i: usize, x: Vec<Fixed>, y: Fixed, cache: &mut Cache) -> (r: bool)
        requires
            old(self).wf(),
            cache_coherent(old(cache)@, old(self).x@, old(self).kernel),
            i < old(self).x@.len(),
            x@ == old(self).x@[i as int]@,
        ensures
            final(self).wf(),
            cache_coherent(final(cache)@, final(self).x@, final(self).kernel),
            final(self).x == old(self).x,
            final(self).y == old(self).y,
            final(self).params == old(self).params,
            final(self).kernel == old(self).kernel,
            final(self).tau == old(self).tau,
            r == (!old(self).has_index(i as int) && !(gmin_of(old(self).sv@) < gmax_of(
                old(self).sv@,
            ) && ((y.m > 0 && old(self).candidate_grad(x@, y, old(self).sv@.len() as int)
                < gmin_of(old(self).sv@)) || (y.m < 0 && old(self).candidate_grad(
                x@,
                y,
                old(self).sv@.len() as int,
            ) > gmax_of(old(self).sv@))))),
            !r ==> final(self).sv@ == old(self).sv@ && final(cache)@ == old(cache)@,
            r ==> final(self).sv@.len() == old(self).sv@.len() + 1 && final(self).sv@[0].index
                == i && (forall|j: int|
                1 <= j < final(self).sv@.len() ==> (#[trigger] final(self).sv@[j]).index == old(
                    self,
                ).sv@[j - 1].index),
            r ==> (forall|j: int|
                0 <= j < old(self).sv@.len() ==> final(cache)@.contains_key(
                    #[trigger] canon_key(i as int, old(self).sv@[j].index as int),
                )),
            r ==> (exists|ins: Seq<SupportVector>|
                #![trigger state_witness(ins)]
                {
                    &&& state_witness(ins)
                    &&& old(self).inserted_state(i as int, x@, y, ins)
                    &&& ((forall|t: int| 0 <= t < ins.len() ==> #[trigger] final(self).sv@[t]
                        == ins[t]) || Self::pair_step(old(self).kernel, ins, final(self).sv@))
                }),
            y == old(self).y@[i as int] ==> Self::evolves_to(
                old(self).kernel,
                old(self).x@,
                old(self).y@,
                old(self).params.c,
                old(self).sv@,
                final(self).sv@,
            ),
    {
        let n: usize = self.sv.len();
        let mut j: usize = 0;
        while j < n
            invariant
                j <= n,
                n == self.sv@.len(),
                forall|t: int| 0 <= t < j ==> (#[trigger] self.sv@[t]).index != i,
            decreases n - j,
        {
            if self.sv[j].index == i {
                proof {
                    Self::lemma_evolves_refl(
                        old(self).kernel,
                        old(self).x@,
                        old(self).y@,
                        old(self).params.c,
                        old(self).sv@,
                    );
                }
                return false;
            }
            j = j + 1;
        }

        let mut g: Fixed = y;
        let mut cache_values: Vec<(usize, Fixed)> = Vec::new();
        let mut t: usize = 0;
        while t < n
            invariant
                t <= n,
                n == self.sv@.len(),
                self.sv == old(self).sv,
                self.x == old(self).x,
                self.kernel == old(self).kernel,
                g.m == self.candidate_grad(x@, y, t as int),
                cache_values@.len() == t,
                forall|u: int|
                    0 <= u < t ==> (#[trigger] cache_values@[u]).0 == self.sv@[u].index
                        && cache_values@[u].1.m == self.kernel.spec_apply(self.sv@[u].x@, x@),
            decreases n - t,
        {
            let k: Fixed = self.kernel.apply(&self.sv[t].x, &x);
            cache_values.push((self.sv[t].index, k));
            g = g.sub(self.sv[t].alpha.mul(k));
            t = t + 1;
        }

        self.find_min_max_gradient();

        if self.gmin.m < self.gmax.m {
            if (y.m > 0 && g.m < self.gmin.m) || (y.m < 0 && g.m > self.gmax.m) {
                proof {
                    Self::lemma_evolves_refl(
                        old(self).kernel,
                        old(self).x@,
                        old(self).y@,
                        old(self).params.c,
                        old(self).sv@,
                    );
                }
                return false;
            }
        }

        let mut u: usize = 0;
        while u < cache_values.len()
            invariant
                u <= cache_values@.len(),
                self.sv == old(self).sv,
                self.x == old(self).x,
                self.kernel == old(self).kernel,
                cache_coherent(cache@, self.x@, self.kernel),
                forall|w: int|
                    0 <= w < u ==> cache@.contains_key(
                        #[trigger] canon_key(i as int, self.sv@[w].index as int),
                    ),
                forall|w: int|
                    0 <= w < cache_values@.len() ==> (#[trigger] cache_values@[w]).0
                        == self.sv@[w].index && cache_values@[w].1.m == self.kernel.spec_apply(
                        self.sv@[w].x@,
                        x@,
                    ),
            decreases cache_values@.len() - u,
        {
            let (vi, vk): (usize, Fixed) = cache_values[u];
            cache.insert(i, vi, vk);
            proof {
                self.kernel.lemma_symmetric(self.sv@[u as int].x@, x@);
                assert(self.sv_ok(self.sv@[u as int]));
            }
            u = u + 1;
        }

        let c: Fixed = self.params.c;
        let new_v: SupportVector = SupportVector::new(i, x, y, g, c, &self.kernel);
        let ghost pre_sv = self.sv@;
        self.sv.insert(0, new_v);
        self.recalculate_minmax_grad = true;
        let ghost mid = self.sv@;
        let ghost cache_mid = cache@;
        proof {
            lemma_sum_alpha_prepend(pre_sv, new_v, pre_sv.len() as int);
            assert(forall|t2: int|
                1 <= t2 < self.sv@.len() ==> #[trigger] self.sv@[t2] == pre_sv[t2 - 1]);
            assert(self.sv@[0] == new_v);
            assert(old(self).inserted_state(i as int, x@, y, mid));
        }

        if y.m > 0 {
            self.smo(None, Some(0), Fixed::zero(), cache);
        } else {
            self.smo(Some(0), None, Fixed::zero(), cache);
        }

        proof {
            assert(state_witness(mid));
            assert forall|j: int|
                0 <= j < old(self).sv@.len() implies cache@.contains_key(
                #[trigger] canon_key(i as int, old(self).sv@[j].index as int),
            ) by {
                assert(cache_mid.contains_key(canon_key(i as int, old(self).sv@[j].index as int)));
            }
            if y == old(self).y@[i as int] {
                assert(sample_witness(i as int));
                assert(Self::admitted_state(
                    old(self).kernel,
                    old(self).params.c,
                    old(self).sv@,
                    i as int,
                    old(self).x@[i as int]@,
                    old(self).y@[i as int],
                    mid,
                ));
                assert(Self::training_step(
                    old(self).kernel,
                    old(self).x@,
                    old(self).y@,
                    old(self).params.c,
                    old(self).sv@,
                    self.sv@,
                ));
                Self::lemma_evolves_refl(
                    old(self).kernel,
                    old(self).x@,
                    old(self).y@,
                    old(self).params.c,
                    old(self).sv@,
                );
                Self::lemma_evolves_step(
                    old(self).kernel,
                    old(self).x@,
                    old(self).y@,
                    old(self).params.c,
                    old(self).sv@,
                    old(self).sv@,
                    self.sv@,
                );
            }
        }

        true
    }

    /// Can the second active set be reached from the first by at most `n`
    /// rounds, each leaving the set untouched or applying one
    /// box-respecting pair transfer?
    pub open spec fn reached_by_steps(
        kernel: K,
        a: Seq<SupportVector>,
        b: Seq<SupportVector>,
        n: nat,
    ) -> bool
        decreases n,
    {
        if n == 0 {
            Self::seq_sv_eq(a, b)
        } else {
            exists|mid: Seq<SupportVector>|
                #![trigger state_witness(mid)]
                {
                    &&& state_witness(mid)
                    &&& Self::reached_by_steps(kernel, a, mid, (n - 1) as nat)
                    &&& (Self::seq_sv_eq(mid, b) || Self::pair_step(kernel, mid, b))
                }
        }
    }

    /// Drain the active set toward convergence: keep taking unrestricted
    /// steps while the gap exceeds the tolerance, bounded by a safety cap
    /// equal to the active-set size, then clean once. The result is the
    /// cleaned image of a state the old set reaches by pair steps.
    pub fn finish(&mut self, cache: &mut Cache)
        requires
            old(self).wf(),
            cache_coherent(old(cache)@, old(self).x@, old(self).kernel),
        ensures
            final(self).wf(),
            cache_coherent(final(cache)@, final(self).x@, final(self).kernel),
            final(self).x == old(self).x,
            final(self).y == old(self).y,
            final(self).params == old(self).params,
            final(self).kernel == old(self).kernel,
            final(self).tau == old(self).tau,
            exists|pre: Seq<SupportVector>, n: nat|
                #![trigger state_witness(pre), steps_witness(n)]
                {
                    &&& state_witness(pre)
                    &&& steps_witness(n)
                    &&& n <= old(self).sv@.len() + 1
                    &&& Self::reached_by_steps(old(self).kernel, old(self).sv@, pre, n)
                    &&& final(self).sv@ == cleaned(pre)
                },
            Self::evolves_to(
                old(self).kernel,
                old(self).x@,
                old(self).y@,
                old(self).params.c,
                old(self).sv@,
                final(self).sv@,
            ),
    {
        let mut max_iter: usize = self.sv.len();
        let tol: Fixed = self.params.tol;
        let ghost mut rounds: nat = 0nat;
        proof {
            assert(Self::seq_sv_eq(old(self).sv@, self.sv@));
            Self::lemma_evolves_refl(
                old(self).kernel,
                old(self).x@,
                old(self).y@,
                old(self).params.c,
                old(self).sv@,
            );
        }
        loop
            invariant_except_break
                rounds + max_iter <= old(self).sv@.len(),
            invariant
                self.wf(),
                cache_coherent(cache@, self.x@, self.kernel),
                self.x == old(self).x,
                self.y == old(self).y,
                self.params == old(self).params,
                self.kernel == old(self).kernel,
                self.tau == old(self).tau,
                rounds <= old(self).sv@.len() + 1,
                Self::reached_by_steps(old(self).kernel, old(self).sv@, self.sv@, rounds),
                Self::evolves_to(
                    old(self).kernel,
                    old(self).x@,
                    old(self).y@,
                    old(self).params.c,
                    old(self).sv@,
                    self.sv@,
                ),
            decreases max_iter,
        {
            let ghost mid = self.sv@;
            let status: bool = self.smo(None, None, tol, cache);
            proof {
                assert(state_witness(mid));
                assert(Self::seq_sv_eq(mid, self.sv@) || Self::pair_step(
                    old(self).kernel,
                    mid,
                    self.sv@,
                )) by {
                    if !Self::pair_step(old(self).kernel, mid, self.sv@) {
                        assert(Self::seq_sv_eq(mid, self.sv@));
                    }
                }
                rounds = rounds + 1;
                assert(Self::reached_by_steps(old(self).kernel, old(self).sv@, self.sv@, rounds));
                Self::lemma_evolves_step(
                    old(self).kernel,
                    old(self).x@,
                    old(self).y@,
                    old(self).params.c,
                    old(self).sv@,
                    mid,
                    self.sv@,
                );
            }
            if !status {
                break ;
            }
            if max_iter == 0 {
                break ;
            }
            max_iter = max_iter - 1;
        }
        let ghost pre = self.sv@;
        self.clean(cache);
        proof {
            assert(state_witness(pre));
            assert(steps_witness(rounds));
            assert(Self::training_step(
                old(self).kernel,
                old(self).x@,
                old(self).y@,
                old(self).params.c,
                pre,
                self.sv@,
            ));
            Self::lemma_evolves_step(
                old(self).kernel,
                old(self).x@,
                old(self).y@,
                old(self).params.c,
                old(self).sv@,
                pre,
                self.sv@,
            );
        }
    }

    /// A shuffled visiting order for `n` samples, driven by the seeded
    /// generator: a genuine permutation, every sample appearing once.
    pub fn permutate(n: usize, rng: &mut SplitMix) -> (r: Vec<usize>)
        ensures
            r@.len() == n,
            forall|i: int| 0 <= i < n ==> #[trigger] r@[i] < n,
            forall|i: int, j: int| 0 <= i < j < n ==> r@[i] != r@[j],
            forall|v: int| 0 <= v < n ==> crate::rng::perm_has(r@, v),
    {
        permutation(n, rng)
    }

    /// Seed the active set with samples visited in shuffled order: at
    /// most five admissions are taken per class (counting the newly added
    /// vectors by their samples' labels), only unit-labeled samples are
    /// offered, the previously active vectors keep their places after the
    /// added ones, and whenever any unit-labeled sample exists at all the
    /// active set ends non-empty.
    #[verifier::loop_isolation(false)]
    pub fn initialize(&mut self, cache: &mut Cache, rng: &mut SplitMix)
        requires
            old(self).wf(),
            cache_coherent(old(cache)@, old(self).x@, old(self).kernel),
        ensures
            final(self).wf(),
            cache_coherent(final(cache)@, final(self).x@, final(self).kernel),
            final(self).x == old(self).x,
            final(self).y == old(self).y,
            final(self).params == old(self).params,
            final(self).kernel == old(self).kernel,
            final(self).tau == old(self).tau,
            final(self).sv@.len() <= old(self).sv@.len() + 10,
            final(self).sv@.len() >= old(self).sv@.len(),
            count_label(
                final(self).sv@,
                old(self).y@,
                SCALE as int,
                final(self).sv@.len() - old(self).sv@.len(),
            ) <= 5,
            count_label(
                final(self).sv@,
                old(self).y@,
                -(SCALE as int),
                final(self).sv@.len() - old(self).sv@.len(),
            ) <= 5,
            forall|j: int|
                0 <= j < final(self).sv@.len() - old(self).sv@.len() ==> (#[trigger] final(self).sv@[j]).index
                    < old(self).y@.len() && (old(self).y@[final(self).sv@[j].index as int].m
                    == SCALE || old(self).y@[final(self).sv@[j].index as int].m as int == -(
                SCALE as int)),
            forall|p: int|
                final(self).sv@.len() - old(self).sv@.len() <= p < final(self).sv@.len() ==> (
                #[trigger] final(self).sv@[p]).index == old(self).sv@[p - (final(self).sv@.len()
                    - old(self).sv@.len())].index,
            (exists|u: int|
                0 <= u < old(self).y@.len() && ((#[trigger] old(self).y@[u]).m == SCALE || old(
                    self,
                ).y@[u].m as int == -(SCALE as int))) ==> final(self).sv@.len() >= 1,
            Self::evolves_to(
                old(self).kernel,
                old(self).x@,
                old(self).y@,
                old(self).params.c,
                old(self).sv@,
                final(self).sv@,
            ),
    {
        proof {
            Self::lemma_evolves_refl(
                old(self).kernel,
                old(self).x@,
                old(self).y@,
                old(self).params.c,
                old(self).sv@,
            );
        }
        let n: usize = self.x.len();
        let few: usize = 5;
        let mut cp: usize = 0;
        let mut cn: usize = 0;
        let perm: Vec<usize> = Self::permutate(n, rng);
        let mut t: usize = 0;
        while t < perm.len()
            invariant
                t <= perm@.len(),
                perm@.len() == n,
                n == self.x@.len(),
                forall|u: int| 0 <= u < n ==> #[trigger] perm@[u] < n,
                forall|v: int| 0 <= v < n ==> crate::rng::perm_has(perm@, v),
                cp <= few,
                cn <= few,
                few == 5,
                self.wf(),
                cache_coherent(cache@, self.x@, self.kernel),
                self.x == old(self).x,
                self.y == old(self).y,
                self.params == old(self).params,
                self.kernel == old(self).kernel,
                self.tau == old(self).tau,
                self.sv@.len() <= old(self).sv@.len() + cp + cn,
                self.sv@.len() >= old(self).sv@.len(),
                cp >= 1 ==> self.sv@.len() >= 1,
                cn >= 1 ==> self.sv@.len() >= 1,
                count_label(
                    self.sv@,
                    self.y@,
                    SCALE as int,
                    self.sv@.len() - old(self).sv@.len(),
                ) <= cp,
                count_label(
                    self.sv@,
                    self.y@,
                    -(SCALE as int),
                    self.sv@.len() - old(self).sv@.len(),
                ) <= cn,
                forall|j: int|
                    0 <= j < self.sv@.len() - old(self).sv@.len() ==> (#[trigger] self.sv@[j]).index
                        < self.y@.len() && (self.y@[self.sv@[j].index as int].m == SCALE
                        || self.y@[self.sv@[j].index as int].m as int == -(SCALE as int)),
                forall|p: int|
                    self.sv@.len() - old(self).sv@.len() <= p < self.sv@.len() ==> (
                    #[trigger] self.sv@[p]).index == old(self).sv@[p - (self.sv@.len() - old(
                        self,
                    ).sv@.len())].index,
                (exists|u: int|
                    0 <= u < t && ((#[trigger] self.y@[perm@[u] as int]).m == SCALE
                        || self.y@[perm@[u] as int].m as int == -(SCALE as int)))
                    ==> self.sv@.len() >= 1,
                Self::evolves_to(
                    old(self).kernel,
                    old(self).x@,
                    old(self).y@,
                    old(self).params.c,
                    old(self).sv@,
                    self.sv@,
                ),
            decreases perm@.len() - t,
        {
            let i: usize = perm[t];
            let yi: Fixed = self.y[i];
            let ghost pre_sv = self.sv@;
            let ghost pre_added = self.sv@.len() - old(self).sv@.len();
            if yi.m == SCALE && cp < few {
                let row: Vec<Fixed> = copy_row(&self.x, i);
                let ghost before = self.sv@;
                let admitted: bool = self.process(i, row, yi, cache);
                proof {
                    Self::lemma_evolves_trans(
                        old(self).kernel,
                        old(self).x@,
                        old(self).y@,
                        old(self).params.c,
                        old(self).sv@,
                        before,
                        self.sv@,
                    );
                }
                if admitted {
                    proof {
                        lemma_count_label_shift(
                            self.sv@,
                            pre_sv,
                            self.y@,
                            SCALE as int,
                            pre_added,
                        );
                        lemma_count_label_shift(
                            self.sv@,
                            pre_sv,
                            self.y@,
                            -(SCALE as int),
                            pre_added,
                        );
                        assert forall|p: int|
                            self.sv@.len() - old(self).sv@.len() <= p < self.sv@.len() implies (
                        #[trigger] self.sv@[p]).index == old(self).sv@[p - (self.sv@.len() - old(
                            self,
                        ).sv@.len())].index by {
                            assert(self.sv@[p].index == pre_sv[p - 1].index);
                            assert(pre_sv[p - 1].index == old(self).sv@[p - 1
                                - pre_added].index);
                        }
                        assert forall|j: int|
                            0 <= j < self.sv@.len() - old(self).sv@.len() implies (
                        #[trigger] self.sv@[j]).index < self.y@.len() && (self.y@[self.sv@[j].index
                            as int].m == SCALE || self.y@[self.sv@[j].index as int].m as int == -(
                        SCALE as int)) by {
                            if j >= 1 {
                                assert(self.sv@[j].index == pre_sv[j - 1].index);
                            }
                        }
                    }
                    cp = cp + 1;
                } else {
                    proof {
                        assert(self.sv@.len() >= 1);
                    }
                }
            } else if yi.m == -SCALE && cn < few {
                let row: Vec<Fixed> = copy_row(&self.x, i);
                let ghost before = self.sv@;
                let admitted: bool = self.process(i, row, yi, cache);
                proof {
                    Self::lemma_evolves_trans(
                        old(self).kernel,
                        old(self).x@,
                        old(self).y@,
                        old(self).params.c,
                        old(self).sv@,
                        before,
                        self.sv@,
                    );
                }
                if admitted {
                    proof {
                        lemma_count_label_shift(
                            self.sv@,
                            pre_sv,
                            self.y@,
                            SCALE as int,
                            pre_added,
                        );
                        lemma_count_label_shift(
                            self.sv@,
                            pre_sv,
                            self.y@,
                            -(SCALE as int),
                            pre_added,
                        );
                        assert forall|p: int|
                            self.sv@.len() - old(self).sv@.len() <= p < self.sv@.len() implies (
                        #[trigger] self.sv@[p]).index == old(self).sv@[p - (self.sv@.len() - old(
                            self,
                        ).sv@.len())].index by {
                            assert(self.sv@[p].index == pre_sv[p - 1].index);
                            assert(pre_sv[p - 1].index == old(self).sv@[p - 1
                                - pre_added].index);
                        }
                        assert forall|j: int|
                            0 <= j < self.sv@.len() - old(self).sv@.len() implies (
                        #[trigger] self.sv@[j]).index < self.y@.len() && (self.y@[self.sv@[j].index
                            as int].m == SCALE || self.y@[self.sv@[j].index as int].m as int == -(
                        SCALE as int)) by {
                            if j >= 1 {
                                assert(self.sv@[j].index == pre_sv[j - 1].index);
                            }
                        }
                    }
                    cn = cn + 1;
                } else {
                    proof {
                        assert(self.sv@.len() >= 1);
                    }
                }
            }
            if cp >= few && cn >= few {
                break ;
            }
            t = t + 1;
        }
        proof {
            if t == n {
                assert forall|u: int|
                    0 <= u < old(self).y@.len() && ((#[trigger] old(self).y@[u]).m == SCALE || old(
                        self,
                    ).y@[u].m as int == -(SCALE as int)) implies self.sv@.len() >= 1 by {
                    assert(crate::rng::perm_has(perm@, u));
                    let w = choose|w: int| 0 <= w < perm@.len() && perm@[w] == u;
                    assert(self.y@[perm@[w] as int].m == old(self).y@[u].m);
                }
            }
        }
    }

    /// Run the whole training: seed the active set, make the configured
    /// number of shuffled passes admitting samples and refining after each
    /// admission until the gap falls under the coarse threshold (with a
    /// safety cap), drain to convergence, and emit the retained rows,
    /// their final coefficients, the bias, and the kernel.
    ///
    /// The coefficients returned always sum to zero, and each is bounded
    /// in magnitude by the regularization strength; every returned row is
    /// one of the training rows.
    #[verifier::loop_isolation(false)]
    #[verifier::rlimit(100)]
    #[verifier::spinoff_prover]
    pub fn optimize(self) -> (r: (Vec<Vec<Fixed>>, Vec<Fixed>, Fixed, K))
        requires
            self.wf(),
        ensures
            r.0@.len() == r.1@.len(),
            sum_fixed(r.1@) == 0,
            forall|t: int|
                0 <= t < r.1@.len() ==> crate::fixed::iabs((#[trigger] r.1@[t]).m as int)
                    <= self.params.c.m,
            forall|t: int| 0 <= t < r.0@.len() ==> row_of(self.x@, #[trigger] r.0@[t]),
            r.3 == self.kernel,
            exists|fin: Optimizer<K>|
                #![trigger opt_witness(fin)]
                {
                    &&& opt_witness(fin)
                    &&& fin.x == self.x
                    &&& fin.y == self.y
                    &&& fin.params == self.params
                    &&& fin.kernel == self.kernel
                    &&& fin.tau == self.tau
                    &&& fin.wf()
                    &&& !fin.recalculate_minmax_grad
                    &&& r.0@.len() == fin.sv@.len()
                    &&& (forall|t: int|
                        0 <= t < fin.sv@.len() ==> (#[trigger] r.0@[t])@ == fin.sv@[t].x@
                            && r.1@[t] == fin.sv@[t].alpha)
                    &&& r.2.m as int == spec_div(
                        spec_add(fin.gmax.m as int, fin.gmin.m as int),
                        2 * (SCALE as int),
                    )
                    &&& Self::evolves_to(
                        self.kernel,
                        self.x@,
                        self.y@,
                        self.params.c,
                        self.sv@,
                        fin.sv@,
                    )
                },
    {
        let mut slf = self;
        let n: usize = slf.x.len();
        let mut cache: Cache = Cache::new();
        let mut rng: SplitMix = SplitMix::new(slf.params.seed);
        slf.initialize(&mut cache, &mut rng);
        proof {
            assert(Self::evolves_to(
                self.kernel,
                self.x@,
                self.y@,
                self.params.c,
                self.sv@,
                slf.sv@,
            ));
        }
        let tol: Fixed = slf.params.tol;
        let good_enough: Fixed = slf.params.coarse_tol;
        let mut e: usize = 0;
        while e < slf.params.epoch
            invariant
                slf.wf(),
                cache_coherent(cache@, slf.x@, slf.kernel),
                slf.x == self.x,
                slf.y == self.y,
                slf.params == self.params,
                slf.kernel == self.kernel,
                slf.tau == self.tau,
                n == slf.x@.len(),
                Self::evolves_to(self.kernel, self.x@, self.y@, self.params.c, self.sv@, slf.sv@),
            decreases slf.params.epoch - e,
        {
            let perm: Vec<usize> = Self::permutate(n, &mut rng);
            let mut t: usize = 0;
            while t < perm.len()
                invariant
                    t <= perm@.len(),
                    perm@.len() == n,
                    forall|u: int| 0 <= u < n ==> #[trigger] perm@[u] < n,
                    slf.wf(),
                    cache_coherent(cache@, slf.x@, slf.kernel),
                    slf.x == self.x,
                    slf.y == self.y,
                    slf.params == self.params,
                    slf.kernel == self.kernel,
                    slf.tau == self.tau,
                    n == slf.x@.len(),
                    Self::evolves_to(
                        self.kernel,
                        self.x@,
                        self.y@,
                        self.params.c,
                        self.sv@,
                        slf.sv@,
                    ),
                decreases perm@.len() - t,
            {
                let i: usize = perm[t];
                let row: Vec<Fixed> = copy_row(&slf.x, i);
                let yi: Fixed = slf.y[i];
                let ghost before = slf.sv@;
                slf.process(i, row, yi, &mut cache);
                proof {
                    Self::lemma_evolves_trans(
                        self.kernel,
                        self.x@,
                        self.y@,
                        self.params.c,
                        self.sv@,
                        before,
                        slf.sv@,
                    );
                }
                let mut guard: usize = slf.sv.len();
                loop
                    invariant
                        slf.wf(),
                        cache_coherent(cache@, slf.x@, slf.kernel),
                        slf.x == self.x,
                        slf.y == self.y,
                        slf.params == self.params,
                        slf.kernel == self.kernel,
                        slf.tau == self.tau,
                        Self::evolves_to(
                            self.kernel,
                            self.x@,
                            self.y@,
                            self.params.c,
                            self.sv@,
                            slf.sv@,
                        ),
                    decreases guard,
                {
                    let ghost before = slf.sv@;
                    slf.reprocess(tol, &mut cache);
                    proof {
                        Self::lemma_evolves_trans(
                            self.kernel,
                            self.x@,
                            self.y@,
                            self.params.c,
                            self.sv@,
                            before,
                            slf.sv@,
                        );
                    }
                    slf.find_min_max_gradient();
                    let gap: Fixed = slf.gmax.sub(slf.gmin);
                    if gap.m < good_enough.m {
                        break ;
                    }
                    if guard == 0 {
                        break ;
                    }
                    guard = guard - 1;
                }
                t = t + 1;
            }
            e = e + 1;
        }
        let ghost before_finish = slf.sv@;
        slf.finish(&mut cache);
        proof {
            Self::lemma_evolves_trans(
                self.kernel,
                self.x@,
                self.y@,
                self.params.c,
                self.sv@,
                before_finish,
                slf.sv@,
            );
        }
        slf.find_min_max_gradient();
        let b: Fixed = slf.gmax.add(slf.gmin).div(Fixed::two());
        let mut support_vectors: Vec<Vec<Fixed>> = Vec::new();
        let mut w: Vec<Fixed> = Vec::new();
        let m: usize = slf.sv.len();
        let mut t: usize = 0;
        while t < m
            invariant
                t <= m,
                m == slf.sv@.len(),
                slf.wf(),
                slf.x == self.x,
                slf.params == self.params,
                support_vectors@.len() == t,
                w@.len() == t,
                sum_fixed_upto(w@, t as int) == sum_alpha_upto(slf.sv@, t as int),
                forall|u: int|
                    0 <= u < t ==> crate::fixed::iabs((#[trigger] w@[u]).m as int)
                        <= slf.params.c.m,
                forall|u: int| 0 <= u < t ==> row_of(slf.x@, #[trigger] support_vectors@[u]),
                forall|u: int|
                    0 <= u < t ==> (#[trigger] support_vectors@[u])@ == slf.sv@[u].x@ && w@[u]
                        == slf.sv@[u].alpha,
            decreases m - t,
        {
            proof {
                assert(slf.sv_ok(slf.sv@[t as int]));
            }
            let row: Vec<Fixed> = copy_sv_row(&slf.sv, t);
            support_vectors.push(row);
            let ghost w_pre = w@;
            w.push(slf.sv[t].alpha);
            proof {
                let idx = slf.sv@[t as int].index as int;
                assert(support_vectors@[t as int]@ == slf.x@[idx]@);
                assert(row_of(slf.x@, support_vectors@[t as int]));
                lemma_sum_fixed_congruence(w@, w_pre, t as int);
                assert(sum_fixed_upto(w@, t + 1) == sum_fixed_upto(w@, t as int) + w@[t as int].m);
            }
            t = t + 1;
        }
        proof {
            assert(opt_witness(slf));
        }
        (support_vectors, w, b, slf.kernel)
    }
}

/// Trigger anchor for the existential in [`Optimizer::pair_step`].
pub open spec fn pair_witness(v1: int, v2: int, s: Fixed) -> bool {
    true
}

/// A trained support-vector classifier: the retained feature rows, their
/// final weights, a scalar bias, and the kernel, used only for inference.
#[derive(Debug)]
pub struct SVC<K: Kernel> {
    /// The similarity function training ran under.
    pub kernel: K,
    /// The retained feature rows.
    pub instances: Vec<Vec<Fixed>>,
    /// Final weight of each retained row; the surviving dual coefficients.
    pub w: Vec<Fixed>,
    /// Scalar offset added before the sign decision.
    pub b: Fixed,
}

impl<K: Kernel> SVC<K> {
    /// The weights and retained rows stand in one-to-one correspondence.
    pub open spec fn wf_model(&self) -> bool {
        self.instances@.len() == self.w@.len()
    }

    /// The decision value on a row, folded over the first `n` retained
    /// vectors: the bias plus each weight times the kernel against its row.
    pub open spec fn decision(&self, xr: Seq<Fixed>, n: int) -> int
        decreases n,
    {
        if n <= 0 {
            self.b.m as int
        } else {
            spec_add(
                self.decision(xr, n - 1),
                spec_mul(
                    self.w@[n - 1].m as int,
                    self.kernel.spec_apply(xr, self.instances@[n - 1]@),
                ),
            )
        }
    }

    /// Fit a classifier to the samples.
    ///
    /// Fails exactly when the number of feature rows differs from the
    /// number of labels, reporting both counts. On success the model's
    /// weights sum to zero, each is bounded in magnitude by the
    /// regularization strength, and every retained row is a training row.
    pub fn fit(x: &Vec<Vec<Fixed>>, y: &Vec<Fixed>, kernel: K, parameters: SVCParameters) -> (r:
        Result<SVC<K>, Failed>)
        requires
            0 <= parameters.c.m <= C_LIMIT,
        ensures
            (x@.len() != y@.len()) <==> r is Err,
            r matches Err(e) ==> e.rows == x@.len() && e.labels == y@.len(),
            r matches Ok(m) ==> {
                &&& m.wf_model()
                &&& sum_fixed(m.w@) == 0
                &&& forall|t: int|
                    0 <= t < m.w@.len() ==> crate::fixed::iabs((#[trigger] m.w@[t]).m as int)
                        <= parameters.c.m
                &&& forall|t: int| 0 <= t < m.instances@.len() ==> row_of(x@, #[trigger] m.instances@[t])
                &&& m.kernel == kernel
            },
            r matches Ok(m) ==> exists|fin: Optimizer<K>|
                #![trigger opt_witness(fin)]
                {
                    &&& opt_witness(fin)
                    &&& fin.x@.len() == x@.len()
                    &&& (forall|i: int| 0 <= i < x@.len() ==> (#[trigger] fin.x@[i])@ == x@[i]@)
                    &&& fin.y@ == y@
                    &&& fin.params == parameters
                    &&& fin.kernel == kernel
                    &&& fin.wf()
                    &&& !fin.recalculate_minmax_grad
                    &&& m.instances@.len() == fin.sv@.len()
                    &&& (forall|t: int|
                        0 <= t < fin.sv@.len() ==> (#[trigger] m.instances@[t])@ == fin.sv@[t].x@
                            && m.w@[t] == fin.sv@[t].alpha)
                    &&& m.b.m as int == spec_div(
                        spec_add(fin.gmax.m as int, fin.gmin.m as int),
                        2 * (SCALE as int),
                    )
                    &&& Optimizer::<K>::evolves_to(
                        fin.kernel,
                        fin.x@,
                        fin.y@,
                        parameters.c,
                        Seq::<SupportVector>::empty(),
                        fin.sv@,
                    )
                },
    {
        let n: usize = x.len();
        if n != y.len() {
            return Err(Failed::fit(n, y.len()));
        }
        let xc: Vec<Vec<Fixed>> = copy_rows(x);
        let ghost xcv = xc@;
        let yc: Vec<Fixed> = copy_fixed_vec(y);
        let optimizer: Optimizer<K> = Optimizer::new(xc, yc, kernel, parameters);
        let (support_vectors, weight, b, kernel_back): (Vec<Vec<Fixed>>, Vec<Fixed>, Fixed, K) =
            optimizer.optimize();
        proof {
            assert forall|t: int| 0 <= t < support_vectors@.len() implies row_of(
                x@,
                #[trigger] support_vectors@[t],
            ) by {
                lemma_row_of_transfer(xcv, x@, support_vectors@[t]);
            }
            let fin = choose|fin: Optimizer<K>|
                #![trigger opt_witness(fin)]
                {
                    &&& opt_witness(fin)
                    &&& fin.x == optimizer.x
                    &&& fin.y == optimizer.y
                    &&& fin.params == optimizer.params
                    &&& fin.kernel == optimizer.kernel
                    &&& fin.tau == optimizer.tau
                    &&& fin.wf()
                    &&& !fin.recalculate_minmax_grad
                    &&& support_vectors@.len() == fin.sv@.len()
                    &&& (forall|t: int|
                        0 <= t < fin.sv@.len() ==> (#[trigger] support_vectors@[t])@
                            == fin.sv@[t].x@ && weight@[t] == fin.sv@[t].alpha)
                    &&& b.m as int == spec_div(
                        spec_add(fin.gmax.m as int, fin.gmin.m as int),
                        2 * (SCALE as int),
                    )
                    &&& Optimizer::<K>::evolves_to(
                        optimizer.kernel,
                        optimizer.x@,
                        optimizer.y@,
                        optimizer.params.c,
                        optimizer.sv@,
                        fin.sv@,
                    )
                };
            assert(opt_witness(fin));
            assert(fin.y@ == y@);
            assert(optimizer.sv@ =~= Seq::<SupportVector>::empty());
            assert(Optimizer::<K>::evolves_to(
                fin.kernel,
                fin.x@,
                fin.y@,
                parameters.c,
                Seq::<SupportVector>::empty(),
                fin.sv@,
            ));
        }
        Ok(SVC { kernel: kernel_back, instances: support_vectors, w: weight, b })
    }

    /// Predicted class labels for each row: plus one where the decision
    /// value is positive, minus one otherwise (ties classify negative).
    #[verifier::loop_isolation(false)]
    pub fn predict(&self, x: &Vec<Vec<Fixed>>) -> (r: Result<Vec<Fixed>, Failed>)
        requires
            self.wf_model(),
        ensures
            r is Ok,
            r matches Ok(yh) ==> yh@.len() == x@.len() && (forall|i: int|
                0 <= i < x@.len() ==> (#[trigger] yh@[i]).m as int == (if self.decision(
                    x@[i]@,
                    self.w@.len() as int,
                ) > 0 {
                    SCALE as int
                } else {
                    -(SCALE as int)
                })),
    {
        let n: usize = x.len();
        let mut y_hat: Vec<Fixed> = Vec::new();
        let mut i: usize = 0;
        while i < n
            invariant
                i <= n,
                n == x@.len(),
                y_hat@.len() == i,
                forall|t: int|
                    0 <= t < i ==> (#[trigger] y_hat@[t]).m as int == (if self.decision(
                        x@[t]@,
                        self.w@.len() as int,
                    ) > 0 {
                        SCALE as int
                    } else {
                        -(SCALE as int)
                    }),
            decreases n - i,
        {
            let row: Vec<Fixed> = copy_row(x, i);
            y_hat.push(self.predict_for_row(row));
            i = i + 1;
        }
        Ok(y_hat)
    }

    /// The predicted label for one row: the sign of its decision value,
    /// with a tie at zero classified negative.
    #[verifier::loop_isolation(false)]
    pub fn predict_for_row(&self, x: Vec<Fixed>) -> (r: Fixed)
        requires
            self.wf_model(),
        ensures
            r.m as int == (if self.decision(x@, self.w@.len() as int) > 0 {
                SCALE as int
            } else {
                -(SCALE as int)
            }),
    {
        let mut f: Fixed = self.b;
        let n: usize = self.w.len();
        let mut i: usize = 0;
        while i < n
            invariant
                i <= n,
                n == self.w@.len(),
                f.m == self.decision(x@, i as int),
            decreases n - i,
        {
            f = f.add(self.w[i].mul(self.kernel.apply(&x, &self.instances[i])));
            i = i + 1;
        }
        if f.m > 0 {
            Fixed::one()
        } else {
            Fixed::one().neg()
        }
    }

    /// Are two models observably the same: equal bias, equal weights, and
    /// elementwise-equal retained rows? The kernel is not compared.
    pub open spec fn model_eq(&self, other: &SVC<K>) -> bool {
        &&& self.b.m == other.b.m
        &&& self.w@.len() == other.w@.len()
        &&& forall|i: int| 0 <= i < self.w@.len() ==> (#[trigger] self.w@[i]).m == other.w@[i].m
        &&& self.instances@.len() == other.instances@.len()
        &&& forall|i: int|
            0 <= i < self.instances@.len() ==> seq_fixed_eq(
                (#[trigger] self.instances@[i])@,
                other.instances@[i]@,
            )
    }
}

impl<K: Kernel> PartialEq for SVC<K> {
    #[verifier::loop_isolation(false)]
    fn eq(&self, other: &SVC<K>) -> (r: bool) {
        if self.b.m != other.b.m || self.w.len() != other.w.len() || self.instances.len()
            != other.instances.len() {
            return false;
        }
        let mut i: usize = 0;
        while i < self.w.len()
            invariant
                i <= self.w@.len(),
                forall|t: int| 0 <= t < i ==> (#[trigger] self.w@[t]).m == other.w@[t].m,
            decreases self.w@.len() - i,
        {
            if self.w[i].m != other.w[i].m {
                return false;
            }
            i = i + 1;
        }
        let mut t: usize = 0;
        while t < self.instances.len()
            invariant
                t <= self.instances@.len(),
                forall|u: int|
                    0 <= u < t ==> seq_fixed_eq(
                        (#[trigger] self.instances@[u])@,
                        other.instances@[u]@,
                    ),
            decreases self.instances@.len() - t,
        {
            if !rows_fixed_eq(&self.instances[t], &other.instances[t]) {
                return false;
            }
            t = t + 1;
        }
        true
    }
}

impl<K: Kernel> vstd::std_specs::cmp::PartialEqSpecImpl for SVC<K> {
    open spec fn obeys_eq_spec() -> bool {
        true
    }

    open spec fn eq_spec(&self, other: &SVC<K>) -> bool {
        self.model_eq(other)
    }
}

/// Is the vector at a zero coefficient and parked on a side that cannot
/// re-enter optimization under the given gradient extremes? Then `clean`
/// retires it.
pub open spec fn evicted(v: SupportVector, gmin: int, gmax: int) -> bool {
    v.alpha.m == 0 && ((v.grad.m >= gmax && 0 >= v.cmax.m) || (v.grad.m <= gmin && 0
        <= v.cmin.m))
}

/// How many of the first `n` active vectors carry a sample whose label
/// has the given mantissa.
pub open spec fn count_label(sv: Seq<SupportVector>, y: Seq<Fixed>, lbl: int, n: int) -> int
    decreases n,
{
    if n <= 0 {
        0
    } else {
        count_label(sv, y, lbl, n - 1) + (if sv[n - 1].index < y.len() && (y[sv[n
            - 1].index as int].m as int) == lbl {
            1int
        } else {
            0int
        })
    }
}

/// Prepending one vector to a set whose indices then shift by one adds
/// exactly that vector's contribution to a label count.
proof fn lemma_count_label_shift(
    a: Seq<SupportVector>,
    b: Seq<SupportVector>,
    y: Seq<Fixed>,
    lbl: int,
    n: int,
)
    requires
        0 <= n,
        n + 1 <= a.len(),
        n <= b.len(),
        forall|j: int| 1 <= j < n + 1 ==> (#[trigger] a[j]).index == b[j - 1].index,
    ensures
        count_label(a, y, lbl, n + 1) == count_label(b, y, lbl, n) + (if a[0].index < y.len()
            && (y[a[0].index as int].m as int) == lbl {
            1int
        } else {
            0int
        }),
    decreases n,
{
    let contrib_first: int = if a[0].index < y.len() && (y[a[0].index as int].m as int) == lbl {
        1int
    } else {
        0int
    };
    if n > 0 {
        lemma_count_label_shift(a, b, y, lbl, n - 1);
        assert(a[n].index == b[n - 1].index);
        assert(count_label(a, y, lbl, n + 1) == count_label(a, y, lbl, n) + (if a[n].index
            < y.len() && (y[a[n].index as int].m as int) == lbl {
            1int
        } else {
            0int
        }));
        assert(count_label(b, y, lbl, n) == count_label(b, y, lbl, n - 1) + (if b[n - 1].index
            < y.len() && (y[b[n - 1].index as int].m as int) == lbl {
            1int
        } else {
            0int
        }));
    } else {
        assert(count_label(a, y, lbl, 1) == count_label(a, y, lbl, 0) + contrib_first);
        assert(count_label(a, y, lbl, 0) == 0);
        assert(count_label(b, y, lbl, 0) == 0);
    }
}

/// Does the active set retire this sample index: is it the stable index
/// of a vector evicted under the set's own current extremes?
pub open spec fn is_retired(sv: Seq<SupportVector>, idx: int) -> bool {
    exists|j: int|
        0 <= j < sv.len() && (#[trigger] sv[j]).index == idx && evicted(
            sv[j],
            gmin_of(sv),
            gmax_of(sv),
        )
}

/// The first `n` vectors with the evicted ones (under the given extremes)
/// removed, in their original order.
pub open spec fn cleaned_upto(sv: Seq<SupportVector>, gmin: int, gmax: int, n: int) -> Seq<
    SupportVector,
>
    decreases n,
{
    if n <= 0 {
        Seq::empty()
    } else {
        let p = cleaned_upto(sv, gmin, gmax, n - 1);
        if evicted(sv[n - 1], gmin, gmax) {
            p
        } else {
            p.push(sv[n - 1])
        }
    }
}

/// The whole active set with the evicted vectors (under its own current
/// extremes) removed.
pub open spec fn cleaned(sv: Seq<SupportVector>) -> Seq<SupportVector> {
    cleaned_upto(sv, gmin_of(sv), gmax_of(sv), sv.len() as int)
}

/// The minimum fold never exceeds its empty sentinel, the maximum fold
/// never falls below its own.
proof fn lemma_extreme_folds_bounded(sv: Seq<SupportVector>, n: int)
    ensures
        gmin_upto(sv, n) <= i64::MAX,
        gmax_upto(sv, n) >= i64::MIN,
    decreases n,
{
    if n > 0 {
        lemma_extreme_folds_bounded(sv, n - 1);
    }
}

/// A non-sentinel extreme fold is attained by some eligible vector.
proof fn lemma_gmin_attained(sv: Seq<SupportVector>, n: int)
    requires
        0 <= n <= sv.len(),
        gmin_upto(sv, n) < i64::MAX,
    ensures
        exists|i: int|
            0 <= i < n && min_eligible(#[trigger] sv[i]) && sv[i].grad.m == gmin_upto(sv, n),
    decreases n,
{
    if n > 0 && !(min_eligible(sv[n - 1]) && (sv[n - 1].grad.m as int) < gmin_upto(sv, n - 1)) {
        lemma_gmin_attained(sv, n - 1);
    }
}

/// A non-sentinel extreme fold is attained by some eligible vector.
proof fn lemma_gmax_attained(sv: Seq<SupportVector>, n: int)
    requires
        0 <= n <= sv.len(),
        gmax_upto(sv, n) > i64::MIN,
    ensures
        exists|i: int|
            0 <= i < n && max_eligible(#[trigger] sv[i]) && sv[i].grad.m == gmax_upto(sv, n),
    decreases n,
{
    if n > 0 && !(max_eligible(sv[n - 1]) && (sv[n - 1].grad.m as int) > gmax_upto(sv, n - 1)) {
        lemma_gmax_attained(sv, n - 1);
    }
}

/// A non-sentinel minimum names a valid first-attaining position.
proof fn lemma_gmin_pos_valid(sv: Seq<SupportVector>, n: int)
    requires
        0 <= n <= sv.len(),
        gmin_upto(sv, n) < i64::MAX,
    ensures
        0 <= gmin_pos_upto(sv, n) < n,
    decreases n,
{
    if n > 0 && !(min_eligible(sv[n - 1]) && (sv[n - 1].grad.m as int) < gmin_upto(sv, n - 1)) {
        lemma_gmin_pos_valid(sv, n - 1);
    }
}

/// A non-sentinel maximum names a valid first-attaining position.
proof fn lemma_gmax_pos_valid(sv: Seq<SupportVector>, n: int)
    requires
        0 <= n <= sv.len(),
        gmax_upto(sv, n) > i64::MIN,
    ensures
        0 <= gmax_pos_upto(sv, n) < n,
    decreases n,
{
    if n > 0 && !(max_eligible(sv[n - 1]) && (sv[n - 1].grad.m as int) > gmax_upto(sv, n - 1)) {
        lemma_gmax_pos_valid(sv, n - 1);
    }
}

/// Cleaning narrows the duality gap, or leaves it: eviction only removes
/// candidates from the two extreme searches, so the minimum gradient can
/// only rise and the maximum can only fall.
pub proof fn lemma_clean_narrows_gap(sv: Seq<SupportVector>)
    requires
        forall|i: int, j: int| 0 <= i < j < sv.len() ==> sv[i].index != sv[j].index,
    ensures
        gmin_of(cleaned(sv)) >= gmin_of(sv),
        gmax_of(cleaned(sv)) <= gmax_of(sv),
{
    let c = cleaned(sv);
    lemma_cleaned_props(sv, gmin_of(sv), gmax_of(sv), sv.len() as int);
    lemma_extreme_folds_bounded(sv, sv.len() as int);
    lemma_extreme_folds_bounded(c, c.len() as int);
    if gmin_of(c) < i64::MAX {
        lemma_gmin_attained(c, c.len() as int);
        let i = choose|i: int|
            0 <= i < c.len() && min_eligible(#[trigger] c[i]) && c[i].grad.m == gmin_of(c);
        let j = choose|j: int| 0 <= j < sv.len() && #[trigger] c[i] == sv[j];
        lemma_gmin_upto_le(sv, sv.len() as int, j);
    }
    if gmax_of(c) > i64::MIN {
        lemma_gmax_attained(c, c.len() as int);
        let i = choose|i: int|
            0 <= i < c.len() && max_eligible(#[trigger] c[i]) && c[i].grad.m == gmax_of(c);
        let j = choose|j: int| 0 <= j < sv.len() && #[trigger] c[i] == sv[j];
        lemma_gmax_upto_ge(sv, sv.len() as int, j);
    }
}

/// Cleaning a sound active set keeps it sound: it never grows, every
/// survivor comes from the source, distinct indices stay distinct, and
/// since every evicted vector has a zero coefficient the coefficient sum
/// is unchanged.
proof fn lemma_cleaned_props(s: Seq<SupportVector>, gmin: int, gmax: int, n: int)
    requires
        0 <= n <= s.len(),
        forall|i: int, j: int| 0 <= i < j < s.len() ==> s[i].index != s[j].index,
    ensures
        cleaned_upto(s, gmin, gmax, n).len() <= n,
        forall|t: int|
            0 <= t < cleaned_upto(s, gmin, gmax, n).len() ==> exists|j: int|
                0 <= j < n && #[trigger] cleaned_upto(s, gmin, gmax, n)[t] == s[j],
        forall|t: int, u: int|
            0 <= t < u < cleaned_upto(s, gmin, gmax, n).len() ==> cleaned_upto(
                s,
                gmin,
                gmax,
                n,
            )[t].index != cleaned_upto(s, gmin, gmax, n)[u].index,
        sum_alpha(cleaned_upto(s, gmin, gmax, n)) == sum_alpha_upto(s, n),
    decreases n,
{
    if n > 0 {
        lemma_cleaned_props(s, gmin, gmax, n - 1);
        let p = cleaned_upto(s, gmin, gmax, n - 1);
        let f = cleaned_upto(s, gmin, gmax, n);
        if evicted(s[n - 1], gmin, gmax) {
            assert(s[n - 1].alpha.m == 0);
        } else {
            assert(f == p.push(s[n - 1]));
            assert forall|t: int| 0 <= t < f.len() implies exists|j: int|
                0 <= j < n && #[trigger] f[t] == s[j] by {
                if t < p.len() {
                    assert(f[t] == p[t]);
                    let jj = choose|j: int| 0 <= j < n - 1 && #[trigger] p[t] == s[j];
                    assert(f[t] == s[jj]);
                } else {
                    assert(f[t] == s[n - 1]);
                }
            }
            assert forall|t: int, u: int| 0 <= t < u < f.len() implies f[t].index
                != f[u].index by {
                if u < p.len() {
                    assert(f[t] == p[t] && f[u] == p[u]);
                } else {
                    assert(f[t] == p[t]);
                    let jj = choose|j: int| 0 <= j < n - 1 && #[trigger] p[t] == s[j];
                    assert(f[t] == s[jj]);
                    assert(f[u] == s[n - 1]);
                }
            }
            lemma_sum_alpha_congruence(p.push(s[n - 1]), p, p.len() as int);
            assert(sum_alpha(f) == sum_alpha_upto(f, f.len() - 1) + f[f.len() - 1].alpha.m);
        }
    }
}

/// Replace the coefficient of the vector at `i`, leaving all else in place.
fn set_alpha(sv: &mut Vec<SupportVector>, i: usize, a: Fixed)
    requires
        i < old(sv)@.len(),
    ensures
        final(sv)@.len() == old(sv)@.len(),
        forall|j: int| 0 <= j < old(sv)@.len() && j != i ==> final(sv)@[j] == old(sv)@[j],
        final(sv)@[i as int].alpha == a,
        final(sv)@[i as int].index == old(sv)@[i as int].index,
        final(sv)@[i as int].x == old(sv)@[i as int].x,
        final(sv)@[i as int].grad == old(sv)@[i as int].grad,
        final(sv)@[i as int].cmin == old(sv)@[i as int].cmin,
        final(sv)@[i as int].cmax == old(sv)@[i as int].cmax,
        final(sv)@[i as int].k == old(sv)@[i as int].k,
    {
    let mut e: SupportVector = sv.remove(i);
    e.alpha = a;
    sv.insert(i, e);
    proof {
        assert(final(sv)@ =~= old(sv)@.update(i as int, final(sv)@[i as int]));
    }
}

/// Replace the gradient of the vector at `i`, leaving all else in place.
fn set_grad(sv: &mut Vec<SupportVector>, i: usize, g: Fixed)
    requires
        i < old(sv)@.len(),
    ensures
        final(sv)@.len() == old(sv)@.len(),
        forall|j: int| 0 <= j < old(sv)@.len() && j != i ==> final(sv)@[j] == old(sv)@[j],
        final(sv)@[i as int].grad == g,
        final(sv)@[i as int].index == old(sv)@[i as int].index,
        final(sv)@[i as int].x == old(sv)@[i as int].x,
        final(sv)@[i as int].alpha == old(sv)@[i as int].alpha,
        final(sv)@[i as int].cmin == old(sv)@[i as int].cmin,
        final(sv)@[i as int].cmax == old(sv)@[i as int].cmax,
        final(sv)@[i as int].k == old(sv)@[i as int].k,
    {
    let mut e: SupportVector = sv.remove(i);
    e.grad = g;
    sv.insert(i, e);
    proof {
        assert(final(sv)@ =~= old(sv)@.update(i as int, final(sv)@[i as int]));
    }
}

/// Do the two rows carry the same scalars?
pub open spec fn seq_fixed_eq(a: Seq<Fixed>, b: Seq<Fixed>) -> bool {
    a.len() == b.len() && (forall|j: int| 0 <= j < a.len() ==> (#[trigger] a[j]).m == b[j].m)
}

/// Do the two rows carry the same scalars?
fn rows_fixed_eq(a: &Vec<Fixed>, b: &Vec<Fixed>) -> (r: bool)
    ensures
        r == seq_fixed_eq(a@, b@),
{
    if a.len() != b.len() {
        return false;
    }
    let mut j: usize = 0;
    while j < a.len()
        invariant
            j <= a@.len(),
            a@.len() == b@.len(),
            forall|t: int| 0 <= t < j ==> (#[trigger] a@[t]).m == b@[t].m,
        decreases a@.len() - j,
    {
        if a[j].m != b[j].m {
            return false;
        }
        j = j + 1;
    }
    true
}

/// Is `v` equal, element for element, to one of the given rows?
pub open spec fn row_of(rows: Seq<Vec<Fixed>>, v: Vec<Fixed>) -> bool {
    exists|j: int| 0 <= j < rows.len() && v@ == (#[trigger] rows[j])@
}

/// A vector that is a row of one matrix is a row of any matrix whose rows
/// carry the same elements.
proof fn lemma_row_of_transfer(a: Seq<Vec<Fixed>>, b: Seq<Vec<Fixed>>, v: Vec<Fixed>)
    requires
        row_of(a, v),
        a.len() == b.len(),
        forall|i: int| 0 <= i < a.len() ==> (#[trigger] a[i])@ == b[i]@,
    ensures
        row_of(b, v),
{
    let j = choose|j: int| 0 <= j < a.len() && v@ == (#[trigger] a[j])@;
    assert(v@ == b[j]@);
}

/// Sum of the mantissas of the first `n` scalars.
pub open spec fn sum_fixed_upto(s: Seq<Fixed>, n: int) -> int
    decreases n,
{
    if n <= 0 {
        0
    } else {
        sum_fixed_upto(s, n - 1) + s[n - 1].m
    }
}

/// Sum of the mantissas of a sequence of scalars.
pub open spec fn sum_fixed(s: Seq<Fixed>) -> int {
    sum_fixed_upto(s, s.len() as int)
}

/// Two scalar sequences agreeing on a prefix have the same prefix sum.
proof fn lemma_sum_fixed_congruence(s1: Seq<Fixed>, s2: Seq<Fixed>, n: int)
    requires
        n <= s1.len(),
        n <= s2.len(),
        forall|j: int| 0 <= j < n ==> s1[j].m == s2[j].m,
    ensures
        sum_fixed_upto(s1, n) == sum_fixed_upto(s2, n),
    decreases n,
{
    if n > 0 {
        lemma_sum_fixed_congruence(s1, s2, n - 1);
    }
}

/// An owned copy of a vector of scalars.
fn copy_fixed_vec(src: &Vec<Fixed>) -> (r: Vec<Fixed>)
    ensures
        r@ == src@,
{
    let mut r: Vec<Fixed> = Vec::new();
    let mut j: usize = 0;
    while j < src.len()
        invariant
            j <= src@.len(),
            r@ == src@.take(j as int),
        decreases src@.len() - j,
    {
        r.push(src[j]);
        proof {
            assert(r@ =~= src@.take(j + 1));
        }
        j = j + 1;
    }
    proof {
        assert(src@.take(src@.len() as int) =~= src@);
    }
    r
}

/// An owned copy of a whole feature matrix, row for row.
fn copy_rows(x: &Vec<Vec<Fixed>>) -> (r: Vec<Vec<Fixed>>)
    ensures
        r@.len() == x@.len(),
        forall|i: int| 0 <= i < x@.len() ==> (#[trigger] r@[i])@ == x@[i]@,
{
    let mut r: Vec<Vec<Fixed>> = Vec::new();
    let mut i: usize = 0;
    while i < x.len()
        invariant
            i <= x@.len(),
            r@.len() == i,
            forall|t: int| 0 <= t < i ==> (#[trigger] r@[t])@ == x@[t]@,
        decreases x@.len() - i,
    {
        let row: Vec<Fixed> = copy_row(x, i);
        r.push(row);
        i = i + 1;
    }
    r
}

/// An owned copy of row `i` of the feature matrix.
fn copy_row(x: &Vec<Vec<Fixed>>, i: usize) -> (r: Vec<Fixed>)
    requires
        i < x@.len(),
    ensures
        r@ == x@[i as int]@,
{
    let src: &Vec<Fixed> = &x[i];
    let mut r: Vec<Fixed> = Vec::new();
    let mut j: usize = 0;
    while j < src.len()
        invariant
            j <= src@.len(),
            src@ == x@[i as int]@,
            r@ == src@.take(j as int),
        decreases src@.len() - j,
    {
        r.push(src[j]);
        proof {
            assert(r@ =~= src@.take(j + 1));
        }
        j = j + 1;
    }
    proof {
        assert(src@.take(src@.len() as int) =~= src@);
    }
    r
}

/// An owned copy of the feature row of the active vector at `t`.
fn copy_sv_row(sv: &Vec<SupportVector>, t: usize) -> (r: Vec<Fixed>)
    requires
        t < sv@.len(),
    ensures
        r@ == sv@[t as int].x@,
{
    let src: &Vec<Fixed> = &sv[t].x;
    let mut r: Vec<Fixed> = Vec::new();
    let mut j: usize = 0;
    while j < src.len()
        invariant
            j <= src@.len(),
            src@ == sv@[t as int].x@,
            r@ == src@.take(j as int),
        decreases src@.len() - j,
    {
        r.push(src[j]);
        proof {
            assert(r@ =~= src@.take(j + 1));
        }
        j = j + 1;
    }
    proof {
        assert(src@.take(src@.len() as int) =~= src@);
    }
    r
}

/// Does the vector hold this value?
fn contains_usize(v: &Vec<usize>, x: usize) -> (r: bool)
    ensures
        r == seq_has(v@, x as int),
{
    let mut i: usize = 0;
    while i < v.len()
        invariant
            i <= v@.len(),
            forall|t: int| 0 <= t < i ==> v@[t] != x,
        decreases v@.len() - i,
    {
        if v[i] == x {
            return true;
        }
        i = i + 1;
    }
    false
}

} // verus!
