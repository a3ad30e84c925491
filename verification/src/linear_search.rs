//! Exhaustive k-nearest-neighbour search.

use vstd::prelude::*;
use core::cmp::Ordering;
use crate::distance::Distance;
use crate::fixed::Fixed;

verus! {

/// A k-nearest-neighbour index that scans every stored point.
pub struct LinearKNNSearch<T, D: Distance<T>> {
    /// The dissimilarity measure the search ranks by.
    pub distance: D,
    /// The stored points, addressed by their position.
    pub data: Vec<T>,
}

/// Does the sequence of positions hold this value?
pub open spec fn holds_pos(s: Seq<usize>, v: int) -> bool {
    exists|t: int| 0 <= t < s.len() && s[t] == v
}

/// How many of the first `n` distances are below the positive sentinel,
/// and so comparable at all.
pub open spec fn count_finite(d: Seq<Fixed>, n: int) -> int
    decreases n,
{
    if n <= 0 {
        0
    } else {
        count_finite(d, n - 1) + (if d[n - 1].m < i64::MAX {
            1int
        } else {
            0int
        })
    }
}

/// The count of comparable distances never exceeds the prefix length.
proof fn lemma_count_finite_le(d: Seq<Fixed>, n: int)
    requires
        n >= 0,
    ensures
        count_finite(d, n) <= n,
        count_finite(d, n) >= 0,
    decreases n,
{
    if n > 0 {
        lemma_count_finite_le(d, n - 1);
    }
}

/// The position at which a candidate with distance `d` enters the kept
/// list, scanning from `t`: before the first kept position whose distance
/// is at least `d`.
pub open spec fn ins_pos_from(best: Seq<usize>, dists: Seq<Fixed>, d: int, t: int) -> int
    recommends
        0 <= t <= best.len(),
    decreases best.len() - t,
{
    if t < 0 || t >= best.len() {
        best.len() as int
    } else if (dists[best[t] as int].m as int) >= d {
        t
    } else {
        ins_pos_from(best, dists, d, t + 1)
    }
}

/// A scan that passed over only nearer entries and stopped at the first
/// entry at least as far (or the end) names the entry position.
proof fn lemma_ins_pos_from(best: Seq<usize>, dists: Seq<Fixed>, d: int, start: int, p: int)
    requires
        0 <= start <= p <= best.len(),
        forall|t: int| start <= t < p ==> (dists[(#[trigger] best[t]) as int].m as int) < d,
        p == best.len() || (dists[best[p] as int].m as int) >= d,
    ensures
        ins_pos_from(best, dists, d, start) == p,
    decreases p - start,
{
    if start < p {
        lemma_ins_pos_from(best, dists, d, start + 1, p);
    }
}

/// The kept list after the first `n` candidates have been offered: a full
/// list admits a candidate only strictly nearer than its farthest entry
/// (which then leaves), a short list admits any comparable candidate, and
/// an admitted candidate enters before the first entry at least as far.
pub open spec fn selected_upto(dists: Seq<Fixed>, k: int, n: int) -> Seq<usize>
    decreases n,
{
    if n <= 0 {
        Seq::empty()
    } else {
        let b = selected_upto(dists, k, n - 1);
        let d = dists[n - 1].m as int;
        let keep_new = if b.len() == k {
            d < dists[b[k - 1] as int].m as int
        } else {
            d < i64::MAX
        };
        if keep_new {
            let b2 = b.insert(ins_pos_from(b, dists, d, 0), (n - 1) as usize);
            if b2.len() > k {
                b2.drop_last()
            } else {
                b2
            }
        } else {
            b
        }
    }
}

/// The positions of the `k` smallest of the given distances, in
/// non-decreasing order of distance: exactly [`selected_upto`] over the
/// whole input.
///
/// Exactly pinned up to the order of ties: the result holds distinct valid
/// positions, sorted by their distances, every selected distance is no
/// larger than every unselected one, a sentinel distance is never
/// selected, and the result is only shorter than `k` when fewer than `k`
/// distances are comparable.
#[verifier::loop_isolation(false)]
#[verifier::rlimit(100)]
pub fn select_k_smallest(dists: &Vec<Fixed>, k: usize) -> (r: Vec<usize>)
    requires
        1 <= k <= dists@.len(),
    ensures
        r@.len() <= k,
        r@.len() == if k <= count_finite(dists@, dists@.len() as int) {
            k as int
        } else {
            count_finite(dists@, dists@.len() as int)
        },
        forall|t: int| 0 <= t < r@.len() ==> #[trigger] r@[t] < dists@.len(),
        forall|t: int, u: int| 0 <= t < u < r@.len() ==> r@[t] != r@[u],
        forall|t: int, u: int|
            0 <= t < u < r@.len() ==> dists@[r@[t] as int].m <= dists@[r@[u] as int].m,
        forall|t: int| 0 <= t < r@.len() ==> dists@[#[trigger] r@[t] as int].m < i64::MAX,
        forall|t: int, j: int|
            #![trigger r@[t], dists@[j]]
            0 <= t < r@.len() && 0 <= j < dists@.len() && !holds_pos(r@, j) ==> dists@[
                r@[t] as int
            ].m <= dists@[j].m,
        r@ == selected_upto(dists@, k as int, dists@.len() as int),
{
    let n: usize = dists.len();
    let mut best: Vec<usize> = Vec::new();
    let mut i: usize = 0;
    while i < n
        invariant
            i <= n,
            n == dists@.len(),
            best@.len() == if k <= count_finite(dists@, i as int) {
                k as int
            } else {
                count_finite(dists@, i as int)
            },
            best@.len() <= k,
            forall|t: int| 0 <= t < best@.len() ==> #[trigger] best@[t] < i,
            forall|t: int, u: int| 0 <= t < u < best@.len() ==> best@[t] != best@[u],
            forall|t: int, u: int|
                0 <= t < u < best@.len() ==> dists@[best@[t] as int].m <= dists@[best@[u] as int].m,
            forall|t: int| 0 <= t < best@.len() ==> dists@[#[trigger] best@[t] as int].m
                < i64::MAX,
            forall|j: int|
                0 <= j < i && (#[trigger] dists@[j]).m < i64::MAX && !holds_pos(best@, j)
                    ==> best@.len() == k,
            forall|t: int, j: int|
                #![trigger best@[t], dists@[j]]
                0 <= t < best@.len() && 0 <= j < i && !holds_pos(best@, j) ==> dists@[
                    best@[t] as int
                ].m <= dists@[j].m,
            best@ == selected_upto(dists@, k as int, i as int),
        decreases n - i,
    {
        proof {
            lemma_count_finite_le(dists@, i as int);
        }
        let d: Fixed = dists[i];
        let full: bool = best.len() == k;
        let take_it: bool = if full {
            d.m < dists[best[k - 1]].m
        } else {
            d.m < i64::MAX
        };
        let ghost pre = best@;
        if take_it {
            let mut pos: usize = 0;
            while pos < best.len() && dists[best[pos]].m < d.m
                invariant
                    pos <= best@.len(),
                    best@ == pre,
                    forall|t: int| 0 <= t < pos ==> dists@[#[trigger] best@[t] as int].m < d.m,
                decreases best@.len() - pos,
            {
                pos = pos + 1;
            }
            proof {
                assert(pos == pre.len() || dists@[pre[pos as int] as int].m >= d.m);
                lemma_ins_pos_from(pre, dists@, d.m as int, 0, pos as int);
            }
            best.insert(pos, i);
            let ghost withnew = best@;
            proof {
                assert(withnew.len() == pre.len() + 1);
                assert(withnew[pos as int] == i);
                assert(forall|t: int| 0 <= t < pos ==> withnew[t] == pre[t]);
                assert(forall|t: int|
                    pos < t < withnew.len() ==> withnew[t] == pre[t - 1]);
            }
            if best.len() > k {
                let evictee: usize = best[best.len() - 1];
                proof {
                    assert(withnew[withnew.len() - 1] == evictee);
                    assert(evictee == pre[pre.len() - 1]);
                }
                best.truncate(k);
                proof {
                    assert(best@ =~= withnew.drop_last());
                    assert forall|j: int|
                        0 <= j < i + 1 && (#[trigger] dists@[j]).m < i64::MAX && !holds_pos(
                            best@,
                            j,
                        ) implies best@.len() == k by {}
                    assert forall|t: int, j: int|
                        #![trigger best@[t], dists@[j]]
                        0 <= t < best@.len() && 0 <= j < i + 1 && !holds_pos(best@, j)
                            implies dists@[best@[t] as int].m <= dists@[j].m by {
                        if j == i {
                            assert(holds_pos(best@, j)) by {
                                assert(best@[pos as int] == i);
                            }
                        } else if holds_pos(pre, j) {
                            let u = choose|u: int| 0 <= u < pre.len() && pre[u] == j;
                            assert(j == evictee as int) by {
                                if u < pos {
                                    assert(best@[u] == withnew[u]);
                                    assert(best@[u] == j);
                                } else if u + 1 < withnew.len() - 1 {
                                    assert(best@[u + 1] == withnew[u + 1]);
                                    assert(best@[u + 1] == j);
                                } else {
                                    assert(withnew[u + 1] == j);
                                    assert(withnew[withnew.len() - 1] == evictee);
                                }
                            }
                            assert(dists@[best@[t] as int].m <= dists@[evictee as int].m) by {
                                if t < pos {
                                    assert(best@[t] == pre[t]);
                                } else if t == pos {
                                } else {
                                    assert(best@[t] == pre[t - 1]);
                                }
                            }
                        } else {
                            assert(!holds_pos(pre, j));
                            assert(dists@[best@[t] as int].m <= dists@[j].m) by {
                                if t < pos {
                                    assert(best@[t] == pre[t]);
                                } else if t == pos {
                                    assert(best@[t] == i);
                                    assert(dists@[pre[pre.len() - 1] as int].m <= dists@[j].m);
                                } else {
                                    assert(best@[t] == pre[t - 1]);
                                }
                            }
                        }
                    }
                }
            } else {
                proof {
                    assert forall|t: int, j: int|
                        #![trigger best@[t], dists@[j]]
                        0 <= t < best@.len() && 0 <= j < i + 1 && !holds_pos(best@, j)
                            implies dists@[best@[t] as int].m <= dists@[j].m by {
                        if j == i {
                            assert(holds_pos(best@, j)) by {
                                assert(best@[pos as int] == i);
                            }
                        } else {
                            assert(!holds_pos(pre, j)) by {
                                if holds_pos(pre, j) {
                                    let u = choose|u: int| 0 <= u < pre.len() && pre[u] == j;
                                    assert(best@[if u < pos {
                                        u
                                    } else {
                                        u + 1
                                    }] == j);
                                }
                            }
                            assert(dists@[j].m == i64::MAX) by {
                                if dists@[j].m < i64::MAX {
                                    assert(pre.len() == k);
                                }
                            }
                            assert(dists@[best@[t] as int].m <= i64::MAX);
                        }
                    }
                    assert forall|j: int|
                        0 <= j < i + 1 && (#[trigger] dists@[j]).m < i64::MAX && !holds_pos(
                            best@,
                            j,
                        ) implies best@.len() == k by {
                        if j < i {
                            assert(!holds_pos(pre, j)) by {
                                if holds_pos(pre, j) {
                                    let u = choose|u: int| 0 <= u < pre.len() && pre[u] == j;
                                    assert(best@[if u < pos {
                                        u
                                    } else {
                                        u + 1
                                    }] == j);
                                }
                            }
                        } else {
                            assert(best@[pos as int] == i);
                        }
                    }
                }
            }
        } else {
            proof {
                if full {
                    assert forall|t: int, j: int|
                        #![trigger best@[t], dists@[j]]
                        0 <= t < best@.len() && 0 <= j < i + 1 && !holds_pos(best@, j)
                            implies dists@[best@[t] as int].m <= dists@[j].m by {
                        if j == i {
                            assert(dists@[best@[t] as int].m <= dists@[best@[k - 1] as int].m);
                        }
                    }
                } else {
                    assert(d.m == i64::MAX);
                    assert forall|t: int, j: int|
                        #![trigger best@[t], dists@[j]]
                        0 <= t < best@.len() && 0 <= j < i + 1 && !holds_pos(best@, j)
                            implies dists@[best@[t] as int].m <= dists@[j].m by {}
                }
            }
        }
        i = i + 1;
    }
    proof {
        lemma_count_finite_le(dists@, n as int);
    }
    best
}

impl<T, D: Distance<T>> LinearKNNSearch<T, D> {
    /// An index over the given points under the given distance.
    pub fn new(data: Vec<T>, distance: D) -> (r: LinearKNNSearch<T, D>)
        ensures
            r.data@.len() == data@.len(),
            r.data@ == data@,
    {
        LinearKNNSearch { data, distance }
    }

    /// The positions of the `k` stored points nearest to `from`, nearest
    /// first: the selection of [`select_k_smallest`] over the computed
    /// distances.
    pub fn find(&self, from: &T, k: usize) -> (r: Vec<usize>)
        requires
            1 <= k <= self.data@.len(),
        ensures
            r@.len() <= k,
            forall|t: int| 0 <= t < r@.len() ==> #[trigger] r@[t] < self.data@.len(),
            forall|t: int, u: int| 0 <= t < u < r@.len() ==> r@[t] != r@[u],
    {
        let n: usize = self.data.len();
        let mut dists: Vec<Fixed> = Vec::new();
        let mut i: usize = 0;
        while i < n
            invariant
                i <= n,
                n == self.data@.len(),
                dists@.len() == i,
            decreases n - i,
        {
            dists.push(self.distance.distance(from, &self.data[i]));
            i = i + 1;
        }
        select_k_smallest(&dists, k)
    }
}

/// One candidate of a nearest-neighbour search: a distance and, when it
/// stands for a real point, that point's position. Candidates compare by
/// distance alone.
#[derive(Debug)]
pub struct KNNPoint {
    /// Distance from the query point.
    pub distance: Fixed,
    /// Position of the stored point, or nothing for a sentinel slot.
    pub index: Option<usize>,
}

impl PartialEq for KNNPoint {
    fn eq(&self, other: &KNNPoint) -> (r: bool) {
        self.distance.m == other.distance.m
    }
}

impl vstd::std_specs::cmp::PartialEqSpecImpl for KNNPoint {
    open spec fn obeys_eq_spec() -> bool {
        true
    }

    open spec fn eq_spec(&self, other: &KNNPoint) -> bool {
        self.distance.m == other.distance.m
    }
}

impl Eq for KNNPoint {

}

impl PartialOrd for KNNPoint {
    fn partial_cmp(&self, other: &KNNPoint) -> (r: Option<Ordering>) {
        if self.distance.m < other.distance.m {
            Some(Ordering::Less)
        } else if self.distance.m == other.distance.m {
            Some(Ordering::Equal)
        } else {
            Some(Ordering::Greater)
        }
    }
}

impl vstd::std_specs::cmp::PartialOrdSpecImpl for KNNPoint {
    open spec fn obeys_partial_cmp_spec() -> bool {
        true
    }

    open spec fn partial_cmp_spec(&self, other: &KNNPoint) -> Option<Ordering> {
        if self.distance.m < other.distance.m {
            Some(Ordering::Less)
        } else if self.distance.m == other.distance.m {
            Some(Ordering::Equal)
        } else {
            Some(Ordering::Greater)
        }
    }
}

} // verus!
