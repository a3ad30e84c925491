//! A small deterministic pseudo-random source and the sample shuffle built
//! on it.
//!
//! Training visits samples in a shuffled order. The shuffle is driven by a
//! seedable generator so that runs are reproducible; nothing is promised of
//! the generated words themselves, only that the shuffle yields a genuine
//! permutation.

use vstd::prelude::*;

verus! {

/// A splittable 64-bit mixing generator, seeded once.
pub struct SplitMix {
    state: u64,
}

impl SplitMix {
    /// A generator starting from the given seed.
    pub fn new(seed: u64) -> SplitMix {
        SplitMix { state: seed }
    }

    /// The next 64-bit word of the stream.
    pub fn next_word(&mut self) -> u64 {
        self.state = self.state.wrapping_add(0x9E3779B97F4A7C15u64);
        let z0: u64 = self.state;
        let z1: u64 = (z0 ^ (z0 >> 30)).wrapping_mul(0xBF58476D1CE4E5B9u64);
        let z2: u64 = (z1 ^ (z1 >> 27)).wrapping_mul(0x94D049BB133111EBu64);
        z2 ^ (z2 >> 31)
    }

    /// A value below `n`.
    pub fn below(&mut self, n: usize) -> (r: usize)
        requires
            n >= 1,
        ensures
            r < n,
    {
        let w: u64 = self.next_word();
        (w % (n as u64)) as usize
    }
}

/// Does the shuffled sequence hold this index somewhere?
pub open spec fn perm_has(s: Seq<usize>, v: int) -> bool {
    exists|t: int| 0 <= t < s.len() && s[t] == v
}

/// The sequence `0, 1, ..., n - 1` shuffled by the seeded generator: a
/// genuine permutation, with every position holding a distinct index below
/// `n` and every index below `n` appearing.
pub fn permutation(n: usize, rng: &mut SplitMix) -> (r: Vec<usize>)
    ensures
        r@.len() == n,
        forall|i: int| 0 <= i < n ==> #[trigger] r@[i] < n,
        forall|i: int, j: int| 0 <= i < j < n ==> r@[i] != r@[j],
        forall|v: int| 0 <= v < n ==> perm_has(r@, v),
{
    let mut r: Vec<usize> = Vec::new();
    let mut i: usize = 0;
    while i < n
        invariant
            i <= n,
            r@.len() == i,
            forall|k: int| 0 <= k < i ==> #[trigger] r@[k] == k,
        decreases n - i,
    {
        r.push(i);
        i = i + 1;
    }
    proof {
        assert forall|v: int| 0 <= v < n implies perm_has(r@, v) by {
            assert(r@[v] == v);
        }
    }
    let mut t: usize = n;
    while t > 1
        invariant
            t <= n,
            r@.len() == n,
            forall|k: int| 0 <= k < n ==> #[trigger] r@[k] < n,
            forall|k: int, l: int| 0 <= k < l < n ==> r@[k] != r@[l],
            forall|v: int| 0 <= v < n ==> perm_has(r@, v),
        decreases t,
    {
        let j: usize = rng.below(t);
        let a: usize = r[t - 1];
        let b: usize = r[j];
        let ghost pre = r@;
        r[t - 1] = b;
        r[j] = a;
        proof {
            assert forall|v: int| 0 <= v < n implies perm_has(r@, v) by {
                assert(perm_has(pre, v));
                let u = choose|u: int| 0 <= u < pre.len() && pre[u] == v;
                assert(pre[u] == v);
                if u == t - 1 {
                    assert(r@[j as int] == v);
                } else if u == j {
                    assert(r@[t - 1] == v);
                } else {
                    assert(r@[u] == v);
                }
            }
        }
        t = t - 1;
    }
    r
}

} // verus!
