//! Sampling without replacement: a bounded single-pass partial shuffle, so a
//! draw of `k` unique values always terminates, and asking for more unique
//! values than the universe holds fails fast instead of looping.

use vstd::prelude::*;

verus! {

use crate::SimError;
use crate::rng::{SimRng, rng_below};

/// Draws `k` distinct indices below `n`, by a partial Fisher-Yates shuffle.
///
/// Succeeds exactly when `k <= n`; asking for more unique indices than exist
/// is resource exhaustion, never an endless retry.
pub fn sample_indices(rng: &mut SimRng, n: usize, k: usize) -> (r: Result<Vec<usize>, SimError>)
    ensures
        match r {
            Ok(v) => {
                &&& k <= n
                &&& v@.len() == k
                &&& v@.no_duplicates()
                &&& forall|j: int| 0 <= j < v@.len() ==> #[trigger] v@[j] < n
            },
            Err(e) => e == SimError::ResourceExhaustion && k > n,
        },
{
    if k > n {
        return Err(SimError::ResourceExhaustion);
    }
    let mut idx: Vec<usize> = Vec::new();
    let mut i: usize = 0;
    while i < n
        invariant
            i <= n,
            idx@.len() == i,
            forall|j: int| 0 <= j < i ==> #[trigger] idx@[j] == j,
        decreases n - i,
    {
        idx.push(i);
        i += 1;
    }
    let mut t: usize = 0;
    while t < k
        invariant
            t <= k <= n,
            idx@.len() == n,
            idx@.no_duplicates(),
            forall|j: int| 0 <= j < n ==> #[trigger] idx@[j] < n,
        decreases k - t,
    {
        let j = t + rng_below(rng, n - t);
        let ghost pre = idx@;
        let a = idx[t];
        let b = idx[j];
        idx.set(t, b);
        idx.set(j, a);
        proof {
            assert(idx@ =~= pre.update(t as int, b).update(j as int, a));
            assert forall|p: int, q: int|
                0 <= p < idx@.len() && 0 <= q < idx@.len() && p != q implies idx@[p] != idx@[q] by {
                let ti = t as int;
                let ji = j as int;
                let sp: int = if p == ji {
                    ti
                } else if p == ti {
                    ji
                } else {
                    p
                };
                let sq: int = if q == ji {
                    ti
                } else if q == ti {
                    ji
                } else {
                    q
                };
                assert(idx@[p] == pre[sp]);
                assert(idx@[q] == pre[sq]);
                assert(sp != sq);
            }
        }
        t += 1;
    }
    let mut out: Vec<usize> = Vec::new();
    let mut s: usize = 0;
    while s < k
        invariant
            s <= k <= n,
            idx@.len() == n,
            idx@.no_duplicates(),
            forall|j: int| 0 <= j < n ==> #[trigger] idx@[j] < n,
            out@ == idx@.take(s as int),
        decreases k - s,
    {
        out.push(idx[s]);
        proof {
            assert(out@ =~= idx@.take(s + 1));
        }
        s += 1;
    }
    Ok(out)
}

/// Draws `k` distinct terms from a duplicate-free universe, without
/// replacement: the draw has exactly `k` terms, no duplicates, all from the
/// universe. Succeeds exactly when the universe is large enough.
pub fn sample_terms(rng: &mut SimRng, universe: &Vec<u32>, k: usize) -> (r: Result<
    Vec<u32>,
    SimError,
>)
    requires
        universe@.no_duplicates(),
    ensures
        match r {
            Ok(v) => {
                &&& k <= universe@.len()
                &&& v@.len() == k
                &&& v@.no_duplicates()
                &&& forall|j: int| 0 <= j < v@.len() ==> universe@.contains(#[trigger] v@[j])
            },
            Err(e) => e == SimError::ResourceExhaustion && k > universe@.len(),
        },
{
    let idxs = match sample_indices(rng, universe.len(), k) {
        Ok(v) => v,
        Err(e) => {
            return Err(e);
        },
    };
    let mut out: Vec<u32> = Vec::new();
    let mut i: usize = 0;
    while i < k
        invariant
            i <= k,
            idxs@.len() == k,
            idxs@.no_duplicates(),
            k <= universe@.len(),
            universe@.no_duplicates(),
            forall|j: int| 0 <= j < k ==> #[trigger] idxs@[j] < universe@.len(),
            out@.len() == i,
            forall|j: int| 0 <= j < i ==> #[trigger] out@[j] == universe@[idxs@[j] as int],
        decreases k - i,
    {
        out.push(universe[idxs[i]]);
        i += 1;
    }
    proof {
        assert forall|p: int, q: int|
            0 <= p < out@.len() && 0 <= q < out@.len() && p != q implies out@[p] != out@[q] by {
            assert(idxs@[p] != idxs@[q]);
        }
        assert forall|j: int| 0 <= j < out@.len() implies universe@.contains(#[trigger] out@[j]) by {
            assert(out@[j] == universe@[idxs@[j] as int]);
        }
    }
    Ok(out)
}

} // verus!
