//! Draws from a seeded pseudo-random generator, behind trusted wrappers.

use vstd::prelude::*;
use std::collections::HashSet;

verus! {

broadcast use vstd::std_specs::hash::group_hash_axioms;

#[verifier::external_type_specification]
#[verifier::external_body]
pub struct ExStdRng(rand::rngs::StdRng);

/// Relies on rand's `Rng::gen_range`: a value sampled from `[low, high)`,
/// which is nonempty here; nothing else is assumed of the draw.
#[verifier::external_body]
pub(crate) fn rand_range_u64(rng: &mut rand::rngs::StdRng, low: u64, high: u64) -> (r: u64)
    requires
        low < high,
    ensures
        low <= r < high,
{
    rand::Rng::gen_range(rng, low..high)
}

/// Relies on rand's `Rng::gen_range`: a value sampled from `[low, high)`,
/// which is nonempty here; nothing else is assumed of the draw.
#[verifier::external_body]
pub(crate) fn rand_range_usize(rng: &mut rand::rngs::StdRng, low: usize, high: usize) -> (r: usize)
    requires
        low < high,
    ensures
        low <= r < high,
{
    rand::Rng::gen_range(rng, low..high)
}

/// Randomly choose `k` distinct numbers from the range `[0, n)`.
///
/// Draws are made by swapping a random not-yet-chosen element to the front
/// of a pool, so the call always terminates and always returns exactly `k`
/// distinct values.
pub fn choose_k_nums(k: usize, n: usize, rng: &mut rand::rngs::StdRng) -> (r: HashSet<usize>)
    requires
        k <= n,
    ensures
        r@.len() == k,
        forall|x: usize| r@.contains(x) ==> x < n,
{
    let mut pool: Vec<usize> = Vec::new();
    let mut t: usize = 0;
    while t < n
        invariant
            t <= n,
            pool@.len() == t,
            forall|i: int| 0 <= i < t ==> pool@[i] == i,
        decreases n - t,
    {
        pool.push(t);
        t = t + 1;
    }
    proof {
        assert(forall|i: int, j: int| 0 <= i < j < pool@.len() ==> pool@[i] != pool@[j]);
    }
    let mut res: Vec<usize> = Vec::new();
    let mut i: usize = 0;
    while i < k
        invariant
            i <= k,
            k <= n,
            pool@.len() == n,
            forall|a: int| 0 <= a < n ==> pool@[a] < n,
            forall|a: int, b: int| 0 <= a < b < n ==> pool@[a] != pool@[b],
            res@.len() == i,
            forall|a: int| 0 <= a < i ==> res@[a] == pool@[a],
        decreases k - i,
    {
        let j = rand_range_usize(rng, i, n);
        let pi = pool[i];
        let pj = pool[j];
        pool.set(i, pj);
        pool.set(j, pi);
        res.push(pool[i]);
        i = i + 1;
    }
    proof {
        assert forall|a: int, b: int| 0 <= a < b < res@.len() implies res@[a] != res@[b] by {
            assert(res@[a] == pool@[a] && res@[b] == pool@[b]);
        }
    }
    let mut res_set: HashSet<usize> = HashSet::new();
    let mut q: usize = 0;
    while q < k
        invariant
            q <= k,
            res@.len() == k,
            forall|a: int| 0 <= a < k ==> res@[a] < n,
            forall|a: int, b: int| 0 <= a < b < k ==> res@[a] != res@[b],
            res_set@.finite(),
            res_set@.len() == q,
            forall|x: usize| res_set@.contains(x) == exists|a: int| 0 <= a < q && res@[a] == x,
        decreases k - q,
    {
        let x = res[q];
        proof {
            assert(!res_set@.contains(x)) by {
                if res_set@.contains(x) {
                    let a = choose|a: int| 0 <= a < q && res@[a] == x;
                }
            }
            vstd::set::axiom_set_insert_len(res_set@, x);
        }
        let ghost g0 = res_set@;
        res_set.insert(x);
        proof {
            assert forall|y: usize|
                res_set@.contains(y) == exists|a: int| 0 <= a < q + 1 && res@[a] == y by {
                if res_set@.contains(y) {
                    if y == x {
                        assert(res@[q as int] == y && 0 <= (q as int) && (q as int) < q + 1);
                    } else {
                        assert(g0.contains(y));
                        let a = choose|a: int| 0 <= a < q && res@[a] == y;
                        assert(0 <= a < q + 1 && res@[a] == y);
                    }
                }
                if exists|a: int| 0 <= a < q + 1 && res@[a] == y {
                    let a = choose|a: int| 0 <= a < q + 1 && res@[a] == y;
                    if a < q {
                        assert(g0.contains(y));
                    } else {
                        assert(y == x);
                    }
                    assert(res_set@.contains(y));
                }
            }
        }
        q = q + 1;
    }
    proof {
        assert forall|x: usize| res_set@.contains(x) implies x < n by {
            let a = choose|a: int| 0 <= a < k && res@[a] == x;
        }
    }
    res_set
}

} // verus!
