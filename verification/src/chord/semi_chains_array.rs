//! A sorted, binary-searchable collection of chains, used to answer
//! "best known approach to key K" queries.
//!
//! Lifecycle: insert phase (duplicates ignored) -> `index()` -> query phase.
//! Queries find the nearest chain clockwise or counter-clockwise of a target
//! with wraparound; at an exact match both directions prefer the chain with
//! the fewest hops.

use vstd::prelude::*;
use crate::chord::RingKey;
use crate::chord::node_fingers::{SemiChain, schain_lt};

verus! {

/// Get the final id of a `SemiChain`.
pub fn schain_final_id(schain: &SemiChain) -> (r: RingKey)
    ensures
        r == schain.final_id,
{
    schain.final_id
}

/// `st` is the answer position for a counter-clockwise query: the first —
/// that is, fewest-hops — chain of the winning final id.  The winner is the
/// target's own final id if present, otherwise the greatest final id below
/// the target, wrapping to the greatest stored final id.
pub open spec fn sc_left_ok(s: Seq<SemiChain>, key: RingKey, st: int) -> bool {
    &&& 0 <= st < s.len()
    &&& if s[st].final_id == key {
        forall|i: int| 0 <= i < st ==> s[i].final_id < key
    } else if s[st].final_id < key {
        &&& forall|i: int| 0 <= i < st ==> s[i].final_id < s[st].final_id
        &&& forall|i: int|
            st < i < s.len() ==> s[i].final_id == s[st].final_id || s[i].final_id > key
    } else {
        &&& forall|i: int| 0 <= i < s.len() ==> s[i].final_id > key
        &&& s[st].final_id == s[s.len() - 1].final_id
        &&& forall|i: int| 0 <= i < st ==> s[i].final_id < s[st].final_id
    }
}

/// `st` is the answer position for a clockwise query: the first chain at or
/// above the target's final id, wrapping to the front of the list.
pub open spec fn sc_right_ok(s: Seq<SemiChain>, key: RingKey, st: int) -> bool {
    &&& 0 <= st < s.len()
    &&& if s[st].final_id >= key {
        forall|i: int| 0 <= i < st ==> s[i].final_id < key
    } else {
        st == 0 && (forall|i: int| 0 <= i < s.len() ==> s[i].final_id < key)
    }
}

/// The answer position of a counter-clockwise query is unique.
pub proof fn lemma_sc_left_unique(s: Seq<SemiChain>, key: RingKey, a: int, b: int)
    requires
        forall|i: int, j: int| 0 <= i < j < s.len() ==> schain_lt(s[i], s[j]),
        sc_left_ok(s, key, a),
        sc_left_ok(s, key, b),
    ensures
        a == b,
{
    assert forall|i: int, j: int| 0 <= i < j < s.len() implies s[i].final_id <= s[j].final_id by {
        assert(schain_lt(s[i], s[j]));
    }
}

/// The answer position of a clockwise query is unique.
pub proof fn lemma_sc_right_unique(s: Seq<SemiChain>, key: RingKey, a: int, b: int)
    requires
        forall|i: int, j: int| 0 <= i < j < s.len() ==> schain_lt(s[i], s[j]),
        sc_right_ok(s, key, a),
        sc_right_ok(s, key, b),
    ensures
        a == b,
{
    assert forall|i: int, j: int| 0 <= i < j < s.len() implies s[i].final_id <= s[j].final_id by {
        assert(schain_lt(s[i], s[j]));
    }
}


/// First index whose final id is at or above `key`, or the length when
/// every final id lies below it.
fn sc_lower_bound(v: &Vec<SemiChain>, key: RingKey) -> (r: usize)
    requires
        forall|i: int, j: int| 0 <= i < j < v@.len() ==> v@[i].final_id <= v@[j].final_id,
    ensures
        r <= v@.len(),
        forall|i: int| 0 <= i < r ==> v@[i].final_id < key,
        forall|i: int| r <= i < v@.len() ==> v@[i].final_id >= key,
{
    let n = v.len();
    let mut lo: usize = 0;
    let mut hi: usize = n;
    while lo < hi
        invariant
            lo <= hi <= n,
            n == v@.len(),
            forall|i: int, j: int| 0 <= i < j < n ==> v@[i].final_id <= v@[j].final_id,
            forall|i: int| 0 <= i < lo ==> v@[i].final_id < key,
            forall|i: int| hi <= i < n ==> v@[i].final_id >= key,
        decreases hi - lo,
    {
        let mid = lo + (hi - lo) / 2;
        if v[mid].final_id < key {
            lo = mid + 1;
        } else {
            hi = mid;
        }
    }
    lo
}

/// A chains array.  Used for quick searching.
pub struct SemiChainsArray {
    pub schains: Vec<SemiChain>,
    pub is_indexed: bool,
}

impl SemiChainsArray {
    /// Chains are kept sorted by `(final_id, length)` and therefore distinct;
    /// once indexed, the array is nonempty.
    pub open spec fn wf(&self) -> bool {
        &&& forall|i: int, j: int|
            0 <= i < j < self.schains@.len() ==> schain_lt(self.schains@[i], self.schains@[j])
        &&& (self.is_indexed ==> self.schains@.len() >= 1)
    }

    pub fn new() -> (r: SemiChainsArray)
        ensures
            r.wf(),
            !r.is_indexed,
            r.schains@.len() == 0,
    {
        SemiChainsArray { schains: Vec::new(), is_indexed: false }
    }

    /// Insert a new semi chain into the semi chains array.
    /// A chain equal to a stored one is ignored.
    pub fn insert_schain(&mut self, schain: SemiChain)
        requires
            old(self).wf(),
            !old(self).is_indexed,
            old(self).schains@.len() < usize::MAX,
        ensures
            final(self).wf(),
            !final(self).is_indexed,
            forall|x: SemiChain|
                final(self).schains@.contains(x) == (old(self).schains@.contains(x) || x
                    == schain),
            final(self).schains@.len() >= 1,
            final(self).schains@.len() <= old(self).schains@.len() + 1,
    {
        crate::chord::node_fingers::insert_schain_sorted(&mut self.schains, schain);
        proof {
            assert(self.schains@.contains(schain));
        }
    }

    /// Index all the semi chains, for quick searching.
    pub fn index(&mut self)
        requires
            old(self).wf(),
            !old(self).is_indexed,
            old(self).schains@.len() >= 1,
        ensures
            final(self).wf(),
            final(self).is_indexed,
            final(self).schains@ == old(self).schains@,
    {
        self.is_indexed = true;
    }

    /// The stored chain nearest counter-clockwise of `target_id`
    /// (wrapping), shortest first at an exact match.
    /// The stored chain nearest counter-clockwise of `target_id`
    /// (wrapping), shortest among chains of the winning final id.
    pub fn find_closest_left(&self, target_id: RingKey) -> (r: &SemiChain)
        requires
            self.wf(),
            self.is_indexed,
        ensures
            exists|st: int| sc_left_ok(self.schains@, target_id, st) && *r == self.schains@[st],
    {
        let n = self.schains.len();
        proof {
            assert forall|i: int, j: int|
                0 <= i < j < n implies self.schains@[i].final_id
                <= self.schains@[j].final_id by {
                assert(schain_lt(self.schains@[i], self.schains@[j]));
            }
        }
        let lo = sc_lower_bound(&self.schains, target_id);
        if lo < n && self.schains[lo].final_id == target_id {
            proof {
                assert(sc_left_ok(self.schains@, target_id, lo as int));
            }
            &self.schains[lo]
        } else {
            // The winning final id: the greatest one below the target, or
            // the greatest stored one when every final id lies above it.
            let winner = if lo == 0 {
                self.schains[n - 1].final_id
            } else {
                self.schains[lo - 1].final_id
            };
            let st = sc_lower_bound(&self.schains, winner);
            proof {
                let sv = self.schains@;
                let fi: int = if lo == 0 {
                    n - 1
                } else {
                    lo - 1
                };
                assert(sv[fi].final_id == winner);
                assert(st < n);
                assert(sv[st as int].final_id == winner);
                if lo == 0 {
                    assert(sv[0].final_id != target_id);
                    assert forall|i: int| 0 <= i < n implies sv[i].final_id > target_id by {
                        assert(sv[i].final_id >= sv[0].final_id);
                    }
                    assert(sc_left_ok(sv, target_id, st as int));
                } else {
                    assert(winner < target_id);
                    assert forall|i: int|
                        st < i < n implies sv[i].final_id == winner || sv[i].final_id
                        > target_id by {
                        if i < lo {
                            assert(sv[i].final_id <= sv[fi].final_id);
                            assert(sv[i].final_id >= winner);
                        } else {
                            assert(sv[i].final_id >= sv[lo as int].final_id);
                            assert(sv[lo as int].final_id != target_id);
                        }
                    }
                    assert(sc_left_ok(sv, target_id, st as int));
                }
            }
            &self.schains[st]
        }
    }

    /// The stored chain nearest clockwise of `target_id` (wrapping),
    /// shortest first at an exact match.
    pub fn find_closest_right(&self, target_id: RingKey) -> (r: &SemiChain)
        requires
            self.wf(),
            self.is_indexed,
        ensures
            exists|st: int| sc_right_ok(self.schains@, target_id, st) && *r == self.schains@[st],
    {
        let n = self.schains.len();
        proof {
            assert forall|i: int, j: int|
                0 <= i < j < n implies self.schains@[i].final_id
                <= self.schains@[j].final_id by {
                assert(schain_lt(self.schains@[i], self.schains@[j]));
            }
        }
        let mut lo: usize = 0;
        let mut hi: usize = n;
        while lo < hi
            invariant
                lo <= hi <= n,
                n == self.schains@.len(),
                forall|i: int, j: int|
                    0 <= i < j < n ==> self.schains@[i].final_id <= self.schains@[j].final_id,
                forall|i: int| 0 <= i < lo ==> self.schains@[i].final_id < target_id,
                forall|i: int| hi <= i < n ==> self.schains@[i].final_id >= target_id,
            decreases hi - lo,
        {
            let mid = lo + (hi - lo) / 2;
            if self.schains[mid].final_id < target_id {
                lo = mid + 1;
            } else {
                hi = mid;
            }
        }
        if lo == n {
            proof {
                assert(sc_right_ok(self.schains@, target_id, 0));
            }
            &self.schains[0]
        } else {
            proof {
                assert(sc_right_ok(self.schains@, target_id, lo as int));
            }
            &self.schains[lo]
        }
    }
}

} // verus!
