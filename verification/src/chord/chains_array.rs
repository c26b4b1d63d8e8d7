//! A sorted, binary-searchable collection of full node chains.
//!
//! Chains are ordered by their final key, with ties broken by length and
//! then by a content checksum, so that indexing is deterministic for
//! identical inputs.  One copy is sorted for "closest at or before" lookups
//! and one for "closest at or after" lookups, both with wraparound.

use vstd::prelude::*;
use crate::chord::{RingKey, NodeChain};

verus! {

/// The wrapping sum of a chain's keys, used as a deterministic tie-break.
pub open spec fn csum(s: Seq<u64>) -> u64
    decreases s.len(),
{
    if s.len() == 0 {
        0u64
    } else {
        vstd::wrapping::u64_specs::wrapping_add(csum(s.drop_last()), s.last())
    }
}

/// Checksum the contents of a chain.
pub fn csum_chain(chain: &NodeChain) -> (r: u64)
    ensures
        r == csum(chain@),
{
    let n = chain.len();
    let mut acc: u64 = 0;
    let mut i: usize = 0;
    while i < n
        invariant
            n == chain@.len(),
            i <= n,
            acc == csum(chain@.subrange(0, i as int)),
        decreases n - i,
    {
        proof {
            assert(chain@.subrange(0, i + 1).drop_last() =~= chain@.subrange(0, i as int));
            assert(chain@.subrange(0, i + 1).last() == chain@[i as int]);
        }
        acc = acc.wrapping_add(chain[i]);
        i = i + 1;
    }
    proof {
        assert(chain@.subrange(0, n as int) =~= chain@);
    }
    acc
}

/// Sort key order of the clockwise-sorted copy:
/// `(final key, length, checksum)`, ascending.
pub open spec fn right_key_le(a: Seq<u64>, b: Seq<u64>) -> bool {
    ||| a[0] < b[0]
    ||| (a[0] == b[0] && (a.len() < b.len() || (a.len() == b.len() && csum(a) <= csum(b))))
}

/// Sort key order of the counter-clockwise-sorted copy: final key
/// descending, then length and checksum ascending.
pub open spec fn left_key_le(a: Seq<u64>, b: Seq<u64>) -> bool {
    ||| a[0] > b[0]
    ||| (a[0] == b[0] && (a.len() < b.len() || (a.len() == b.len() && csum(a) <= csum(b))))
}

/// `st` is the answer position of a counter-clockwise query: in the
/// descending copy, the first chain whose final key is at or below the
/// target, wrapping to the front.
pub open spec fn ca_left_ok(s: Seq<NodeChain>, key: RingKey, st: int) -> bool {
    &&& 0 <= st < s.len()
    &&& if s[st]@[0] <= key {
        forall|i: int| 0 <= i < st ==> s[i]@[0] > key
    } else {
        st == 0 && (forall|i: int| 0 <= i < s.len() ==> s[i]@[0] > key)
    }
}

/// `st` is the answer position of a clockwise query: in the ascending
/// copy, the first chain whose final key is at or above the target,
/// wrapping to the front.
pub open spec fn ca_right_ok(s: Seq<NodeChain>, key: RingKey, st: int) -> bool {
    &&& 0 <= st < s.len()
    &&& if s[st]@[0] >= key {
        forall|i: int| 0 <= i < st ==> s[i]@[0] < key
    } else {
        st == 0 && (forall|i: int| 0 <= i < s.len() ==> s[i]@[0] < key)
    }
}

/// Compare two chains in the ascending order.
fn right_key_le_exec(a: &NodeChain, b: &NodeChain) -> (r: bool)
    requires
        a@.len() >= 1,
        b@.len() >= 1,
    ensures
        r == right_key_le(a@, b@),
{
    if a[0] != b[0] {
        a[0] < b[0]
    } else if a.len() != b.len() {
        a.len() < b.len()
    } else {
        csum_chain(a) <= csum_chain(b)
    }
}

/// Compare two chains in the descending order.
fn left_key_le_exec(a: &NodeChain, b: &NodeChain) -> (r: bool)
    requires
        a@.len() >= 1,
        b@.len() >= 1,
    ensures
        r == left_key_le(a@, b@),
{
    if a[0] != b[0] {
        a[0] > b[0]
    } else if a.len() != b.len() {
        a.len() < b.len()
    } else {
        csum_chain(a) <= csum_chain(b)
    }
}

/// Element-wise equality of two chains.
fn chain_eq(a: &NodeChain, b: &NodeChain) -> (r: bool)
    ensures
        r == (a@ == b@),
{
    if a.len() != b.len() {
        proof {
            assert(a@ != b@);
        }
        return false;
    }
    let n = a.len();
    let mut i: usize = 0;
    while i < n
        invariant
            n == a@.len() == b@.len(),
            i <= n,
            forall|j: int| 0 <= j < i ==> a@[j] == b@[j],
        decreases n - i,
    {
        if a[i] != b[i] {
            return false;
        }
        i = i + 1;
    }
    proof {
        assert(a@ =~= b@);
    }
    true
}

/// Some stored chain has exactly this content.
pub open spec fn contains_chain(s: Seq<NodeChain>, c: Seq<u64>) -> bool {
    exists|i: int| 0 <= i < s.len() && (#[trigger] s[i])@ == c
}

/// An element-wise copy of a chain.
fn copy_chain(a: &NodeChain) -> (r: NodeChain)
    ensures
        r@ == a@,
{
    let n = a.len();
    let mut out: Vec<RingKey> = Vec::new();
    let mut i: usize = 0;
    while i < n
        invariant
            n == a@.len(),
            i <= n,
            out@.len() == i,
            forall|j: int| 0 <= j < i ==> out@[j] == a@[j],
        decreases n - i,
    {
        out.push(a[i]);
        i = i + 1;
    }
    proof {
        assert(out@ =~= a@);
    }
    out
}

/// A chains array.  Used for quick searching.
pub struct ChainsArray {
    pub raw_chains: Vec<NodeChain>,
    pub sorted_chains_left: Vec<NodeChain>,
    pub sorted_chains_right: Vec<NodeChain>,
    pub is_indexed: bool,
}

impl ChainsArray {
    /// Stored chains are nonempty and pairwise distinct; once indexed, the
    /// two sorted copies hold the same chains in their respective orders.
    pub open spec fn wf(&self) -> bool {
        &&& forall|i: int| 0 <= i < self.raw_chains@.len() ==> (#[trigger] self.raw_chains@[i])@.len() >= 1
        &&& forall|i: int, j: int|
            0 <= i < j < self.raw_chains@.len() ==> (#[trigger] self.raw_chains@[i])@ != (
            #[trigger] self.raw_chains@[j])@
        &&& (self.is_indexed ==> {
            &&& self.raw_chains@.len() >= 1
            &&& self.sorted_chains_left@.len() == self.raw_chains@.len()
            &&& self.sorted_chains_right@.len() == self.raw_chains@.len()
            &&& forall|i: int|
                0 <= i < self.sorted_chains_left@.len() ==> (
                #[trigger] self.sorted_chains_left@[i])@.len() >= 1
            &&& forall|i: int|
                0 <= i < self.sorted_chains_right@.len() ==> (
                #[trigger] self.sorted_chains_right@[i])@.len() >= 1
            &&& forall|i: int, j: int|
                0 <= i < j < self.sorted_chains_left@.len() ==> left_key_le(
                    (#[trigger] self.sorted_chains_left@[i])@,
                    (#[trigger] self.sorted_chains_left@[j])@,
                )
            &&& forall|i: int, j: int|
                0 <= i < j < self.sorted_chains_right@.len() ==> right_key_le(
                    (#[trigger] self.sorted_chains_right@[i])@,
                    (#[trigger] self.sorted_chains_right@[j])@,
                )
            &&& forall|c: Seq<u64>|
                #[trigger] contains_chain(self.sorted_chains_left@, c) == contains_chain(
                    self.raw_chains@,
                    c,
                )
            &&& forall|c: Seq<u64>|
                #[trigger] contains_chain(self.sorted_chains_right@, c) == contains_chain(
                    self.raw_chains@,
                    c,
                )
        })
    }

    pub fn new() -> (r: ChainsArray)
        ensures
            r.wf(),
            !r.is_indexed,
            r.raw_chains@.len() == 0,
    {
        ChainsArray {
            raw_chains: Vec::new(),
            sorted_chains_left: Vec::new(),
            sorted_chains_right: Vec::new(),
            is_indexed: false,
        }
    }

    /// Insert a new chain into the chains array; a chain identical to a
    /// stored one is ignored.
    pub fn insert_chain(&mut self, chain: NodeChain)
        requires
            old(self).wf(),
            !old(self).is_indexed,
            chain@.len() >= 1,
            old(self).raw_chains@.len() < usize::MAX,
        ensures
            final(self).wf(),
            !final(self).is_indexed,
            forall|c: Seq<u64>|
                #[trigger] contains_chain(final(self).raw_chains@, c) == (contains_chain(
                    old(self).raw_chains@,
                    c,
                ) || c == chain@),
            final(self).raw_chains@.len() >= 1,
            final(self).raw_chains@.len() <= old(self).raw_chains@.len() + 1,
            contains_chain(old(self).raw_chains@, chain@) ==> final(self).raw_chains@.len() == old(
                self,
            ).raw_chains@.len(),
            !contains_chain(old(self).raw_chains@, chain@) ==> final(self).raw_chains@.len()
                == old(self).raw_chains@.len() + 1,
    {
        let n = self.raw_chains.len();
        let mut i: usize = 0;
        while i < n
            invariant
                self.wf(),
                !self.is_indexed,
                chain@.len() >= 1,
                n == self.raw_chains@.len(),
                n < usize::MAX,
                i <= n,
                forall|j: int| 0 <= j < i ==> (#[trigger] self.raw_chains@[j])@ != chain@,
            decreases n - i,
        {
            if chain_eq(&self.raw_chains[i], &chain) {
                proof {
                    assert forall|c: Seq<u64>|
                        #[trigger] contains_chain(self.raw_chains@, c) == (contains_chain(
                            self.raw_chains@,
                            c,
                        ) || c == chain@) by {
                        if c == chain@ {
                            assert(self.raw_chains@[i as int]@ == c);
                            assert(contains_chain(self.raw_chains@, c));
                        }
                    }
                }
                return ;
            }
            i = i + 1;
        }
        let ghost g0 = self.raw_chains@;
        self.raw_chains.push(chain);
        proof {
            assert forall|c: Seq<u64>|
                #[trigger] contains_chain(self.raw_chains@, c) == (contains_chain(g0, c) || c
                    == chain@) by {
                if contains_chain(self.raw_chains@, c) {
                    let k = choose|k: int|
                        0 <= k < self.raw_chains@.len() && (#[trigger] self.raw_chains@[k])@ == c;
                    if k < g0.len() {
                        assert(g0[k]@ == c);
                        assert(contains_chain(g0, c));
                    }
                }
                if contains_chain(g0, c) {
                    let k = choose|k: int| 0 <= k < g0.len() && (#[trigger] g0[k])@ == c;
                    assert(self.raw_chains@[k]@ == c);
                    assert(contains_chain(self.raw_chains@, c));
                }
                if c == chain@ {
                    assert(self.raw_chains@[g0.len() as int]@ == c);
                    assert(contains_chain(self.raw_chains@, c));
                }
            }
            assert forall|a: int, b: int|
                0 <= a < b < self.raw_chains@.len() implies (#[trigger] self.raw_chains@[a])@
                != (#[trigger] self.raw_chains@[b])@ by {
                if b == g0.len() {
                    assert(self.raw_chains@[a] == g0[a]);
                }
            }
        }
    }

    /// Index all the chains, for quick searching.
    pub fn index(&mut self)
        requires
            old(self).wf(),
            !old(self).is_indexed,
            old(self).raw_chains@.len() >= 1,
        ensures
            final(self).wf(),
            final(self).is_indexed,
            final(self).raw_chains@ == old(self).raw_chains@,
    {
        let n = self.raw_chains.len();
        let mut left_sorted: Vec<NodeChain> = Vec::new();
        let mut right_sorted: Vec<NodeChain> = Vec::new();
        let mut i: usize = 0;
        while i < n
            invariant
                n == self.raw_chains@.len(),
                i <= n,
                forall|j: int| 0 <= j < n ==> (#[trigger] self.raw_chains@[j])@.len() >= 1,
                left_sorted@.len() == i,
                right_sorted@.len() == i,
                forall|j: int| 0 <= j < i ==> (#[trigger] left_sorted@[j])@.len() >= 1,
                forall|j: int| 0 <= j < i ==> (#[trigger] right_sorted@[j])@.len() >= 1,
                forall|a: int, b: int|
                    0 <= a < b < i ==> left_key_le(
                        (#[trigger] left_sorted@[a])@,
                        (#[trigger] left_sorted@[b])@,
                    ),
                forall|a: int, b: int|
                    0 <= a < b < i ==> right_key_le(
                        (#[trigger] right_sorted@[a])@,
                        (#[trigger] right_sorted@[b])@,
                    ),
                forall|c: Seq<u64>|
                    #[trigger] contains_chain(left_sorted@, c) == exists|j: int|
                        0 <= j < i && (#[trigger] self.raw_chains@[j])@ == c,
                forall|c: Seq<u64>|
                    #[trigger] contains_chain(right_sorted@, c) == exists|j: int|
                        0 <= j < i && (#[trigger] self.raw_chains@[j])@ == c,
            decreases n - i,
        {
            let c_left = copy_chain(&self.raw_chains[i]);
            let c_right = copy_chain(&self.raw_chains[i]);
            let ghost gl = left_sorted@;
            let ghost gr = right_sorted@;
            insert_chain_ordered_left(&mut left_sorted, c_left);
            insert_chain_ordered_right(&mut right_sorted, c_right);
            proof {
                assert forall|c: Seq<u64>|
                    #[trigger] contains_chain(left_sorted@, c) == exists|j: int|
                        0 <= j < i + 1 && (#[trigger] self.raw_chains@[j])@ == c by {
                    assert(contains_chain(left_sorted@, c) == (contains_chain(gl, c) || c
                        == self.raw_chains@[i as int]@));
                    if contains_chain(left_sorted@, c) {
                        if c == self.raw_chains@[i as int]@ {
                            assert(0 <= (i as int) && (i as int) < i + 1);
                        } else {
                            let j = choose|j: int|
                                0 <= j < i && (#[trigger] self.raw_chains@[j])@ == c;
                        }
                    }
                    if exists|j: int| 0 <= j < i + 1 && (#[trigger] self.raw_chains@[j])@ == c {
                        let j = choose|j: int|
                            0 <= j < i + 1 && (#[trigger] self.raw_chains@[j])@ == c;
                        if j < i {
                            assert(contains_chain(gl, c));
                        } else {
                            assert(c == self.raw_chains@[i as int]@);
                        }
                    }
                }
                assert forall|c: Seq<u64>|
                    #[trigger] contains_chain(right_sorted@, c) == exists|j: int|
                        0 <= j < i + 1 && (#[trigger] self.raw_chains@[j])@ == c by {
                    assert(contains_chain(right_sorted@, c) == (contains_chain(gr, c) || c
                        == self.raw_chains@[i as int]@));
                    if contains_chain(right_sorted@, c) {
                        if c == self.raw_chains@[i as int]@ {
                            assert(0 <= (i as int) && (i as int) < i + 1);
                        } else {
                            let j = choose|j: int|
                                0 <= j < i && (#[trigger] self.raw_chains@[j])@ == c;
                        }
                    }
                    if exists|j: int| 0 <= j < i + 1 && (#[trigger] self.raw_chains@[j])@ == c {
                        let j = choose|j: int|
                            0 <= j < i + 1 && (#[trigger] self.raw_chains@[j])@ == c;
                        if j < i {
                            assert(contains_chain(gr, c));
                        } else {
                            assert(c == self.raw_chains@[i as int]@);
                        }
                    }
                }
            }
            i = i + 1;
        }
        proof {
            assert forall|c: Seq<u64>|
                #[trigger] contains_chain(left_sorted@, c) == contains_chain(
                self.raw_chains@,
                c,
            ) by {
                assert((exists|j: int| 0 <= j < n && (#[trigger] self.raw_chains@[j])@ == c)
                    == contains_chain(self.raw_chains@, c));
            }
            assert forall|c: Seq<u64>|
                #[trigger] contains_chain(right_sorted@, c) == contains_chain(
                self.raw_chains@,
                c,
            ) by {
                assert((exists|j: int| 0 <= j < n && (#[trigger] self.raw_chains@[j])@ == c)
                    == contains_chain(self.raw_chains@, c));
            }
        }
        self.sorted_chains_left = left_sorted;
        self.sorted_chains_right = right_sorted;
        self.is_indexed = true;
    }

    /// The stored chain whose final key is nearest counter-clockwise of
    /// `target_id`, wrapping.
    pub fn find_closest_left(&self, target_id: RingKey) -> (r: &NodeChain)
        requires
            self.wf(),
            self.is_indexed,
        ensures
            exists|st: int|
                ca_left_ok(self.sorted_chains_left@, target_id, st) && *r
                    == self.sorted_chains_left@[st],
    {
        let s = &self.sorted_chains_left;
        let n = s.len();
        proof {
            assert forall|i: int, j: int|
                0 <= i < j < n implies (#[trigger] s@[i])@[0] >= (#[trigger] s@[j])@[0] by {
                assert(left_key_le(s@[i]@, s@[j]@));
            }
        }
        let mut lo: usize = 0;
        let mut hi: usize = n;
        while lo < hi
            invariant
                lo <= hi <= n,
                n == s@.len(),
                s@ == self.sorted_chains_left@,
                forall|i: int| 0 <= i < n ==> (#[trigger] s@[i])@.len() >= 1,
                forall|i: int, j: int| 0 <= i < j < n ==> (#[trigger] s@[i])@[0] >= (#[trigger] s@[j])@[0],
                forall|i: int| 0 <= i < lo ==> (#[trigger] s@[i])@[0] > target_id,
                forall|i: int| hi <= i < n ==> (#[trigger] s@[i])@[0] <= target_id,
            decreases hi - lo,
        {
            let mid = lo + (hi - lo) / 2;
            if s[mid][0] > target_id {
                lo = mid + 1;
            } else {
                hi = mid;
            }
        }
        if lo == n {
            proof {
                assert(ca_left_ok(self.sorted_chains_left@, target_id, 0));
            }
            &self.sorted_chains_left[0]
        } else {
            proof {
                assert(ca_left_ok(self.sorted_chains_left@, target_id, lo as int));
            }
            &self.sorted_chains_left[lo]
        }
    }

    /// The stored chain whose final key is nearest clockwise of
    /// `target_id`, wrapping.
    pub fn find_closest_right(&self, target_id: RingKey) -> (r: &NodeChain)
        requires
            self.wf(),
            self.is_indexed,
        ensures
            exists|st: int|
                ca_right_ok(self.sorted_chains_right@, target_id, st) && *r
                    == self.sorted_chains_right@[st],
    {
        let s = &self.sorted_chains_right;
        let n = s.len();
        proof {
            assert forall|i: int, j: int|
                0 <= i < j < n implies (#[trigger] s@[i])@[0] <= (#[trigger] s@[j])@[0] by {
                assert(right_key_le(s@[i]@, s@[j]@));
            }
        }
        let mut lo: usize = 0;
        let mut hi: usize = n;
        while lo < hi
            invariant
                lo <= hi <= n,
                n == s@.len(),
                s@ == self.sorted_chains_right@,
                forall|i: int| 0 <= i < n ==> (#[trigger] s@[i])@.len() >= 1,
                forall|i: int, j: int| 0 <= i < j < n ==> (#[trigger] s@[i])@[0] <= (#[trigger] s@[j])@[0],
                forall|i: int| 0 <= i < lo ==> (#[trigger] s@[i])@[0] < target_id,
                forall|i: int| hi <= i < n ==> (#[trigger] s@[i])@[0] >= target_id,
            decreases hi - lo,
        {
            let mid = lo + (hi - lo) / 2;
            if s[mid][0] < target_id {
                lo = mid + 1;
            } else {
                hi = mid;
            }
        }
        if lo == n {
            proof {
                assert(ca_right_ok(self.sorted_chains_right@, target_id, 0));
            }
            &self.sorted_chains_right[0]
        } else {
            proof {
                assert(ca_right_ok(self.sorted_chains_right@, target_id, lo as int));
            }
            &self.sorted_chains_right[lo]
        }
    }
}

/// Insert a chain into a vector sorted by the descending order, after any
/// chains of equal key.
#[verifier::rlimit(80)]
#[verifier::spinoff_prover]
fn insert_chain_ordered_left(v: &mut Vec<NodeChain>, c: NodeChain)
    requires
        forall|i: int| 0 <= i < old(v)@.len() ==> (#[trigger] old(v)@[i])@.len() >= 1,
        c@.len() >= 1,
        forall|a: int, b: int|
            0 <= a < b < old(v)@.len() ==> left_key_le(
                (#[trigger] old(v)@[a])@,
                (#[trigger] old(v)@[b])@,
            ),
        old(v)@.len() < usize::MAX,
    ensures
        final(v)@.len() == old(v)@.len() + 1,
        forall|i: int| 0 <= i < final(v)@.len() ==> (#[trigger] final(v)@[i])@.len() >= 1,
        forall|a: int, b: int|
            0 <= a < b < final(v)@.len() ==> left_key_le(
                (#[trigger] final(v)@[a])@,
                (#[trigger] final(v)@[b])@,
            ),
        forall|y: Seq<u64>|
            #[trigger] contains_chain(final(v)@, y) == (contains_chain(old(v)@, y) || y == c@),
{
    let n = v.len();
    let mut i: usize = 0;
    while i < n && left_key_le_exec(&v[i], &c)
        invariant
            n == v@.len(),
            i <= n,
            c@.len() >= 1,
            forall|j: int| 0 <= j < n ==> (#[trigger] v@[j])@.len() >= 1,
            forall|j: int| 0 <= j < i ==> left_key_le((#[trigger] v@[j])@, c@),
        decreases n - i,
    {
        i = i + 1;
    }
    let ghost v0 = v@;
    v.insert(i, c);
    proof {
        assert forall|y: Seq<u64>|
            #[trigger] contains_chain(v@, y) == (contains_chain(v0, y) || y == c@) by {
            if contains_chain(v@, y) {
                let k = choose|k: int| 0 <= k < v@.len() && (#[trigger] v@[k])@ == y;
                if k < i {
                    assert(v0[k]@ == y);
                    assert(contains_chain(v0, y));
                } else if k > i {
                    assert(v0[k - 1]@ == y);
                    assert(contains_chain(v0, y));
                }
            }
            if contains_chain(v0, y) {
                let k = choose|k: int| 0 <= k < v0.len() && (#[trigger] v0[k])@ == y;
                if k < i {
                    assert(v@[k]@ == y);
                } else {
                    assert(v@[k + 1]@ == y);
                }
                assert(contains_chain(v@, y));
            }
            if y == c@ {
                assert(v@[i as int]@ == y);
                assert(contains_chain(v@, y));
            }
        }
        assert forall|a: int, b: int|
            0 <= a < b < v@.len() implies left_key_le((#[trigger] v@[a])@, (#[trigger] v@[b])@) by {
            let ii = i as int;
            if ii < v0.len() {
                assert(!left_key_le(v0[ii]@, c@));
                assert(left_key_le(c@, v0[ii]@));
            }
            if a < ii && b == ii {
                assert(v@[a] == v0[a]);
            } else if a == ii && b > ii {
                assert(v@[b] == v0[b - 1]);
                if b - 1 > ii {
                    assert(left_key_le(v0[ii]@, v0[b - 1]@));
                }
            } else if a < ii && b > ii {
                assert(v@[a] == v0[a] && v@[b] == v0[b - 1]);
                if a == b - 1 {
                    assert(left_key_le(v@[a]@, c@));
                    assert(v@[b] == c);
                }
            } else if a > ii && b > ii {
                assert(v@[a] == v0[a - 1] && v@[b] == v0[b - 1]);
            } else if a < ii && b < ii {
                assert(v@[a] == v0[a] && v@[b] == v0[b]);
            }
        }
    }
}

/// Insert a chain into a vector sorted by the ascending order, after any
/// chains of equal key.
#[verifier::rlimit(80)]
#[verifier::spinoff_prover]
fn insert_chain_ordered_right(v: &mut Vec<NodeChain>, c: NodeChain)
    requires
        forall|i: int| 0 <= i < old(v)@.len() ==> (#[trigger] old(v)@[i])@.len() >= 1,
        c@.len() >= 1,
        forall|a: int, b: int|
            0 <= a < b < old(v)@.len() ==> right_key_le(
                (#[trigger] old(v)@[a])@,
                (#[trigger] old(v)@[b])@,
            ),
        old(v)@.len() < usize::MAX,
    ensures
        final(v)@.len() == old(v)@.len() + 1,
        forall|i: int| 0 <= i < final(v)@.len() ==> (#[trigger] final(v)@[i])@.len() >= 1,
        forall|a: int, b: int|
            0 <= a < b < final(v)@.len() ==> right_key_le(
                (#[trigger] final(v)@[a])@,
                (#[trigger] final(v)@[b])@,
            ),
        forall|y: Seq<u64>|
            #[trigger] contains_chain(final(v)@, y) == (contains_chain(old(v)@, y) || y == c@),
{
    let n = v.len();
    let mut i: usize = 0;
    while i < n && right_key_le_exec(&v[i], &c)
        invariant
            n == v@.len(),
            i <= n,
            c@.len() >= 1,
            forall|j: int| 0 <= j < n ==> (#[trigger] v@[j])@.len() >= 1,
            forall|j: int| 0 <= j < i ==> right_key_le((#[trigger] v@[j])@, c@),
        decreases n - i,
    {
        i = i + 1;
    }
    let ghost v0 = v@;
    v.insert(i, c);
    proof {
        assert forall|y: Seq<u64>|
            #[trigger] contains_chain(v@, y) == (contains_chain(v0, y) || y == c@) by {
            if contains_chain(v@, y) {
                let k = choose|k: int| 0 <= k < v@.len() && (#[trigger] v@[k])@ == y;
                if k < i {
                    assert(v0[k]@ == y);
                    assert(contains_chain(v0, y));
                } else if k > i {
                    assert(v0[k - 1]@ == y);
                    assert(contains_chain(v0, y));
                }
            }
            if contains_chain(v0, y) {
                let k = choose|k: int| 0 <= k < v0.len() && (#[trigger] v0[k])@ == y;
                if k < i {
                    assert(v@[k]@ == y);
                } else {
                    assert(v@[k + 1]@ == y);
                }
                assert(contains_chain(v@, y));
            }
            if y == c@ {
                assert(v@[i as int]@ == y);
                assert(contains_chain(v@, y));
            }
        }
        assert forall|a: int, b: int|
            0 <= a < b < v@.len() implies right_key_le((#[trigger] v@[a])@, (#[trigger] v@[b])@) by {
            let ii = i as int;
            if ii < v0.len() {
                assert(!right_key_le(v0[ii]@, c@));
                assert(right_key_le(c@, v0[ii]@));
            }
            if a < ii && b == ii {
                assert(v@[a] == v0[a]);
            } else if a == ii && b > ii {
                assert(v@[b] == v0[b - 1]);
                if b - 1 > ii {
                    assert(right_key_le(v0[ii]@, v0[b - 1]@));
                }
            } else if a < ii && b > ii {
                assert(v@[a] == v0[a] && v@[b] == v0[b - 1]);
                if a == b - 1 {
                    assert(right_key_le(v@[a]@, c@));
                    assert(v@[b] == c);
                }
            } else if a > ii && b > ii {
                assert(v@[a] == v0[a - 1] && v@[b] == v0[b - 1]);
            } else if a < ii && b < ii {
                assert(v@[a] == v0[a] && v@[b] == v0[b]);
            }
        }
    }
}

} // verus!
