//! Per-node routing tables: sorted finger lists and their update rule.
//!
//! A node maintains two lists of fingers sorted by target id, one approached
//! from the counter-clockwise ("left") side and one from the clockwise
//! ("right") side.  An advertised `SemiChain` improves a contiguous run of
//! fingers around the insertion point of its final id; the walk stops at the
//! first finger it does not improve.

use vstd::prelude::*;
use crate::chord::RingKey;
use crate::chord::map_counter::{MapCounter, EqKey, count_of};
use crate::ring_dist;

verus! {

/// "I can reach `final_id` in `length` hops."
#[derive(Clone, Copy, Hash, Eq, PartialEq, Structural, Debug)]
pub struct SemiChain {
    pub final_id: RingKey,
    pub length: usize,
}

/// One maintained routing-table slot.
#[derive(Clone, Copy, Hash, Eq, PartialEq, Structural, Debug)]
pub struct Finger {
    pub target_id: RingKey,
    pub schain: SemiChain,
}

impl EqKey for SemiChain {
    fn key_eq(&self, other: &Self) -> (r: bool)
        ensures
            r == (self == other),
    {
        self.final_id == other.final_id && self.length == other.length
    }
}

/// Ring distance between two keys, on a ring of size `2^l`.
pub open spec fn rd(x: RingKey, y: RingKey, l: nat) -> int {
    ring_dist(x as int, y as int, l)
}

/// The candidate chain strictly improves this right-side finger:
/// smaller clockwise distance target -> final, ties broken by fewer hops.
pub open spec fn right_better(f: Finger, c: SemiChain, l: nat) -> bool {
    let dc = rd(f.target_id, c.final_id, l);
    let df = rd(f.target_id, f.schain.final_id, l);
    dc < df || (dc == df && c.length < f.schain.length)
}

/// The candidate chain strictly improves this left-side finger:
/// smaller clockwise distance final -> target, ties broken by fewer hops.
pub open spec fn left_better(f: Finger, c: SemiChain, l: nat) -> bool {
    let dc = rd(c.final_id, f.target_id, l);
    let df = rd(f.schain.final_id, f.target_id, l);
    dc < df || (dc == df && c.length < f.schain.length)
}

/// Finger `a` scores at least as well as `b` for the right side
/// (they track the same target).
pub open spec fn right_no_worse(a: Finger, b: Finger, l: nat) -> bool {
    let da = rd(a.target_id, a.schain.final_id, l);
    let db = rd(b.target_id, b.schain.final_id, l);
    da < db || (da == db && a.schain.length <= b.schain.length)
}

/// Finger `a` scores at least as well as `b` for the left side.
pub open spec fn left_no_worse(a: Finger, b: Finger, l: nat) -> bool {
    let da = rd(a.schain.final_id, a.target_id, l);
    let db = rd(b.schain.final_id, b.target_id, l);
    da < db || (da == db && a.schain.length <= b.schain.length)
}

/// Fingers are sorted by strictly increasing target id.
pub open spec fn targets_sorted(s: Seq<Finger>) -> bool {
    forall|i: int, j: int| 0 <= i < j < s.len() ==> s[i].target_id < s[j].target_id
}

/// `st` is the index where a right-side walk for final id `key` starts:
/// the last finger with target at or below `key`, wrapping to the end of
/// the list when every target lies above `key`.
pub open spec fn right_start_ok(s: Seq<Finger>, key: RingKey, st: int) -> bool {
    &&& 0 <= st < s.len()
    &&& if s[st].target_id <= key {
        forall|i: int| st < i < s.len() ==> s[i].target_id > key
    } else {
        st == s.len() - 1 && (forall|i: int| 0 <= i < s.len() ==> s[i].target_id > key)
    }
}

/// `st` is the index where a left-side walk for final id `key` starts:
/// the first finger with target at or above `key`, wrapping to the front
/// of the list when every target lies below `key`.
pub open spec fn left_start_ok(s: Seq<Finger>, key: RingKey, st: int) -> bool {
    &&& 0 <= st < s.len()
    &&& if s[st].target_id >= key {
        forall|i: int| 0 <= i < st ==> s[i].target_id < key
    } else {
        st == 0 && (forall|i: int| 0 <= i < s.len() ==> s[i].target_id < key)
    }
}

/// Previous index on the ring of slots.
pub open spec fn dec_wrap(i: int, n: int) -> int {
    if i == 0 {
        n - 1
    } else {
        i - 1
    }
}

/// Next index on the ring of slots.
pub open spec fn inc_wrap(i: int, n: int) -> int {
    if i == n - 1 {
        0
    } else {
        i + 1
    }
}

/// The table produced by a right-side walk: starting at `idx` and moving
/// toward smaller indices with wraparound, each finger that the candidate
/// strictly improves is re-pointed at the candidate; the walk stops at the
/// first finger it does not improve, or after a full revolution.
pub open spec fn right_walk(s: Seq<Finger>, c: SemiChain, l: nat, idx: int, fuel: nat) -> Seq<
    Finger,
>
    recommends
        0 <= idx < s.len(),
    decreases fuel,
{
    if fuel == 0 || !right_better(s[idx], c, l) {
        s
    } else {
        right_walk(
            s.update(idx, Finger { target_id: s[idx].target_id, schain: c }),
            c,
            l,
            dec_wrap(idx, s.len() as int),
            (fuel - 1) as nat,
        )
    }
}

/// The table produced by a left-side walk, moving toward larger indices.
pub open spec fn left_walk(s: Seq<Finger>, c: SemiChain, l: nat, idx: int, fuel: nat) -> Seq<
    Finger,
>
    recommends
        0 <= idx < s.len(),
    decreases fuel,
{
    if fuel == 0 || !left_better(s[idx], c, l) {
        s
    } else {
        left_walk(
            s.update(idx, Finger { target_id: s[idx].target_id, schain: c }),
            c,
            l,
            inc_wrap(idx, s.len() as int),
            (fuel - 1) as nat,
        )
    }
}

/// A right-side update changes the table exactly when the candidate improves
/// the finger at the walk's start position.
pub open spec fn right_accepts(s: Seq<Finger>, c: SemiChain, l: nat) -> bool {
    exists|st: int| right_start_ok(s, c.final_id, st) && right_better(s[st], c, l)
}

/// A left-side update changes the table exactly when the candidate improves
/// the finger at the walk's start position.
pub open spec fn left_accepts(s: Seq<Finger>, c: SemiChain, l: nat) -> bool {
    exists|st: int| left_start_ok(s, c.final_id, st) && left_better(s[st], c, l)
}

/// How many fingers of `s` carry the chain `sc`.
pub open spec fn schain_count(s: Seq<Finger>, sc: SemiChain) -> nat
    decreases s.len(),
{
    if s.len() == 0 {
        0
    } else {
        schain_count(s.drop_last(), sc) + (if s.last().schain == sc {
            1nat
        } else {
            0nat
        })
    }
}

pub proof fn lemma_schain_count_bound(s: Seq<Finger>, sc: SemiChain)
    ensures
        schain_count(s, sc) <= s.len(),
    decreases s.len(),
{
    if s.len() > 0 {
        lemma_schain_count_bound(s.drop_last(), sc);
    }
}

/// A chain absent from some slot is carried by at most `len - 1` fingers.
pub proof fn lemma_schain_count_missing(s: Seq<Finger>, i: int, sc: SemiChain)
    requires
        0 <= i < s.len(),
        s[i].schain != sc,
    ensures
        schain_count(s, sc) <= s.len() - 1,
    decreases s.len(),
{
    if i == s.len() - 1 {
        lemma_schain_count_bound(s.drop_last(), sc);
    } else {
        lemma_schain_count_missing(s.drop_last(), i, sc);
        assert(s.drop_last()[i] == s[i]);
    }
}

pub proof fn lemma_schain_count_update(s: Seq<Finger>, i: int, f: Finger, sc: SemiChain)
    requires
        0 <= i < s.len(),
    ensures
        schain_count(s.update(i, f), sc) == schain_count(s, sc) - (if s[i].schain == sc {
            1int
        } else {
            0int
        }) + (if f.schain == sc {
            1int
        } else {
            0int
        }),
    decreases s.len(),
{
    let s1 = s.update(i, f);
    if i == s.len() - 1 {
        assert(s1.drop_last() =~= s.drop_last());
        assert(s1.last() == f);
    } else {
        assert(s1.drop_last() =~= s.drop_last().update(i, f));
        assert(s1.last() == s.last());
        lemma_schain_count_update(s.drop_last(), i, f, sc);
    }
}

/// Fingers are in bounds, mutually consistent, and the count map agrees with
/// the stored chains of both sides.
pub struct SortedFingersLeft {
    pub sorted_fingers: Vec<Finger>,
}

pub struct SortedFingersRight {
    pub sorted_fingers: Vec<Finger>,
}

/// Locate the start slot of a right-side walk by binary search.
fn right_start_search(v: &Vec<Finger>, key: RingKey) -> (r: usize)
    requires
        targets_sorted(v@),
        v@.len() >= 1,
    ensures
        right_start_ok(v@, key, r as int),
{
    let n = v.len();
    let mut lo: usize = 0;
    let mut hi: usize = n;
    while lo < hi
        invariant
            lo <= hi <= n,
            n == v@.len(),
            targets_sorted(v@),
            forall|i: int| 0 <= i < lo ==> v@[i].target_id <= key,
            forall|i: int| hi <= i < n ==> v@[i].target_id > key,
        decreases hi - lo,
    {
        let mid = lo + (hi - lo) / 2;
        if v[mid].target_id <= key {
            lo = mid + 1;
        } else {
            hi = mid;
        }
    }
    if lo == 0 {
        n - 1
    } else {
        lo - 1
    }
}

/// Locate the start slot of a left-side walk by binary search.
fn left_start_search(v: &Vec<Finger>, key: RingKey) -> (r: usize)
    requires
        targets_sorted(v@),
        v@.len() >= 1,
    ensures
        left_start_ok(v@, key, r as int),
{
    let n = v.len();
    let mut lo: usize = 0;
    let mut hi: usize = n;
    while lo < hi
        invariant
            lo <= hi <= n,
            n == v@.len(),
            targets_sorted(v@),
            forall|i: int| 0 <= i < lo ==> v@[i].target_id < key,
            forall|i: int| hi <= i < n ==> v@[i].target_id >= key,
        decreases hi - lo,
    {
        let mid = lo + (hi - lo) / 2;
        if v[mid].target_id < key {
            lo = mid + 1;
        } else {
            hi = mid;
        }
    }
    if lo == n {
        0
    } else {
        lo
    }
}

/// Check whether the candidate chain improves a right-side finger.
fn is_right_finger_better(finger: &Finger, schain: &SemiChain, l: usize) -> (r: bool)
    requires
        l < 64,
    ensures
        r == right_better(*finger, *schain, l as nat),
{
    let cur_dist = crate::chord::vdist(finger.target_id, finger.schain.final_id, l);
    let new_dist = crate::chord::vdist(finger.target_id, schain.final_id, l);
    new_dist < cur_dist || (new_dist == cur_dist && schain.length < finger.schain.length)
}

/// Check whether the candidate chain improves a left-side finger.
fn is_left_finger_better(finger: &Finger, schain: &SemiChain, l: usize) -> (r: bool)
    requires
        l < 64,
    ensures
        r == left_better(*finger, *schain, l as nat),
{
    let cur_dist = crate::chord::vdist(finger.schain.final_id, finger.target_id, l);
    let new_dist = crate::chord::vdist(schain.final_id, finger.target_id, l);
    new_dist < cur_dist || (new_dist == cur_dist && schain.length < finger.schain.length)
}

impl SortedFingersRight {
    /// Offer a new chain; re-point every finger in the walk that it improves.
    /// Returns the chain evicted from the walk's start slot if anything
    /// changed, `None` otherwise.
    pub fn update(&mut self, schain: &SemiChain, ids_counter: &mut MapCounter<SemiChain>, l: usize)
        -> (r: Option<SemiChain>)
        requires
            targets_sorted(old(self).sorted_fingers@),
            old(self).sorted_fingers@.len() >= 1,
            l < 64,
            old(ids_counter).wf(),
            forall|sc: SemiChain|
                count_of(old(ids_counter)@, sc) + old(self).sorted_fingers@.len() <= usize::MAX,
            forall|sc: SemiChain|
                count_of(old(ids_counter)@, sc) >= schain_count(old(self).sorted_fingers@, sc),
        ensures
            ({
                let s0 = old(self).sorted_fingers@;
                let s1 = final(self).sorted_fingers@;
                let c = *schain;
                &&& s1.len() == s0.len()
                &&& targets_sorted(s1)
                &&& forall|i: int| 0 <= i < s1.len() ==> s1[i].target_id == s0[i].target_id
                &&& forall|i: int|
                    0 <= i < s1.len() ==> s1[i] == s0[i] || (s1[i].schain == c && right_better(
                        s0[i],
                        c,
                        l as nat,
                    ))
                &&& forall|i: int| 0 <= i < s1.len() ==> right_no_worse(s1[i], s0[i], l as nat)
                &&& r.is_some() == right_accepts(s0, c, l as nat)
                &&& (r.is_none() ==> s1 == s0 && (forall|sc: SemiChain|
                    count_of(final(ids_counter)@, sc) == count_of(old(ids_counter)@, sc)))
                &&& exists|st: int|
                    {
                        &&& right_start_ok(s0, c.final_id, st)
                        &&& s1 == right_walk(s0, c, l as nat, st, s0.len())
                        &&& (r.is_some() ==> r == Some(s0[st].schain) && right_better(
                            s0[st],
                            c,
                            l as nat,
                        ) && s1[st].schain == c)
                    }
                &&& final(ids_counter).wf()
                &&& forall|sc: SemiChain|
                    count_of(final(ids_counter)@, sc) + schain_count(s0, sc) == count_of(
                        old(ids_counter)@,
                        sc,
                    ) + schain_count(s1, sc)
            }),
    {
        let ghost s0 = self.sorted_fingers@;
        let ghost c = *schain;
        let ghost lg = l as nat;
        let fingers_len = self.sorted_fingers.len();
        let start = right_start_search(&self.sorted_fingers, schain.final_id);
        let removed_schain = self.sorted_fingers[start].schain;
        let mut cur_index: usize = start;
        let mut steps: usize = 0;
        let mut has_changed: bool = false;

        proof {
            lemma_schain_count_bound(s0, c);
        }
        while steps < fingers_len && is_right_finger_better(
            &self.sorted_fingers[cur_index],
            schain,
            l,
        )
            invariant
                l < 64,
                c == *schain,
                lg == l as nat,
                fingers_len == self.sorted_fingers@.len(),
                s0.len() == fingers_len,
                fingers_len >= 1,
                steps <= fingers_len,
                cur_index < fingers_len,
                start < fingers_len,
                right_start_ok(s0, c.final_id, start as int),
                removed_schain == s0[start as int].schain,
                steps == 0 ==> self.sorted_fingers@ == s0 && cur_index == start,
                targets_sorted(self.sorted_fingers@),
                right_walk(s0, c, lg, start as int, s0.len()) == right_walk(
                    self.sorted_fingers@,
                    c,
                    lg,
                    cur_index as int,
                    (fingers_len - steps) as nat,
                ),
                forall|i: int|
                    0 <= i < fingers_len ==> self.sorted_fingers@[i].target_id == s0[i].target_id,
                forall|i: int|
                    0 <= i < fingers_len ==> self.sorted_fingers@[i] == s0[i] || (
                    self.sorted_fingers@[i].schain == c && right_better(s0[i], c, lg)),
                forall|i: int|
                    0 <= i < fingers_len ==> right_no_worse(self.sorted_fingers@[i], s0[i], lg),
                has_changed == (steps > 0),
                has_changed ==> self.sorted_fingers@[start as int].schain == c && right_better(
                    s0[start as int],
                    c,
                    lg,
                ) && removed_schain == s0[start as int].schain,
                ids_counter.wf(),
                forall|sc: SemiChain|
                    count_of(ids_counter@, sc) + schain_count(s0, sc) == count_of(
                        old(ids_counter)@,
                        sc,
                    ) + schain_count(self.sorted_fingers@, sc),
                forall|sc: SemiChain|
                    count_of(old(ids_counter)@, sc) + fingers_len <= usize::MAX,
                forall|sc: SemiChain|
                    count_of(old(ids_counter)@, sc) >= schain_count(s0, sc),
            decreases fingers_len - steps,
        {
            let ghost prev = self.sorted_fingers@;
            let old_chain = self.sorted_fingers[cur_index].schain;
            proof {
                assert(old_chain != c);
                lemma_schain_count_missing(prev, cur_index as int, c);
                lemma_schain_count_bound(s0, c);
                assert(count_of(ids_counter@, c) < usize::MAX);
                assert(schain_count(prev, old_chain) >= 1) by {
                    lemma_schain_count_member(prev, cur_index as int);
                }
                lemma_schain_count_bound(s0, old_chain);
                assert(count_of(ids_counter@, old_chain) >= 1);
            }
            ids_counter.insert(schain.clone());
            ids_counter.remove(&old_chain);

            let target = self.sorted_fingers[cur_index].target_id;
            self.sorted_fingers.set(cur_index, Finger { target_id: target, schain: *schain });
            proof {
                assert(self.sorted_fingers@ == prev.update(
                    cur_index as int,
                    Finger { target_id: prev[cur_index as int].target_id, schain: c },
                ));
                assert forall|sc: SemiChain|
                    count_of(ids_counter@, sc) + schain_count(s0, sc) == count_of(
                        old(ids_counter)@,
                        sc,
                    ) + schain_count(self.sorted_fingers@, sc) by {
                    lemma_schain_count_update(
                        prev,
                        cur_index as int,
                        Finger { target_id: prev[cur_index as int].target_id, schain: c },
                        sc,
                    );
                }
            }
            has_changed = true;
            steps = steps + 1;
            cur_index = if cur_index == 0 {
                fingers_len - 1
            } else {
                cur_index - 1
            };
        }
        proof {
            assert(right_walk(
                self.sorted_fingers@,
                c,
                lg,
                cur_index as int,
                (fingers_len - steps) as nat,
            ) == self.sorted_fingers@);
            if has_changed {
                assert(right_better(s0[start as int], c, lg));
                assert(right_accepts(s0, c, lg));
            } else {
                assert(!right_better(s0[start as int], c, lg));
                assert forall|st: int| right_start_ok(s0, c.final_id, st) implies !right_better(
                    s0[st],
                    c,
                    lg,
                ) by {
                    lemma_right_start_unique(s0, c.final_id, st, start as int);
                }
            }
        }
        if has_changed {
            Some(removed_schain)
        } else {
            None
        }
    }
}

impl SortedFingersLeft {
    /// Offer a new chain; re-point every finger in the walk that it improves.
    /// Returns the chain evicted from the walk's start slot if anything
    /// changed, `None` otherwise.
    pub fn update(&mut self, schain: &SemiChain, ids_counter: &mut MapCounter<SemiChain>, l: usize)
        -> (r: Option<SemiChain>)
        requires
            targets_sorted(old(self).sorted_fingers@),
            old(self).sorted_fingers@.len() >= 1,
            l < 64,
            old(ids_counter).wf(),
            forall|sc: SemiChain|
                count_of(old(ids_counter)@, sc) + old(self).sorted_fingers@.len() <= usize::MAX,
            forall|sc: SemiChain|
                count_of(old(ids_counter)@, sc) >= schain_count(old(self).sorted_fingers@, sc),
        ensures
            ({
                let s0 = old(self).sorted_fingers@;
                let s1 = final(self).sorted_fingers@;
                let c = *schain;
                &&& s1.len() == s0.len()
                &&& targets_sorted(s1)
                &&& forall|i: int| 0 <= i < s1.len() ==> s1[i].target_id == s0[i].target_id
                &&& forall|i: int|
                    0 <= i < s1.len() ==> s1[i] == s0[i] || (s1[i].schain == c && left_better(
                        s0[i],
                        c,
                        l as nat,
                    ))
                &&& forall|i: int| 0 <= i < s1.len() ==> left_no_worse(s1[i], s0[i], l as nat)
                &&& r.is_some() == left_accepts(s0, c, l as nat)
                &&& (r.is_none() ==> s1 == s0 && (forall|sc: SemiChain|
                    count_of(final(ids_counter)@, sc) == count_of(old(ids_counter)@, sc)))
                &&& exists|st: int|
                    {
                        &&& left_start_ok(s0, c.final_id, st)
                        &&& s1 == left_walk(s0, c, l as nat, st, s0.len())
                        &&& (r.is_some() ==> r == Some(s0[st].schain) && left_better(
                            s0[st],
                            c,
                            l as nat,
                        ) && s1[st].schain == c)
                    }
                &&& final(ids_counter).wf()
                &&& forall|sc: SemiChain|
                    count_of(final(ids_counter)@, sc) + schain_count(s0, sc) == count_of(
                        old(ids_counter)@,
                        sc,
                    ) + schain_count(s1, sc)
            }),
    {
        let ghost s0 = self.sorted_fingers@;
        let ghost c = *schain;
        let ghost lg = l as nat;
        let fingers_len = self.sorted_fingers.len();
        let start = left_start_search(&self.sorted_fingers, schain.final_id);
        let removed_schain = self.sorted_fingers[start].schain;
        let mut cur_index: usize = start;
        let mut steps: usize = 0;
        let mut has_changed: bool = false;

        proof {
            lemma_schain_count_bound(s0, c);
        }
        while steps < fingers_len && is_left_finger_better(
            &self.sorted_fingers[cur_index],
            schain,
            l,
        )
            invariant
                l < 64,
                c == *schain,
                lg == l as nat,
                fingers_len == self.sorted_fingers@.len(),
                s0.len() == fingers_len,
                fingers_len >= 1,
                steps <= fingers_len,
                cur_index < fingers_len,
                start < fingers_len,
                left_start_ok(s0, c.final_id, start as int),
                removed_schain == s0[start as int].schain,
                steps == 0 ==> self.sorted_fingers@ == s0 && cur_index == start,
                targets_sorted(self.sorted_fingers@),
                left_walk(s0, c, lg, start as int, s0.len()) == left_walk(
                    self.sorted_fingers@,
                    c,
                    lg,
                    cur_index as int,
                    (fingers_len - steps) as nat,
                ),
                forall|i: int|
                    0 <= i < fingers_len ==> self.sorted_fingers@[i].target_id == s0[i].target_id,
                forall|i: int|
                    0 <= i < fingers_len ==> self.sorted_fingers@[i] == s0[i] || (
                    self.sorted_fingers@[i].schain == c && left_better(s0[i], c, lg)),
                forall|i: int|
                    0 <= i < fingers_len ==> left_no_worse(self.sorted_fingers@[i], s0[i], lg),
                has_changed == (steps > 0),
                has_changed ==> self.sorted_fingers@[start as int].schain == c && left_better(
                    s0[start as int],
                    c,
                    lg,
                ) && removed_schain == s0[start as int].schain,
                ids_counter.wf(),
                forall|sc: SemiChain|
                    count_of(ids_counter@, sc) + schain_count(s0, sc) == count_of(
                        old(ids_counter)@,
                        sc,
                    ) + schain_count(self.sorted_fingers@, sc),
                forall|sc: SemiChain|
                    count_of(old(ids_counter)@, sc) + fingers_len <= usize::MAX,
                forall|sc: SemiChain|
                    count_of(old(ids_counter)@, sc) >= schain_count(s0, sc),
            decreases fingers_len - steps,
        {
            let ghost prev = self.sorted_fingers@;
            let old_chain = self.sorted_fingers[cur_index].schain;
            proof {
                assert(old_chain != c);
                lemma_schain_count_missing(prev, cur_index as int, c);
                lemma_schain_count_bound(s0, c);
                assert(count_of(ids_counter@, c) < usize::MAX);
                assert(schain_count(prev, old_chain) >= 1) by {
                    lemma_schain_count_member(prev, cur_index as int);
                }
                lemma_schain_count_bound(s0, old_chain);
                assert(count_of(ids_counter@, old_chain) >= 1);
            }
            ids_counter.insert(schain.clone());
            ids_counter.remove(&old_chain);

            let target = self.sorted_fingers[cur_index].target_id;
            self.sorted_fingers.set(cur_index, Finger { target_id: target, schain: *schain });
            proof {
                assert(self.sorted_fingers@ == prev.update(
                    cur_index as int,
                    Finger { target_id: prev[cur_index as int].target_id, schain: c },
                ));
                assert forall|sc: SemiChain|
                    count_of(ids_counter@, sc) + schain_count(s0, sc) == count_of(
                        old(ids_counter)@,
                        sc,
                    ) + schain_count(self.sorted_fingers@, sc) by {
                    lemma_schain_count_update(
                        prev,
                        cur_index as int,
                        Finger { target_id: prev[cur_index as int].target_id, schain: c },
                        sc,
                    );
                }
            }
            has_changed = true;
            steps = steps + 1;
            cur_index = if cur_index == fingers_len - 1 {
                0
            } else {
                cur_index + 1
            };
        }
        proof {
            assert(left_walk(
                self.sorted_fingers@,
                c,
                lg,
                cur_index as int,
                (fingers_len - steps) as nat,
            ) == self.sorted_fingers@);
            if has_changed {
                assert(left_better(s0[start as int], c, lg));
                assert(left_accepts(s0, c, lg));
            } else {
                assert(!left_better(s0[start as int], c, lg));
                assert forall|st: int| left_start_ok(s0, c.final_id, st) implies !left_better(
                    s0[st],
                    c,
                    lg,
                ) by {
                    lemma_left_start_unique(s0, c.final_id, st, start as int);
                }
            }
        }
        if has_changed {
            Some(removed_schain)
        } else {
            None
        }
    }
}

/// A finger at a valid index contributes to the chain count of its own chain.
pub proof fn lemma_schain_count_member(s: Seq<Finger>, i: int)
    requires
        0 <= i < s.len(),
    ensures
        schain_count(s, s[i].schain) >= 1,
    decreases s.len(),
{
    if i == s.len() - 1 {
        assert(s.last() == s[i]);
    } else {
        lemma_schain_count_member(s.drop_last(), i);
        assert(s.drop_last()[i] == s[i]);
    }
}

/// The start slot of a right-side walk is unique in a sorted table.
pub proof fn lemma_right_start_unique(s: Seq<Finger>, key: RingKey, a: int, b: int)
    requires
        targets_sorted(s),
        right_start_ok(s, key, a),
        right_start_ok(s, key, b),
    ensures
        a == b,
{
}

/// The start slot of a left-side walk is unique in a sorted table.
pub proof fn lemma_left_start_unique(s: Seq<Finger>, key: RingKey, a: int, b: int)
    requires
        targets_sorted(s),
        left_start_ok(s, key, a),
        left_start_ok(s, key, b),
    ensures
        a == b,
{
}


/// A chain has count zero exactly when no finger carries it.
pub proof fn lemma_schain_count_zero(s: Seq<Finger>, sc: SemiChain)
    ensures
        (schain_count(s, sc) == 0) == (forall|i: int| 0 <= i < s.len() ==> s[i].schain != sc),
    decreases s.len(),
{
    if s.len() > 0 {
        lemma_schain_count_zero(s.drop_last(), sc);
        if schain_count(s, sc) == 0 {
            assert forall|i: int| 0 <= i < s.len() implies s[i].schain != sc by {
                if i < s.len() - 1 {
                    assert(s.drop_last()[i] == s[i]);
                }
            }
        } else {
            if schain_count(s.drop_last(), sc) != 0 {
                let i = choose|i: int| 0 <= i < s.len() - 1 && s.drop_last()[i].schain == sc;
                assert(s[i].schain == sc);
            }
        }
    }
}

/// When every finger carries the same chain, its count is the table size.
pub proof fn lemma_schain_count_all(s: Seq<Finger>, sc: SemiChain)
    requires
        forall|i: int| 0 <= i < s.len() ==> s[i].schain == sc,
    ensures
        schain_count(s, sc) == s.len(),
    decreases s.len(),
{
    if s.len() > 0 {
        lemma_schain_count_all(s.drop_last(), sc);
    }
}

/// Lexicographic order of chains by `(final_id, length)`.
pub open spec fn schain_lt(a: SemiChain, b: SemiChain) -> bool {
    a.final_id < b.final_id || (a.final_id == b.final_id && a.length < b.length)
}

/// Lexicographic order of fingers by `(target_id, final_id, length)`.
pub open spec fn finger_lt(a: Finger, b: Finger) -> bool {
    a.target_id < b.target_id || (a.target_id == b.target_id && schain_lt(a.schain, b.schain))
}

/// Insert a chain into a strictly sorted vector, keeping it sorted;
/// an already-present chain is left alone.
pub(crate) fn insert_schain_sorted(v: &mut Vec<SemiChain>, sc: SemiChain)
    requires
        forall|i: int, j: int| 0 <= i < j < old(v)@.len() ==> schain_lt(old(v)@[i], old(v)@[j]),
        old(v)@.len() < usize::MAX,
    ensures
        forall|i: int, j: int|
            0 <= i < j < final(v)@.len() ==> schain_lt(final(v)@[i], final(v)@[j]),
        forall|x: SemiChain| final(v)@.contains(x) == (old(v)@.contains(x) || x == sc),
        final(v)@.len() <= old(v)@.len() + 1,
        old(v)@.contains(sc) ==> final(v)@.len() == old(v)@.len(),
        !old(v)@.contains(sc) ==> final(v)@.len() == old(v)@.len() + 1,
    {
    let n = v.len();
    let mut i: usize = 0;
    while i < n && schain_lt_exec(&v[i], &sc)
        invariant
            n == v@.len(),
            i <= n,
            forall|j: int| 0 <= j < i ==> schain_lt(v@[j], sc),
        decreases n - i,
    {
        i = i + 1;
    }
    if i < n && v[i].final_id == sc.final_id && v[i].length == sc.length {
        proof {
            assert(v@[i as int] == sc);
            assert(v@.contains(sc));
        }
        return ;
    }
    proof {
        assert(!v@.contains(sc)) by {
            if v@.contains(sc) {
                let k = choose|k: int| 0 <= k < v@.len() && v@[k] == sc;
                if k < i {
                    assert(schain_lt(v@[k], sc));
                } else if k > i as int {
                    assert(i < n);
                    assert(v@[k] != sc || !schain_lt(v@[i as int], v@[k]) || schain_lt(v@[i as int], sc));
                }
            }
        }
    }
    let ghost v0 = v@;
    v.insert(i, sc);
    proof {
        assert forall|x: SemiChain| v@.contains(x) == (v0.contains(x) || x == sc) by {
            if v@.contains(x) {
                let k = choose|k: int| 0 <= k < v@.len() && v@[k] == x;
                if k < i {
                    assert(v0[k] == x);
                    assert(v0.contains(x));
                } else if k > i {
                    assert(v0[k - 1] == x);
                    assert(v0.contains(x));
                }
            }
            if v0.contains(x) {
                let k = choose|k: int| 0 <= k < v0.len() && v0[k] == x;
                if k < i {
                    assert(v@[k] == x);
                } else {
                    assert(v@[k + 1] == x);
                }
                assert(v@.contains(x));
            }
            if x == sc {
                assert(v@[i as int] == x);
                assert(v@.contains(x));
            }
        }
        assert forall|a: int, b: int| 0 <= a < b < v@.len() implies schain_lt(v@[a], v@[b]) by {
            let ii = i as int;
            if ii < v0.len() {
                assert(!schain_lt(v0[ii], sc));
                assert(v0[ii] != sc);
                assert(schain_lt(sc, v0[ii])) by {
                    lemma_schain_order_total(sc, v0[ii]);
                }
            }
            if a < ii && b == ii {
                assert(v@[a] == v0[a]);
            } else if a == ii && b > ii {
                assert(v@[a] == sc);
                assert(v@[b] == v0[b - 1]);
                assert(schain_lt(sc, v0[ii]));
                if b - 1 > ii {
                    assert(schain_lt(v0[ii], v0[b - 1]));
                }
            } else if a < ii && b > ii {
                assert(v@[a] == v0[a] && v@[b] == v0[b - 1]);
                if a < b - 1 {
                } else {
                    assert(a == b - 1 && a < ii && b > ii);
                    assert(schain_lt(v@[a], sc));
                    assert(v@[b] == sc);
                }
            } else if a > ii && b > ii {
                assert(v@[a] == v0[a - 1] && v@[b] == v0[b - 1]);
            } else if a < ii && b < ii {
                assert(v@[a] == v0[a] && v@[b] == v0[b]);
            }
        }
    }
}

/// Two distinct chains are strictly ordered one way or the other.
proof fn lemma_schain_order_total(a: SemiChain, b: SemiChain)
    requires
        a != b,
    ensures
        schain_lt(a, b) || schain_lt(b, a),
{
}

/// Executable comparison deciding `schain_lt`.
fn schain_lt_exec(a: &SemiChain, b: &SemiChain) -> (r: bool)
    ensures
        r == schain_lt(*a, *b),
{
    a.final_id < b.final_id || (a.final_id == b.final_id && a.length < b.length)
}

/// Two distinct fingers are strictly ordered one way or the other.
proof fn lemma_finger_order_total(a: Finger, b: Finger)
    requires
        a != b,
    ensures
        finger_lt(a, b) || finger_lt(b, a),
{
}

/// Executable comparison deciding `finger_lt`.
fn finger_lt_exec(a: &Finger, b: &Finger) -> (r: bool)
    ensures
        r == finger_lt(*a, *b),
{
    a.target_id < b.target_id || (a.target_id == b.target_id && schain_lt_exec(
        &a.schain,
        &b.schain,
    ))
}

/// Insert a finger into a strictly sorted vector, keeping it sorted;
/// an already-present finger is left alone.
fn insert_finger_sorted(v: &mut Vec<Finger>, f: Finger)
    requires
        forall|i: int, j: int| 0 <= i < j < old(v)@.len() ==> finger_lt(old(v)@[i], old(v)@[j]),
        old(v)@.len() < usize::MAX,
    ensures
        forall|i: int, j: int|
            0 <= i < j < final(v)@.len() ==> finger_lt(final(v)@[i], final(v)@[j]),
        forall|x: Finger| final(v)@.contains(x) == (old(v)@.contains(x) || x == f),
        final(v)@.len() <= old(v)@.len() + 1,
        old(v)@.contains(f) ==> final(v)@.len() == old(v)@.len(),
        !old(v)@.contains(f) ==> final(v)@.len() == old(v)@.len() + 1,
{
    let n = v.len();
    let mut i: usize = 0;
    while i < n && finger_lt_exec(&v[i], &f)
        invariant
            n == v@.len(),
            i <= n,
            forall|j: int| 0 <= j < i ==> finger_lt(v@[j], f),
        decreases n - i,
    {
        i = i + 1;
    }
    if i < n && v[i].target_id == f.target_id && v[i].schain.final_id == f.schain.final_id
        && v[i].schain.length == f.schain.length {
        proof {
            assert(v@[i as int] == f);
            assert(v@.contains(f));
        }
        return ;
    }
    proof {
        assert(!v@.contains(f)) by {
            if v@.contains(f) {
                let k = choose|k: int| 0 <= k < v@.len() && v@[k] == f;
                if k < i {
                    assert(finger_lt(v@[k], f));
                } else if k > i as int {
                    assert(i < n);
                    assert(finger_lt(v@[i as int], v@[k]));
                }
            }
        }
    }
    let ghost v0 = v@;
    v.insert(i, f);
    proof {
        assert forall|x: Finger| v@.contains(x) == (v0.contains(x) || x == f) by {
            if v@.contains(x) {
                let k = choose|k: int| 0 <= k < v@.len() && v@[k] == x;
                if k < i {
                    assert(v0[k] == x);
                    assert(v0.contains(x));
                } else if k > i {
                    assert(v0[k - 1] == x);
                    assert(v0.contains(x));
                }
            }
            if v0.contains(x) {
                let k = choose|k: int| 0 <= k < v0.len() && v0[k] == x;
                if k < i {
                    assert(v@[k] == x);
                } else {
                    assert(v@[k + 1] == x);
                }
                assert(v@.contains(x));
            }
            if x == f {
                assert(v@[i as int] == x);
                assert(v@.contains(x));
            }
        }
        assert forall|a: int, b: int| 0 <= a < b < v@.len() implies finger_lt(v@[a], v@[b]) by {
            let ii = i as int;
            if ii < v0.len() {
                assert(!finger_lt(v0[ii], f));
                assert(v0[ii] != f);
                assert(finger_lt(f, v0[ii])) by {
                    lemma_finger_order_total(f, v0[ii]);
                }
            }
            if a < ii && b == ii {
                assert(v@[a] == v0[a]);
            } else if a == ii && b > ii {
                assert(v@[a] == f);
                assert(v@[b] == v0[b - 1]);
                assert(finger_lt(f, v0[ii]));
                if b - 1 > ii {
                    assert(finger_lt(v0[ii], v0[b - 1]));
                }
            } else if a < ii && b > ii {
                assert(v@[a] == v0[a] && v@[b] == v0[b - 1]);
                if a < b - 1 {
                } else {
                    assert(a == b - 1 && a < ii && b > ii);
                    assert(finger_lt(v@[a], f));
                    assert(v@[b] == f);
                }
            } else if a > ii && b > ii {
                assert(v@[a] == v0[a - 1] && v@[b] == v0[b - 1]);
            } else if a < ii && b < ii {
                assert(v@[a] == v0[a] && v@[b] == v0[b]);
            }
        }
    }
}

/// Keys are sorted in strictly increasing order.
pub open spec fn keys_sorted(s: Seq<RingKey>) -> bool {
    forall|i: int, j: int| 0 <= i < j < s.len() ==> s[i] < s[j]
}

/// `st` is the position of the first key at or above `key`, wrapping to the
/// front when every key lies below `key`.
pub open spec fn key_ge_ok(s: Seq<RingKey>, key: RingKey, st: int) -> bool {
    &&& 0 <= st < s.len()
    &&& if s[st] >= key {
        forall|i: int| 0 <= i < st ==> s[i] < key
    } else {
        st == 0 && (forall|i: int| 0 <= i < s.len() ==> s[i] < key)
    }
}

/// `st` is the position of the last key at or below `key`, wrapping to the
/// back when every key lies above `key`.
pub open spec fn key_le_ok(s: Seq<RingKey>, key: RingKey, st: int) -> bool {
    &&& 0 <= st < s.len()
    &&& if s[st] <= key {
        forall|i: int| st < i < s.len() ==> s[i] > key
    } else {
        st == s.len() - 1 && (forall|i: int| 0 <= i < s.len() ==> s[i] > key)
    }
}

/// Every right-side finger points at the true closest real key at or
/// clockwise of its target.
pub open spec fn right_fingers_optimal(fs: Seq<Finger>, keys: Seq<RingKey>) -> bool {
    forall|i: int, st: int|
        0 <= i < fs.len() && #[trigger] key_ge_ok(keys, fs[i].target_id, st)
            ==> fs[i].schain.final_id == keys[st]
}

/// Every left-side finger points at the true closest real key at or
/// counter-clockwise of its target.
pub open spec fn left_fingers_optimal(fs: Seq<Finger>, keys: Seq<RingKey>) -> bool {
    forall|i: int, st: int|
        0 <= i < fs.len() && #[trigger] key_le_ok(keys, fs[i].target_id, st)
            ==> fs[i].schain.final_id == keys[st]
}

/// Find the first key at or above `key`, wrapping to the front.
fn key_ge_search(v: &Vec<RingKey>, key: RingKey) -> (r: usize)
    requires
        keys_sorted(v@),
        v@.len() >= 1,
    ensures
        key_ge_ok(v@, key, r as int),
{
    let n = v.len();
    let mut lo: usize = 0;
    let mut hi: usize = n;
    while lo < hi
        invariant
            lo <= hi <= n,
            n == v@.len(),
            keys_sorted(v@),
            forall|i: int| 0 <= i < lo ==> v@[i] < key,
            forall|i: int| hi <= i < n ==> v@[i] >= key,
        decreases hi - lo,
    {
        let mid = lo + (hi - lo) / 2;
        if v[mid] < key {
            lo = mid + 1;
        } else {
            hi = mid;
        }
    }
    if lo == n {
        0
    } else {
        lo
    }
}

/// Find the last key at or below `key`, wrapping to the back.
fn key_le_search(v: &Vec<RingKey>, key: RingKey) -> (r: usize)
    requires
        keys_sorted(v@),
        v@.len() >= 1,
    ensures
        key_le_ok(v@, key, r as int),
{
    let n = v.len();
    let mut lo: usize = 0;
    let mut hi: usize = n;
    while lo < hi
        invariant
            lo <= hi <= n,
            n == v@.len(),
            keys_sorted(v@),
            forall|i: int| 0 <= i < lo ==> v@[i] <= key,
            forall|i: int| hi <= i < n ==> v@[i] > key,
        decreases hi - lo,
    {
        let mid = lo + (hi - lo) / 2;
        if v[mid] <= key {
            lo = mid + 1;
        } else {
            hi = mid;
        }
    }
    if lo == 0 {
        n - 1
    } else {
        lo - 1
    }
}

impl SortedFingersRight {
    /// Check that every finger's chain ends at the true closest key.
    fn is_optimal(&self, sorted_keys: &Vec<RingKey>) -> (r: bool)
        requires
            keys_sorted(sorted_keys@),
            sorted_keys@.len() >= 1,
        ensures
            r == right_fingers_optimal(self.sorted_fingers@, sorted_keys@),
    {
        let n = self.sorted_fingers.len();
        let mut i: usize = 0;
        while i < n
            invariant
                n == self.sorted_fingers@.len(),
                i <= n,
                keys_sorted(sorted_keys@),
                sorted_keys@.len() >= 1,
                forall|j: int, st: int|
                    0 <= j < i && #[trigger] key_ge_ok(sorted_keys@, self.sorted_fingers@[j].target_id, st)
                        ==> self.sorted_fingers@[j].schain.final_id == sorted_keys@[st],
            decreases n - i,
        {
            let fing = self.sorted_fingers[i];
            let st = key_ge_search(sorted_keys, fing.target_id);
            if fing.schain.final_id != sorted_keys[st] {
                proof {
                    assert(key_ge_ok(sorted_keys@, self.sorted_fingers@[i as int].target_id, st as int));
                }
                return false;
            }
            proof {
                assert forall|st2: int|
                    #[trigger] key_ge_ok(sorted_keys@, self.sorted_fingers@[i as int].target_id, st2)
                        implies self.sorted_fingers@[i as int].schain.final_id == sorted_keys@[st2] by {
                    lemma_key_ge_unique(sorted_keys@, self.sorted_fingers@[i as int].target_id, st as int, st2);
                }
            }
            i = i + 1;
        }
        true
    }
}

impl SortedFingersLeft {
    /// Check that every finger's chain ends at the true closest key.
    fn is_optimal(&self, sorted_keys: &Vec<RingKey>) -> (r: bool)
        requires
            keys_sorted(sorted_keys@),
            sorted_keys@.len() >= 1,
        ensures
            r == left_fingers_optimal(self.sorted_fingers@, sorted_keys@),
    {
        let n = self.sorted_fingers.len();
        let mut i: usize = 0;
        while i < n
            invariant
                n == self.sorted_fingers@.len(),
                i <= n,
                keys_sorted(sorted_keys@),
                sorted_keys@.len() >= 1,
                forall|j: int, st: int|
                    0 <= j < i && #[trigger] key_le_ok(sorted_keys@, self.sorted_fingers@[j].target_id, st)
                        ==> self.sorted_fingers@[j].schain.final_id == sorted_keys@[st],
            decreases n - i,
        {
            let fing = self.sorted_fingers[i];
            let st = key_le_search(sorted_keys, fing.target_id);
            if fing.schain.final_id != sorted_keys[st] {
                proof {
                    assert(key_le_ok(sorted_keys@, self.sorted_fingers@[i as int].target_id, st as int));
                }
                return false;
            }
            proof {
                assert forall|st2: int|
                    #[trigger] key_le_ok(sorted_keys@, self.sorted_fingers@[i as int].target_id, st2)
                        implies self.sorted_fingers@[i as int].schain.final_id == sorted_keys@[st2] by {
                    lemma_key_le_unique(sorted_keys@, self.sorted_fingers@[i as int].target_id, st as int, st2);
                }
            }
            i = i + 1;
        }
        true
    }
}

/// The true at-or-after position is unique in a sorted key sequence.
pub proof fn lemma_key_ge_unique(s: Seq<RingKey>, key: RingKey, a: int, b: int)
    requires
        keys_sorted(s),
        key_ge_ok(s, key, a),
        key_ge_ok(s, key, b),
    ensures
        a == b,
{
}

/// The true at-or-before position is unique in a sorted key sequence.
pub proof fn lemma_key_le_unique(s: Seq<RingKey>, key: RingKey, a: int, b: int)
    requires
        keys_sorted(s),
        key_le_ok(s, key, a),
        key_le_ok(s, key, b),
    ensures
        a == b,
{
}

/// A chain is advertised by some slot of either table.
pub open spec fn in_tables(nf: NodeFingers, sc: SemiChain) -> bool {
    ||| exists|i: int|
        0 <= i < nf.left.sorted_fingers@.len() && nf.left.sorted_fingers@[i].schain == sc
    ||| exists|i: int|
        0 <= i < nf.right.sorted_fingers@.len() && nf.right.sorted_fingers@[i].schain == sc
}

/// Per-node routing table: a left-approach and a right-approach finger list,
/// plus a count of how many slots advertise each chain.
pub struct NodeFingers {
    pub id: RingKey,
    pub left: SortedFingersLeft,
    pub right: SortedFingersRight,
    pub schains_count: MapCounter<SemiChain>,
}

impl NodeFingers {
    /// Both finger lists are sorted, nonempty and of bounded total size.
    pub open spec fn tables_wf(&self) -> bool {
        &&& targets_sorted(self.left.sorted_fingers@)
        &&& targets_sorted(self.right.sorted_fingers@)
        &&& self.left.sorted_fingers@.len() >= 1
        &&& self.right.sorted_fingers@.len() >= 1
        &&& self.left.sorted_fingers@.len() + self.right.sorted_fingers@.len() <= usize::MAX / 2
    }

    /// The count map agrees with the stored chains of both tables.
    pub open spec fn counter_ok(&self) -> bool {
        &&& self.schains_count.wf()
        &&& forall|sc: SemiChain|
            count_of(self.schains_count@, sc) == schain_count(self.left.sorted_fingers@, sc)
                + schain_count(self.right.sorted_fingers@, sc)
    }

    pub open spec fn wf(&self) -> bool {
        self.tables_wf() && self.counter_ok()
    }

    /// Build the table for node `x_id`: one finger per requested target id,
    /// each initially pointing at `x_id` itself in zero hops.
    pub fn new(x_id: RingKey, target_ids_left: &Vec<RingKey>, target_ids_right: &Vec<RingKey>)
        -> (r: NodeFingers)
        requires
            target_ids_left@.len() >= 1,
            target_ids_right@.len() >= 1,
            target_ids_left@.len() + target_ids_right@.len() <= usize::MAX / 2,
            forall|i: int, j: int|
                0 <= i < j < target_ids_left@.len() ==> target_ids_left@[i] != target_ids_left@[j],
            forall|i: int, j: int|
                0 <= i < j < target_ids_right@.len() ==> target_ids_right@[i]
                    != target_ids_right@[j],
        ensures
            r.wf(),
            r.id == x_id,
            r.left.sorted_fingers@.len() == target_ids_left@.len(),
            r.right.sorted_fingers@.len() == target_ids_right@.len(),
            forall|i: int|
                0 <= i < r.left.sorted_fingers@.len() ==> r.left.sorted_fingers@[i].schain == (
                SemiChain { final_id: x_id, length: 0 }),
            forall|i: int|
                0 <= i < r.right.sorted_fingers@.len() ==> r.right.sorted_fingers@[i].schain == (
                SemiChain { final_id: x_id, length: 0 }),
            forall|t: RingKey|
                (exists|i: int|
                    0 <= i < r.left.sorted_fingers@.len() && r.left.sorted_fingers@[i].target_id
                        == t) == target_ids_left@.contains(t),
            forall|t: RingKey|
                (exists|i: int|
                    0 <= i < r.right.sorted_fingers@.len() && r.right.sorted_fingers@[i].target_id
                        == t) == target_ids_right@.contains(t),
    {
        let sc0 = SemiChain { final_id: x_id, length: 0 };
        let mut left_v: Vec<Finger> = Vec::new();
        let mut i: usize = 0;
        while i < target_ids_left.len()
            invariant
                i <= target_ids_left@.len(),
                target_ids_left@.len() + target_ids_right@.len() <= usize::MAX / 2,
                forall|a: int, b: int|
                    0 <= a < b < target_ids_left@.len() ==> target_ids_left@[a]
                        != target_ids_left@[b],
                left_v@.len() == i,
                forall|a: int, b: int| 0 <= a < b < left_v@.len() ==> finger_lt(left_v@[a], left_v@[b]),
                forall|x: Finger|
                    left_v@.contains(x) == exists|k: int|
                        0 <= k < i && x == (Finger { target_id: target_ids_left@[k], schain: sc0 }),
            decreases target_ids_left@.len() - i,
        {
            let f = Finger { target_id: target_ids_left[i], schain: sc0 };
            proof {
                if left_v@.contains(f) {
                    let k = choose|k: int|
                        0 <= k < i && f == (Finger {
                            target_id: target_ids_left@[k],
                            schain: sc0,
                        });
                    assert(target_ids_left@[k] == target_ids_left@[i as int]);
                }
            }
            insert_finger_sorted(&mut left_v, f);
            i = i + 1;
        }
        let mut right_v: Vec<Finger> = Vec::new();
        let mut j: usize = 0;
        while j < target_ids_right.len()
            invariant
                j <= target_ids_right@.len(),
                target_ids_left@.len() + target_ids_right@.len() <= usize::MAX / 2,
                forall|a: int, b: int|
                    0 <= a < b < target_ids_right@.len() ==> target_ids_right@[a]
                        != target_ids_right@[b],
                right_v@.len() == j,
                forall|a: int, b: int|
                    0 <= a < b < right_v@.len() ==> finger_lt(right_v@[a], right_v@[b]),
                forall|x: Finger|
                    right_v@.contains(x) == exists|k: int|
                        0 <= k < j && x == (Finger { target_id: target_ids_right@[k], schain: sc0 }),
            decreases target_ids_right@.len() - j,
        {
            let f = Finger { target_id: target_ids_right[j], schain: sc0 };
            proof {
                if right_v@.contains(f) {
                    let k = choose|k: int|
                        0 <= k < j && f == (Finger {
                            target_id: target_ids_right@[k],
                            schain: sc0,
                        });
                    assert(target_ids_right@[k] == target_ids_right@[j as int]);
                }
            }
            insert_finger_sorted(&mut right_v, f);
            j = j + 1;
        }
        let total = left_v.len() + right_v.len();
        let mut ctr: MapCounter<SemiChain> = MapCounter::new();
        let mut k: usize = 0;
        while k < total
            invariant
                k <= total,
                total <= usize::MAX / 2,
                ctr.wf(),
                count_of(ctr@, sc0) == k,
                forall|sc: SemiChain| sc != sc0 ==> count_of(ctr@, sc) == 0,
            decreases total - k,
        {
            ctr.insert(sc0);
            k = k + 1;
        }
        let nf = NodeFingers {
            id: x_id,
            left: SortedFingersLeft { sorted_fingers: left_v },
            right: SortedFingersRight { sorted_fingers: right_v },
            schains_count: ctr,
        };
        proof {
            assert forall|i2: int|
                0 <= i2 < nf.left.sorted_fingers@.len() implies nf.left.sorted_fingers@[i2].schain
                == sc0 by {
                assert(nf.left.sorted_fingers@.contains(nf.left.sorted_fingers@[i2]));
            }
            assert forall|i2: int|
                0 <= i2 < nf.right.sorted_fingers@.len() implies nf.right.sorted_fingers@[i2].schain
                == sc0 by {
                assert(nf.right.sorted_fingers@.contains(nf.right.sorted_fingers@[i2]));
            }
            assert forall|a: int, b: int|
                0 <= a < b < nf.left.sorted_fingers@.len() implies nf.left.sorted_fingers@[a].target_id
                < nf.left.sorted_fingers@[b].target_id by {
                assert(finger_lt(nf.left.sorted_fingers@[a], nf.left.sorted_fingers@[b]));
                assert(nf.left.sorted_fingers@[a].schain == sc0);
                assert(nf.left.sorted_fingers@[b].schain == sc0);
            }
            assert forall|a: int, b: int|
                0 <= a < b < nf.right.sorted_fingers@.len() implies nf.right.sorted_fingers@[a].target_id
                < nf.right.sorted_fingers@[b].target_id by {
                assert(finger_lt(nf.right.sorted_fingers@[a], nf.right.sorted_fingers@[b]));
                assert(nf.right.sorted_fingers@[a].schain == sc0);
                assert(nf.right.sorted_fingers@[b].schain == sc0);
            }
            lemma_schain_count_all(nf.left.sorted_fingers@, sc0);
            lemma_schain_count_all(nf.right.sorted_fingers@, sc0);
            assert forall|sc: SemiChain|
                count_of(nf.schains_count@, sc) == schain_count(nf.left.sorted_fingers@, sc)
                    + schain_count(nf.right.sorted_fingers@, sc) by {
                if sc != sc0 {
                    lemma_schain_count_zero(nf.left.sorted_fingers@, sc);
                    lemma_schain_count_zero(nf.right.sorted_fingers@, sc);
                }
            }
            assert forall|t: RingKey|
                (exists|i2: int|
                    0 <= i2 < nf.left.sorted_fingers@.len()
                        && nf.left.sorted_fingers@[i2].target_id == t) == target_ids_left@.contains(
                t,
            ) by {
                if exists|i2: int|
                    0 <= i2 < nf.left.sorted_fingers@.len()
                        && nf.left.sorted_fingers@[i2].target_id == t {
                    let i2 = choose|i2: int|
                        0 <= i2 < nf.left.sorted_fingers@.len()
                            && nf.left.sorted_fingers@[i2].target_id == t;
                    assert(nf.left.sorted_fingers@.contains(nf.left.sorted_fingers@[i2]));
                }
                if target_ids_left@.contains(t) {
                    let k2 = choose|k2: int|
                        0 <= k2 < target_ids_left@.len() && target_ids_left@[k2] == t;
                    assert(nf.left.sorted_fingers@.contains(
                        Finger { target_id: t, schain: sc0 },
                    ));
                    let i2 = choose|i2: int|
                        0 <= i2 < nf.left.sorted_fingers@.len() && nf.left.sorted_fingers@[i2] == (
                        Finger { target_id: t, schain: sc0 });
                    assert(nf.left.sorted_fingers@[i2].target_id == t);
                }
            }
            assert forall|t: RingKey|
                (exists|i2: int|
                    0 <= i2 < nf.right.sorted_fingers@.len()
                        && nf.right.sorted_fingers@[i2].target_id == t)
                    == target_ids_right@.contains(t) by {
                if exists|i2: int|
                    0 <= i2 < nf.right.sorted_fingers@.len()
                        && nf.right.sorted_fingers@[i2].target_id == t {
                    let i2 = choose|i2: int|
                        0 <= i2 < nf.right.sorted_fingers@.len()
                            && nf.right.sorted_fingers@[i2].target_id == t;
                    assert(nf.right.sorted_fingers@.contains(nf.right.sorted_fingers@[i2]));
                }
                if target_ids_right@.contains(t) {
                    let k2 = choose|k2: int|
                        0 <= k2 < target_ids_right@.len() && target_ids_right@[k2] == t;
                    assert(nf.right.sorted_fingers@.contains(
                        Finger { target_id: t, schain: sc0 },
                    ));
                    let i2 = choose|i2: int|
                        0 <= i2 < nf.right.sorted_fingers@.len() && nf.right.sorted_fingers@[i2]
                            == (Finger { target_id: t, schain: sc0 });
                    assert(nf.right.sorted_fingers@[i2].target_id == t);
                }
            }
        }
        nf
    }
}

impl NodeFingers {
    /// Offer a new chain to both tables; returns all chains that this call
    /// evicted and that no slot advertises any more, or `None` when nothing
    /// improved.
    pub fn update(&mut self, schain: &SemiChain, l: usize) -> (r: Option<Vec<SemiChain>>)
        requires
            old(self).wf(),
            l < 64,
        ensures
            final(self).wf(),
            final(self).id == old(self).id,
            ({
                let l0 = old(self).left.sorted_fingers@;
                let r0 = old(self).right.sorted_fingers@;
                let l1 = final(self).left.sorted_fingers@;
                let r1 = final(self).right.sorted_fingers@;
                let c = *schain;
                &&& l1.len() == l0.len() && r1.len() == r0.len()
                &&& forall|i: int| 0 <= i < l1.len() ==> l1[i].target_id == l0[i].target_id
                &&& forall|i: int| 0 <= i < r1.len() ==> r1[i].target_id == r0[i].target_id
                &&& forall|i: int|
                    0 <= i < l1.len() ==> l1[i] == l0[i] || (l1[i].schain == c && left_better(
                        l0[i],
                        c,
                        l as nat,
                    ))
                &&& forall|i: int|
                    0 <= i < r1.len() ==> r1[i] == r0[i] || (r1[i].schain == c && right_better(
                        r0[i],
                        c,
                        l as nat,
                    ))
                &&& forall|i: int| 0 <= i < l1.len() ==> left_no_worse(l1[i], l0[i], l as nat)
                &&& forall|i: int| 0 <= i < r1.len() ==> right_no_worse(r1[i], r0[i], l as nat)
                &&& r.is_some() == (left_accepts(l0, c, l as nat) || right_accepts(
                    r0,
                    c,
                    l as nat,
                ))
                &&& (r.is_none() ==> l1 == l0 && r1 == r0)
                &&& exists|st: int|
                    {
                        &&& left_start_ok(l0, c.final_id, st)
                        &&& l1 == left_walk(l0, c, l as nat, st, l0.len())
                        &&& (left_accepts(l0, c, l as nat) ==> left_better(l0[st], c, l as nat)
                            && l1[st].schain == c)
                    }
                &&& exists|st: int|
                    {
                        &&& right_start_ok(r0, c.final_id, st)
                        &&& r1 == right_walk(r0, c, l as nat, st, r0.len())
                        &&& (right_accepts(r0, c, l as nat) ==> right_better(r0[st], c, l as nat)
                            && r1[st].schain == c)
                    }
                &&& (r matches Some(v) ==> {
                    &&& forall|k: int, m: int| 0 <= k < m < v@.len() ==> schain_lt(v@[k], v@[m])
                    &&& forall|sc: SemiChain|
                        v@.contains(sc) == (in_tables(*old(self), sc) && schain_count(l1, sc)
                            + schain_count(r1, sc) == 0)
                })
            }),
    {
        let ghost c = *schain;
        let ghost lg = l as nat;
        let ghost l0 = self.left.sorted_fingers@;
        let ghost r0 = self.right.sorted_fingers@;
        proof {
            lemma_schain_count_bound(l0, c);
            lemma_schain_count_bound(r0, c);
        }
        let old_chains = self.all_schains();
        let mut has_changed: bool = false;

        proof {
            assert forall|sc: SemiChain|
                count_of(self.schains_count@, sc) + self.left.sorted_fingers@.len()
                    <= usize::MAX by {
                lemma_schain_count_bound(l0, sc);
                lemma_schain_count_bound(r0, sc);
            }
        }
        let res_left = self.left.update(schain, &mut self.schains_count, l);
        let ghost l1 = self.left.sorted_fingers@;
        if res_left.is_some() {
            has_changed = true;
        }
        proof {
            assert forall|sc: SemiChain|
                count_of(self.schains_count@, sc) + self.right.sorted_fingers@.len()
                    <= usize::MAX by {
                lemma_schain_count_bound(l1, sc);
                lemma_schain_count_bound(r0, sc);
            }
            assert forall|sc: SemiChain|
                count_of(self.schains_count@, sc) >= schain_count(r0, sc) by {
                assert(count_of(old(self).schains_count@, sc) == schain_count(l0, sc)
                    + schain_count(r0, sc));
            }
        }
        let res_right = self.right.update(schain, &mut self.schains_count, l);
        let ghost r1 = self.right.sorted_fingers@;
        if res_right.is_some() {
            has_changed = true;
        }

        if !has_changed {
            return None;
        }

        // Collect every previously advertised chain whose count dropped to
        // zero: exactly the chains this call evicted for good.
        proof {
            assert forall|sc: SemiChain|
                count_of(self.schains_count@, sc) == schain_count(l1, sc) + schain_count(
                r1,
                sc,
            ) by {
                assert(count_of(old(self).schains_count@, sc) == schain_count(l0, sc)
                    + schain_count(r0, sc));
            }
        }
        let mut removed_schains: Vec<SemiChain> = Vec::new();
        let oc_len = old_chains.len();
        let mut qi: usize = 0;
        while qi < oc_len
            invariant
                oc_len == old_chains@.len(),
                qi <= oc_len,
                self.schains_count.wf(),
                forall|k: int, m: int|
                    0 <= k < m < oc_len ==> schain_lt(old_chains@[k], old_chains@[m]),
                forall|sc: SemiChain|
                    count_of(self.schains_count@, sc) == schain_count(l1, sc) + schain_count(
                        r1,
                        sc,
                    ),
                forall|k: int|
                    0 <= k < removed_schains@.len() ==> exists|q2: int|
                        0 <= q2 < qi && old_chains@[q2] == #[trigger] removed_schains@[k],
                forall|sc: SemiChain|
                    removed_schains@.contains(sc) == (exists|q2: int|
                        0 <= q2 < qi && old_chains@[q2] == sc && schain_count(l1, sc)
                            + schain_count(r1, sc) == 0),
                forall|k: int, m: int|
                    0 <= k < m < removed_schains@.len() ==> schain_lt(
                        removed_schains@[k],
                        removed_schains@[m],
                    ),
            decreases oc_len - qi,
        {
            let sc = old_chains[qi];
            let ghost prev = removed_schains@;
            let cnt = self.schains_count.get_count(&sc);
            if cnt == 0 {
                proof {
                    assert forall|k: int| 0 <= k < prev.len() implies schain_lt(
                        #[trigger] prev[k],
                        sc,
                    ) by {
                        let q2 = choose|q2: int|
                            0 <= q2 < qi && old_chains@[q2] == #[trigger] prev[k];
                        assert(schain_lt(old_chains@[q2], old_chains@[qi as int]));
                    }
                }
                removed_schains.push(sc);
            }
            proof {
                assert forall|sc2: SemiChain|
                    removed_schains@.contains(sc2) == (exists|q2: int|
                        0 <= q2 < qi + 1 && old_chains@[q2] == sc2 && schain_count(l1, sc2)
                            + schain_count(r1, sc2) == 0) by {
                    if removed_schains@.contains(sc2) {
                        if prev.contains(sc2) {
                            let q2 = choose|q2: int|
                                0 <= q2 < qi && old_chains@[q2] == sc2 && schain_count(l1, sc2)
                                    + schain_count(r1, sc2) == 0;
                            assert(0 <= q2 < qi + 1 && old_chains@[q2] == sc2);
                        } else {
                            let k = choose|k: int|
                                0 <= k < removed_schains@.len() && removed_schains@[k] == sc2;
                            assert(k == removed_schains@.len() - 1);
                            assert(sc2 == sc);
                            assert(old_chains@[qi as int] == sc2);
                        }
                    }
                    if exists|q2: int|
                        0 <= q2 < qi + 1 && old_chains@[q2] == sc2 && schain_count(l1, sc2)
                            + schain_count(r1, sc2) == 0 {
                        let q2 = choose|q2: int|
                            0 <= q2 < qi + 1 && old_chains@[q2] == sc2 && schain_count(l1, sc2)
                                + schain_count(r1, sc2) == 0;
                        if q2 < qi {
                            assert(prev.contains(sc2));
                            let k3 = choose|k3: int| 0 <= k3 < prev.len() && prev[k3] == sc2;
                            assert(removed_schains@[k3] == sc2);
                            assert(removed_schains@.contains(sc2));
                        } else {
                            assert(sc2 == sc);
                            assert(removed_schains@[removed_schains@.len() - 1] == sc2);
                            assert(removed_schains@.contains(sc2));
                        }
                    }
                }
            }
            qi = qi + 1;
        }
        proof {
            assert forall|sc: SemiChain|
                removed_schains@.contains(sc) == (in_tables(*old(self), sc) && schain_count(
                    l1,
                    sc,
                ) + schain_count(r1, sc) == 0) by {
                assert(old_chains@.contains(sc) == in_tables(*old(self), sc));
                if removed_schains@.contains(sc) {
                    let q2 = choose|q2: int|
                        0 <= q2 < oc_len && old_chains@[q2] == sc && schain_count(l1, sc)
                            + schain_count(r1, sc) == 0;
                    assert(old_chains@.contains(sc));
                }
                if old_chains@.contains(sc) && schain_count(l1, sc) + schain_count(r1, sc)
                    == 0 {
                    let q2 = choose|q2: int| 0 <= q2 < old_chains@.len() && old_chains@[q2] == sc;
                    assert(0 <= q2 < oc_len && old_chains@[q2] == sc);
                    assert(removed_schains@.contains(sc));
                }
            }
        }
        Some(removed_schains)
    }

    /// Check whether every finger of both tables is globally optimal with
    /// respect to the sorted sequence of all real node keys.
    pub fn is_optimal(&self, sorted_keys: &Vec<RingKey>) -> (r: bool)
        requires
            keys_sorted(sorted_keys@),
            sorted_keys@.len() >= 1,
        ensures
            r == (left_fingers_optimal(self.left.sorted_fingers@, sorted_keys@)
                && right_fingers_optimal(self.right.sorted_fingers@, sorted_keys@)),
    {
        if !self.left.is_optimal(sorted_keys) {
            return false;
        }
        if !self.right.is_optimal(sorted_keys) {
            return false;
        }
        true
    }

    /// All distinct chains advertised by this node, sorted by
    /// `(final_id, length)`.
    pub fn all_schains(&self) -> (r: Vec<SemiChain>)
        requires
            self.left.sorted_fingers@.len() + self.right.sorted_fingers@.len() <= usize::MAX / 2,
        ensures
            forall|i: int, j: int| 0 <= i < j < r@.len() ==> schain_lt(r@[i], r@[j]),
            forall|sc: SemiChain| r@.contains(sc) == in_tables(*self, sc),
            self.left.sorted_fingers@.len() >= 1 ==> r@.len() >= 1,
    {
        let mut out: Vec<SemiChain> = Vec::new();
        let nl = self.left.sorted_fingers.len();
        let mut i: usize = 0;
        while i < nl
            invariant
                nl == self.left.sorted_fingers@.len(),
                i <= nl,
                nl + self.right.sorted_fingers@.len() <= usize::MAX / 2,
                out@.len() <= i,
                forall|a: int, b: int| 0 <= a < b < out@.len() ==> schain_lt(out@[a], out@[b]),
                forall|sc: SemiChain|
                    out@.contains(sc) == exists|k: int|
                        0 <= k < i && self.left.sorted_fingers@[k].schain == sc,
            decreases nl - i,
        {
            insert_schain_sorted(&mut out, self.left.sorted_fingers[i].schain);
            i = i + 1;
        }
        let ghost after_left = out@;
        let nr = self.right.sorted_fingers.len();
        let mut j: usize = 0;
        while j < nr
            invariant
                nl == self.left.sorted_fingers@.len(),
                nr == self.right.sorted_fingers@.len(),
                j <= nr,
                nl + nr <= usize::MAX / 2,
                out@.len() <= nl + j,
                forall|a: int, b: int| 0 <= a < b < out@.len() ==> schain_lt(out@[a], out@[b]),
                forall|sc: SemiChain|
                    out@.contains(sc) == (after_left.contains(sc) || exists|k: int|
                        0 <= k < j && self.right.sorted_fingers@[k].schain == sc),
                forall|sc: SemiChain|
                    after_left.contains(sc) == exists|k: int|
                        0 <= k < nl && self.left.sorted_fingers@[k].schain == sc,
            decreases nr - j,
        {
            let ghost prev_out = out@;
            proof {
                assert(forall|sc: SemiChain|
                    prev_out.contains(sc) == (after_left.contains(sc) || exists|k: int|
                        0 <= k < j && self.right.sorted_fingers@[k].schain == sc));
            }
            insert_schain_sorted(&mut out, self.right.sorted_fingers[j].schain);
            proof {
                let fs = self.right.sorted_fingers@;
                let jj = j as int;
                assert forall|sc: SemiChain|
                    out@.contains(sc) == (after_left.contains(sc) || exists|k: int|
                        0 <= k < j + 1 && self.right.sorted_fingers@[k].schain == sc) by {
                    if out@.contains(sc) {
                        if sc == fs[jj].schain {
                            assert(self.right.sorted_fingers@[jj].schain == sc);
                        } else {
                            assert(prev_out.contains(sc));
                        }
                    }
                    if exists|k: int| 0 <= k < j + 1 && self.right.sorted_fingers@[k].schain
                        == sc {
                        let k = choose|k: int|
                            0 <= k < j + 1 && self.right.sorted_fingers@[k].schain == sc;
                        if k < j {
                            assert(prev_out.contains(sc));
                        } else {
                            assert(sc == fs[jj].schain);
                        }
                        assert(out@.contains(sc));
                    }
                }
            }
            j = j + 1;
        }
        proof {
            assert forall|sc: SemiChain| out@.contains(sc) == in_tables(*self, sc) by {
                assert(after_left.contains(sc) == exists|k: int|
                    0 <= k < nl && self.left.sorted_fingers@[k].schain == sc);
                assert(out@.contains(sc) == (after_left.contains(sc) || exists|k: int|
                    0 <= k < nr && self.right.sorted_fingers@[k].schain == sc));
            }
            if self.left.sorted_fingers@.len() >= 1 {
                let sc = self.left.sorted_fingers@[0].schain;
                assert(self.left.sorted_fingers@[0].schain == sc && 0 <= 0 < nl);
                assert(in_tables(*self, sc));
                assert(out@.contains(sc));
            }
        }
        out
    }

    /// All distinct fingers of both tables, sorted by
    /// `(target_id, final_id, length)`.
    pub fn all_fingers(&self) -> (r: Vec<Finger>)
        requires
            self.left.sorted_fingers@.len() + self.right.sorted_fingers@.len() <= usize::MAX / 2,
        ensures
            forall|i: int, j: int| 0 <= i < j < r@.len() ==> finger_lt(r@[i], r@[j]),
            forall|f: Finger|
                r@.contains(f) == (self.left.sorted_fingers@.contains(f)
                    || self.right.sorted_fingers@.contains(f)),
    {
        let mut out: Vec<Finger> = Vec::new();
        let nl = self.left.sorted_fingers.len();
        let mut i: usize = 0;
        while i < nl
            invariant
                nl == self.left.sorted_fingers@.len(),
                i <= nl,
                nl + self.right.sorted_fingers@.len() <= usize::MAX / 2,
                out@.len() <= i,
                forall|a: int, b: int| 0 <= a < b < out@.len() ==> finger_lt(out@[a], out@[b]),
                forall|f: Finger|
                    out@.contains(f) == exists|k: int|
                        0 <= k < i && self.left.sorted_fingers@[k] == f,
            decreases nl - i,
        {
            insert_finger_sorted(&mut out, self.left.sorted_fingers[i]);
            i = i + 1;
        }
        let ghost after_left = out@;
        let nr = self.right.sorted_fingers.len();
        let mut j: usize = 0;
        while j < nr
            invariant
                nl == self.left.sorted_fingers@.len(),
                nr == self.right.sorted_fingers@.len(),
                j <= nr,
                nl + nr <= usize::MAX / 2,
                out@.len() <= nl + j,
                forall|a: int, b: int| 0 <= a < b < out@.len() ==> finger_lt(out@[a], out@[b]),
                forall|f: Finger|
                    out@.contains(f) == (after_left.contains(f) || exists|k: int|
                        0 <= k < j && self.right.sorted_fingers@[k] == f),
                forall|f: Finger|
                    after_left.contains(f) == exists|k: int|
                        0 <= k < nl && self.left.sorted_fingers@[k] == f,
            decreases nr - j,
        {
            let ghost prev_out = out@;
            proof {
                assert(forall|f: Finger|
                    prev_out.contains(f) == (after_left.contains(f) || exists|k: int|
                        0 <= k < j && self.right.sorted_fingers@[k] == f));
            }
            insert_finger_sorted(&mut out, self.right.sorted_fingers[j]);
            proof {
                let fs = self.right.sorted_fingers@;
                let jj = j as int;
                assert forall|f: Finger|
                    out@.contains(f) == (after_left.contains(f) || exists|k: int|
                        0 <= k < j + 1 && self.right.sorted_fingers@[k] == f) by {
                    if out@.contains(f) {
                        if f == fs[jj] {
                            assert(self.right.sorted_fingers@[jj] == f);
                        } else {
                            assert(prev_out.contains(f));
                        }
                    }
                    if exists|k: int| 0 <= k < j + 1 && self.right.sorted_fingers@[k] == f {
                        let k = choose|k: int|
                            0 <= k < j + 1 && self.right.sorted_fingers@[k] == f;
                        if k < j {
                            assert(prev_out.contains(f));
                        } else {
                            assert(f == fs[jj]);
                        }
                        assert(out@.contains(f));
                    }
                }
            }
            j = j + 1;
        }
        proof {
            assert forall|f: Finger|
                out@.contains(f) == (self.left.sorted_fingers@.contains(f)
                    || self.right.sorted_fingers@.contains(f)) by {
                assert(after_left.contains(f) == exists|k: int|
                    0 <= k < nl && self.left.sorted_fingers@[k] == f);
                assert(out@.contains(f) == (after_left.contains(f) || exists|k: int|
                    0 <= k < nr && self.right.sorted_fingers@[k] == f));
                if self.left.sorted_fingers@.contains(f) {
                    let k = choose|k: int|
                        0 <= k < nl && self.left.sorted_fingers@[k] == f;
                    assert(self.left.sorted_fingers@[k] == f && 0 <= k < nl);
                }
                if self.right.sorted_fingers@.contains(f) {
                    let k = choose|k: int|
                        0 <= k < nr && self.right.sorted_fingers@[k] == f;
                    assert(self.right.sorted_fingers@[k] == f && 0 <= k < nr);
                }
            }
        }
        out
    }
}

/// The start position of a walk depends only on the targets, which an
/// update never changes.
pub proof fn lemma_left_start_ok_targets(s0: Seq<Finger>, s1: Seq<Finger>, key: RingKey, st: int)
    requires
        s1.len() == s0.len(),
        forall|i: int| 0 <= i < s0.len() ==> s1[i].target_id == s0[i].target_id,
        left_start_ok(s1, key, st),
    ensures
        left_start_ok(s0, key, st),
{
}

pub proof fn lemma_right_start_ok_targets(s0: Seq<Finger>, s1: Seq<Finger>, key: RingKey, st: int)
    requires
        s1.len() == s0.len(),
        forall|i: int| 0 <= i < s0.len() ==> s1[i].target_id == s0[i].target_id,
        right_start_ok(s1, key, st),
    ensures
        right_start_ok(s0, key, st),
{
}

/// After a left-side walk has been offered a chain, offering the same
/// chain again changes nothing: the walk's start slot now rejects it.
pub proof fn lemma_left_walk_rejects(s0: Seq<Finger>, s1: Seq<Finger>, c: SemiChain, l: nat)
    requires
        targets_sorted(s0),
        s0.len() >= 1,
        s1.len() == s0.len(),
        forall|i: int| 0 <= i < s0.len() ==> s1[i].target_id == s0[i].target_id,
        exists|st: int|
            {
                &&& #[trigger] left_start_ok(s0, c.final_id, st)
                &&& s1 == left_walk(s0, c, l, st, s0.len())
                &&& (left_accepts(s0, c, l) ==> left_better(s0[st], c, l) && s1[st].schain == c)
            },
    ensures
        !left_accepts(s1, c, l),
{
    let st = choose|st: int|
        {
            &&& #[trigger] left_start_ok(s0, c.final_id, st)
            &&& s1 == left_walk(s0, c, l, st, s0.len())
            &&& (left_accepts(s0, c, l) ==> left_better(s0[st], c, l) && s1[st].schain == c)
        };
    if left_accepts(s1, c, l) {
        let st2 = choose|st2: int| left_start_ok(s1, c.final_id, st2) && left_better(s1[st2], c, l);
        lemma_left_start_ok_targets(s0, s1, c.final_id, st2);
        lemma_left_start_unique(s0, c.final_id, st, st2);
        if left_accepts(s0, c, l) {
            assert(s1[st].schain == c);
            assert(!left_better(s1[st], c, l));
        } else {
            assert(!left_better(s0[st], c, l));
            assert(s1 == s0);
            assert(!left_better(s1[st2], c, l));
        }
    }
}

/// Mirror of `lemma_left_walk_rejects` for the right side.
pub proof fn lemma_right_walk_rejects(s0: Seq<Finger>, s1: Seq<Finger>, c: SemiChain, l: nat)
    requires
        targets_sorted(s0),
        s0.len() >= 1,
        s1.len() == s0.len(),
        forall|i: int| 0 <= i < s0.len() ==> s1[i].target_id == s0[i].target_id,
        exists|st: int|
            {
                &&& #[trigger] right_start_ok(s0, c.final_id, st)
                &&& s1 == right_walk(s0, c, l, st, s0.len())
                &&& (right_accepts(s0, c, l) ==> right_better(s0[st], c, l) && s1[st].schain == c)
            },
    ensures
        !right_accepts(s1, c, l),
{
    let st = choose|st: int|
        {
            &&& #[trigger] right_start_ok(s0, c.final_id, st)
            &&& s1 == right_walk(s0, c, l, st, s0.len())
            &&& (right_accepts(s0, c, l) ==> right_better(s0[st], c, l) && s1[st].schain == c)
        };
    if right_accepts(s1, c, l) {
        let st2 = choose|st2: int|
            right_start_ok(s1, c.final_id, st2) && right_better(s1[st2], c, l);
        lemma_right_start_ok_targets(s0, s1, c.final_id, st2);
        lemma_right_start_unique(s0, c.final_id, st, st2);
        if right_accepts(s0, c, l) {
            assert(s1[st].schain == c);
            assert(!right_better(s1[st], c, l));
        } else {
            assert(!right_better(s0[st], c, l));
            assert(s1 == s0);
            assert(!right_better(s1[st2], c, l));
        }
    }
}

/// A rejected chain stays rejected while the table only improves.
pub proof fn lemma_left_reject_stable(s0: Seq<Finger>, s1: Seq<Finger>, c: SemiChain, l: nat)
    requires
        targets_sorted(s0),
        s1.len() == s0.len(),
        forall|i: int| 0 <= i < s0.len() ==> s1[i].target_id == s0[i].target_id,
        forall|i: int| 0 <= i < s0.len() ==> left_no_worse(s1[i], s0[i], l),
        !left_accepts(s0, c, l),
    ensures
        !left_accepts(s1, c, l),
{
    if left_accepts(s1, c, l) {
        let st2 = choose|st2: int| left_start_ok(s1, c.final_id, st2) && left_better(s1[st2], c, l);
        lemma_left_start_ok_targets(s0, s1, c.final_id, st2);
        assert(!left_better(s0[st2], c, l));
        assert(left_no_worse(s1[st2], s0[st2], l));
        assert(!left_better(s1[st2], c, l));
    }
}

/// Mirror of `lemma_left_reject_stable` for the right side.
pub proof fn lemma_right_reject_stable(s0: Seq<Finger>, s1: Seq<Finger>, c: SemiChain, l: nat)
    requires
        targets_sorted(s0),
        s1.len() == s0.len(),
        forall|i: int| 0 <= i < s0.len() ==> s1[i].target_id == s0[i].target_id,
        forall|i: int| 0 <= i < s0.len() ==> right_no_worse(s1[i], s0[i], l),
        !right_accepts(s0, c, l),
    ensures
        !right_accepts(s1, c, l),
{
    if right_accepts(s1, c, l) {
        let st2 = choose|st2: int|
            right_start_ok(s1, c.final_id, st2) && right_better(s1[st2], c, l);
        lemma_right_start_ok_targets(s0, s1, c.final_id, st2);
        assert(!right_better(s0[st2], c, l));
        assert(right_no_worse(s1[st2], s0[st2], l));
        assert(!right_better(s1[st2], c, l));
    }
}
} // verus!
