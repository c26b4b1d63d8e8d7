//! A sorted, binary-searchable collection of semi routes (sequences of
//! chains), keyed by the final id of the last chain.

use vstd::prelude::*;
use crate::chord::RingKey;
use crate::chord::node_fingers::SemiChain;

verus! {

/// A route: a sequence of chains walked one after the other.
pub type SemiRoute = Vec<SemiChain>;

/// The final id of the last chain of a route.
pub open spec fn route_final(r: Seq<SemiChain>) -> RingKey
    recommends
        r.len() >= 1,
{
    r.last().final_id
}

/// Get the final id of the last `SemiChain` in a `SemiRoute`.
pub fn sroute_final_id(sroute: &SemiRoute) -> (r: RingKey)
    requires
        sroute@.len() >= 1,
    ensures
        r == route_final(sroute@),
{
    sroute[sroute.len() - 1].final_id
}

/// Some stored route has exactly this content.
pub open spec fn contains_route(s: Seq<SemiRoute>, r: Seq<SemiChain>) -> bool {
    exists|i: int| 0 <= i < s.len() && (#[trigger] s[i])@ == r
}

/// `st` is the answer position of a counter-clockwise query: the first
/// stored route of the winning final id.  The winner is the target's own
/// final id if present, otherwise the greatest final id below the target,
/// wrapping to the greatest stored final id.
pub open spec fn rt_left_ok(s: Seq<SemiRoute>, key: RingKey, st: int) -> bool {
    &&& 0 <= st < s.len()
    &&& if route_final(s[st]@) == key {
        forall|i: int| 0 <= i < st ==> route_final(s[i]@) < key
    } else if route_final(s[st]@) < key {
        &&& forall|i: int| 0 <= i < st ==> route_final(s[i]@) < route_final(s[st]@)
        &&& forall|i: int|
            st < i < s.len() ==> route_final(s[i]@) == route_final(s[st]@) || route_final(s[i]@)
                > key
    } else {
        &&& forall|i: int| 0 <= i < s.len() ==> route_final(s[i]@) > key
        &&& route_final(s[st]@) == route_final(s[s.len() - 1]@)
        &&& forall|i: int| 0 <= i < st ==> route_final(s[i]@) < route_final(s[st]@)
    }
}

/// `st` is the answer position of a clockwise query: the first route
/// ending at or above the target, wrapping to the front.
pub open spec fn rt_right_ok(s: Seq<SemiRoute>, key: RingKey, st: int) -> bool {
    &&& 0 <= st < s.len()
    &&& if route_final(s[st]@) >= key {
        forall|i: int| 0 <= i < st ==> route_final(s[i]@) < key
    } else {
        st == 0 && (forall|i: int| 0 <= i < s.len() ==> route_final(s[i]@) < key)
    }
}

/// Element-wise equality of two routes.
fn route_eq(a: &SemiRoute, b: &SemiRoute) -> (r: bool)
    ensures
        r == (a@ == b@),
{
    if a.len() != b.len() {
        proof {
            assert(a@ != b@);
        }
        return false;
    }
    let n = a.len();
    let mut i: usize = 0;
    while i < n
        invariant
            n == a@.len() == b@.len(),
            i <= n,
            forall|j: int| 0 <= j < i ==> a@[j] == b@[j],
        decreases n - i,
    {
        if !(a[i].final_id == b[i].final_id && a[i].length == b[i].length) {
            proof {
                assert(a@[i as int] != b@[i as int]);
            }
            return false;
        }
        i = i + 1;
    }
    proof {
        assert(a@ =~= b@);
    }
    true
}


/// First index whose final id is at or above `key`, or the length when
/// every final id lies below it.
fn rt_lower_bound(v: &Vec<SemiRoute>, key: RingKey) -> (r: usize)
    requires
        forall|i: int| 0 <= i < v@.len() ==> (#[trigger] v@[i])@.len() >= 1,
        forall|i: int, j: int|
            0 <= i < j < v@.len() ==> route_final((#[trigger] v@[i])@) <= route_final(
                (#[trigger] v@[j])@,
            ),
    ensures
        r <= v@.len(),
        forall|i: int| 0 <= i < r ==> route_final((#[trigger] v@[i])@) < key,
        forall|i: int| r <= i < v@.len() ==> route_final((#[trigger] v@[i])@) >= key,
{
    let n = v.len();
    let mut lo: usize = 0;
    let mut hi: usize = n;
    while lo < hi
        invariant
            lo <= hi <= n,
            n == v@.len(),
            forall|i: int| 0 <= i < n ==> (#[trigger] v@[i])@.len() >= 1,
            forall|i: int, j: int|
                0 <= i < j < n ==> route_final((#[trigger] v@[i])@) <= route_final(
                    (#[trigger] v@[j])@,
                ),
            forall|i: int| 0 <= i < lo ==> route_final((#[trigger] v@[i])@) < key,
            forall|i: int| hi <= i < n ==> route_final((#[trigger] v@[i])@) >= key,
        decreases hi - lo,
    {
        let mid = lo + (hi - lo) / 2;
        if sroute_final_id(&v[mid]) < key {
            lo = mid + 1;
        } else {
            hi = mid;
        }
    }
    lo
}

/// A routes array.  Used for quick searching.
pub struct SemiRoutesArray {
    pub sroutes: Vec<SemiRoute>,
    pub is_indexed: bool,
}

impl SemiRoutesArray {
    /// Routes are nonempty, pairwise distinct and kept sorted by their
    /// final id (stable for equal finals); once indexed, nonempty.
    pub open spec fn wf(&self) -> bool {
        &&& forall|i: int| 0 <= i < self.sroutes@.len() ==> (#[trigger] self.sroutes@[i])@.len() >= 1
        &&& forall|i: int, j: int|
            0 <= i < j < self.sroutes@.len() ==> (#[trigger] self.sroutes@[i])@ != (
            #[trigger] self.sroutes@[j])@
        &&& forall|i: int, j: int|
            0 <= i < j < self.sroutes@.len() ==> route_final((#[trigger] self.sroutes@[i])@)
                <= route_final((#[trigger] self.sroutes@[j])@)
        &&& (self.is_indexed ==> self.sroutes@.len() >= 1)
    }

    pub fn new() -> (r: SemiRoutesArray)
        ensures
            r.wf(),
            !r.is_indexed,
            r.sroutes@.len() == 0,
    {
        SemiRoutesArray { sroutes: Vec::new(), is_indexed: false }
    }

    /// Insert a new semi route into the semi routes array; a route equal
    /// to a stored one is ignored.
    pub fn insert_sroute(&mut self, sroute: SemiRoute)
        requires
            old(self).wf(),
            !old(self).is_indexed,
            sroute@.len() >= 1,
            old(self).sroutes@.len() < usize::MAX,
        ensures
            final(self).wf(),
            !final(self).is_indexed,
            forall|r: Seq<SemiChain>|
                #[trigger] contains_route(final(self).sroutes@, r) == (contains_route(
                    old(self).sroutes@,
                    r,
                ) || r == sroute@),
            final(self).sroutes@.len() >= 1,
    {
        let n = self.sroutes.len();
        let key = sroute_final_id(&sroute);
        let mut i: usize = 0;
        // Skip all routes whose final id is at or below the new one, and
        // bail out on an identical route.
        while i < n && sroute_final_id(&self.sroutes[i]) <= key
            invariant
                self.wf(),
                !self.is_indexed,
                sroute@.len() >= 1,
                key == route_final(sroute@),
                n == self.sroutes@.len(),
                n < usize::MAX,
                i <= n,
                forall|j: int| 0 <= j < i ==> (#[trigger] self.sroutes@[j])@ != sroute@,
                forall|j: int|
                    0 <= j < i ==> route_final((#[trigger] self.sroutes@[j])@) <= key,
            decreases n - i,
        {
            if route_eq(&self.sroutes[i], &sroute) {
                proof {
                    assert forall|r: Seq<SemiChain>|
                        #[trigger] contains_route(self.sroutes@, r) == (contains_route(
                            self.sroutes@,
                            r,
                        ) || r == sroute@) by {
                        if r == sroute@ {
                            assert(self.sroutes@[i as int]@ == r);
                            assert(contains_route(self.sroutes@, r));
                        }
                    }
                }
                return ;
            }
            i = i + 1;
        }
        let ghost v0 = self.sroutes@;
        let ghost ii = i as int;
        self.sroutes.insert(i, sroute);
        proof {
            assert forall|r: Seq<SemiChain>|
                #[trigger] contains_route(self.sroutes@, r) == (contains_route(v0, r) || r
                    == self.sroutes@[ii]@) by {
                if contains_route(self.sroutes@, r) {
                    let k = choose|k: int|
                        0 <= k < self.sroutes@.len() && (#[trigger] self.sroutes@[k])@ == r;
                    if k < ii {
                        assert(v0[k]@ == r);
                        assert(contains_route(v0, r));
                    } else if k > ii {
                        assert(v0[k - 1]@ == r);
                        assert(contains_route(v0, r));
                    }
                }
                if contains_route(v0, r) {
                    let k = choose|k: int| 0 <= k < v0.len() && (#[trigger] v0[k])@ == r;
                    if k < ii {
                        assert(self.sroutes@[k]@ == r);
                    } else {
                        assert(self.sroutes@[k + 1]@ == r);
                    }
                    assert(contains_route(self.sroutes@, r));
                }
                if r == self.sroutes@[ii]@ {
                    assert(contains_route(self.sroutes@, r));
                }
            }
            // Distinctness: the walk found no equal route at or below the
            // key, and a route above the key differs in its final id.
            assert forall|a: int, b: int|
                0 <= a < b < self.sroutes@.len() implies (#[trigger] self.sroutes@[a])@ != (
            #[trigger] self.sroutes@[b])@ by {
                if a == ii {
                    assert(self.sroutes@[b] == v0[b - 1]);
                    assert(route_final(v0[b - 1]@) >= route_final(self.sroutes@[ii]@) || b - 1
                        >= ii);
                    if route_final(v0[b - 1]@) == key {
                        assert(b - 1 >= ii);
                        if b - 1 == ii {
                        }
                    }
                } else if b == ii {
                    assert(self.sroutes@[a] == v0[a]);
                    assert(v0[a]@ != sroute@);
                } else if a < ii && b < ii {
                    assert(self.sroutes@[a] == v0[a] && self.sroutes@[b] == v0[b]);
                } else if a < ii && b > ii {
                    assert(self.sroutes@[a] == v0[a] && self.sroutes@[b] == v0[b - 1]);
                } else {
                    assert(self.sroutes@[a] == v0[a - 1] && self.sroutes@[b] == v0[b - 1]);
                }
            }
            assert forall|a: int, b: int|
                0 <= a < b < self.sroutes@.len() implies route_final(
                (#[trigger] self.sroutes@[a])@,
            ) <= route_final((#[trigger] self.sroutes@[b])@) by {
                if a == ii {
                    assert(self.sroutes@[b] == v0[b - 1]);
                    if b - 1 == ii {
                        assert(route_final(v0[ii]@) > key);
                    } else {
                        assert(route_final(v0[ii]@) > key);
                        assert(route_final(v0[ii]@) <= route_final(v0[b - 1]@));
                    }
                } else if b == ii {
                    assert(self.sroutes@[a] == v0[a]);
                    assert(route_final(v0[a]@) <= key);
                } else if a < ii && b < ii {
                    assert(self.sroutes@[a] == v0[a] && self.sroutes@[b] == v0[b]);
                } else if a < ii && b > ii {
                    assert(self.sroutes@[a] == v0[a] && self.sroutes@[b] == v0[b - 1]);
                    if b - 1 == a {
                        assert(route_final(v0[a]@) <= key);
                        assert(false);
                    }
                } else {
                    assert(self.sroutes@[a] == v0[a - 1] && self.sroutes@[b] == v0[b - 1]);
                }
            }
        }
    }

    /// Index all the semi routes, for quick searching.
    pub fn index(&mut self)
        requires
            old(self).wf(),
            !old(self).is_indexed,
            old(self).sroutes@.len() >= 1,
        ensures
            final(self).wf(),
            final(self).is_indexed,
            final(self).sroutes@ == old(self).sroutes@,
    {
        self.is_indexed = true;
    }

    /// The stored route ending nearest counter-clockwise of `target_id`
    /// (wrapping), first-inserted among routes of the winning final id.
    pub fn find_closest_left(&self, target_id: RingKey) -> (r: &SemiRoute)
        requires
            self.wf(),
            self.is_indexed,
        ensures
            exists|st: int| rt_left_ok(self.sroutes@, target_id, st) && *r == self.sroutes@[st],
    {
        let n = self.sroutes.len();
        let lo = rt_lower_bound(&self.sroutes, target_id);
        if lo < n && sroute_final_id(&self.sroutes[lo]) == target_id {
            proof {
                assert(rt_left_ok(self.sroutes@, target_id, lo as int));
            }
            &self.sroutes[lo]
        } else {
            // The winning final id: the greatest one below the target, or
            // the greatest stored one when every final id lies above it.
            let winner = if lo == 0 {
                sroute_final_id(&self.sroutes[n - 1])
            } else {
                sroute_final_id(&self.sroutes[lo - 1])
            };
            let st = rt_lower_bound(&self.sroutes, winner);
            proof {
                let sv = self.sroutes@;
                let fi: int = if lo == 0 {
                    n - 1
                } else {
                    lo - 1
                };
                assert(route_final(sv[fi]@) == winner);
                assert(st < n);
                assert(route_final(sv[st as int]@) == winner);
                if lo == 0 {
                    assert(route_final(sv[0]@) != target_id);
                    assert forall|i: int| 0 <= i < n implies route_final(sv[i]@) > target_id by {
                        assert(route_final(sv[i]@) >= route_final(sv[0]@));
                    }
                    assert(rt_left_ok(sv, target_id, st as int));
                } else {
                    assert(winner < target_id);
                    assert forall|i: int|
                        st < i < n implies route_final(sv[i]@) == winner || route_final(sv[i]@)
                        > target_id by {
                        if i < lo {
                            assert(route_final(sv[i]@) <= route_final(sv[fi]@));
                            assert(route_final(sv[i]@) >= winner);
                        } else {
                            assert(route_final(sv[i]@) >= route_final(sv[lo as int]@));
                            assert(route_final(sv[lo as int]@) != target_id);
                        }
                    }
                    assert(rt_left_ok(sv, target_id, st as int));
                }
            }
            &self.sroutes[st]
        }
    }

    /// The stored route ending nearest clockwise of `target_id`
    /// (wrapping), first-inserted first at an exact match.
    pub fn find_closest_right(&self, target_id: RingKey) -> (r: &SemiRoute)
        requires
            self.wf(),
            self.is_indexed,
        ensures
            exists|st: int| rt_right_ok(self.sroutes@, target_id, st) && *r == self.sroutes@[st],
    {
        let n = self.sroutes.len();
        let mut lo: usize = 0;
        let mut hi: usize = n;
        while lo < hi
            invariant
                lo <= hi <= n,
                n == self.sroutes@.len(),
                forall|i: int| 0 <= i < n ==> (#[trigger] self.sroutes@[i])@.len() >= 1,
                forall|i: int, j: int|
                    0 <= i < j < n ==> route_final((#[trigger] self.sroutes@[i])@) <= route_final(
                        (#[trigger] self.sroutes@[j])@,
                    ),
                forall|i: int| 0 <= i < lo ==> route_final((#[trigger] self.sroutes@[i])@) < target_id,
                forall|i: int|
                    hi <= i < n ==> route_final((#[trigger] self.sroutes@[i])@) >= target_id,
            decreases hi - lo,
        {
            let mid = lo + (hi - lo) / 2;
            if sroute_final_id(&self.sroutes[mid]) < target_id {
                lo = mid + 1;
            } else {
                hi = mid;
            }
        }
        if lo == n {
            proof {
                assert(rt_right_ok(self.sroutes@, target_id, 0));
            }
            &self.sroutes[0]
        } else {
            proof {
                assert(rt_right_ok(self.sroutes@, target_id, lo as int));
            }
            &self.sroutes[lo]
        }
    }
}

} // verus!
