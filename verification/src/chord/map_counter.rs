//! A counting map: how many live references exist to each stored item.

use vstd::prelude::*;

verus! {

/// Executable equality test, tied to spec-level equality of the values.
///
/// `MapCounter` is generic and needs to compare stored keys at run time;
/// implementing this trait supplies the comparison together with the proof
/// that it agrees with logical equality.
pub trait EqKey: Sized {
    fn key_eq(&self, other: &Self) -> (r: bool)
        ensures
            r == (self == other),
    ;
}

impl EqKey for u64 {
    fn key_eq(&self, other: &Self) -> (r: bool)
        ensures
            r == (self == other),
    {
        *self == *other
    }
}

/// How many copies of `t` a count map records (0 for an absent key).
pub open spec fn count_of<T>(m: Map<T, nat>, t: T) -> nat {
    if m.contains_key(t) {
        m[t]
    } else {
        0
    }
}

/// The map described by a sequence of `(key, count)` entries with distinct keys.
pub open spec fn pairs_map<T>(s: Seq<(T, usize)>) -> Map<T, nat> {
    Map::new(
        |k: T| exists|i: int| 0 <= i < s.len() && s[i].0 == k,
        |k: T| (s[choose|i: int| 0 <= i < s.len() && s[i].0 == k].1) as nat,
    )
}

/// A multiset of items, stored as a vector of `(item, count)` entries.
pub struct MapCounter<T> {
    entries: Vec<(T, usize)>,
}

impl<T> View for MapCounter<T> {
    type V = Map<T, nat>;

    closed spec fn view(&self) -> Map<T, nat> {
        pairs_map(self.entries@)
    }
}

impl<T: EqKey> MapCounter<T> {
    /// Entry keys are distinct and every stored count is positive.
    pub closed spec fn wf(&self) -> bool {
        &&& forall|i: int, j: int|
            0 <= i < j < self.entries@.len() ==> self.entries@[i].0 != self.entries@[j].0
        &&& forall|i: int| 0 <= i < self.entries@.len() ==> self.entries@[i].1 >= 1
    }

    /// With distinct keys, the map reads back exactly the stored entries.
    proof fn lemma_view_entries(&self)
        requires
            self.wf(),
        ensures
            forall|i: int|
                0 <= i < self.entries@.len() ==> count_of(self@, #[trigger] self.entries@[i].0)
                    == self.entries@[i].1,
            forall|t: T|
                count_of(self@, t) != 0 ==> exists|i: int|
                    0 <= i < self.entries@.len() && self.entries@[i].0 == t,
    {
        assert forall|i: int| 0 <= i < self.entries@.len() implies count_of(
            self@,
            #[trigger] self.entries@[i].0,
        ) == self.entries@[i].1 by {
            let t = self.entries@[i].0;
            assert(self@.contains_key(t));
            let j = choose|j: int| 0 <= j < self.entries@.len() && self.entries@[j].0 == t;
            assert(j == i);
        }
    }

    pub fn new() -> (r: MapCounter<T>)
        ensures
            r.wf(),
            r@ == Map::<T, nat>::empty(),
            forall|t: T| count_of(r@, t) == 0,
    {
        let r = MapCounter { entries: Vec::new() };
        proof {
            assert(forall|t: T| !r@.contains_key(t));
            assert(r@ =~= Map::<T, nat>::empty());
        }
        r
    }

    /// Find the index of an entry whose key equals `item`, if any.
    fn find(&self, item: &T) -> (r: Option<usize>)
        requires
            self.wf(),
        ensures
            match r {
                Some(i) => i < self.entries@.len() && self.entries@[i as int].0 == *item,
                None => forall|i: int|
                    0 <= i < self.entries@.len() ==> self.entries@[i].0 != *item,
            },
    {
        let n = self.entries.len();
        let mut i: usize = 0;
        while i < n
            invariant
                n == self.entries@.len(),
                i <= n,
                forall|j: int| 0 <= j < i ==> self.entries@[j].0 != *item,
            decreases n - i,
        {
            if self.entries[i].0.key_eq(item) {
                return Some(i);
            }
            i = i + 1;
        }
        None
    }

    /// Record one more occurrence of `inserted_item`.
    pub fn insert(&mut self, inserted_item: T)
        requires
            old(self).wf(),
            count_of(old(self)@, inserted_item) < usize::MAX,
        ensures
            final(self).wf(),
            count_of(final(self)@, inserted_item) == count_of(old(self)@, inserted_item) + 1,
            forall|t: T|
                t != inserted_item ==> count_of(final(self)@, t) == count_of(old(self)@, t),
            final(self)@.dom().finite(),
            final(self)@.dom().len() == old(self)@.dom().len() + (if count_of(
                old(self)@,
                inserted_item,
            ) == 0 {
                1int
            } else {
                0int
            }),
    {
        proof {
            self.lemma_view_entries();
            lemma_pairs_dom_len(self.entries@);
        }
        let found = self.find(&inserted_item);
        match found {
            Some(i) => {
                let c = self.entries[i].1;
                proof {
                    assert(count_of(self@, inserted_item) == c);
                }
                self.entries.set(i, (inserted_item, c + 1));
                proof {
                    self.lemma_view_entries();
                    assert forall|t: T| count_of(final(self)@, t) == count_of(old(self)@, t) + (
                    if t == inserted_item {
                        1int
                    } else {
                        0int
                    }) by {
                        lemma_count_entry_change(old(self).entries@, self.entries@, i as int, t);
                    }
                    lemma_pairs_dom_len(self.entries@);
                }
            },
            None => {
                proof {
                    assert(count_of(self@, inserted_item) == 0);
                }
                self.entries.push((inserted_item, 1));
                proof {
                    assert forall|t: T| count_of(final(self)@, t) == count_of(old(self)@, t) + (
                    if t == inserted_item {
                        1int
                    } else {
                        0int
                    }) by {
                        lemma_count_entry_push(old(self).entries@, self.entries@, t);
                    }
                    lemma_pairs_dom_len(self.entries@);
                }
            },
        }
    }

    /// Record the departure of one occurrence of `removed_item`,
    /// which must currently be present.
    pub fn remove(&mut self, removed_item: &T)
        requires
            old(self).wf(),
            count_of(old(self)@, *removed_item) >= 1,
        ensures
            final(self).wf(),
            count_of(final(self)@, *removed_item) == count_of(old(self)@, *removed_item) - 1,
            forall|t: T|
                t != *removed_item ==> count_of(final(self)@, t) == count_of(old(self)@, t),
            final(self)@.dom().finite(),
            final(self)@.dom().len() == old(self)@.dom().len() - (if count_of(
                old(self)@,
                *removed_item,
            ) == 1 {
                1int
            } else {
                0int
            }),
    {
        proof {
            self.lemma_view_entries();
            lemma_pairs_dom_len(self.entries@);
        }
        let found = self.find(removed_item);
        match found {
            Some(i) => {
                let (k, c) = self.entries.remove(i);
                if c > 1 {
                    self.entries.insert(i, (k, c - 1));
                    proof {
                        self.lemma_view_entries();
                        assert forall|t: T| count_of(final(self)@, t) == count_of(old(self)@, t)
                            - (if t == *removed_item {
                            1int
                        } else {
                            0int
                        }) by {
                            lemma_count_entry_change(old(self).entries@, self.entries@, i as int, t);
                        }
                        lemma_pairs_dom_len(self.entries@);
                    }
                } else {
                    proof {
                        assert forall|t: T| count_of(final(self)@, t) == count_of(old(self)@, t)
                            - (if t == *removed_item {
                            1int
                        } else {
                            0int
                        }) by {
                            lemma_count_entry_removed(old(self).entries@, self.entries@, i as int, t);
                        }
                        lemma_pairs_dom_len(self.entries@);
                    }
                }
            },
            None => {
                proof {
                    assert(false);
                }
            },
        }
    }

    /// The number of occurrences currently recorded for `item`.
    pub fn get_count(&self, item: &T) -> (r: usize)
        requires
            self.wf(),
        ensures
            r == count_of(self@, *item),
    {
        proof {
            self.lemma_view_entries();
        }
        let found = self.find(item);
        match found {
            Some(i) => self.entries[i].1,
            None => 0,
        }
    }

    /// The number of distinct items with a positive count.
    pub fn len(&self) -> (r: usize)
        requires
            self.wf(),
        ensures
            r == self@.dom().len(),
    {
        proof {
            lemma_pairs_dom_len(self.entries@);
        }
        self.entries.len()
    }
}

/// Changing the entry at index `i` without touching its key, or replacing its
/// key outright, shifts the counts exactly at the two keys involved.
proof fn lemma_count_entry_change<T>(s0: Seq<(T, usize)>, s1: Seq<(T, usize)>, i: int, t: T)
    requires
        0 <= i < s0.len(),
        s1.len() == s0.len(),
        forall|j: int| 0 <= j < s0.len() && j != i ==> s1[j] == s0[j],
        s1[i].0 == s0[i].0,
        forall|j: int, k: int| 0 <= j < k < s0.len() ==> s0[j].0 != s0[k].0,
    ensures
        count_of(pairs_map(s1), t) == count_of(pairs_map(s0), t) + (if t == s0[i].0 {
            s1[i].1 - s0[i].1
        } else {
            0int
        }),
{
    assert(forall|j: int, k: int| 0 <= j < k < s1.len() ==> s1[j].0 != s1[k].0);
    if exists|j: int| 0 <= j < s0.len() && s0[j].0 == t {
        let j = choose|j: int| 0 <= j < s0.len() && s0[j].0 == t;
        assert(pairs_map(s0).contains_key(t));
        assert(pairs_map(s1).contains_key(t));
        let j0 = choose|k: int| 0 <= k < s0.len() && s0[k].0 == t;
        let j1 = choose|k: int| 0 <= k < s1.len() && s1[k].0 == t;
        assert(j0 == j);
        assert(j1 == j);
    } else {
        assert(!pairs_map(s0).contains_key(t));
        assert(!pairs_map(s1).contains_key(t));
    }
}

/// Appending a fresh key adds exactly that key's count.
proof fn lemma_count_entry_push<T>(s0: Seq<(T, usize)>, s1: Seq<(T, usize)>, t: T)
    requires
        s1.len() == s0.len() + 1,
        forall|j: int| 0 <= j < s0.len() ==> s1[j] == s0[j],
        forall|j: int| 0 <= j < s0.len() ==> s0[j].0 != s1[s0.len() as int].0,
        forall|j: int, k: int| 0 <= j < k < s0.len() ==> s0[j].0 != s0[k].0,
    ensures
        count_of(pairs_map(s1), t) == count_of(pairs_map(s0), t) + (if t == s1[s0.len() as int].0 {
            s1[s0.len() as int].1 as int
        } else {
            0int
        }),
{
    let n = s0.len() as int;
    if t == s1[n].0 {
        assert(!pairs_map(s0).contains_key(t));
        assert(pairs_map(s1).contains_key(t));
        let j1 = choose|k: int| 0 <= k < s1.len() && s1[k].0 == t;
        assert(j1 == n);
    } else {
        if exists|j: int| 0 <= j < s0.len() && s0[j].0 == t {
            let j = choose|j: int| 0 <= j < s0.len() && s0[j].0 == t;
            assert(pairs_map(s0).contains_key(t));
            assert(s1[j].0 == t);
            assert(pairs_map(s1).contains_key(t));
            let j0 = choose|k: int| 0 <= k < s0.len() && s0[k].0 == t;
            let j1 = choose|k: int| 0 <= k < s1.len() && s1[k].0 == t;
            assert(j0 == j);
            assert(j1 == j);
        } else {
            assert(!pairs_map(s0).contains_key(t));
            assert(!pairs_map(s1).contains_key(t));
        }
    }
}

/// Removing the entry at index `i` subtracts exactly that key's count.
proof fn lemma_count_entry_removed<T>(s0: Seq<(T, usize)>, s1: Seq<(T, usize)>, i: int, t: T)
    requires
        0 <= i < s0.len(),
        s1.len() == s0.len() - 1,
        forall|j: int| 0 <= j < i ==> s1[j] == s0[j],
        forall|j: int| i <= j < s1.len() ==> s1[j] == s0[j + 1],
        forall|j: int, k: int| 0 <= j < k < s0.len() ==> s0[j].0 != s0[k].0,
    ensures
        count_of(pairs_map(s1), t) == count_of(pairs_map(s0), t) - (if t == s0[i].0 {
            s0[i].1 as int
        } else {
            0int
        }),
{
    if t == s0[i].0 {
        assert(pairs_map(s0).contains_key(t));
        let j0 = choose|k: int| 0 <= k < s0.len() && s0[k].0 == t;
        assert(j0 == i);
        assert forall|j: int| 0 <= j < s1.len() implies s1[j].0 != t by {
            if j < i {
                assert(s1[j] == s0[j]);
            } else {
                assert(s1[j] == s0[j + 1]);
            }
        }
        assert(!pairs_map(s1).contains_key(t));
    } else {
        if exists|j: int| 0 <= j < s0.len() && s0[j].0 == t {
            let j = choose|j: int| 0 <= j < s0.len() && s0[j].0 == t;
            assert(pairs_map(s0).contains_key(t));
            let j1: int = if j < i {
                j
            } else {
                j - 1
            };
            assert(s1[j1].0 == t);
            assert(pairs_map(s1).contains_key(t));
            let a0 = choose|k: int| 0 <= k < s0.len() && s0[k].0 == t;
            let a1 = choose|k: int| 0 <= k < s1.len() && s1[k].0 == t;
            assert(a0 == j);
            assert forall|k: int| 0 <= k < s1.len() && s1[k].0 == t implies k == j1 by {
                if k < i {
                    assert(s1[k] == s0[k]);
                } else {
                    assert(s1[k] == s0[k + 1]);
                }
            }
            assert(a1 == j1);
            assert(count_of(pairs_map(s1), t) == s1[j1].1);
            assert(s1[j1].1 == s0[j].1);
        } else {
            assert(!pairs_map(s0).contains_key(t));
            assert forall|j: int| 0 <= j < s1.len() implies s1[j].0 != t by {
                if j < i {
                    assert(s1[j] == s0[j]);
                } else {
                    assert(s1[j] == s0[j + 1]);
                }
            }
            assert(!pairs_map(s1).contains_key(t));
        }
    }
}

/// With distinct keys, the domain of the described map has one element
/// per stored entry.
proof fn lemma_pairs_dom_len<T>(s: Seq<(T, usize)>)
    requires
        forall|j: int, k: int| 0 <= j < k < s.len() ==> s[j].0 != s[k].0,
    ensures
        pairs_map(s).dom().finite(),
        pairs_map(s).dom().len() == s.len(),
    decreases s.len(),
{
    if s.len() == 0 {
        assert(pairs_map(s).dom() =~= Set::<T>::empty());
    } else {
        let s0 = s.drop_last();
        lemma_pairs_dom_len(s0);
        let k = s.last().0;
        assert forall|j: int| 0 <= j < s0.len() implies s0[j].0 != k by {
            assert(s0[j] == s[j]);
        }
        assert(pairs_map(s).dom() =~= pairs_map(s0).dom().insert(k)) by {
            assert forall|t: T| pairs_map(s).dom().contains(t) implies pairs_map(
                s0,
            ).dom().contains(t) || t == k by {
                let j = choose|j: int| 0 <= j < s.len() && s[j].0 == t;
                if j < s0.len() {
                    assert(s0[j].0 == t);
                }
            }
            assert forall|t: T| pairs_map(s0).dom().contains(t) implies pairs_map(
                s,
            ).dom().contains(t) by {
                let j = choose|j: int| 0 <= j < s0.len() && s0[j].0 == t;
                assert(s[j].0 == t);
            }
            assert(s[s.len() - 1].0 == k);
        }
        assert(!pairs_map(s0).dom().contains(k));
    }
}

} // verus!
