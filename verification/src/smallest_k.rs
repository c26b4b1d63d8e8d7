//! Keep the `k` smallest elements seen so far, under a caller-supplied
//! comparison.

use vstd::prelude::*;

verus! {

/// A bounded buffer of the smallest elements offered so far, ordered by a
/// strict "less than" predicate given at construction time.
pub struct SmallestK<'a, T, F: Fn(&T, &T) -> bool> {
    pub smallest_k: Vec<T>,
    pub k: usize,
    pub lt: &'a F,
}

impl<'a, T: Copy, F: Fn(&T, &T) -> bool> SmallestK<'a, T, F> {
    /// Create a new `SmallestK` that retains at most `k` elements.
    pub fn new(k: usize, lt: &'a F) -> (r: SmallestK<'a, T, F>)
        ensures
            r.smallest_k@.len() == 0,
            r.k == k,
    {
        SmallestK { smallest_k: Vec::new(), k, lt }
    }

    /// Offer an element; it displaces the first stored element it compares
    /// below, or fills a free slot.  Returns whether it was kept.
    ///
    /// When the element is kept, the new buffer is the old one with the
    /// candidate inserted at some position and the overflowing tail element
    /// dropped; when it is not, the buffer is untouched.
    pub fn update(&mut self, candidate: &T) -> (r: bool)
        requires
            forall|a: &T, b: &T| call_requires(*old(self).lt, (a, b)),
            old(self).smallest_k@.len() <= old(self).k,
        ensures
            final(self).k == old(self).k,
            final(self).lt == old(self).lt,
            final(self).smallest_k@.len() <= old(self).k,
            old(self).smallest_k@.len() < old(self).k ==> final(self).smallest_k@.len() == old(
                self,
            ).smallest_k@.len() + 1,
            old(self).smallest_k@.len() == old(self).k ==> final(self).smallest_k@.len() == old(
                self,
            ).k,
            old(self).smallest_k@.len() < old(self).k ==> r == true,
            forall|i: int|
                0 <= i < final(self).smallest_k@.len() ==> old(self).smallest_k@.contains(
                    #[trigger] final(self).smallest_k@[i],
                ) || final(self).smallest_k@[i] == *candidate,
            !r ==> final(self).smallest_k@ == old(self).smallest_k@,
            r ==> exists|fi: int|
                {
                    &&& 0 <= fi <= old(self).smallest_k@.len()
                    &&& final(self).smallest_k@ == (#[trigger] old(self).smallest_k@.subrange(
                        0,
                        fi,
                    ).push(*candidate) + old(self).smallest_k@.subrange(
                        fi,
                        old(self).smallest_k@.len() as int,
                    )).subrange(0, final(self).smallest_k@.len() as int)
                },
    {
        let n = self.smallest_k.len();
        let mut found_index_opt: Option<usize> = None;
        let mut i: usize = 0;
        while i < n && found_index_opt.is_none()
            invariant
                n == self.smallest_k@.len(),
                i <= n,
                forall|a: &T, b: &T| call_requires(*self.lt, (a, b)),
                match found_index_opt {
                    Some(fi) => fi < n,
                    None => true,
                },
            decreases n - i, (if found_index_opt.is_none() {
                1int
            } else {
                0int
            }),
        {
            if (self.lt)(candidate, &self.smallest_k[i]) {
                found_index_opt = Some(i);
            } else {
                i = i + 1;
            }
        }

        match found_index_opt {
            None => {
                if self.smallest_k.len() < self.k {
                    self.smallest_k.push(*candidate);
                    proof {
                        assert forall|j: int|
                            0 <= j < self.smallest_k@.len() implies old(
                            self,
                        ).smallest_k@.contains(#[trigger] self.smallest_k@[j])
                            || self.smallest_k@[j] == *candidate by {
                            if j < old(self).smallest_k@.len() {
                                assert(old(self).smallest_k@[j] == self.smallest_k@[j]);
                                assert(old(self).smallest_k@.contains(self.smallest_k@[j]));
                            }
                        }
                        let g0 = old(self).smallest_k@;
                        let fi = g0.len() as int;
                        assert(self.smallest_k@ =~= (g0.subrange(0, fi).push(*candidate)
                            + g0.subrange(fi, g0.len() as int)).subrange(
                            0,
                            self.smallest_k@.len() as int,
                        ));
                    }
                    true
                } else {
                    false
                }
            },
            Some(found_index) => {
                let mut cur_val: T = *candidate;
                let mut j: usize = found_index;
                let len0 = self.smallest_k.len();
                let ghost g0 = old(self).smallest_k@;
                let ghost fi = found_index as int;
                while j < len0
                    invariant
                        len0 == self.smallest_k@.len(),
                        len0 == g0.len(),
                        g0 == old(self).smallest_k@,
                        fi == found_index as int,
                        found_index <= j <= len0,
                        found_index < len0,
                        self.k == old(self).k,
                        self.lt == old(self).lt,
                        cur_val == (if j == found_index {
                            *candidate
                        } else {
                            g0[j - 1]
                        }),
                        forall|i2: int| 0 <= i2 < fi ==> self.smallest_k@[i2] == g0[i2],
                        forall|i2: int| j <= i2 < len0 ==> self.smallest_k@[i2] == g0[i2],
                        fi < j ==> self.smallest_k@[fi] == *candidate,
                        forall|i2: int| fi < i2 < j ==> self.smallest_k@[i2] == g0[i2 - 1],
                    decreases len0 - j,
                {
                    let displaced = self.smallest_k[j];
                    self.smallest_k.set(j, cur_val);
                    cur_val = displaced;
                    j = j + 1;
                }
                proof {
                    assert(self.smallest_k@ =~= (g0.subrange(0, fi).push(*candidate)
                        + g0.subrange(fi, g0.len() as int)).subrange(0, len0 as int));
                }
                // If we have extra room, put the largest value at the end of
                // the vector.
                if self.smallest_k.len() < self.k {
                    self.smallest_k.push(cur_val);
                    proof {
                        assert(self.smallest_k@ =~= (g0.subrange(0, fi).push(*candidate)
                            + g0.subrange(fi, g0.len() as int)).subrange(
                            0,
                            self.smallest_k@.len() as int,
                        ));
                    }
                }
                proof {
                    let inserted = (g0.subrange(0, fi).push(*candidate) + g0.subrange(
                        fi,
                        g0.len() as int,
                    )).subrange(0, self.smallest_k@.len() as int);
                    assert(self.smallest_k@ == inserted);
                    assert forall|i2: int|
                        0 <= i2 < self.smallest_k@.len() implies old(self).smallest_k@.contains(
                        #[trigger] self.smallest_k@[i2],
                    ) || self.smallest_k@[i2] == *candidate by {
                        if i2 < fi {
                            assert(self.smallest_k@[i2] == g0[i2]);
                            assert(g0.contains(self.smallest_k@[i2]));
                        } else if i2 == fi {
                        } else {
                            assert(self.smallest_k@[i2] == g0[i2 - 1]);
                            assert(g0.contains(self.smallest_k@[i2]));
                        }
                    }
                }
                true
            },
        }
    }
}

} // verus!
