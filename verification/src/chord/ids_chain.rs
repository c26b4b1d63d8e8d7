//! A deterministic chain of ids between a source and a destination id,
//! where every two adjacent ids differ by an exact power of 2.

use vstd::prelude::*;
use vstd::arithmetic::power2::pow2;
use crate::chord::RingKey;

verus! {

/// Iterator state for a chain of ids between a source and a destination id.
pub struct IdsChain {
    pub cur_id: Option<RingKey>,  // Current id
    pub dst_id: RingKey,  // Destination id
}

/// Two ids differ by an exact power of 2.
pub open spec fn pow2_adjacent(a: RingKey, b: RingKey) -> bool {
    exists|m: nat| m < 64 && (b == a + pow2(m) || a == b + pow2(m))
}

/// Find the index of the most significant set bit of a number.
pub fn get_msb(x: RingKey) -> (r: Option<usize>)
    ensures
        match r {
            None => x == 0,
            Some(i) => i < 64 && pow2(i as nat) <= x && (i < 63 ==> x < pow2((i + 1) as nat)) && (
            x >> (i as u64)) == 1,
        },
{
    if x == 0 {
        return None;
    }
    let mut v: u64 = x;
    let mut index: usize = 0;
    proof {
        vstd::arithmetic::power2::lemma2_to64();
        assert(pow2(0) == 1);
        assert(x as int / (pow2(0) as int) == x);
    }
    while v > 1
        invariant
            index < 64,
            v == x as int / (pow2(index as nat) as int),
            v >= 1,
            pow2(index as nat) <= x,
        decreases v,
    {
        proof {
            vstd::arithmetic::power2::lemma_pow2_pos(index as nat);
            vstd::arithmetic::power2::lemma_pow2_pos((index + 1) as nat);
            vstd::arithmetic::power2::lemma_pow2_adds(index as nat, 1);
            vstd::arithmetic::power2::lemma2_to64();
            vstd::arithmetic::div_mod::lemma_div_denominator(
                x as int,
                pow2(index as nat) as int,
                2,
            );
            assert(v / 2 == x as int / (pow2((index + 1) as nat) as int));
            assert(v / 2 >= 1);
            assert(pow2((index + 1) as nat) <= x) by {
                let p1 = pow2((index + 1) as nat) as int;
                let q = x as int / p1;
                vstd::arithmetic::div_mod::lemma_fundamental_div_mod(x as int, p1);
                vstd::arithmetic::div_mod::lemma_mod_bound(x as int, p1);
                assert(q >= 1);
                assert(p1 * q >= p1 * 1) by (nonlinear_arith)
                    requires
                        q >= 1 && p1 > 0,
                ;
            }
            assert(index + 1 < 64) by {
                if index + 1 >= 64 {
                    vstd::arithmetic::power2::lemma2_to64_rest();
                    assert(pow2(64) > u64::MAX);
                }
            }
            assert(v >> 1u64 == v / 2) by (bit_vector);
        }
        v = v >> 1u64;
        index = index + 1;
    }
    proof {
        vstd::arithmetic::power2::lemma_pow2_pos(index as nat);
        assert(x as int / (pow2(index as nat) as int) == 1);
        vstd::bits::lemma_u64_shr_is_div(x, index as u64);
        assert((x >> (index as u64)) == 1);
        vstd::arithmetic::div_mod::lemma_fundamental_div_mod(x as int, pow2(index as nat) as int);
        vstd::arithmetic::power2::lemma_pow2_adds(index as nat, 1);
        vstd::arithmetic::power2::lemma2_to64();
        assert(x < pow2(index as nat) * 2) by {
            assert(x == pow2(index as nat) + (x as int % (pow2(index as nat) as int)));
            vstd::arithmetic::div_mod::lemma_mod_bound(x as int, pow2(index as nat) as int);
        }
    }
    Some(index)
}

/// Step from `cur_id` one power of 2 closer to `dst_id`: flip the most
/// significant bit on which they disagree.
pub fn advance_id(cur_id: RingKey, dst_id: RingKey) -> (r: RingKey)
    requires
        cur_id != dst_id,
    ensures
        (r ^ dst_id) < (cur_id ^ dst_id),
        (r | (cur_id | dst_id)) == (cur_id | dst_id),
        pow2_adjacent(cur_id, r),
        forall|m2: u64|
            m2 < 64 && ((cur_id ^ dst_id) >> m2) == 1 ==> r == (cur_id ^ (1u64 << m2)),
{
    let diff = cur_id ^ dst_id;
    proof {
        assert(cur_id ^ dst_id != 0) by (bit_vector)
            requires
                cur_id != dst_id,
        ;
    }
    let msb_diff: usize = match get_msb(diff) {
        Some(i) => i,
        None => 0,
    };
    let pow_diff: RingKey = crate::chord::pow2_u64(msb_diff);
    proof {
        let m = msb_diff as u64;
        let d = diff;
        let c = cur_id;
        let t = dst_id;
        assert(pow_diff == 1u64 << m) by {
            vstd::arithmetic::power2::lemma2_to64();
            vstd::arithmetic::power2::lemma2_to64_rest();
            assert(pow2(msb_diff as nat) <= pow2(63)) by {
                if (msb_diff as nat) < 63 {
                    vstd::arithmetic::power2::lemma_pow2_strictly_increases(msb_diff as nat, 63);
                }
            }
            assert(1u64 * pow2(msb_diff as nat) == pow2(msb_diff as nat));
            vstd::bits::lemma_u64_shl_is_mul(1u64, m);
        }
        assert(((c ^ (1u64 << m)) ^ t) < (c ^ t)) by (bit_vector)
            requires
                c ^ t == d,
                m < 64,
                (d >> m) == 1,
        ;
        assert(((c ^ (1u64 << m)) | (c | t)) == (c | t)) by (bit_vector)
            requires
                c ^ t == d,
                m < 64,
                (d >> m) == 1,
        ;
        assert(((c >> m) & 1 == 0) ==> (c + (1u64 << m)) == (c ^ (1u64 << m))) by (bit_vector)
            requires
                m < 64,
        ;
        assert(((c >> m) & 1 == 1) ==> (c - (1u64 << m)) == (c ^ (1u64 << m))) by (bit_vector)
            requires
                m < 64,
        ;
        assert(((c >> m) & 1 == 1) ==> c >= (1u64 << m)) by (bit_vector)
            requires
                m < 64,
        ;
        assert(((c >> m) & 1 == 0) || ((c >> m) & 1 == 1)) by (bit_vector);
        if (c >> m) & 1 == 0 {
            assert(c + pow_diff == (c ^ (1u64 << m)));
            assert(c + pow_diff <= u64::MAX);
        } else {
            assert(c - pow_diff == (c ^ (1u64 << m)));
        }
    }
    let stepped = if (cur_id >> (msb_diff as u64)) & 1 == 0 {
        cur_id + pow_diff
    } else {
        cur_id - pow_diff
    };
    proof {
        let m = msb_diff as u64;
        assert(stepped == (cur_id ^ (1u64 << m)));
        assert(stepped == cur_id + pow2(msb_diff as nat) || cur_id == stepped + pow2(
            msb_diff as nat,
        ));
        assert(pow2_adjacent(cur_id, stepped));
        assert forall|m2: u64|
            m2 < 64 && ((cur_id ^ dst_id) >> m2) == 1 implies stepped == (cur_id ^ (1u64
            << m2)) by {
            let d = cur_id ^ dst_id;
            assert(m2 == m) by (bit_vector)
                requires
                    (d >> m2) == 1,
                    (d >> m) == 1,
                    m2 < 64,
                    m < 64,
            ;
        }
    }
    stepped
}

impl IdsChain {
    /// The next id on the chain, or `None` once the destination was handed
    /// out.
    pub fn next(&mut self) -> (r: Option<RingKey>)
        ensures
            r == old(self).cur_id,
            final(self).dst_id == old(self).dst_id,
            match old(self).cur_id {
                None => final(self).cur_id.is_none(),
                Some(c) => if c == old(self).dst_id {
                    final(self).cur_id.is_none()
                } else {
                    &&& final(self).cur_id.is_some()
                    &&& ((final(self).cur_id->0 ^ old(self).dst_id) < (c ^ old(self).dst_id))
                    &&& ((final(self).cur_id->0 | (c | old(self).dst_id)) == (c
                        | old(self).dst_id))
                    &&& pow2_adjacent(c, final(self).cur_id->0)
                    &&& forall|m2: u64|
                        m2 < 64 && ((c ^ old(self).dst_id) >> m2) == 1 ==> final(self).cur_id->0
                            == (c ^ (1u64 << m2))
                },
            },
    {
        match self.cur_id {
            None => None,
            Some(cur_id) => {
                if cur_id == self.dst_id {
                    self.cur_id = None;
                } else {
                    self.cur_id = Some(advance_id(cur_id, self.dst_id));
                }
                Some(cur_id)
            },
        }
    }
}

/// The whole chain of ids from `src_id` to `dst_id`: it starts at `src_id`,
/// ends at `dst_id`, and every step flips one bit of difference.
pub fn ids_chain(src_id: RingKey, dst_id: RingKey) -> (r: Vec<RingKey>)
    ensures
        r@.len() >= 1,
        r@[0] == src_id,
        r@.last() == dst_id,
        src_id == dst_id ==> r@.len() == 1,
        forall|i: int| 0 <= i < r@.len() ==> (r@[i] | (src_id | dst_id)) == (src_id | dst_id),
        forall|i: int| 0 <= i < r@.len() - 1 ==> r@[i] != dst_id,
        forall|i: int| 0 <= i < r@.len() - 1 ==> pow2_adjacent(r@[i], #[trigger] r@[i + 1]),
        forall|i: int, m2: u64|
            0 <= i < r@.len() - 1 && m2 < 64 && ((r@[i] ^ dst_id) >> m2) == 1 ==> r@[i + 1] == (
            r@[i] ^ (1u64 << m2)),
{
    let mut state = IdsChain { cur_id: Some(src_id), dst_id };
    let mut out: Vec<RingKey> = Vec::new();
    proof {
        assert((src_id | (src_id | dst_id)) == (src_id | dst_id)) by (bit_vector);
    }
    loop
        invariant
            state.dst_id == dst_id,
            match state.cur_id {
                Some(c) => {
                    &&& ((out@.len() == 0 && c == src_id) || (out@.len() >= 1 && out@[0]
                        == src_id))
                    &&& (src_id == dst_id ==> out@.len() == 0)
                    &&& ((c | (src_id | dst_id)) == (src_id | dst_id))
                    &&& (out@.len() >= 1 ==> {
                        &&& out@.last() != dst_id
                        &&& pow2_adjacent(out@.last(), c)
                        &&& forall|m2: u64|
                            m2 < 64 && ((out@.last() ^ dst_id) >> m2) == 1 ==> c == (out@.last()
                                ^ (1u64 << m2))
                    })
                },
                None => out@.len() >= 1 && out@[0] == src_id && out@.last() == dst_id && (src_id
                    == dst_id ==> out@.len() == 1),
            },
            forall|i: int| 0 <= i < out@.len() ==> (out@[i] | (src_id | dst_id)) == (src_id
                | dst_id),
            forall|i: int| 0 <= i < out@.len() - 1 ==> out@[i] != dst_id,
            forall|i: int|
                0 <= i < out@.len() - 1 ==> pow2_adjacent(out@[i], #[trigger] out@[i + 1]),
            forall|i: int, m2: u64|
                0 <= i < out@.len() - 1 && m2 < 64 && ((out@[i] ^ dst_id) >> m2) == 1 ==> out@[i
                    + 1] == (out@[i] ^ (1u64 << m2)),
        ensures
            out@.len() >= 1,
            out@[0] == src_id,
            out@.last() == dst_id,
            src_id == dst_id ==> out@.len() == 1,
            forall|i: int| 0 <= i < out@.len() ==> (out@[i] | (src_id | dst_id)) == (src_id
                | dst_id),
            forall|i: int| 0 <= i < out@.len() - 1 ==> out@[i] != dst_id,
            forall|i: int|
                0 <= i < out@.len() - 1 ==> pow2_adjacent(out@[i], #[trigger] out@[i + 1]),
            forall|i: int, m2: u64|
                0 <= i < out@.len() - 1 && m2 < 64 && ((out@[i] ^ dst_id) >> m2) == 1 ==> out@[i
                    + 1] == (out@[i] ^ (1u64 << m2)),
        decreases (match state.cur_id {
            Some(c) => (c ^ dst_id) + 1,
            None => 0,
        }),
    {
        let ghost prev_cur = state.cur_id;
        match state.next() {
            Some(id) => {
                proof {
                    let s2 = src_id;
                    let t2 = dst_id;
                    let c2 = id;
                    if state.cur_id is Some {
                        let cp = state.cur_id->0;
                        assert((cp | (s2 | t2)) == (s2 | t2)) by (bit_vector)
                            requires
                                (cp | (c2 | t2)) == (c2 | t2),
                                (c2 | (s2 | t2)) == (s2 | t2),
                        ;
                    }
                }
                out.push(id);
            },
            None => {
                break ;
            },
        }
    }
    out
}


} // verus!
