//! The strictly decreasing measure behind convergence: every accepted
//! routing improvement lowers a finite, nonnegative potential of the whole
//! table set, so the relaxation protocol terminates.

use vstd::prelude::*;
use vstd::arithmetic::power2::pow2;
use crate::chord::node_fingers::{
    Finger,
    NodeFingers,
    SemiChain,
    rd,
    right_no_worse,
    left_no_worse,
    right_better,
    left_better,
};

verus! {

/// Ring distances are in `[0, 2^l)`.
pub proof fn lemma_rd_bounds(x: u64, y: u64, l: nat)
    ensures
        0 <= rd(x, y, l) < pow2(l),
{
    vstd::arithmetic::power2::lemma_pow2_pos(l);
    vstd::arithmetic::div_mod::lemma_mod_bound(y - x, pow2(l) as int);
}

/// The potential of a right-side slot: distance weighs more than hops.
pub open spec fn right_pot(f: Finger, l: nat, cap: nat) -> int {
    rd(f.target_id, f.schain.final_id, l) * (cap + 1) + f.schain.length
}

/// The potential of a left-side slot.
pub open spec fn left_pot(f: Finger, l: nat, cap: nat) -> int {
    rd(f.schain.final_id, f.target_id, l) * (cap + 1) + f.schain.length
}

pub open spec fn seq_pot_right(s: Seq<Finger>, l: nat, cap: nat) -> int
    decreases s.len(),
{
    if s.len() == 0 {
        0
    } else {
        seq_pot_right(s.drop_last(), l, cap) + right_pot(s.last(), l, cap)
    }
}

pub open spec fn seq_pot_left(s: Seq<Finger>, l: nat, cap: nat) -> int
    decreases s.len(),
{
    if s.len() == 0 {
        0
    } else {
        seq_pot_left(s.drop_last(), l, cap) + left_pot(s.last(), l, cap)
    }
}

/// The potential of one node's routing table.
pub open spec fn table_pot(nf: NodeFingers, l: nat, cap: nat) -> int {
    seq_pot_left(nf.left.sorted_fingers@, l, cap) + seq_pot_right(nf.right.sorted_fingers@, l, cap)
}

/// The potential of the whole table set.
pub open spec fn tables_pot(ts: Seq<NodeFingers>, l: nat, cap: nat) -> int
    decreases ts.len(),
{
    if ts.len() == 0 {
        0
    } else {
        tables_pot(ts.drop_last(), l, cap) + table_pot(ts.last(), l, cap)
    }
}

/// A slot that scores no worse has no larger potential; a strictly
/// improved slot has strictly smaller potential.
pub proof fn lemma_right_pot_mono(a: Finger, b: Finger, l: nat, cap: nat)
    requires
        a.target_id == b.target_id,
        right_no_worse(a, b, l),
        a.schain.length <= cap,
        b.schain.length <= cap,
    ensures
        right_pot(a, l, cap) <= right_pot(b, l, cap),
        right_better(b, a.schain, l) ==> right_pot(a, l, cap) < right_pot(b, l, cap),
{
    let da = rd(a.target_id, a.schain.final_id, l);
    let db = rd(b.target_id, b.schain.final_id, l);
    lemma_rd_bounds(a.target_id, a.schain.final_id, l);
    lemma_rd_bounds(b.target_id, b.schain.final_id, l);
    if da < db {
        assert(da * (cap + 1) + a.schain.length < db * (cap + 1) + b.schain.length) by (nonlinear_arith)
            requires
                da < db,
                0 <= a.schain.length <= cap,
                0 <= b.schain.length,
                cap >= 0,
        ;
    } else {
        assert(da == db && a.schain.length <= b.schain.length);
        assert(da * (cap + 1) == db * (cap + 1));
    }
}

/// Mirror of `lemma_right_pot_mono` for the left side.
pub proof fn lemma_left_pot_mono(a: Finger, b: Finger, l: nat, cap: nat)
    requires
        a.target_id == b.target_id,
        left_no_worse(a, b, l),
        a.schain.length <= cap,
        b.schain.length <= cap,
    ensures
        left_pot(a, l, cap) <= left_pot(b, l, cap),
        left_better(b, a.schain, l) ==> left_pot(a, l, cap) < left_pot(b, l, cap),
{
    let da = rd(a.schain.final_id, a.target_id, l);
    let db = rd(b.schain.final_id, b.target_id, l);
    lemma_rd_bounds(a.schain.final_id, a.target_id, l);
    lemma_rd_bounds(b.schain.final_id, b.target_id, l);
    if da < db {
        assert(da * (cap + 1) + a.schain.length < db * (cap + 1) + b.schain.length) by (nonlinear_arith)
            requires
                da < db,
                0 <= a.schain.length <= cap,
                0 <= b.schain.length,
                cap >= 0,
        ;
    } else {
        assert(da == db && a.schain.length <= b.schain.length);
        assert(da * (cap + 1) == db * (cap + 1));
    }
}

pub proof fn lemma_seq_pot_right_nonneg(s: Seq<Finger>, l: nat, cap: nat)
    ensures
        seq_pot_right(s, l, cap) >= 0,
    decreases s.len(),
{
    if s.len() > 0 {
        lemma_seq_pot_right_nonneg(s.drop_last(), l, cap);
        lemma_rd_bounds(s.last().target_id, s.last().schain.final_id, l);
    }
}

pub proof fn lemma_seq_pot_left_nonneg(s: Seq<Finger>, l: nat, cap: nat)
    ensures
        seq_pot_left(s, l, cap) >= 0,
    decreases s.len(),
{
    if s.len() > 0 {
        lemma_seq_pot_left_nonneg(s.drop_last(), l, cap);
        lemma_rd_bounds(s.last().schain.final_id, s.last().target_id, l);
    }
}

pub proof fn lemma_tables_pot_nonneg(ts: Seq<NodeFingers>, l: nat, cap: nat)
    ensures
        tables_pot(ts, l, cap) >= 0,
    decreases ts.len(),
{
    if ts.len() > 0 {
        lemma_tables_pot_nonneg(ts.drop_last(), l, cap);
        lemma_seq_pot_right_nonneg(ts.last().right.sorted_fingers@, l, cap);
        lemma_seq_pot_left_nonneg(ts.last().left.sorted_fingers@, l, cap);
    }
}

/// Pointwise no-worse slots give a no-larger sequence potential; one
/// strictly improved slot makes it strictly smaller.
pub proof fn lemma_seq_pot_right_le(s0: Seq<Finger>, s1: Seq<Finger>, l: nat, cap: nat)
    requires
        s1.len() == s0.len(),
        forall|i: int| 0 <= i < s0.len() ==> s1[i].target_id == s0[i].target_id,
        forall|i: int| 0 <= i < s0.len() ==> right_no_worse(s1[i], s0[i], l),
        forall|i: int| 0 <= i < s0.len() ==> s0[i].schain.length <= cap,
        forall|i: int| 0 <= i < s0.len() ==> s1[i].schain.length <= cap,
    ensures
        seq_pot_right(s1, l, cap) <= seq_pot_right(s0, l, cap),
        forall|w: int|
            0 <= w < s0.len() && right_pot(s1[w], l, cap) < right_pot(s0[w], l, cap)
                ==> seq_pot_right(s1, l, cap) < seq_pot_right(s0, l, cap),
    decreases s0.len(),
{
    if s0.len() == 0 {
    } else {
        let p0 = s0.drop_last();
        let p1 = s1.drop_last();
        assert(forall|i: int| 0 <= i < p0.len() ==> p1[i] == s1[i] && p0[i] == s0[i]);
        lemma_seq_pot_right_le(p0, p1, l, cap);
        lemma_right_pot_mono(s1.last(), s0.last(), l, cap);
        assert forall|w: int|
            0 <= w < s0.len() && right_pot(s1[w], l, cap) < right_pot(s0[w], l, cap)
                implies seq_pot_right(s1, l, cap) < seq_pot_right(s0, l, cap) by {
            if w == s0.len() - 1 {
                assert(right_pot(s1.last(), l, cap) < right_pot(s0.last(), l, cap));
            } else {
                assert(right_pot(p1[w], l, cap) < right_pot(p0[w], l, cap));
                assert(seq_pot_right(p1, l, cap) < seq_pot_right(p0, l, cap));
            }
        }
    }
}

/// Mirror of `lemma_seq_pot_right_le` for the left side.
pub proof fn lemma_seq_pot_left_le(s0: Seq<Finger>, s1: Seq<Finger>, l: nat, cap: nat)
    requires
        s1.len() == s0.len(),
        forall|i: int| 0 <= i < s0.len() ==> s1[i].target_id == s0[i].target_id,
        forall|i: int| 0 <= i < s0.len() ==> left_no_worse(s1[i], s0[i], l),
        forall|i: int| 0 <= i < s0.len() ==> s0[i].schain.length <= cap,
        forall|i: int| 0 <= i < s0.len() ==> s1[i].schain.length <= cap,
    ensures
        seq_pot_left(s1, l, cap) <= seq_pot_left(s0, l, cap),
        forall|w: int|
            0 <= w < s0.len() && left_pot(s1[w], l, cap) < left_pot(s0[w], l, cap)
                ==> seq_pot_left(s1, l, cap) < seq_pot_left(s0, l, cap),
    decreases s0.len(),
{
    if s0.len() == 0 {
    } else {
        let p0 = s0.drop_last();
        let p1 = s1.drop_last();
        assert(forall|i: int| 0 <= i < p0.len() ==> p1[i] == s1[i] && p0[i] == s0[i]);
        lemma_seq_pot_left_le(p0, p1, l, cap);
        lemma_left_pot_mono(s1.last(), s0.last(), l, cap);
        assert forall|w: int|
            0 <= w < s0.len() && left_pot(s1[w], l, cap) < left_pot(s0[w], l, cap)
                implies seq_pot_left(s1, l, cap) < seq_pot_left(s0, l, cap) by {
            if w == s0.len() - 1 {
                assert(left_pot(s1.last(), l, cap) < left_pot(s0.last(), l, cap));
            } else {
                assert(left_pot(p1[w], l, cap) < left_pot(p0[w], l, cap));
                assert(seq_pot_left(p1, l, cap) < seq_pot_left(p0, l, cap));
            }
        }
    }
}

/// Replacing one table with a strictly lower-potential table lowers the
/// whole set's potential.
pub proof fn lemma_tables_pot_update(ts0: Seq<NodeFingers>, ts1: Seq<NodeFingers>, w: int, l: nat, cap: nat)
    requires
        ts1.len() == ts0.len(),
        0 <= w < ts0.len(),
        forall|j: int| 0 <= j < ts0.len() && j != w ==> ts1[j] == ts0[j],
        table_pot(ts1[w], l, cap) < table_pot(ts0[w], l, cap),
    ensures
        tables_pot(ts1, l, cap) < tables_pot(ts0, l, cap),
    decreases ts0.len(),
{
    let p0 = ts0.drop_last();
    let p1 = ts1.drop_last();
    if w == ts0.len() - 1 {
        assert(p1 =~= p0);
    } else {
        assert(forall|j: int| 0 <= j < p0.len() && j != w ==> p1[j] == p0[j]);
        lemma_tables_pot_update(p0, p1, w, l, cap);
        assert(ts1.last() == ts0.last());
    }
}

} // verus!
