//! Control plane of a Chord-style structured overlay.
//!
//! Each participant owns a position (a `RingKey`) on a modular ring of size
//! `2^l` and maintains a finger table that is converged, by exchanging
//! advertisements with graph neighbors, into a globally optimal shape.
//! After convergence, greedy hop-by-hop path finding between arbitrary ring
//! keys is possible without global knowledge.

pub mod chord;
pub mod network;
pub mod coords;
pub mod random_util;
pub mod smallest_k;

use vstd::prelude::*;

verus! {

/// Clockwise distance on a ring of size `2^l`, as an `int` in `[0, 2^l)`.
pub open spec fn ring_dist(x: int, y: int, l: nat) -> int {
    (y - x) % (vstd::arithmetic::power2::pow2(l) as int)
}

} // verus!
