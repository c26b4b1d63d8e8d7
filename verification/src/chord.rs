//! The chord control plane: ring-key arithmetic, finger-table
//! construction, the distance-vector convergence protocol, the global
//! optimality oracle and the greedy path finder.

use vstd::prelude::*;
use vstd::arithmetic::power2::pow2;
use crate::chord::node_fingers::{NodeFingers, SemiChain};
use crate::chord::progress::{tables_pot, table_pot, left_pot, right_pot};

pub mod chains_array;
pub mod ids_chain;
pub mod index_id;
pub mod map_counter;
pub mod node_fingers;
pub mod progress;
pub mod semi_chains_array;
pub mod semi_routes_array;

verus! {

/// A key in the chord ring.
pub type RingKey = u64;

/// A chain of node keys, newest first.
pub type NodeChain = Vec<RingKey>;

/// Exponentiation for the ring size, executable form.
pub fn pow2_u64(l: usize) -> (r: u64)
    requires
        l < 64,
    ensures
        r == pow2(l as nat),
        r >= 1,
{
    proof {
        vstd::arithmetic::power2::lemma_pow2_pos(l as nat);
        vstd::arithmetic::power2::lemma2_to64();
        vstd::arithmetic::power2::lemma2_to64_rest();
        assert(pow2(l as nat) <= pow2(63)) by {
            if (l as nat) < 63 {
                vstd::arithmetic::power2::lemma_pow2_strictly_increases(l as nat, 63);
            }
        }
        assert(1u64 * pow2(l as nat) == pow2(l as nat));
        vstd::bits::lemma_u64_shl_is_mul(1u64, l as u64);
    }
    1u64 << (l as u64)
}

/// Calculate ring distance from `xk` to `yk` clockwise, on a ring of size `2^l`.
pub fn vdist(xk: RingKey, yk: RingKey, l: usize) -> (r: RingKey)
    requires
        l < 64,
    ensures
        r == crate::ring_dist(xk as int, yk as int, l as nat),
{
    let m = pow2_u64(l);
    let w = yk.wrapping_sub(xk);
    proof {
        lemma_wrapping_sub_is_mod(yk, xk);
        lemma_mod_pow2_64(yk - xk, l as nat);
    }
    w % m
}

/// Add a (possibly negative) offset to a ring key, cyclically: `(x + diff) mod 2^l`.
pub fn add_cyc(x: RingKey, diff: i64, l: usize) -> (r: RingKey)
    requires
        l < 64,
        diff > i64::MIN,
    ensures
        r == (x + diff) % (pow2(l as nat) as int),
{
    let max_key = pow2_u64(l);
    let w = if diff >= 0 {
        x.wrapping_add(diff as u64)
    } else {
        x.wrapping_sub((-diff) as u64)
    };
    proof {
        if diff >= 0 {
            lemma_wrapping_add_is_mod(x, diff as u64);
        } else {
            lemma_wrapping_sub_is_mod(x, (-diff) as u64);
        }
        lemma_mod_pow2_64(x + diff, l as nat);
    }
    w % max_key
}

/// The wrapping sum of two `u64` values is their sum modulo `2^64`.
proof fn lemma_wrapping_add_is_mod(x: u64, y: u64)
    ensures
        vstd::wrapping::u64_specs::wrapping_add(x, y) == (x + y) % (pow2(64) as int),
{
    vstd::arithmetic::power2::lemma2_to64_rest();
    if x + y <= u64::MAX {
        vstd::arithmetic::div_mod::lemma_small_mod((x + y) as nat, pow2(64));
    } else {
        vstd::arithmetic::div_mod::lemma_mod_multiples_vanish(1, x + y - pow2(64), pow2(64) as int);
        vstd::arithmetic::div_mod::lemma_small_mod((x + y - pow2(64)) as nat, pow2(64));
    }
}

/// The wrapping difference of two `u64` values is their difference modulo `2^64`.
proof fn lemma_wrapping_sub_is_mod(y: u64, x: u64)
    ensures
        vstd::wrapping::u64_specs::wrapping_sub(y, x) == (y - x) % (pow2(64) as int),
{
    vstd::arithmetic::power2::lemma2_to64_rest();
    if y - x >= 0 {
        vstd::arithmetic::div_mod::lemma_small_mod((y - x) as nat, pow2(64));
    } else {
        vstd::arithmetic::div_mod::lemma_mod_multiples_vanish(1, y - x, pow2(64) as int);
        vstd::arithmetic::div_mod::lemma_small_mod((y - x + pow2(64)) as nat, pow2(64));
    }
}

/// `(x mod 2^64) mod 2^l == x mod 2^l` for `l <= 64`.
proof fn lemma_mod_pow2_64(x: int, l: nat)
    requires
        l <= 64,
    ensures
        (x % (pow2(64) as int)) % (pow2(l) as int) == x % (pow2(l) as int),
{
    vstd::arithmetic::power2::lemma_pow2_pos(l);
    vstd::arithmetic::power2::lemma_pow2_pos((64 - l) as nat);
    vstd::arithmetic::power2::lemma_pow2_adds(l, (64 - l) as nat);
    vstd::arithmetic::div_mod::lemma_mod_mod(x, pow2(l) as int, pow2((64 - l) as nat) as int);
}


/// Insert a key into a strictly sorted vector, keeping it sorted;
/// a present key is left alone.
fn insert_key_sorted(v: &mut Vec<RingKey>, x: RingKey)
    requires
        forall|i: int, j: int| 0 <= i < j < old(v)@.len() ==> old(v)@[i] < old(v)@[j],
        old(v)@.len() < usize::MAX,
    ensures
        forall|i: int, j: int| 0 <= i < j < final(v)@.len() ==> final(v)@[i] < final(v)@[j],
        forall|y: RingKey| final(v)@.contains(y) == (old(v)@.contains(y) || y == x),
        final(v)@.len() <= old(v)@.len() + 1,
    {
    let n = v.len();
    let mut i: usize = 0;
    while i < n && v[i] < x
        invariant
            n == v@.len(),
            i <= n,
            forall|j: int| 0 <= j < i ==> v@[j] < x,
        decreases n - i,
    {
        i = i + 1;
    }
    if i < n && v[i] == x {
        proof {
            assert(v@[i as int] == x);
            assert(v@.contains(x));
        }
        return ;
    }
    proof {
        assert(!v@.contains(x)) by {
            if v@.contains(x) {
                let k = choose|k: int| 0 <= k < v@.len() && v@[k] == x;
                if k > i as int {
                    assert(i < n);
                    assert(v@[i as int] < v@[k]);
                }
            }
        }
    }
    let ghost v0 = v@;
    v.insert(i, x);
    proof {
        assert forall|y: RingKey| v@.contains(y) == (v0.contains(y) || y == x) by {
            if v@.contains(y) {
                let k = choose|k: int| 0 <= k < v@.len() && v@[k] == y;
                if k < i {
                    assert(v0[k] == y);
                    assert(v0.contains(y));
                } else if k > i {
                    assert(v0[k - 1] == y);
                    assert(v0.contains(y));
                }
            }
            if v0.contains(y) {
                let k = choose|k: int| 0 <= k < v0.len() && v0[k] == y;
                if k < i {
                    assert(v@[k] == y);
                } else {
                    assert(v@[k + 1] == y);
                }
                assert(v@.contains(y));
            }
            if y == x {
                assert(v@[i as int] == y);
                assert(v@.contains(y));
            }
        }
        assert forall|a: int, b: int| 0 <= a < b < v@.len() implies v@[a] < v@[b] by {
            let ii = i as int;
            if ii < v0.len() {
                assert(!(v0[ii] < x));
                assert(v0[ii] != x);
            }
            if a < ii && b == ii {
                assert(v@[a] == v0[a]);
            } else if a == ii && b > ii {
                assert(v@[b] == v0[b - 1]);
                if b - 1 > ii {
                    assert(v0[ii] < v0[b - 1]);
                }
            } else if a < ii && b > ii {
                assert(v@[a] == v0[a] && v@[b] == v0[b - 1]);
                if a == b - 1 {
                    assert(v@[a] < x);
                    assert(v@[b] == x);
                }
            } else if a > ii && b > ii {
                assert(v@[a] == v0[a - 1] && v@[b] == v0[b - 1]);
            } else if a < ii && b < ii {
                assert(v@[a] == v0[a] && v@[b] == v0[b]);
            }
        }
    }
}

/// In a strictly increasing key sequence every entry is at least its index.
proof fn lemma_keys_entry_ge(s: Seq<RingKey>, i: int)
    requires
        forall|a: int, b: int| 0 <= a < b < s.len() ==> s[a] < s[b],
        0 <= i < s.len(),
    ensures
        s[i] >= i,
    decreases i,
{
    if i > 0 {
        lemma_keys_entry_ge(s, i - 1);
    }
}

/// A strictly increasing sequence of keys below `bound` has at most
/// `bound` entries.
proof fn lemma_keys_bounded_len(s: Seq<RingKey>, bound: int)
    requires
        forall|a: int, b: int| 0 <= a < b < s.len() ==> s[a] < s[b],
        forall|a: int| 0 <= a < s.len() ==> s[a] < bound,
        bound >= 0,
    ensures
        s.len() <= bound,
{
    if s.len() > 0 {
        lemma_keys_entry_ge(s, s.len() - 1);
    }
}

/// Membership-preserving insertion keeps every entry below a bound.
proof fn lemma_key_set_bound(v0: Seq<RingKey>, v1: Seq<RingKey>, x: RingKey, bound: int)
    requires
        forall|y: RingKey| v1.contains(y) == (v0.contains(y) || y == x),
        forall|a: int| 0 <= a < v0.len() ==> v0[a] < bound,
        x < bound,
    ensures
        forall|a: int| 0 <= a < v1.len() ==> v1[a] < bound,
{
    assert forall|a: int| 0 <= a < v1.len() implies v1[a] < bound by {
        assert(v1.contains(v1[a]));
        if v0.contains(v1[a]) {
            let k = choose|k: int| 0 <= k < v0.len() && v0[k] == v1[a];
        }
    }
}

/// Generate the maintained left target ids for node `x_id`: the key one
/// step counter-clockwise.
pub fn gen_left_target_ids(x_id: RingKey, l: usize) -> (r: Vec<RingKey>)
    requires
        1 <= l < 64,
    ensures
        r@.len() == 1,
        r@[0] == (x_id - 1) % (pow2(l as nat) as int),
        r@[0] < pow2(l as nat),
    {
    let t = add_cyc(x_id, -1, l);
    proof {
        vstd::arithmetic::power2::lemma_pow2_pos(l as nat);
        vstd::arithmetic::div_mod::lemma_mod_bound(x_id - 1, pow2(l as nat) as int);
    }
    let mut v: Vec<RingKey> = Vec::new();
    v.push(t);
    v
}

/// Generate the maintained right target ids for node `x_id`: both
/// power-of-two offsets in each direction, the waypoints of the bit-fixing
/// chains toward each neighbor, and `2 * l` randomized targets.
pub fn gen_right_target_ids(
    x_id: RingKey,
    net: &crate::network::Network,
    l: usize,
    rng: &mut rand::rngs::StdRng,
) -> (r: Vec<RingKey>)
    requires
        net.wf(),
        1 <= l < 64,
        pow2(l as nat) < usize::MAX / 2,
        x_id < pow2(l as nat),
        exists|i: int| 0 <= i < net.keys().len() && net.keys()[i] == x_id,
        forall|i: int| 0 <= i < net.keys().len() ==> net.keys()[i] < pow2(l as nat),
    ensures
        forall|i: int, j: int| 0 <= i < j < r@.len() ==> r@[i] < r@[j],
        forall|i: int| 0 <= i < r@.len() ==> r@[i] < pow2(l as nat),
        1 <= r@.len() <= pow2(l as nat),
        forall|k: int|
            0 <= k < l ==> #[trigger] pow2(k as nat) >= 1 && r@.contains(
                (((x_id + pow2(k as nat)) % (pow2(l as nat) as int)) as RingKey),
            ) && r@.contains((((x_id - pow2(k as nat)) % (pow2(l as nat) as int)) as RingKey)),
        forall|xi: int, k: int|
            0 <= xi < net.keys().len() && net.keys()[xi] == x_id && 0 <= k < net.adj(xi).len()
                ==> r@.contains(net.keys()[(#[trigger] net.adj(xi)[k]) as int]),
{
    let ghost m = pow2(l as nat);
    proof {
        vstd::arithmetic::power2::lemma_pow2_pos(l as nat);
        vstd::arithmetic::power2::lemma2_to64();
        assert(m < usize::MAX);
    }
    let mut target_ids: Vec<RingKey> = Vec::new();

    // Basic right fingers: power-of-two offsets in both directions.
    let mut i: usize = 0;
    while i < l
        invariant
            1 <= l < 64,
            i <= l,
            m == pow2(l as nat),
            m < usize::MAX / 2,
            forall|a: int, b: int| 0 <= a < b < target_ids@.len() ==> target_ids@[a]
                < target_ids@[b],
            forall|a: int| 0 <= a < target_ids@.len() ==> target_ids@[a] < m,
            target_ids@.len() <= m,
            forall|k: int|
                0 <= k < i ==> #[trigger] pow2(k as nat) >= 1 && target_ids@.contains(
                    (((x_id + pow2(k as nat)) % (m as int)) as RingKey),
                ) && target_ids@.contains((((x_id - pow2(k as nat)) % (m as int)) as RingKey)),
        decreases l - i,
    {
        let pow_val = pow2_u64(i);
        proof {
            assert(pow2(i as nat) < m) by {
                vstd::arithmetic::power2::lemma_pow2_strictly_increases(i as nat, l as nat);
            }
            assert(pow_val <= i64::MAX) by {
                vstd::arithmetic::power2::lemma2_to64_rest();
            }
            lemma_keys_bounded_len(target_ids@, m as int);
            vstd::arithmetic::power2::lemma_pow2_pos(l as nat);
            vstd::arithmetic::div_mod::lemma_mod_bound(x_id + pow2(i as nat), m as int);
            vstd::arithmetic::div_mod::lemma_mod_bound(x_id - pow2(i as nat), m as int);
        }
        let t_up = add_cyc(x_id, pow_val as i64, l);
        let t_down = add_cyc(x_id, -(pow_val as i64), l);
        let ghost g0 = target_ids@;
        insert_key_sorted(&mut target_ids, t_up);
        proof {
            lemma_key_set_bound(g0, target_ids@, t_up, m as int);
            lemma_keys_bounded_len(target_ids@, m as int);
        }
        let ghost g1 = target_ids@;
        insert_key_sorted(&mut target_ids, t_down);
        proof {
            lemma_key_set_bound(g1, target_ids@, t_down, m as int);
            lemma_keys_bounded_len(target_ids@, m as int);
            assert(target_ids@.contains((((x_id + pow2(i as nat)) % (m as int)) as RingKey)));
            assert(target_ids@.contains((((x_id - pow2(i as nat)) % (m as int)) as RingKey)));
        }
        i = i + 1;
    }

    // Neighbor connectors: waypoints of the bit-fixing chain to each
    // neighbor.
    let x_i = match net.node_to_index(&x_id) {
        Some(i2) => i2,
        None => {
            proof {
                assert(false);
            }
            0
        },
    };
    let neighbors = net.neighbors(x_i);
    let mut ni: usize = 0;
    while ni < neighbors.len()
        invariant
            net.wf(),
            1 <= l < 64,
            ni <= neighbors@.len(),
            x_i < net.keys().len(),
            neighbors@ == net.adj(x_i as int),
            m == pow2(l as nat),
            m < usize::MAX / 2,
            x_id < m,
            forall|k2: int| 0 <= k2 < net.keys().len() ==> net.keys()[k2] < m,
            forall|a: int, b: int| 0 <= a < b < target_ids@.len() ==> target_ids@[a]
                < target_ids@[b],
            forall|a: int| 0 <= a < target_ids@.len() ==> target_ids@[a] < m,
            target_ids@.len() <= m,
            forall|k: int|
                0 <= k < l ==> #[trigger] pow2(k as nat) >= 1 && target_ids@.contains(
                    (((x_id + pow2(k as nat)) % (m as int)) as RingKey),
                ) && target_ids@.contains((((x_id - pow2(k as nat)) % (m as int)) as RingKey)),
            forall|k: int|
                0 <= k < ni ==> target_ids@.contains(
                    net.keys()[(#[trigger] net.adj(x_i as int)[k]) as int],
                ),
        decreases neighbors@.len() - ni,
    {
        proof {
            net.lemma_wf_facts();
        }
        let neighbor_index = neighbors[ni];
        let neighbor_id = match net.index_to_node(neighbor_index) {
            Some(id) => id,
            None => {
                proof {
                    assert(false);
                }
                0
            },
        };
        let chain = crate::chord::ids_chain::ids_chain(x_id, neighbor_id);
        let mut ci: usize = 0;
        while ci < chain.len()
            invariant
                1 <= l < 64,
                ci <= chain@.len(),
                m == pow2(l as nat),
                m < usize::MAX / 2,
                x_id < m,
                neighbor_id < m,
                forall|a: int|
                    0 <= a < chain@.len() ==> (chain@[a] | (x_id | neighbor_id)) == (x_id
                        | neighbor_id),
                forall|a: int, b: int| 0 <= a < b < target_ids@.len() ==> target_ids@[a]
                    < target_ids@[b],
                forall|a: int| 0 <= a < target_ids@.len() ==> target_ids@[a] < m,
                target_ids@.len() <= m,
                forall|k: int|
                    0 <= k < l ==> #[trigger] pow2(k as nat) >= 1 && target_ids@.contains(
                        (((x_id + pow2(k as nat)) % (m as int)) as RingKey),
                    ) && target_ids@.contains(
                        (((x_id - pow2(k as nat)) % (m as int)) as RingKey),
                    ),
                net.wf(),
                x_i < net.keys().len(),
                ni < net.adj(x_i as int).len(),
                forall|k: int|
                    0 <= k < ni ==> target_ids@.contains(
                        net.keys()[(#[trigger] net.adj(x_i as int)[k]) as int],
                    ),
                neighbor_id == net.keys()[net.adj(x_i as int)[ni as int] as int],
                chain@.len() >= 1,
                chain@.last() == neighbor_id,
                forall|a: int| 0 <= a < ci ==> target_ids@.contains(#[trigger] chain@[a]),
            decreases chain@.len() - ci,
        {
            let cur_id = chain[ci];
            proof {
                lemma_keys_bounded_len(target_ids@, m as int);
                let a = x_id;
                let b = neighbor_id;
                let c = cur_id;
                let lv = l as u64;
                assert(m == 1u64 << lv) by {
                    vstd::arithmetic::power2::lemma2_to64_rest();
                    assert(1u64 * pow2(l as nat) == pow2(l as nat));
                    vstd::bits::lemma_u64_shl_is_mul(1u64, lv);
                }
                assert(c < (1u64 << lv)) by (bit_vector)
                    requires
                        a < (1u64 << lv),
                        b < (1u64 << lv),
                        lv < 64,
                        (c | (a | b)) == (a | b),
                ;
            }
            let ghost g2 = target_ids@;
            insert_key_sorted(&mut target_ids, cur_id);
            proof {
                lemma_key_set_bound(g2, target_ids@, cur_id, m as int);
                lemma_keys_bounded_len(target_ids@, m as int);
            }
            ci = ci + 1;
        }
        proof {
            assert(target_ids@.contains(chain@[chain@.len() - 1]));
            assert(target_ids@.contains(net.keys()[net.adj(x_i as int)[ni as int] as int]));
        }
        ni = ni + 1;
    }

    // Right randomized fingers: one target in each band `[2^i, 2^(i+1))`
    // that fits the key space, and `l` fully random targets.
    let mut i2: usize = 0;
    while i2 < l
        invariant
            1 <= l < 64,
            i2 <= l,
            m == pow2(l as nat),
            m < usize::MAX / 2,
            forall|a: int, b: int| 0 <= a < b < target_ids@.len() ==> target_ids@[a]
                < target_ids@[b],
            forall|a: int| 0 <= a < target_ids@.len() ==> target_ids@[a] < m,
            target_ids@.len() <= m,
            forall|k: int|
                0 <= k < l ==> #[trigger] pow2(k as nat) >= 1 && target_ids@.contains(
                    (((x_id + pow2(k as nat)) % (m as int)) as RingKey),
                ) && target_ids@.contains((((x_id - pow2(k as nat)) % (m as int)) as RingKey)),
            net.wf(),
            x_i < net.keys().len(),
            forall|k: int|
                0 <= k < net.adj(x_i as int).len() ==> target_ids@.contains(
                    net.keys()[(#[trigger] net.adj(x_i as int)[k]) as int],
                ),
        decreases l - i2,
    {
        let lo = pow2_u64(i2);
        let hi = pow2_u64(i2 + 1);
        proof {
            vstd::arithmetic::power2::lemma_pow2_strictly_increases(i2 as nat, (i2 + 1) as nat);
            assert(pow2((i2 + 1) as nat) <= pow2(l as nat)) by {
                if i2 + 1 < l {
                    vstd::arithmetic::power2::lemma_pow2_strictly_increases(
                        (i2 + 1) as nat,
                        l as nat,
                    );
                }
            }
            lemma_keys_bounded_len(target_ids@, m as int);
        }
        let rand_id = crate::random_util::rand_range_u64(rng, lo, hi);
        let ghost g3 = target_ids@;
        insert_key_sorted(&mut target_ids, rand_id);
        proof {
            lemma_key_set_bound(g3, target_ids@, rand_id, m as int);
            lemma_keys_bounded_len(target_ids@, m as int);
        }
        i2 = i2 + 1;
    }
    let mut i3: usize = 0;
    while i3 < l
        invariant
            1 <= l < 64,
            i3 <= l,
            m == pow2(l as nat),
            m < usize::MAX / 2,
            forall|a: int, b: int| 0 <= a < b < target_ids@.len() ==> target_ids@[a]
                < target_ids@[b],
            forall|a: int| 0 <= a < target_ids@.len() ==> target_ids@[a] < m,
            target_ids@.len() <= m,
            forall|k: int|
                0 <= k < l ==> #[trigger] pow2(k as nat) >= 1 && target_ids@.contains(
                    (((x_id + pow2(k as nat)) % (m as int)) as RingKey),
                ) && target_ids@.contains((((x_id - pow2(k as nat)) % (m as int)) as RingKey)),
            net.wf(),
            x_i < net.keys().len(),
            forall|k: int|
                0 <= k < net.adj(x_i as int).len() ==> target_ids@.contains(
                    net.keys()[(#[trigger] net.adj(x_i as int)[k]) as int],
                ),
        decreases l - i3,
    {
        let max_key = pow2_u64(l);
        proof {
            lemma_keys_bounded_len(target_ids@, m as int);
            vstd::arithmetic::power2::lemma_pow2_pos(l as nat);
        }
        let rand_id = crate::random_util::rand_range_u64(rng, 0, max_key);
        let ghost g4 = target_ids@;
        insert_key_sorted(&mut target_ids, rand_id);
        proof {
            lemma_key_set_bound(g4, target_ids@, rand_id, m as int);
            lemma_keys_bounded_len(target_ids@, m as int);
        }
        i3 = i3 + 1;
    }
    proof {
        net.lemma_wf_facts();
        assert forall|xi: int, k: int|
            0 <= xi < net.keys().len() && net.keys()[xi] == x_id && 0 <= k < net.adj(
                xi,
            ).len() implies target_ids@.contains(
            net.keys()[(#[trigger] net.adj(xi)[k]) as int],
        ) by {
            assert(net.keys()[x_i as int] == x_id);
            assert(xi == x_i as int);
        }
        lemma_keys_bounded_len(target_ids@, m as int);
        let k0: int = 0;
        assert(pow2(k0 as nat) >= 1 && target_ids@.contains(
            (((x_id + pow2(k0 as nat)) % (m as int)) as RingKey),
        ));
        assert(target_ids@.len() >= 1);
    }
    target_ids
}

/// Every stored chain's hop count is at most `cap`.
pub open spec fn lengths_bounded(nf: crate::chord::node_fingers::NodeFingers, cap: nat) -> bool {
    &&& forall|i: int|
        0 <= i < nf.left.sorted_fingers@.len() ==> nf.left.sorted_fingers@[i].schain.length <= cap
    &&& forall|i: int|
        0 <= i < nf.right.sorted_fingers@.len() ==> nf.right.sorted_fingers@[i].schain.length
            <= cap
}

/// Every stored chain ends at a real node key.
pub open spec fn finals_in_keys(
    nf: crate::chord::node_fingers::NodeFingers,
    keys: Seq<RingKey>,
) -> bool {
    &&& forall|i: int|
        0 <= i < nf.left.sorted_fingers@.len() ==> keys.contains(
            #[trigger] nf.left.sorted_fingers@[i].schain.final_id,
        )
    &&& forall|i: int|
        0 <= i < nf.right.sorted_fingers@.len() ==> keys.contains(
            #[trigger] nf.right.sorted_fingers@[i].schain.final_id,
        )
}

/// The right-side table has a slot tracking target id `t`.
pub open spec fn tracks_right_target(
    nf: crate::chord::node_fingers::NodeFingers,
    t: RingKey,
) -> bool {
    exists|j: int|
        0 <= j < nf.right.sorted_fingers@.len() && (
        #[trigger] nf.right.sorted_fingers@[j]).target_id == t
}

/// The left-side table has a slot tracking target id `t`.
pub open spec fn tracks_left_target(
    nf: crate::chord::node_fingers::NodeFingers,
    t: RingKey,
) -> bool {
    exists|j: int|
        0 <= j < nf.left.sorted_fingers@.len() && (
        #[trigger] nf.left.sorted_fingers@[j]).target_id == t
}

/// The table tracks both power-of-two offset targets of exponent `k`
/// around `key`.
pub open spec fn tracks_pow_targets(
    nf: crate::chord::node_fingers::NodeFingers,
    key: RingKey,
    k: int,
    l: nat,
) -> bool {
    &&& tracks_right_target(nf, (((key + pow2(k as nat)) % (pow2(l) as int)) as RingKey))
    &&& tracks_right_target(nf, (((key - pow2(k as nat)) % (pow2(l) as int)) as RingKey))
}

/// Initialize the maintained fingers for the node with index `x_i`.
fn create_node_fingers(
    x_i: usize,
    net: &crate::network::Network,
    l: usize,
    rng: &mut rand::rngs::StdRng,
) -> (r: crate::chord::node_fingers::NodeFingers)
    requires
        net.wf(),
        x_i < net.keys().len(),
        1 <= l < 64,
        pow2(l as nat) < usize::MAX / 2,
        forall|i: int| 0 <= i < net.keys().len() ==> net.keys()[i] < pow2(l as nat),
    ensures
        r.wf(),
        forall|i: int|
            0 <= i < r.left.sorted_fingers@.len() ==> r.left.sorted_fingers@[i].schain == (
            crate::chord::node_fingers::SemiChain {
                final_id: net.keys()[x_i as int],
                length: 0,
            }),
        forall|i: int|
            0 <= i < r.right.sorted_fingers@.len() ==> r.right.sorted_fingers@[i].schain == (
            crate::chord::node_fingers::SemiChain {
                final_id: net.keys()[x_i as int],
                length: 0,
            }),
        tracks_left_target(
            r,
            (((net.keys()[x_i as int] - 1) % (pow2(l as nat) as int)) as RingKey),
        ),
        forall|k: int|
            0 <= k < l ==> #[trigger] pow2(k as nat) >= 1 && tracks_right_target(
                r,
                (((net.keys()[x_i as int] + pow2(k as nat)) % (pow2(l as nat) as int)) as RingKey),
            ) && tracks_right_target(
                r,
                (((net.keys()[x_i as int] - pow2(k as nat)) % (pow2(l as nat) as int)) as RingKey),
            ),
        forall|k: int|
            0 <= k < net.adj(x_i as int).len() ==> tracks_right_target(
                r,
                net.keys()[(#[trigger] net.adj(x_i as int)[k]) as int],
            ),
{
    let x_id = match net.index_to_node(x_i) {
        Some(id) => id,
        None => {
            proof {
                assert(false);
            }
            0
        },
    };
    let target_ids_left = gen_left_target_ids(x_id, l);
    let target_ids_right = gen_right_target_ids(x_id, net, l, rng);
    proof {
        vstd::arithmetic::power2::lemma_pow2_pos(l as nat);
    }
    let nf = crate::chord::node_fingers::NodeFingers::new(
        x_id,
        &target_ids_left,
        &target_ids_right,
    );
    proof {
        assert(target_ids_left@.contains(
            (((x_id - 1) % (pow2(l as nat) as int)) as RingKey),
        )) by {
            assert(target_ids_left@[0] == (((x_id - 1) % (pow2(l as nat) as int)) as RingKey));
        }
        assert forall|k: int|
            0 <= k < l implies #[trigger] pow2(k as nat) >= 1 && tracks_right_target(
            nf,
            (((x_id + pow2(k as nat)) % (pow2(l as nat) as int)) as RingKey),
        ) && tracks_right_target(
            nf,
            (((x_id - pow2(k as nat)) % (pow2(l as nat) as int)) as RingKey),
        ) by {
            assert(target_ids_right@.contains(
                (((x_id + pow2(k as nat)) % (pow2(l as nat) as int)) as RingKey),
            ));
            assert(target_ids_right@.contains(
                (((x_id - pow2(k as nat)) % (pow2(l as nat) as int)) as RingKey),
            ));
        }
        assert forall|k: int|
            0 <= k < net.adj(x_i as int).len() implies tracks_right_target(
            nf,
            net.keys()[(#[trigger] net.adj(x_i as int)[k]) as int],
        ) by {
            assert(target_ids_right@.contains(net.keys()[net.adj(x_i as int)[k] as int]));
        }
    }
    nf
}

/// Initialize the maintained fingers of every node.
pub fn init_fingers(
    net: &crate::network::Network,
    l: usize,
    rng: &mut rand::rngs::StdRng,
) -> (r: Vec<crate::chord::node_fingers::NodeFingers>)
    requires
        net.wf(),
        1 <= l < 64,
        pow2(l as nat) < usize::MAX / 2,
        forall|i: int| 0 <= i < net.keys().len() ==> net.keys()[i] < pow2(l as nat),
    ensures
        r@.len() == net.keys().len(),
        forall|x: int| 0 <= x < r@.len() ==> (#[trigger] r@[x]).wf(),
        forall|x: int, i: int|
            0 <= x < r@.len() && 0 <= i < r@[x].left.sorted_fingers@.len()
                ==> #[trigger] r@[x].left.sorted_fingers@[i].schain == (
            crate::chord::node_fingers::SemiChain { final_id: net.keys()[x], length: 0 }),
        forall|x: int, i: int|
            0 <= x < r@.len() && 0 <= i < r@[x].right.sorted_fingers@.len()
                ==> #[trigger] r@[x].right.sorted_fingers@[i].schain == (
            crate::chord::node_fingers::SemiChain { final_id: net.keys()[x], length: 0 }),
        forall|x: int, k: int|
            0 <= x < r@.len() && 0 <= k < l ==> #[trigger] tracks_pow_targets(
                r@[x],
                net.keys()[x],
                k,
                l as nat,
            ),
        forall|x: int, k: int|
            0 <= x < r@.len() && 0 <= k < net.adj(x).len() ==> tracks_right_target(
                r@[x],
                net.keys()[(#[trigger] net.adj(x)[k]) as int],
            ),
{
    let mut res_fingers: Vec<crate::chord::node_fingers::NodeFingers> = Vec::new();
    let n = net.node_count();
    let mut x_i: usize = 0;
    while x_i < n
        invariant
            net.wf(),
            1 <= l < 64,
            pow2(l as nat) < usize::MAX / 2,
            forall|i: int| 0 <= i < net.keys().len() ==> net.keys()[i] < pow2(l as nat),
            n == net.keys().len(),
            x_i <= n,
            res_fingers@.len() == x_i,
            forall|x: int| 0 <= x < x_i ==> (#[trigger] res_fingers@[x]).wf(),
            forall|x: int, i: int|
                0 <= x < x_i && 0 <= i < res_fingers@[x].left.sorted_fingers@.len()
                    ==> #[trigger] res_fingers@[x].left.sorted_fingers@[i].schain == (
                crate::chord::node_fingers::SemiChain { final_id: net.keys()[x], length: 0 }),
            forall|x: int, i: int|
                0 <= x < x_i && 0 <= i < res_fingers@[x].right.sorted_fingers@.len()
                    ==> #[trigger] res_fingers@[x].right.sorted_fingers@[i].schain == (
                crate::chord::node_fingers::SemiChain { final_id: net.keys()[x], length: 0 }),
            forall|x: int, k: int|
                0 <= x < x_i && 0 <= k < l ==> #[trigger] tracks_pow_targets(
                    res_fingers@[x],
                    net.keys()[x],
                    k,
                    l as nat,
                ),
            forall|x: int, k: int|
                0 <= x < x_i && 0 <= k < net.adj(x).len() ==> tracks_right_target(
                    res_fingers@[x],
                    net.keys()[(#[trigger] net.adj(x)[k]) as int],
                ),
        decreases n - x_i,
    {
        let nf = create_node_fingers(x_i, net, l, rng);
        res_fingers.push(nf);
        proof {
            assert forall|k: int| 0 <= k < l implies #[trigger] tracks_pow_targets(
                nf,
                net.keys()[x_i as int],
                k,
                l as nat,
            ) by {
                assert(pow2(k as nat) >= 1 && tracks_right_target(
                    nf,
                    (((net.keys()[x_i as int] + pow2(k as nat)) % (
                    pow2(l as nat) as int)) as RingKey),
                ) && tracks_right_target(
                    nf,
                    (((net.keys()[x_i as int] - pow2(k as nat)) % (
                    pow2(l as nat) as int)) as RingKey),
                ));
            }
            assert(res_fingers@[x_i as int] == nf);
        }
        x_i = x_i + 1;
    }
    res_fingers
}

/// The finger lists of both table sets hold identical entries.
pub open spec fn tables_views_equal(a: Seq<NodeFingers>, b: Seq<NodeFingers>) -> bool {
    &&& a.len() == b.len()
    &&& forall|i: int|
        0 <= i < a.len() ==> (#[trigger] a[i]).left.sorted_fingers@ == b[i].left.sorted_fingers@
            && a[i].right.sorted_fingers@ == b[i].right.sorted_fingers@
}

/// Table `a` tracks the same targets as `b` and scores no worse on every
/// slot: the monotonic-improvement relation of the protocol.
pub open spec fn no_worse_than(a: NodeFingers, b: NodeFingers, l: nat) -> bool {
    &&& a.left.sorted_fingers@.len() == b.left.sorted_fingers@.len()
    &&& a.right.sorted_fingers@.len() == b.right.sorted_fingers@.len()
    &&& forall|i: int|
        0 <= i < a.left.sorted_fingers@.len() ==> (#[trigger] a.left.sorted_fingers@[i]).target_id
            == b.left.sorted_fingers@[i].target_id
    &&& forall|i: int|
        0 <= i < a.right.sorted_fingers@.len() ==> (
        #[trigger] a.right.sorted_fingers@[i]).target_id == b.right.sorted_fingers@[i].target_id
    &&& forall|i: int|
        0 <= i < a.left.sorted_fingers@.len() ==> crate::chord::node_fingers::left_no_worse(
            #[trigger] a.left.sorted_fingers@[i],
            b.left.sorted_fingers@[i],
            l,
        )
    &&& forall|i: int|
        0 <= i < a.right.sorted_fingers@.len() ==> crate::chord::node_fingers::right_no_worse(
            #[trigger] a.right.sorted_fingers@[i],
            b.right.sorted_fingers@[i],
            l,
        )
}

/// The advertisement `c` would change the table `nf`.
pub open spec fn advert_accepted(nf: NodeFingers, c: SemiChain, l: nat) -> bool {
    ||| crate::chord::node_fingers::left_accepts(nf.left.sorted_fingers@, c, l)
    ||| crate::chord::node_fingers::right_accepts(nf.right.sorted_fingers@, c, l)
}

/// Some trivial one-hop advertisement of the seed phase would still change
/// some table: the table set is not yet converged.
pub open spec fn seed_accepted(
    net: crate::network::Network,
    tables: Seq<NodeFingers>,
    l: nat,
) -> bool {
    exists|u: int, k: int|
        0 <= u < tables.len() && 0 <= k < net.adj(u).len() && advert_accepted(
            tables[u],
            SemiChain { final_id: net.keys()[net.adj(u)[k] as int], length: 1 },
            l,
        )
}

/// The trivial one-hop advertisement of edge `(u, adj(u)[k])` appears in
/// the queue.
pub open spec fn seed_in_queue(
    net: crate::network::Network,
    q: Seq<(usize, SemiChain)>,
    u: int,
    k: int,
) -> bool {
    exists|qi: int|
        0 <= qi < q.len() && (#[trigger] q[qi]).0 == u && q[qi].1 == (SemiChain {
            final_id: net.keys()[net.adj(u)[k] as int],
            length: 1,
        })
}

/// Queue entries are never altered, so presence survives appending.
proof fn lemma_seed_in_queue_extend(
    net: crate::network::Network,
    q0: Seq<(usize, SemiChain)>,
    q1: Seq<(usize, SemiChain)>,
    u: int,
    k: int,
)
    requires
        q1.len() >= q0.len(),
        forall|i: int| 0 <= i < q0.len() ==> q1[i] == q0[i],
        seed_in_queue(net, q0, u, k),
    ensures
        seed_in_queue(net, q1, u, k),
{
    let qi = choose|qi: int|
        0 <= qi < q0.len() && (#[trigger] q0[qi]).0 == u && q0[qi].1 == (SemiChain {
            final_id: net.keys()[net.adj(u)[k] as int],
            length: 1,
        });
    assert(q1[qi] == q0[qi]);
}

/// Relax every pending advertisement until no further improvement is
/// possible.
///
/// The seed phase enqueues, for every edge, the trivial one-hop chain to
/// the neighbor; the relax phase pops advertisements, offers them to the
/// origin's table, and re-advertises accepted chains one hop further.  A
/// chain that would exceed the node count in hops is dropped, which bounds
/// the propagation; every accepted update strictly lowers the table
/// potential, so the queue empties.
pub fn converge_fingers(
    net: &crate::network::Network,
    fingers: &mut Vec<NodeFingers>,
    l: usize,
)
    requires
        net.wf(),
        l < 64,
        old(fingers)@.len() == net.keys().len(),
        forall|i: int| 0 <= i < old(fingers)@.len() ==> (#[trigger] old(fingers)@[i]).wf(),
        forall|i: int|
            0 <= i < old(fingers)@.len() ==> lengths_bounded(
                #[trigger] old(fingers)@[i],
                net.keys().len() as nat,
            ),
        forall|i: int|
            0 <= i < old(fingers)@.len() ==> finals_in_keys(
                #[trigger] old(fingers)@[i],
                net.keys(),
            ),
    ensures
        final(fingers)@.len() == old(fingers)@.len(),
        forall|i: int| 0 <= i < final(fingers)@.len() ==> (#[trigger] final(fingers)@[i]).wf(),
        forall|i: int|
            0 <= i < final(fingers)@.len() ==> lengths_bounded(
                #[trigger] final(fingers)@[i],
                net.keys().len() as nat,
            ),
        forall|i: int|
            0 <= i < final(fingers)@.len() ==> finals_in_keys(
                #[trigger] final(fingers)@[i],
                net.keys(),
            ),
        forall|i: int|
            0 <= i < final(fingers)@.len() ==> no_worse_than(
                #[trigger] final(fingers)@[i],
                old(fingers)@[i],
                l as nat,
            ),
        !seed_accepted(*net, old(fingers)@, l as nat) ==> tables_views_equal(
            final(fingers)@,
            old(fingers)@,
        ),
        !seed_accepted(*net, final(fingers)@, l as nat),
{
    let n = net.node_count();
    let ghost lg = l as nat;
    let ghost capg = n as nat;
    let ghost keys = net.keys();
    let ghost tables0 = fingers@;

    let mut queue: Vec<(usize, SemiChain)> = Vec::new();

    // Seed phase: one trivial advertisement per directed edge.
    let mut x_i: usize = 0;
    while x_i < n
        invariant
            net.wf(),
            n == net.keys().len(),
            x_i <= n,
            forall|q: int|
                0 <= q < queue@.len() ==> (#[trigger] queue@[q]).0 < n && 1 <= queue@[q].1.length
                    <= n && net.keys().contains(queue@[q].1.final_id),
            !seed_accepted(*net, tables0, lg) ==> forall|q: int|
                0 <= q < queue@.len() ==> !advert_accepted(
                    tables0[(#[trigger] queue@[q]).0 as int],
                    queue@[q].1,
                    lg,
                ),
            !seed_accepted(*net, tables0, lg) ==> fingers@ == tables0,
            fingers@ == tables0,
            tables0.len() == n,
            forall|u: int, k2: int|
                0 <= u < x_i && 0 <= k2 < net.adj(u).len() ==> #[trigger] seed_in_queue(
                    *net,
                    queue@,
                    u,
                    k2,
                ),
        decreases n - x_i,
    {
        let neighbors = net.neighbors(x_i);
        let nlen = neighbors.len();
        let mut k: usize = 0;
        while k < nlen
            invariant
                net.wf(),
                n == net.keys().len(),
                x_i < n,
                k <= nlen,
                nlen == net.adj(x_i as int).len(),
                neighbors@ == net.adj(x_i as int),
                forall|q: int|
                    0 <= q < queue@.len() ==> (#[trigger] queue@[q]).0 < n && 1
                        <= queue@[q].1.length <= n && net.keys().contains(queue@[q].1.final_id),
                !seed_accepted(*net, tables0, lg) ==> forall|q: int|
                    0 <= q < queue@.len() ==> !advert_accepted(
                        tables0[(#[trigger] queue@[q]).0 as int],
                        queue@[q].1,
                        lg,
                    ),
                tables0.len() == n,
                forall|u: int, k2: int|
                    0 <= u < x_i && 0 <= k2 < net.adj(u).len() ==> #[trigger] seed_in_queue(
                        *net,
                        queue@,
                        u,
                        k2,
                    ),
                forall|k2: int|
                    0 <= k2 < k ==> #[trigger] seed_in_queue(*net, queue@, x_i as int, k2),
            decreases nlen - k,
        {
            proof {
                net.lemma_wf_facts();
            }
            let neighbor_i = neighbors[k];
            let neighbor_id = match net.index_to_node(neighbor_i) {
                Some(id) => id,
                None => {
                    proof {
                        assert(false);
                    }
                    0
                },
            };
            let schain = SemiChain { final_id: neighbor_id, length: 1 };
            proof {
                assert(net.keys().contains(neighbor_id)) by {
                    assert(net.keys()[neighbor_i as int] == neighbor_id);
                }
                if !seed_accepted(*net, tables0, lg) {
                    assert(!advert_accepted(tables0[x_i as int], schain, lg)) by {
                        if advert_accepted(tables0[x_i as int], schain, lg) {
                            assert(0 <= x_i < tables0.len() && 0 <= k < net.adj(x_i as int).len()
                                && advert_accepted(
                                tables0[x_i as int],
                                SemiChain {
                                    final_id: net.keys()[net.adj(x_i as int)[k as int] as int],
                                    length: 1,
                                },
                                lg,
                            ));
                        }
                    }
                }
            }
            let ghost q_pre = queue@;
            queue.push((x_i, schain));
            proof {
                assert forall|u: int, k2: int|
                    0 <= u < x_i && 0 <= k2 < net.adj(u).len() implies #[trigger] seed_in_queue(
                    *net,
                    queue@,
                    u,
                    k2,
                ) by {
                    lemma_seed_in_queue_extend(*net, q_pre, queue@, u, k2);
                }
                assert forall|k2: int| 0 <= k2 < k + 1 implies #[trigger] seed_in_queue(
                    *net,
                    queue@,
                    x_i as int,
                    k2,
                ) by {
                    if k2 < k {
                        lemma_seed_in_queue_extend(*net, q_pre, queue@, x_i as int, k2);
                    } else {
                        assert(queue@[q_pre.len() as int].0 == x_i as int && queue@[q_pre.len() as int].1
                            == (SemiChain {
                            final_id: net.keys()[net.adj(x_i as int)[k2] as int],
                            length: 1,
                        }));
                    }
                }
            }
            k = k + 1;
        }
        x_i = x_i + 1;
    }

    // Relax phase.
    let mut head: usize = 0;
    while head < queue.len()
        invariant
            net.wf(),
            l < 64,
            lg == l as nat,
            capg == n as nat,
            keys == net.keys(),
            n == net.keys().len(),
            tables0.len() == n,
            head <= queue@.len(),
            fingers@.len() == n,
            forall|i: int| 0 <= i < n ==> (#[trigger] fingers@[i]).wf(),
            forall|i: int| 0 <= i < n ==> lengths_bounded(#[trigger] fingers@[i], capg),
            forall|i: int| 0 <= i < n ==> finals_in_keys(#[trigger] fingers@[i], keys),
            forall|i: int| 0 <= i < n ==> no_worse_than(#[trigger] fingers@[i], tables0[i], lg),
            forall|q: int|
                0 <= q < queue@.len() ==> (#[trigger] queue@[q]).0 < n && 1 <= queue@[q].1.length
                    <= n && keys.contains(queue@[q].1.final_id),
            !seed_accepted(*net, tables0, lg) ==> tables_views_equal(fingers@, tables0) && (
            forall|q: int|
                0 <= q < queue@.len() ==> !advert_accepted(
                    fingers@[(#[trigger] queue@[q]).0 as int],
                    queue@[q].1,
                    lg,
                )),
            forall|q: int|
                0 <= q < head ==> !advert_accepted(
                    fingers@[(#[trigger] queue@[q]).0 as int],
                    queue@[q].1,
                    lg,
                ),
            forall|u: int, k2: int|
                0 <= u < n && 0 <= k2 < net.adj(u).len() ==> #[trigger] seed_in_queue(
                    *net,
                    queue@,
                    u,
                    k2,
                ),
        decreases tables_pot(fingers@, lg, capg), queue@.len() - head,
    {
        let pair = queue[head];
        let origin = pair.0;
        let schain = pair.1;
        head = head + 1;

        let ghost pre = fingers@;
        proof {
            crate::chord::progress::lemma_tables_pot_nonneg(pre, lg, capg);
        }
        let mut table = fingers.remove(origin);
        let ghost t0 = table;
        let changed = table.update(&schain, l);
        fingers.insert(origin, table);
        proof {
            assert(fingers@ =~= pre.update(origin as int, table));
        }

        match changed {
            Some(_) => {
                // Re-advertise the accepted chain one hop further, within
                // the hop-count ceiling.
                let neighbors = net.neighbors(origin);
                let nlen = neighbors.len();
                let ghost q_pre = queue@;
                if schain.length < n {
                    let mut k: usize = 0;
                    while k < nlen
                        invariant
                            net.wf(),
                            n == net.keys().len(),
                            keys == net.keys(),
                            origin < n,
                            head <= queue@.len(),
                            schain.length < n,
                            keys.contains(schain.final_id),
                            k <= nlen,
                            nlen == net.adj(origin as int).len(),
                            neighbors@ == net.adj(origin as int),
                            forall|q: int|
                                0 <= q < queue@.len() ==> (#[trigger] queue@[q]).0 < n && 1
                                    <= queue@[q].1.length <= n && keys.contains(
                                    queue@[q].1.final_id,
                                ),
                            queue@.len() >= q_pre.len(),
                            forall|i: int| 0 <= i < q_pre.len() ==> queue@[i] == q_pre[i],
                        decreases nlen - k,
                    {
                        proof {
                            net.lemma_wf_facts();
                        }
                        let neighbor_i = neighbors[k];
                        queue.push(
                            (
                                neighbor_i,
                                SemiChain {
                                    final_id: schain.final_id,
                                    length: schain.length + 1,
                                },
                            ),
                        );
                        k = k + 1;
                    }
                }
                proof {
                    // Queue entries already present survive the pushes.
                    assert forall|u: int, k2: int|
                        0 <= u < n && 0 <= k2 < net.adj(u).len() implies #[trigger] seed_in_queue(
                        *net,
                        queue@,
                        u,
                        k2,
                    ) by {
                        lemma_seed_in_queue_extend(*net, q_pre, queue@, u, k2);
                    }
                    // Every popped advertisement stays rejected: the popped
                    // one by the walk itself, earlier ones because rejection
                    // is stable under improvement.
                    assert forall|q: int|
                        0 <= q < head implies !advert_accepted(
                        fingers@[(#[trigger] queue@[q]).0 as int],
                        queue@[q].1,
                        lg,
                    ) by {
                        assert(queue@[q] == q_pre[q]);
                        let u = queue@[q].0 as int;
                        let cq = queue@[q].1;
                        if q < head - 1 {
                            if u == origin {
                                assert(!advert_accepted(pre[u], cq, lg));
                                crate::chord::node_fingers::lemma_left_reject_stable(
                                    t0.left.sorted_fingers@,
                                    table.left.sorted_fingers@,
                                    cq,
                                    lg,
                                );
                                crate::chord::node_fingers::lemma_right_reject_stable(
                                    t0.right.sorted_fingers@,
                                    table.right.sorted_fingers@,
                                    cq,
                                    lg,
                                );
                            } else {
                                assert(fingers@[u] == pre[u]);
                            }
                        } else {
                            crate::chord::node_fingers::lemma_left_walk_rejects(
                                t0.left.sorted_fingers@,
                                table.left.sorted_fingers@,
                                schain,
                                lg,
                            );
                            crate::chord::node_fingers::lemma_right_walk_rejects(
                                t0.right.sorted_fingers@,
                                table.right.sorted_fingers@,
                                schain,
                                lg,
                            );
                        }
                    }
                    lemma_update_step_facts(t0, table, schain, lg, capg, keys);
                    crate::chord::progress::lemma_tables_pot_update(
                        pre,
                        fingers@,
                        origin as int,
                        lg,
                        capg,
                    );
                    crate::chord::progress::lemma_tables_pot_nonneg(fingers@, lg, capg);
                    assert forall|i: int| 0 <= i < n implies no_worse_than(
                        #[trigger] fingers@[i],
                        tables0[i],
                        lg,
                    ) by {
                        if i == origin {
                            lemma_no_worse_trans(table, t0, tables0[i], lg);
                        }
                    }
                    if !seed_accepted(*net, tables0, lg) {
                        assert(!advert_accepted(t0, schain, lg));
                        assert(false);
                    }
                }
            },
            None => {
                proof {
                    assert(table.left.sorted_fingers@ == t0.left.sorted_fingers@);
                    assert(table.right.sorted_fingers@ == t0.right.sorted_fingers@);
                    assert forall|q: int|
                        0 <= q < head implies !advert_accepted(
                        fingers@[(#[trigger] queue@[q]).0 as int],
                        queue@[q].1,
                        lg,
                    ) by {
                        let u = queue@[q].0 as int;
                        let cq = queue@[q].1;
                        if q < head - 1 {
                            if u == origin {
                                assert(!advert_accepted(pre[u], cq, lg));
                                lemma_accepts_congruence(fingers@[u], pre[u], cq, lg);
                            } else {
                                assert(fingers@[u] == pre[u]);
                            }
                        } else {
                            assert(!crate::chord::node_fingers::left_accepts(
                                t0.left.sorted_fingers@,
                                schain,
                                lg,
                            ) && !crate::chord::node_fingers::right_accepts(
                                t0.right.sorted_fingers@,
                                schain,
                                lg,
                            ));
                            lemma_accepts_congruence(fingers@[u], pre[u], cq, lg);
                        }
                    }
                    lemma_table_pot_congruence(table, t0, lg, capg);
                    lemma_tables_pot_congruence(fingers@, pre, lg, capg);
                    assert forall|i: int| 0 <= i < n implies no_worse_than(
                        #[trigger] fingers@[i],
                        tables0[i],
                        lg,
                    ) by {
                        if i == origin {
                            lemma_no_worse_congruence(table, t0, tables0[i], lg);
                        }
                    }
                    if !seed_accepted(*net, tables0, lg) {
                        assert(tables_views_equal(fingers@, tables0));
                        assert forall|q: int|
                            0 <= q < queue@.len() implies !advert_accepted(
                            fingers@[(#[trigger] queue@[q]).0 as int],
                            queue@[q].1,
                            lg,
                        ) by {
                            let u = queue@[q].0 as int;
                            assert(!advert_accepted(pre[u], queue@[q].1, lg));
                            lemma_accepts_congruence(fingers@[u], pre[u], queue@[q].1, lg);
                        }
                    }
                }
            },
        }
    }
    proof {
        // Every seed advertisement was processed and is now rejected, so
        // the output is a fixpoint of the relax phase.
        assert forall|u: int, k2: int|
            0 <= u < fingers@.len() && 0 <= k2 < net.adj(u).len() implies !advert_accepted(
            fingers@[u],
            SemiChain { final_id: net.keys()[net.adj(u)[k2] as int], length: 1 },
            lg,
        ) by {
            assert(seed_in_queue(*net, queue@, u, k2));
            let qi = choose|qi: int|
                0 <= qi < queue@.len() && (#[trigger] queue@[qi]).0 == u && queue@[qi].1 == (
                SemiChain { final_id: net.keys()[net.adj(u)[k2] as int], length: 1 });
            assert(!advert_accepted(fingers@[queue@[qi].0 as int], queue@[qi].1, lg));
        }
        assert(!seed_accepted(*net, fingers@, lg));
    }
}

/// Tables with identical finger lists have equal potential.
proof fn lemma_table_pot_congruence(a: NodeFingers, b: NodeFingers, l: nat, cap: nat)
    requires
        a.left.sorted_fingers@ == b.left.sorted_fingers@,
        a.right.sorted_fingers@ == b.right.sorted_fingers@,
    ensures
        table_pot(a, l, cap) == table_pot(b, l, cap),
{
}

/// Table sets with pointwise identical finger lists have equal potential.
proof fn lemma_tables_pot_congruence(a: Seq<NodeFingers>, b: Seq<NodeFingers>, l: nat, cap: nat)
    requires
        a.len() == b.len(),
        forall|i: int|
            0 <= i < a.len() ==> (#[trigger] a[i]).left.sorted_fingers@
                == b[i].left.sorted_fingers@ && a[i].right.sorted_fingers@
                == b[i].right.sorted_fingers@,
    ensures
        tables_pot(a, l, cap) == tables_pot(b, l, cap),
    decreases a.len(),
{
    if a.len() > 0 {
        lemma_tables_pot_congruence(a.drop_last(), b.drop_last(), l, cap);
        lemma_table_pot_congruence(a.last(), b.last(), l, cap);
    }
}

/// Acceptance of an advertisement only depends on the finger lists.
proof fn lemma_accepts_congruence(a: NodeFingers, b: NodeFingers, c: SemiChain, l: nat)
    requires
        a.left.sorted_fingers@ == b.left.sorted_fingers@,
        a.right.sorted_fingers@ == b.right.sorted_fingers@,
    ensures
        advert_accepted(a, c, l) == advert_accepted(b, c, l),
{
}

/// The no-worse relation only depends on the finger lists, on the left.
proof fn lemma_no_worse_congruence(a: NodeFingers, b: NodeFingers, c: NodeFingers, l: nat)
    requires
        a.left.sorted_fingers@ == b.left.sorted_fingers@,
        a.right.sorted_fingers@ == b.right.sorted_fingers@,
        no_worse_than(b, c, l),
    ensures
        no_worse_than(a, c, l),
{
}

/// Monotonic improvement: the slot-wise "scores no worse" relation between
/// routing tables composes, so across any sequence of `update` calls every
/// finger's `(ring distance, hop count)` score is non-increasing.
pub proof fn lemma_no_worse_trans(a: NodeFingers, b: NodeFingers, c: NodeFingers, l: nat)
    requires
        no_worse_than(a, b, l),
        no_worse_than(b, c, l),
    ensures
        no_worse_than(a, c, l),
{
}

/// What one accepted update does to a table: well-formedness, bounded hop
/// counts and key-closed finals are preserved, the table scores no worse
/// slot-wise, and its potential strictly drops.
proof fn lemma_update_step_facts(
    t0: NodeFingers,
    t1: NodeFingers,
    c: SemiChain,
    l: nat,
    cap: nat,
    keys: Seq<RingKey>,
)
    requires
        t0.wf(),
        t1.wf(),
        lengths_bounded(t0, cap),
        finals_in_keys(t0, keys),
        c.length <= cap,
        keys.contains(c.final_id),
        t1.left.sorted_fingers@.len() == t0.left.sorted_fingers@.len(),
        t1.right.sorted_fingers@.len() == t0.right.sorted_fingers@.len(),
        forall|i: int|
            0 <= i < t1.left.sorted_fingers@.len() ==> (
            #[trigger] t1.left.sorted_fingers@[i]).target_id
                == t0.left.sorted_fingers@[i].target_id,
        forall|i: int|
            0 <= i < t1.right.sorted_fingers@.len() ==> (
            #[trigger] t1.right.sorted_fingers@[i]).target_id
                == t0.right.sorted_fingers@[i].target_id,
        forall|i: int|
            0 <= i < t1.left.sorted_fingers@.len() ==> #[trigger] t1.left.sorted_fingers@[i]
                == t0.left.sorted_fingers@[i] || (t1.left.sorted_fingers@[i].schain == c
                && crate::chord::node_fingers::left_better(t0.left.sorted_fingers@[i], c, l)),
        forall|i: int|
            0 <= i < t1.right.sorted_fingers@.len() ==> #[trigger] t1.right.sorted_fingers@[i]
                == t0.right.sorted_fingers@[i] || (t1.right.sorted_fingers@[i].schain == c
                && crate::chord::node_fingers::right_better(t0.right.sorted_fingers@[i], c, l)),
        forall|i: int|
            0 <= i < t1.left.sorted_fingers@.len() ==> crate::chord::node_fingers::left_no_worse(
                #[trigger] t1.left.sorted_fingers@[i],
                t0.left.sorted_fingers@[i],
                l,
            ),
        forall|i: int|
            0 <= i < t1.right.sorted_fingers@.len()
                ==> crate::chord::node_fingers::right_no_worse(
                #[trigger] t1.right.sorted_fingers@[i],
                t0.right.sorted_fingers@[i],
                l,
            ),
        crate::chord::node_fingers::left_accepts(t0.left.sorted_fingers@, c, l)
            || crate::chord::node_fingers::right_accepts(t0.right.sorted_fingers@, c, l),
        (crate::chord::node_fingers::left_accepts(t0.left.sorted_fingers@, c, l) ==> exists|
            st: int,
        |
            0 <= st < t1.left.sorted_fingers@.len() && crate::chord::node_fingers::left_better(
                t0.left.sorted_fingers@[st],
                c,
                l,
            ) && (#[trigger] t1.left.sorted_fingers@[st]).schain == c),
        (crate::chord::node_fingers::right_accepts(t0.right.sorted_fingers@, c, l) ==> exists|
            st: int,
        |
            0 <= st < t1.right.sorted_fingers@.len() && crate::chord::node_fingers::right_better(
                t0.right.sorted_fingers@[st],
                c,
                l,
            ) && (#[trigger] t1.right.sorted_fingers@[st]).schain == c),
    ensures
        lengths_bounded(t1, cap),
        finals_in_keys(t1, keys),
        table_pot(t1, l, cap) < table_pot(t0, l, cap),
{
    let l0 = t0.left.sorted_fingers@;
    let l1 = t1.left.sorted_fingers@;
    let r0 = t0.right.sorted_fingers@;
    let r1 = t1.right.sorted_fingers@;
    crate::chord::progress::lemma_seq_pot_left_le(l0, l1, l, cap);
    crate::chord::progress::lemma_seq_pot_right_le(r0, r1, l, cap);
    if crate::chord::node_fingers::left_accepts(l0, c, l) {
        let st = choose|st: int|
            0 <= st < l1.len() && crate::chord::node_fingers::left_better(l0[st], c, l) && (
            #[trigger] l1[st]).schain == c;
        crate::chord::progress::lemma_left_pot_mono(l1[st], l0[st], l, cap);
        assert(left_pot(l1[st], l, cap) < left_pot(l0[st], l, cap));
    } else {
        let st = choose|st: int|
            0 <= st < r1.len() && crate::chord::node_fingers::right_better(r0[st], c, l) && (
            #[trigger] r1[st]).schain == c;
        crate::chord::progress::lemma_right_pot_mono(r1[st], r0[st], l, cap);
        assert(right_pot(r1[st], l, cap) < right_pot(r0[st], l, cap));
    }
}

/// Make sure that every finger of every node reaches the globally best key
/// for its target, judged against the sorted sequence of all real keys.
pub fn verify_global_optimality(
    net: &crate::network::Network,
    fingers: &Vec<NodeFingers>,
) -> (r: bool)
    requires
        net.wf(),
        fingers@.len() == net.keys().len(),
        net.keys().len() >= 1,
    ensures
        exists|sk: Seq<RingKey>|
            {
                &&& #[trigger] crate::chord::node_fingers::keys_sorted(sk)
                &&& forall|k2: RingKey| sk.contains(k2) == net.keys().contains(k2)
                &&& r == (forall|i: int|
                    0 <= i < fingers@.len()
                        ==> crate::chord::node_fingers::left_fingers_optimal(
                        (#[trigger] fingers@[i]).left.sorted_fingers@,
                        sk,
                    ) && crate::chord::node_fingers::right_fingers_optimal(
                        fingers@[i].right.sorted_fingers@,
                        sk,
                    ))
            },
{
    let n = net.node_count();
    proof {
        net.lemma_wf_facts();
    }
    let mut all_keys: Vec<RingKey> = Vec::new();
    let mut x_i: usize = 0;
    while x_i < n
        invariant
            net.wf(),
            n == net.keys().len(),
            x_i <= n,
            forall|a: int, b: int| 0 <= a < b < all_keys@.len() ==> all_keys@[a] < all_keys@[b],
            all_keys@.len() <= x_i,
            forall|k2: RingKey|
                all_keys@.contains(k2) == exists|j: int| 0 <= j < x_i && net.keys()[j] == k2,
        decreases n - x_i,
    {
        let key = match net.index_to_node(x_i) {
            Some(k2) => k2,
            None => {
                proof {
                    assert(false);
                }
                0
            },
        };
        let ghost g0 = all_keys@;
        insert_key_sorted(&mut all_keys, key);
        proof {
            assert forall|k2: RingKey|
                all_keys@.contains(k2) == exists|j: int|
                    0 <= j < x_i + 1 && net.keys()[j] == k2 by {
                if all_keys@.contains(k2) {
                    if k2 == key {
                        assert(net.keys()[x_i as int] == k2);
                    } else {
                        assert(g0.contains(k2));
                    }
                }
                if exists|j: int| 0 <= j < x_i + 1 && net.keys()[j] == k2 {
                    let j = choose|j: int| 0 <= j < x_i + 1 && net.keys()[j] == k2;
                    if j < x_i {
                        assert(g0.contains(k2));
                    } else {
                        assert(k2 == key);
                    }
                    assert(all_keys@.contains(k2));
                }
            }
        }
        x_i = x_i + 1;
    }
    proof {
        assert forall|k2: RingKey| all_keys@.contains(k2) == net.keys().contains(k2) by {
            if net.keys().contains(k2) {
                let j = choose|j: int| 0 <= j < net.keys().len() && net.keys()[j] == k2;
                assert(0 <= j < n && net.keys()[j] == k2);
            }
        }
        assert(net.keys().contains(net.keys()[0]));
        assert(all_keys@.contains(net.keys()[0]));
        assert(all_keys@.len() >= 1);
    }

    let flen = fingers.len();
    let mut i: usize = 0;
    while i < flen
        invariant
            flen == fingers@.len(),
            i <= flen,
            crate::chord::node_fingers::keys_sorted(all_keys@),
            all_keys@.len() >= 1,
            forall|k2: RingKey| all_keys@.contains(k2) == net.keys().contains(k2),
            forall|j: int|
                0 <= j < i ==> crate::chord::node_fingers::left_fingers_optimal(
                    (#[trigger] fingers@[j]).left.sorted_fingers@,
                    all_keys@,
                ) && crate::chord::node_fingers::right_fingers_optimal(
                    fingers@[j].right.sorted_fingers@,
                    all_keys@,
                ),
        decreases flen - i,
    {
        if !fingers[i].is_optimal(&all_keys) {
            proof {
                let sk = all_keys@;
                assert(crate::chord::node_fingers::keys_sorted(sk));
                assert(!(crate::chord::node_fingers::left_fingers_optimal(
                    fingers@[i as int].left.sorted_fingers@,
                    sk,
                ) && crate::chord::node_fingers::right_fingers_optimal(
                    fingers@[i as int].right.sorted_fingers@,
                    sk,
                )));
            }
            return false;
        }
        i = i + 1;
    }
    proof {
        let sk = all_keys@;
        assert(crate::chord::node_fingers::keys_sorted(sk));
    }
    true
}

/// Build the indexed, query-ready chain set of every node from its
/// converged finger table.
pub fn create_semi_chains(
    net: &crate::network::Network,
    fingers: &Vec<NodeFingers>,
) -> (r: Vec<crate::chord::semi_chains_array::SemiChainsArray>)
    requires
        fingers@.len() == net.keys().len(),
        forall|i: int| 0 <= i < fingers@.len() ==> (#[trigger] fingers@[i]).wf(),
    ensures
        r@.len() == fingers@.len(),
        forall|i: int|
            0 <= i < r@.len() ==> (#[trigger] r@[i]).wf() && r@[i].is_indexed,
        forall|i: int, sc: SemiChain|
            0 <= i < r@.len() ==> ((#[trigger] r@[i].schains@.contains(sc))
                == crate::chord::node_fingers::in_tables(fingers@[i], sc)),
{
    let mut res_vec: Vec<crate::chord::semi_chains_array::SemiChainsArray> = Vec::new();
    let flen = fingers.len();
    let mut x_i: usize = 0;
    while x_i < flen
        invariant
            flen == fingers@.len(),
            x_i <= flen,
            forall|i: int| 0 <= i < flen ==> (#[trigger] fingers@[i]).wf(),
            res_vec@.len() == x_i,
            forall|i: int|
                0 <= i < x_i ==> (#[trigger] res_vec@[i]).wf() && res_vec@[i].is_indexed,
            forall|i: int, sc: SemiChain|
                0 <= i < x_i ==> ((#[trigger] res_vec@[i].schains@.contains(sc))
                    == crate::chord::node_fingers::in_tables(fingers@[i], sc)),
        decreases flen - x_i,
    {
        let all = fingers[x_i].all_schains();
        let mut schains_array = crate::chord::semi_chains_array::SemiChainsArray::new();
        let alen = all.len();
        let mut j: usize = 0;
        while j < alen
            invariant
                j <= alen,
                alen == all@.len(),
                schains_array.wf(),
                !schains_array.is_indexed,
                schains_array.schains@.len() <= j,
                forall|sc: SemiChain|
                    schains_array.schains@.contains(sc) == exists|q: int|
                        0 <= q < j && all@[q] == sc,
            decreases alen - j,
        {
            let ghost g0 = schains_array.schains@;
            schains_array.insert_schain(all[j]);
            proof {
                assert forall|sc: SemiChain|
                    schains_array.schains@.contains(sc) == exists|q: int|
                        0 <= q < j + 1 && all@[q] == sc by {
                    if schains_array.schains@.contains(sc) {
                        if sc == all@[j as int] {
                            assert(all@[j as int] == sc && 0 <= (j as int) && (j as int) < j + 1);
                        } else {
                            assert(g0.contains(sc));
                        }
                    }
                    if exists|q: int| 0 <= q < j + 1 && all@[q] == sc {
                        let q = choose|q: int| 0 <= q < j + 1 && all@[q] == sc;
                        if q < j {
                            assert(g0.contains(sc));
                        } else {
                            assert(sc == all@[j as int]);
                        }
                        assert(schains_array.schains@.contains(sc));
                    }
                }
            }
            j = j + 1;
        }
        proof {
            assert(fingers@[x_i as int].left.sorted_fingers@.len() >= 1);
            assert(all@.len() >= 1);
            assert(all@[0] == all@[0] && 0 <= 0 < alen);
            assert(schains_array.schains@.contains(all@[0]));
            assert forall|sc: SemiChain|
                schains_array.schains@.contains(sc) == crate::chord::node_fingers::in_tables(
                fingers@[x_i as int],
                sc,
            ) by {
                assert(all@.contains(sc) == crate::chord::node_fingers::in_tables(
                    fingers@[x_i as int],
                    sc,
                ));
                if schains_array.schains@.contains(sc) {
                    let q = choose|q: int| 0 <= q < alen && all@[q] == sc;
                    assert(all@.contains(sc));
                }
                if all@.contains(sc) {
                    let q = choose|q: int| 0 <= q < all@.len() && all@[q] == sc;
                    assert(0 <= q < alen && all@[q] == sc);
                    assert(schains_array.schains@.contains(sc));
                }
            }
        }
        schains_array.index();
        res_vec.push(schains_array);
        x_i = x_i + 1;
    }
    res_vec
}

/// The position of a key among the node keys.
pub open spec fn key_index(keys: Seq<RingKey>, k: RingKey) -> int {
    choose|i: int| 0 <= i < keys.len() && keys[i] == k
}

/// What a counter-clockwise query of an indexed chain set returns.
pub open spec fn query_left(
    arr: crate::chord::semi_chains_array::SemiChainsArray,
    key: RingKey,
) -> SemiChain {
    arr.schains@[choose|st: int|
        crate::chord::semi_chains_array::sc_left_ok(arr.schains@, key, st)]
}

/// The greedy walk of the path finder: query the current node's chain set
/// for the best approach to `dst`, follow it, and give up on a dead end or
/// once the accumulated hop count would exceed the node count.
pub open spec fn path_walk(
    keys: Seq<RingKey>,
    arrs: Seq<crate::chord::semi_chains_array::SemiChainsArray>,
    cur: RingKey,
    dst: RingKey,
    length: nat,
    fuel: nat,
    n: nat,
) -> Option<usize>
    decreases fuel,
{
    if cur == dst {
        Some(length as usize)
    } else if fuel == 0 {
        None
    } else {
        let c = query_left(arrs[key_index(keys, cur)], dst);
        if c.final_id == cur {
            None
        } else if length + c.length > n {
            None
        } else {
            path_walk(keys, arrs, c.final_id, dst, (length + c.length) as nat, (fuel - 1) as nat, n)
        }
    }
}

/// Returns the length of the found greedy route from `src_id` to `dst_id`,
/// or `None` if the walk dead-ends or overruns the node count.
pub fn find_path(
    src_id: RingKey,
    dst_id: RingKey,
    net: &crate::network::Network,
    semi_chains: &Vec<crate::chord::semi_chains_array::SemiChainsArray>,
) -> (r: Option<usize>)
    requires
        net.wf(),
        semi_chains@.len() == net.keys().len(),
        forall|a: int|
            0 <= a < semi_chains@.len() ==> (#[trigger] semi_chains@[a]).wf()
                && semi_chains@[a].is_indexed,
        net.keys().contains(src_id),
        forall|a: int, j: int|
            0 <= a < semi_chains@.len() && 0 <= j < semi_chains@[a].schains@.len()
                ==> net.keys().contains(#[trigger] semi_chains@[a].schains@[j].final_id),
    ensures
        r == path_walk(
            net.keys(),
            semi_chains@,
            src_id,
            dst_id,
            0,
            net.keys().len() as nat,
            net.keys().len() as nat,
        ),
        src_id == dst_id ==> r == Some(0usize),
        r is Some ==> r->0 <= net.keys().len(),
{
    let n = net.node_count();
    let ghost keys = net.keys();
    let ghost arrs = semi_chains@;
    let ghost ng = n as nat;
    let mut cur_id = src_id;
    let mut length: usize = 0;
    let mut hops: usize = 0;
    while cur_id != dst_id
        invariant
            net.wf(),
            n == net.keys().len(),
            keys == net.keys(),
            arrs == semi_chains@,
            ng == n as nat,
            semi_chains@.len() == n,
            forall|a: int|
                0 <= a < semi_chains@.len() ==> (#[trigger] semi_chains@[a]).wf()
                    && semi_chains@[a].is_indexed,
            forall|a: int, j: int|
                0 <= a < semi_chains@.len() && 0 <= j < semi_chains@[a].schains@.len()
                    ==> net.keys().contains(#[trigger] semi_chains@[a].schains@[j].final_id),
            keys.contains(cur_id),
            hops <= n,
            length <= n,
            path_walk(keys, arrs, src_id, dst_id, 0, ng, ng) == path_walk(
                keys,
                arrs,
                cur_id,
                dst_id,
                length as nat,
                (n - hops) as nat,
                ng,
            ),
            src_id == dst_id ==> cur_id == dst_id && length == 0,
        ensures
            cur_id == dst_id,
        decreases n - hops,
    {
        if hops >= n {
            return None;
        }
        let cur_index = match net.node_to_index(&cur_id) {
            Some(i) => i,
            None => {
                proof {
                    let w = choose|w: int| 0 <= w < keys.len() && keys[w] == cur_id;
                    assert(false);
                }
                0
            },
        };
        let cur_semi_chains = &semi_chains[cur_index];
        let schain = cur_semi_chains.find_closest_left(dst_id);
        proof {
            // The exec query returns exactly the chain the walk spec names.
            let stw = choose|st: int|
                crate::chord::semi_chains_array::sc_left_ok(
                    cur_semi_chains.schains@,
                    dst_id,
                    st,
                ) && *schain == cur_semi_chains.schains@[st];
            let stc = choose|st: int|
                crate::chord::semi_chains_array::sc_left_ok(cur_semi_chains.schains@, dst_id, st);
            crate::chord::semi_chains_array::lemma_sc_left_unique(
                cur_semi_chains.schains@,
                dst_id,
                stw,
                stc,
            );
            assert(*schain == query_left(arrs[key_index(keys, cur_id)], dst_id)) by {
                let w = choose|w: int| 0 <= w < keys.len() && keys[w] == cur_id;
                net.lemma_wf_facts();
                assert(key_index(keys, cur_id) == cur_index as int);
            }
        }
        if schain.final_id == cur_id {
            return None;
        }
        if schain.length > n - length {
            return None;
        }
        proof {
            assert(cur_semi_chains.schains@.len() >= 1);
            let stw2 = choose|st: int|
                crate::chord::semi_chains_array::sc_left_ok(
                    cur_semi_chains.schains@,
                    dst_id,
                    st,
                ) && *schain == cur_semi_chains.schains@[st];
            assert(keys.contains(schain.final_id));
        }
        length = length + schain.length;
        cur_id = schain.final_id;
        hops = hops + 1;
    }
    Some(length)
}
} // verus!
