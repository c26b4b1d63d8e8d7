//! The connectivity graph: node keys and undirected adjacency lists.
//!
//! The graph is the static collaborator of the convergence protocol: the
//! protocol only reads node count, key assignment and sorted neighbor lists.

use vstd::prelude::*;
use crate::chord::RingKey;
use crate::chord::index_id::IndexId;

verus! {

/// An undirected graph over ring keys.  Nodes carry dense indices; edges are
/// kept as sorted, deduplicated neighbor lists.
pub struct Network {
    index_id: IndexId,
    adjacency: Vec<Vec<usize>>,
}

impl Network {
    /// The ring key of every node, in index order.
    pub closed spec fn keys(&self) -> Seq<RingKey> {
        self.index_id.ids()
    }

    /// The neighbor indices of node `i`, sorted.
    pub closed spec fn adj(&self, i: int) -> Seq<usize> {
        self.adjacency@[i]@
    }

    pub closed spec fn wf(&self) -> bool {
        &&& self.index_id.wf()
        &&& self.adjacency@.len() == self.index_id.ids().len()
        &&& forall|i: int, a: int, b: int|
            0 <= i < self.adjacency@.len() && 0 <= a < b < self.adjacency@[i]@.len()
                ==> self.adjacency@[i]@[a] < self.adjacency@[i]@[b]
        &&& forall|i: int, a: int|
            0 <= i < self.adjacency@.len() && 0 <= a < self.adjacency@[i]@.len()
                ==> self.adjacency@[i]@[a] < self.adjacency@.len() && self.adjacency@[i]@[a] != i
        &&& forall|i: int, j: int|
            0 <= i < self.adjacency@.len() && 0 <= j < self.adjacency@.len() ==> (
            self.adjacency@[i]@.contains(j as usize) == self.adjacency@[j]@.contains(i as usize))
    }

    /// The facts `wf` guarantees, stated over the public views.
    pub proof fn lemma_wf_facts(&self)
        requires
            self.wf(),
        ensures
            forall|i: int, j: int|
                0 <= i < j < self.keys().len() ==> self.keys()[i] != self.keys()[j],
            forall|i: int, a: int, b: int|
                0 <= i < self.keys().len() && 0 <= a < b < self.adj(i).len() ==> self.adj(i)[a]
                    < self.adj(i)[b],
            forall|i: int, a: int|
                0 <= i < self.keys().len() && 0 <= a < self.adj(i).len() ==> self.adj(i)[a]
                    < self.keys().len() && self.adj(i)[a] != i,
    {
        self.index_id.lemma_ids_distinct();
    }

    pub fn new() -> (r: Network)
        ensures
            r.wf(),
            r.keys().len() == 0,
    {
        Network { index_id: IndexId::new(), adjacency: Vec::new() }
    }

    pub fn node_count(&self) -> (r: usize)
        requires
            self.wf(),
        ensures
            r == self.keys().len(),
    {
        self.adjacency.len()
    }

    /// Add a node with a fresh ring key; returns its index.
    pub fn add_node(&mut self, node: RingKey) -> (r: usize)
        requires
            old(self).wf(),
            forall|i: int| 0 <= i < old(self).keys().len() ==> old(self).keys()[i] != node,
            old(self).keys().len() < usize::MAX,
        ensures
            final(self).wf(),
            r == old(self).keys().len(),
            final(self).keys() == old(self).keys().push(node),
            forall|i: int| 0 <= i < old(self).keys().len() ==> final(self).adj(i) == old(self).adj(i),
            final(self).adj(old(self).keys().len() as int).len() == 0,
    {
        let node_num = self.index_id.add_node(node);
        self.adjacency.push(Vec::new());
        proof {
            assert forall|i: int, j: int|
                0 <= i < self.adjacency@.len() && 0 <= j < self.adjacency@.len() implies (
            self.adjacency@[i]@.contains(j as usize) == self.adjacency@[j]@.contains(
                i as usize,
            )) by {
                if i < node_num && j < node_num {
                    assert(self.adjacency@[i] == old(self).adjacency@[i]);
                    assert(self.adjacency@[j] == old(self).adjacency@[j]);
                } else {
                    if i == node_num {
                        assert(self.adjacency@[i]@.len() == 0);
                        if j < node_num {
                            if self.adjacency@[j]@.contains(i as usize) {
                                let a = choose|a: int|
                                    0 <= a < self.adjacency@[j]@.len() && self.adjacency@[j]@[a]
                                        == i as usize;
                                assert(old(self).adjacency@[j]@[a] < old(self).adjacency@.len());
                            }
                        }
                    }
                    if j == node_num && i < node_num {
                        assert(self.adjacency@[j]@.len() == 0);
                        if self.adjacency@[i]@.contains(j as usize) {
                            let a = choose|a: int|
                                0 <= a < self.adjacency@[i]@.len() && self.adjacency@[i]@[a]
                                    == j as usize;
                            assert(old(self).adjacency@[i]@[a] < old(self).adjacency@.len());
                        }
                    }
                }
            }
        }
        node_num
    }

    pub fn index_to_node(&self, index: usize) -> (r: Option<RingKey>)
        ensures
            r == if index < self.keys().len() {
                Some(self.keys()[index as int])
            } else {
                None::<RingKey>
            },
    {
        self.index_id.index_to_id(index)
    }

    pub fn node_to_index(&self, node: &RingKey) -> (r: Option<usize>)
        requires
            self.wf(),
        ensures
            match r {
                Some(i) => i < self.keys().len() && self.keys()[i as int] == *node,
                None => forall|i: int| 0 <= i < self.keys().len() ==> self.keys()[i] != *node,
            },
    {
        self.index_id.id_to_index(*node)
    }

    /// The sorted neighbor list of node `index`.
    pub fn neighbors(&self, index: usize) -> (r: &Vec<usize>)
        requires
            index < self.keys().len(),
            self.wf(),
        ensures
            r@ == self.adj(index as int),
    {
        &self.adjacency[index]
    }

    /// Add the undirected edge `a -- b` (absent until now or not).
    #[verifier::rlimit(50)]
    pub fn add_edge(&mut self, a: usize, b: usize)
        requires
            old(self).wf(),
            a < old(self).keys().len(),
            b < old(self).keys().len(),
            a != b,
            old(self).keys().len() < usize::MAX,
        ensures
            final(self).wf(),
            final(self).keys() == old(self).keys(),
            forall|i: int|
                0 <= i < final(self).keys().len() && i != a && i != b ==> final(self).adj(i)
                    == old(self).adj(i),
            forall|i: int, j: int|
                0 <= i < final(self).keys().len() && 0 <= j < final(self).keys().len() ==> (
                #[trigger] final(self).adj(i).contains(j as usize) == (#[trigger] old(self).adj(
                    i,
                ).contains(j as usize) || (i == a && j == b) || (i == b && j == a))),
    {
        let gn = self.adjacency.len();
        let mut list_a = self.adjacency.remove(a);
        proof {
            lemma_sorted_bounded_len(list_a@, gn as int);
        }
        insert_usize_sorted(&mut list_a, b);
        self.adjacency.insert(a, list_a);
        let ghost mid = self.adjacency@;
        proof {
            assert(mid.len() == gn);
            assert(forall|i: int| 0 <= i < gn && i != a ==> mid[i] == old(self).adjacency@[i]);
        }
        let mut list_b = self.adjacency.remove(b);
        proof {
            assert(list_b@ == mid[b as int]@);
            assert(list_b@ == old(self).adjacency@[b as int]@);
            lemma_sorted_bounded_len(list_b@, gn as int);
        }
        insert_usize_sorted(&mut list_b, a);
        self.adjacency.insert(b, list_b);
        proof {
            assert(self.adjacency@.len() == gn);
            assert(forall|i: int| 0 <= i < gn && i != b ==> self.adjacency@[i] == mid[i]);
            assert(forall|i: int|
                0 <= i < gn && i != a && i != b ==> self.adjacency@[i] == old(self).adjacency@[i]);
            // Membership after the two insertions.
            assert forall|i: int, j: int|
                0 <= i < gn && 0 <= j < gn implies (#[trigger] self.adjacency@[i]@.contains(
                j as usize,
            ) == (#[trigger] old(self).adjacency@[i]@.contains(j as usize) || (i == a && j == b)
                || (i == b && j == a))) by {
                if i == a {
                    assert(self.adjacency@[i] == mid[i]);
                    assert(mid[a as int]@.contains(j as usize) == (old(
                        self,
                    ).adjacency@[a as int]@.contains(j as usize) || j == b));
                } else if i == b {
                    assert(self.adjacency@[b as int]@.contains(j as usize) == (old(
                        self,
                    ).adjacency@[b as int]@.contains(j as usize) || j == a));
                } else {
                    assert(self.adjacency@[i] == old(self).adjacency@[i]);
                }
            }
            // Each list is still sorted, bounded and free of self loops.
            assert forall|i: int, k: int|
                0 <= i < gn && 0 <= k < self.adjacency@[i]@.len() implies self.adjacency@[i]@[k]
                < gn && self.adjacency@[i]@[k] != i by {
                let y = self.adjacency@[i]@[k];
                assert(self.adjacency@[i]@.contains(y));
                assert(old(self).adjacency@[i]@.contains(y) || (i == a && y == b) || (i == b && y
                    == a));
                if old(self).adjacency@[i]@.contains(y) {
                    let k2 = choose|k2: int|
                        0 <= k2 < old(self).adjacency@[i]@.len() && old(self).adjacency@[i]@[k2]
                            == y;
                }
            }
            // Symmetry transfers from the old graph.
            assert forall|i: int, j: int|
                0 <= i < gn && 0 <= j < gn implies (self.adjacency@[i]@.contains(j as usize)
                == self.adjacency@[j]@.contains(i as usize)) by {
                assert(self.adjacency@[i]@.contains(j as usize) == (old(
                    self,
                ).adjacency@[i]@.contains(j as usize) || (i == a && j == b) || (i == b && j
                    == a)));
                assert(self.adjacency@[j]@.contains(i as usize) == (old(
                    self,
                ).adjacency@[j]@.contains(i as usize) || (j == a && i == b) || (j == b && i
                    == a)));
                assert(old(self).adjacency@[i]@.contains(j as usize) == old(
                    self,
                ).adjacency@[j]@.contains(i as usize));
            }
        }
    }
}

/// In a strictly increasing sequence every entry is at least its index.
proof fn lemma_sorted_entry_ge(s: Seq<usize>, i: int)
    requires
        forall|a: int, b: int| 0 <= a < b < s.len() ==> s[a] < s[b],
        0 <= i < s.len(),
    ensures
        s[i] >= i,
    decreases i,
{
    if i > 0 {
        lemma_sorted_entry_ge(s, i - 1);
    }
}

/// A strictly increasing sequence of values below `bound` has at most
/// `bound` entries.
proof fn lemma_sorted_bounded_len(s: Seq<usize>, bound: int)
    requires
        forall|a: int, b: int| 0 <= a < b < s.len() ==> s[a] < s[b],
        forall|a: int| 0 <= a < s.len() ==> s[a] < bound,
        bound >= 0,
    ensures
        s.len() <= bound,
{
    if s.len() > 0 {
        lemma_sorted_entry_ge(s, s.len() - 1);
    }
}

/// Insert a value into a strictly sorted vector of indices, keeping it
/// sorted; a present value is left alone.
fn insert_usize_sorted(v: &mut Vec<usize>, x: usize)
    requires
        forall|i: int, j: int| 0 <= i < j < old(v)@.len() ==> old(v)@[i] < old(v)@[j],
        old(v)@.len() < usize::MAX,
    ensures
        forall|i: int, j: int| 0 <= i < j < final(v)@.len() ==> final(v)@[i] < final(v)@[j],
        forall|y: usize| final(v)@.contains(y) == (old(v)@.contains(y) || y == x),
    {
    let n = v.len();
    let mut i: usize = 0;
    while i < n && v[i] < x
        invariant
            n == v@.len(),
            i <= n,
            forall|j: int| 0 <= j < i ==> v@[j] < x,
        decreases n - i,
    {
        i = i + 1;
    }
    if i < n && v[i] == x {
        proof {
            assert(v@[i as int] == x);
            assert(v@.contains(x));
        }
        return ;
    }
    proof {
        assert(!v@.contains(x)) by {
            if v@.contains(x) {
                let k = choose|k: int| 0 <= k < v@.len() && v@[k] == x;
                if k < i {
                } else if k > i as int {
                    assert(i < n);
                    assert(v@[i as int] < v@[k]);
                }
            }
        }
    }
    let ghost v0 = v@;
    v.insert(i, x);
    proof {
        assert forall|y: usize| v@.contains(y) == (v0.contains(y) || y == x) by {
            if v@.contains(y) {
                let k = choose|k: int| 0 <= k < v@.len() && v@[k] == y;
                if k < i {
                    assert(v0[k] == y);
                    assert(v0.contains(y));
                } else if k > i {
                    assert(v0[k - 1] == y);
                    assert(v0.contains(y));
                }
            }
            if v0.contains(y) {
                let k = choose|k: int| 0 <= k < v0.len() && v0[k] == y;
                if k < i {
                    assert(v@[k] == y);
                } else {
                    assert(v@[k + 1] == y);
                }
                assert(v@.contains(y));
            }
            if y == x {
                assert(v@[i as int] == y);
                assert(v@.contains(y));
            }
        }
        assert forall|a: int, b: int| 0 <= a < b < v@.len() implies v@[a] < v@[b] by {
            let ii = i as int;
            if ii < v0.len() {
                assert(v0[ii] > x || v0[ii] == x || v0[ii] < x);
                assert(!(v0[ii] < x));
                assert(v0[ii] != x);
            }
            if a < ii && b == ii {
                assert(v@[a] == v0[a]);
            } else if a == ii && b > ii {
                assert(v@[b] == v0[b - 1]);
                if b - 1 > ii {
                    assert(v0[ii] < v0[b - 1]);
                }
            } else if a < ii && b > ii {
                assert(v@[a] == v0[a] && v@[b] == v0[b - 1]);
                if a == b - 1 {
                    assert(v@[a] < x);
                    assert(v@[b] == x);
                }
            } else if a > ii && b > ii {
                assert(v@[a] == v0[a - 1] && v@[b] == v0[b - 1]);
            } else if a < ii && b < ii {
                assert(v@[a] == v0[a] && v@[b] == v0[b]);
            }
        }
    }
}

} // verus!
