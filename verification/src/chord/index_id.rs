//! A bidirectional map between node indices and their ring keys.

use vstd::prelude::*;
use std::collections::HashMap;
use crate::chord::RingKey;

verus! {

broadcast use vstd::std_specs::hash::group_hash_axioms;

/// Translates between dense node indices and ring ids, in both directions.
pub struct IndexId {
    index_id: Vec<RingKey>,  // index -> id
    id_index: HashMap<RingKey, usize>,  // id -> index
}

impl IndexId {
    /// The ids in index order.
    pub closed spec fn ids(&self) -> Seq<RingKey> {
        self.index_id@
    }

    /// The two tables are mutual inverses.
    pub closed spec fn wf(&self) -> bool {
        &&& forall|i: int|
            0 <= i < self.index_id@.len() ==> self.id_index@.contains_key(
                #[trigger] self.index_id@[i],
            ) && self.id_index@[self.index_id@[i]] == i
        &&& forall|k: RingKey|
            #[trigger] self.id_index@.contains_key(k) ==> 0 <= self.id_index@[k]
                < self.index_id@.len() && self.index_id@[self.id_index@[k] as int] == k
    }

    /// Ids never repeat in a well-formed table.
    pub proof fn lemma_ids_distinct(&self)
        requires
            self.wf(),
        ensures
            forall|i: int, j: int|
                0 <= i < j < self.ids().len() ==> self.ids()[i] != self.ids()[j],
    {
        assert forall|i: int, j: int|
            0 <= i < j < self.ids().len() implies self.ids()[i] != self.ids()[j] by {
            if self.index_id@[i] == self.index_id@[j] {
                assert(self.id_index@[self.index_id@[i]] == i);
                assert(self.id_index@[self.index_id@[j]] == j);
            }
        }
    }

    pub fn new() -> (r: Self)
        ensures
            r.wf(),
            r.ids().len() == 0,
    {
        IndexId { index_id: Vec::new(), id_index: HashMap::new() }
    }

    pub fn index_to_id(&self, index: usize) -> (r: Option<RingKey>)
        ensures
            r == if index < self.ids().len() {
                Some(self.ids()[index as int])
            } else {
                None::<RingKey>
            },
    {
        if index >= self.index_id.len() {
            None
        } else {
            Some(self.index_id[index])
        }
    }

    pub fn id_to_index(&self, id: RingKey) -> (r: Option<usize>)
        requires
            self.wf(),
        ensures
            match r {
                Some(i) => i < self.ids().len() && self.ids()[i as int] == id,
                None => forall|i: int| 0 <= i < self.ids().len() ==> self.ids()[i] != id,
            },
    {
        match self.id_index.get(&id) {
            Some(index) => Some(*index),
            None => {
                proof {
                    assert forall|i: int| 0 <= i < self.ids().len() implies self.ids()[i]
                        != id by {
                        if self.index_id@[i] == id {
                            assert(self.id_index@.contains_key(id));
                        }
                    }
                }
                None
            },
        }
    }

    /// Record a fresh id; it gets the next free index.
    pub fn add_node(&mut self, id: RingKey) -> (r: usize)
        requires
            old(self).wf(),
            forall|i: int| 0 <= i < old(self).ids().len() ==> old(self).ids()[i] != id,
            old(self).ids().len() < usize::MAX,
        ensures
            final(self).wf(),
            r == old(self).ids().len(),
            final(self).ids() == old(self).ids().push(id),
    {
        let new_index: usize = self.index_id.len();
        self.index_id.push(id);
        self.id_index.insert(id, new_index);
        proof {
            assert forall|i: int|
                0 <= i < self.index_id@.len() implies self.id_index@.contains_key(
                #[trigger] self.index_id@[i],
            ) && self.id_index@[self.index_id@[i]] == i by {
                if i < new_index {
                    assert(self.index_id@[i] == old(self).index_id@[i]);
                    assert(old(self).index_id@[i] != id);
                }
            }
        }
        new_index
    }
}

} // verus!
