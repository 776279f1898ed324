//! A flat in-memory vector index answered by exhaustive scan: the reference
//! that the graph index is compared with.
use vstd::prelude::*;
use std::collections::HashMap;
use crate::error::Error;
use crate::topk::{Scored, non_increasing, select_top_k, top_of};

verus! {

broadcast use vstd::std_specs::hash::group_hash_axioms;

/// Parameters of an index.
#[derive(Clone, Copy, Debug)]
pub struct IndexConfig {
    /// Length of every vector.
    pub dimension: usize,
    /// Neighbor budget of a graph index built with this configuration.
    pub m: usize,
    /// Beam width while building.
    pub ef_construction: usize,
    /// Beam width while searching.
    pub ef_search: usize,
}

impl IndexConfig {
    /// The default parameters for vectors of the given length.
    pub fn with_dimension(dimension: usize) -> (c: IndexConfig)
        ensures
            c.dimension == dimension,
            c.m == 16,
            c.ef_construction == 200,
            c.ef_search == 50,
    {
        IndexConfig { dimension, m: 16, ef_construction: 200, ef_search: 50 }
    }
}

impl Default for IndexConfig {
    fn default() -> (c: IndexConfig)
        ensures
            c.dimension == 128,
            c.m == 16,
            c.ef_construction == 200,
            c.ef_search == 50,
    {
        IndexConfig::with_dimension(128)
    }
}

/// Vectors keyed by id, in insertion order.
pub struct VectorIndex {
    config: IndexConfig,
    order: Vec<u64>,
    vectors: HashMap<u64, Vec<u32>>,
    next_id: u64,
}

impl VectorIndex {
    /// The stored vectors by id.
    pub closed spec fn contents(&self) -> Map<u64, Seq<u32>> {
        Map::new(|id: u64| self.vectors@.contains_key(id), |id: u64| self.vectors@[id]@)
    }

    /// The vector value stored under `id`.
    pub closed spec fn stored(&self, id: u64) -> Vec<u32> {
        self.vectors@[id]
    }

    /// The id that `insert` hands out next.
    pub closed spec fn next(&self) -> u64 {
        self.next_id
    }

    /// The index's parameters.
    pub closed spec fn config_view(&self) -> IndexConfig {
        self.config
    }

    /// The index is in a consistent state.
    pub closed spec fn wf(&self) -> bool {
        &&& forall|i: int, j: int| 0 <= i < j < self.order.len() ==> self.order@[i] != self.order@[j]
        &&& forall|i: int| 0 <= i < self.order.len() ==> self.vectors@.contains_key(#[trigger] self.order@[i])
        &&& forall|id: u64| #[trigger] self.vectors@.contains_key(id) ==> self.order@.contains(id)
    }

    /// An empty index.
    pub fn new(config: IndexConfig) -> (r: VectorIndex)
        ensures
            r.wf(),
            r.contents() == Map::<u64, Seq<u32>>::empty(),
            r.next() == 0,
            r.config_view() == config,
    {
        let r = VectorIndex { config, order: Vec::new(), vectors: HashMap::new(), next_id: 0 };
        assert(r.contents() =~= Map::<u64, Seq<u32>>::empty());
        r
    }

    /// An empty index with the default parameters for the given length.
    pub fn with_dimension(dimension: usize) -> (r: VectorIndex)
        ensures
            r.wf(),
            r.contents() == Map::<u64, Seq<u32>>::empty(),
            r.next() == 0,
            r.config_view().dimension == dimension,
    {
        VectorIndex::new(IndexConfig::with_dimension(dimension))
    }

    fn put(&mut self, id: u64, vector: Vec<u32>)
        requires
            old(self).wf(),
        ensures
            final(self).wf(),
            final(self).contents() == old(self).contents().insert(id, vector@),
            final(self).next_id == old(self).next_id,
            final(self).config == old(self).config,
    {
        if !self.vectors.contains_key(&id) {
            self.order.push(id);
        }
        self.vectors.insert(id, vector);
        assert(self.contents() =~= old(self).contents().insert(id, vector@));
        assert forall|i: int| 0 <= i < self.order.len() implies self.vectors@.contains_key(
            #[trigger] self.order@[i],
        ) by {
            if i < old(self).order.len() {
                assert(self.order@[i] == old(self).order@[i]);
            }
        }
        assert forall|k: u64| #[trigger] self.vectors@.contains_key(k) implies self.order@.contains(k) by {
            if k != id {
                let i = choose|i: int| 0 <= i < old(self).order.len() && old(self).order@[i] == k;
                assert(self.order@[i] == k);
            } else if old(self).vectors@.contains_key(id) {
                let i = choose|i: int| 0 <= i < old(self).order.len() && old(self).order@[i] == k;
                assert(self.order@[i] == k);
            } else {
                assert(self.order@[self.order.len() - 1] == k);
            }
        }
    }

    /// Stores `vector` under the next free id and returns that id.
    pub fn insert(&mut self, vector: Vec<u32>) -> (r: Result<u64, Error>)
        requires
            old(self).wf(),
        ensures
            final(self).wf(),
            final(self).config_view() == old(self).config_view(),
            vector@.len() != old(self).config_view().dimension ==> r == Err::<u64, Error>(
                Error::DimensionMismatch {
                    expected: old(self).config_view().dimension,
                    actual: vector@.len() as usize,
                },
            ),
            vector@.len() == old(self).config_view().dimension && old(self).next() < u64::MAX ==> r
                == Ok::<u64, Error>(old(self).next()),
            r is Err ==> final(self).contents() == old(self).contents() && final(self).next() == old(self).next(),
            r matches Ok(id) ==> final(self).contents() == old(self).contents().insert(id, vector@)
                && final(self).next() == id + 1,
    {
        if vector.len() != self.config.dimension {
            return Err(Error::DimensionMismatch { expected: self.config.dimension, actual: vector.len() });
        }
        if self.next_id == u64::MAX {
            return Err(Error::Index(String::from_str("vector ids are exhausted")));
        }
        let id = self.next_id;
        self.next_id = id + 1;
        self.put(id, vector);
        Ok(id)
    }

    /// Stores `vector` under `id`, replacing what was there; later ids that
    /// `insert` hands out are above `id`.
    pub fn insert_with_id(&mut self, id: u64, vector: Vec<u32>) -> (r: Result<(), Error>)
        requires
            old(self).wf(),
        ensures
            final(self).wf(),
            final(self).config_view() == old(self).config_view(),
            vector@.len() != old(self).config_view().dimension ==> r == Err::<(), Error>(
                Error::DimensionMismatch {
                    expected: old(self).config_view().dimension,
                    actual: vector@.len() as usize,
                },
            ),
            vector@.len() == old(self).config_view().dimension ==> r is Ok,
            r is Err ==> final(self).contents() == old(self).contents() && final(self).next() == old(self).next(),
            r is Ok ==> final(self).contents() == old(self).contents().insert(id, vector@)
                && final(self).next() == if id < old(self).next() {
                    old(self).next()
                } else if id < u64::MAX {
                    (id + 1) as u64
                } else {
                    u64::MAX
                },
    {
        if vector.len() != self.config.dimension {
            return Err(Error::DimensionMismatch { expected: self.config.dimension, actual: vector.len() });
        }
        self.put(id, vector);
        if id >= self.next_id {
            self.next_id = if id < u64::MAX {
                id + 1
            } else {
                u64::MAX
            };
        }
        Ok(())
    }

    /// The vector stored under `id`.
    pub fn get(&self, id: u64) -> (r: Option<&Vec<u32>>)
        ensures
            match r {
                Some(v) => self.contents().contains_key(id) && v@ == self.contents()[id],
                None => !self.contents().contains_key(id),
            },
    {
        self.vectors.get(&id)
    }

    /// Removes the vector stored under `id`; tells whether there was one.
    pub fn delete(&mut self, id: u64) -> (r: bool)
        requires
            old(self).wf(),
        ensures
            final(self).wf(),
            r == old(self).contents().contains_key(id),
            final(self).contents() == old(self).contents().remove(id),
            final(self).next() == old(self).next(),
            final(self).config_view() == old(self).config_view(),
    {
        if !self.vectors.contains_key(&id) {
            assert(self.contents() =~= old(self).contents().remove(id));
            return false;
        }
        let mut p: usize = 0;
        while p < self.order.len() && self.order[p] != id
            invariant
                self.wf(),
                *self == *old(self),
                self.vectors@.contains_key(id),
                0 <= p <= self.order.len(),
                forall|i: int| 0 <= i < p ==> self.order@[i] != id,
            decreases self.order.len() - p,
        {
            p += 1;
        }
        proof {
            let i = choose|i: int| 0 <= i < self.order.len() && self.order@[i] == id;
            assert(p <= i);
        }
        let ghost before = self.order@;
        self.order.remove(p);
        self.vectors.remove(&id);
        assert(self.contents() =~= old(self).contents().remove(id));
        assert forall|i: int, j: int| 0 <= i < j < self.order.len() implies self.order@[i] != self.order@[j] by {
            let oi = if i < p { i } else { i + 1 };
            let oj = if j < p { j } else { j + 1 };
            assert(self.order@[i] == before[oi]);
            assert(self.order@[j] == before[oj]);
        }
        assert forall|i: int| 0 <= i < self.order.len() implies self.vectors@.contains_key(
            #[trigger] self.order@[i],
        ) by {
            let oi = if i < p { i } else { i + 1 };
            assert(self.order@[i] == before[oi]);
            assert(before[oi] != id);
        }
        assert forall|k: u64| #[trigger] self.vectors@.contains_key(k) implies self.order@.contains(k) by {
            let i = choose|i: int| 0 <= i < before.len() && before[i] == k;
            assert(i != p);
            if i < p {
                assert(self.order@[i] == k);
            } else {
                assert(self.order@[i - 1] == k);
            }
        }
        true
    }

    /// The `k` stored vectors most similar to `query` by the metric `sim`
    /// (see `select_top_k`).
    pub fn search<F: Fn(&Vec<u32>, &Vec<u32>) -> u32>(&self, query: &Vec<u32>, k: usize, sim: &F) -> (r: Result<
        Vec<Scored>,
        Error,
    >)
        requires
            self.wf(),
            forall|a: &Vec<u32>, b: &Vec<u32>| #[trigger] sim.requires((a, b)),
        ensures
            query@.len() != self.config_view().dimension ==> r == Err::<Vec<Scored>, Error>(
                Error::DimensionMismatch {
                    expected: self.config_view().dimension,
                    actual: query@.len() as usize,
                },
            ),
            query@.len() == self.config_view().dimension ==> r is Ok,
            r matches Ok(v) ==> exists|entries: Seq<Scored>|
                {
                    &&& entries.len() == self.contents().len()
                    &&& forall|i: int|
                        0 <= i < entries.len() ==> self.contents().contains_key((#[trigger] entries[i]).id)
                            && sim.ensures((query, &self.stored(entries[i].id)), entries[i].score)
                    &&& top_of(entries, k as nat, v@)
                    &&& non_increasing(v@)
                },
    {
        if query.len() != self.config.dimension {
            return Err(Error::DimensionMismatch { expected: self.config.dimension, actual: query.len() });
        }
        let mut scored: Vec<Scored> = Vec::new();
        let mut i: usize = 0;
        while i < self.order.len()
            invariant
                self.wf(),
                forall|a: &Vec<u32>, b: &Vec<u32>| #[trigger] sim.requires((a, b)),
                0 <= i <= self.order.len(),
                scored.len() == i,
                forall|j: int|
                    0 <= j < i ==> (#[trigger] scored@[j]).id == self.order@[j] && sim.ensures(
                        (query, &self.vectors@[scored@[j].id]),
                        scored@[j].score,
                    ),
            decreases self.order.len() - i,
        {
            let id = self.order[i];
            let v = self.vectors.get(&id).unwrap();
            let s = sim(query, v);
            scored.push(Scored { id, score: s });
            i += 1;
        }
        let top = select_top_k(&scored, k);
        proof {
            lemma_order_covers(self);
        }
        Ok(top)
    }

    /// Number of stored vectors.
    pub fn len(&self) -> (r: usize)
        requires
            self.wf(),
        ensures
            r == self.contents().len(),
    {
        proof {
            lemma_order_covers(self);
        }
        self.order.len()
    }

    /// No vector is stored.
    pub fn is_empty(&self) -> (r: bool)
        requires
            self.wf(),
        ensures
            r == (self.contents().len() == 0),
    {
        self.len() == 0
    }

    /// Length of every vector.
    pub fn dimension(&self) -> (r: usize)
        ensures
            r == self.config_view().dimension,
    {
        self.config.dimension
    }

    /// Removes every vector and restarts ids at 0.
    pub fn clear(&mut self)
        ensures
            final(self).wf(),
            final(self).contents() == Map::<u64, Seq<u32>>::empty(),
            final(self).next() == 0,
            final(self).config_view() == old(self).config_view(),
    {
        self.order = Vec::new();
        self.vectors.clear();
        self.next_id = 0;
        assert(self.contents() =~= Map::<u64, Seq<u32>>::empty());
    }
}

proof fn lemma_order_covers(idx: &VectorIndex)
    requires
        idx.wf(),
    ensures
        idx.contents().len() == idx.order.len(),
        idx.contents().dom() == idx.order@.to_set(),
{
    assert(idx.contents().dom() =~= idx.order@.to_set());
    idx.order@.unique_seq_to_set();
}

} // verus!
