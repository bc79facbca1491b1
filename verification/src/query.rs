//! Query descriptions: which chunks match, which items a query visits, and
//! how written values land back in the store.

use vstd::prelude::*;
use crate::storage::Chunk;
use crate::storage::QueryItem;
use crate::storage::World;

verus! {

/// Immutable description of a query plus its lazily extended cache of
/// matched storage-chunk identifiers.
pub struct QueryState {
    /// Component ids that must all be present in a chunk's shape.
    pub required: Vec<u32>,
    /// Whether the query iterates the dense (table) storage or the sparse
    /// (archetype) storage.
    pub is_dense: bool,
    /// Identifiers of the chunks seen so far whose shape satisfies the
    /// filter, in ascending order. Never shrinks.
    pub matched: Vec<usize>,
    /// How many chunks of the storage have been examined.
    pub seen: usize,
}

/// Does the chunk's shape hold every required component?
pub open spec fn shape_satisfies(required: Seq<u32>, c: Chunk) -> bool {
    forall|i: int| 0 <= i < required.len() ==> c.shape@.contains(#[trigger] required[i])
}

impl QueryState {
    /// Does the chunk's shape satisfy this query's filter?
    pub open spec fn chunk_matches(self, c: Chunk) -> bool {
        shape_satisfies(self.required@, c)
    }

    /// The matched cache is exactly the matching chunks among the first
    /// `seen`, in ascending order.
    pub open spec fn wf_for(self, chunks: Seq<Chunk>) -> bool {
        &&& self.seen <= chunks.len()
        &&& forall|k: int|
            0 <= k < self.matched@.len() ==> (#[trigger] self.matched@[k]) < self.seen
                && self.chunk_matches(chunks[self.matched@[k] as int])
        &&& forall|k1: int, k2: int|
            0 <= k1 < k2 < self.matched@.len() ==> (#[trigger] self.matched@[k1]) < (
            #[trigger] self.matched@[k2])
        &&& forall|c: int|
            0 <= c < self.seen && #[trigger] self.chunk_matches(chunks[c]) ==> self.matched@.contains(
                c as usize,
            )
    }

    /// The items of the first `k` matched chunks, concatenated in matched
    /// order; row order within each chunk is kept.
    pub open spec fn items_prefix(self, chunks: Seq<Chunk>, k: int) -> Seq<QueryItem>
        decreases k,
    {
        if k <= 0 {
            Seq::empty()
        } else {
            self.items_prefix(chunks, k - 1) + chunks[self.matched@[k - 1] as int].items()
        }
    }

    /// Every item a full scan of this query visits, in order.
    pub open spec fn matched_items(self, chunks: Seq<Chunk>) -> Seq<QueryItem> {
        self.items_prefix(chunks, self.matched@.len() as int)
    }

    /// A fresh query: nothing matched yet.
    pub fn new(required: Vec<u32>, is_dense: bool) -> (r: QueryState)
        ensures
            r.required == required,
            r.is_dense == is_dense,
            r.matched@ =~= Seq::<usize>::empty(),
            r.seen == 0,
            forall|chunks: Seq<Chunk>| #[trigger] r.wf_for(chunks),
    {
        let r = QueryState { required, is_dense, matched: Vec::new(), seen: 0 };
        proof {
            assert forall|chunks: Seq<Chunk>| #[trigger] r.wf_for(chunks) by {
                assert(r.matched@.len() == 0);
            }
        }
        r
    }

    /// Does the chunk's shape satisfy this query's filter?
    pub fn matches_chunk(&self, c: &Chunk) -> (r: bool)
        ensures
            r == self.chunk_matches(*c),
    {
        let n = self.required.len();
        for i in 0..n
            invariant
                n == self.required@.len(),
                forall|j: int| 0 <= j < i ==> c.shape@.contains(#[trigger] self.required@[j]),
        {
            if !contains_u32(&c.shape, self.required[i]) {
                return false;
            }
        }
        true
    }

    /// The storage locator: examines chunks added since the last call and
    /// extends the matched cache with those that satisfy the filter. The
    /// cache never shrinks and an empty result is not an error.
    pub fn update_matched(&mut self, world: &World)
        requires
            old(self).wf_for(world.storage(old(self).is_dense)),
        ensures
            final(self).wf_for(world.storage(final(self).is_dense)),
            final(self).required == old(self).required,
            final(self).is_dense == old(self).is_dense,
            final(self).seen == world.storage(final(self).is_dense).len(),
            final(self).matched@.len() >= old(self).matched@.len(),
            forall|k: int|
                0 <= k < old(self).matched@.len() ==> (#[trigger] final(self).matched@[k]) == old(
                    self,
                ).matched@[k],
    {
        let ghost req = self.required@;
        let chunks = if self.is_dense {
            &world.tables
        } else {
            &world.archetypes
        };
        let n = chunks.len();
        let start = self.seen;
        let ghost oldm = self.matched@;
        proof {
            assert forall|cc: int|
                0 <= cc < start && #[trigger] shape_satisfies(req, chunks@[cc]) implies self.matched@.contains(
                cc as usize,
            ) by {
                assert(self.chunk_matches(chunks@[cc]));
            }
        }
        let mut c = start;
        while c < n
            invariant
                chunks@ == world.storage(self.is_dense),
                n == chunks@.len(),
                start <= c <= n,
                self.required == old(self).required,
                req == self.required@,
                self.is_dense == old(self).is_dense,
                self.seen == start,
                self.matched@.len() >= oldm.len(),
                oldm == old(self).matched@,
                forall|k: int| 0 <= k < oldm.len() ==> (#[trigger] self.matched@[k]) == oldm[k],
                forall|k: int|
                    0 <= k < self.matched@.len() ==> (#[trigger] self.matched@[k]) < c
                        && shape_satisfies(req, chunks@[self.matched@[k] as int]),
                forall|k1: int, k2: int|
                    0 <= k1 < k2 < self.matched@.len() ==> (#[trigger] self.matched@[k1]) < (
                    #[trigger] self.matched@[k2]),
                forall|cc: int|
                    0 <= cc < c && #[trigger] shape_satisfies(req, chunks@[cc]) ==> self.matched@.contains(
                        cc as usize,
                    ),
            decreases n - c,
        {
            if self.matches_chunk(&chunks[c]) {
                let ghost before = self.matched@;
                self.matched.push(c);
                proof {
                    assert(self.matched@ == before.push(c));
                    assert(self.matched@[before.len() as int] == c);
                    assert forall|cc: int|
                        0 <= cc < c + 1 && #[trigger] shape_satisfies(req, chunks@[cc]) implies self.matched@.contains(
                        cc as usize,
                    ) by {
                        if cc < c {
                            assert(before.contains(cc as usize));
                            let k = choose|k: int| 0 <= k < before.len() && before[k] == cc as usize;
                            assert(self.matched@[k] == before[k]);
                        } else {
                            assert(self.matched@[before.len() as int] == cc as usize);
                        }
                    }
                }
            } else {
                proof {
                    assert forall|cc: int|
                        0 <= cc < c + 1 && #[trigger] shape_satisfies(req, chunks@[cc]) implies self.matched@.contains(
                        cc as usize,
                    ) by {
                        if cc < c {
                        } else {
                            assert(!shape_satisfies(req, chunks@[c as int]));
                        }
                    }
                }
            }
            c += 1;
        }
        self.seen = n;
    }

    /// The cached identifiers of the matched storage chunks.
    pub fn matched_storage_ids(&self) -> (r: &Vec<usize>)
        ensures
            r@ == self.matched@,
    {
        &self.matched
    }
}

/// Linear membership scan.
pub fn contains_u32(v: &Vec<u32>, x: u32) -> (r: bool)
    ensures
        r == v@.contains(x),
{
    let n = v.len();
    for i in 0..n
        invariant
            n == v@.len(),
            forall|j: int| 0 <= j < i ==> (#[trigger] v@[j]) != x,
    {
        if v[i] == x {
            return true;
        }
    }
    false
}

} // verus!
