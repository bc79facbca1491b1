//! The columnar entity store: chunks of entities with a payload column,
//! grouped into a dense and a sparse storage, plus world-level resources.

use vstd::prelude::*;
use vstd::pervasive::VecAdditionalExecFns;

verus! {

/// An entity identifier.
#[derive(Clone, Copy, PartialEq, Eq, Structural, Debug, Hash)]
pub struct Entity {
    pub id: u64,
}

impl Entity {
    /// The reserved placeholder identifier, never used by a stored entity.
    pub fn placeholder() -> (r: Entity)
        ensures
            r.id == u64::MAX,
    {
        Entity { id: u64::MAX }
    }
}

/// One item handed to an iteration callback: the entity visited and the
/// payload the query fetched for it.
#[derive(Clone, Copy, PartialEq, Eq, Structural, Debug)]
pub struct QueryItem {
    pub entity: Entity,
    pub value: u64,
}

/// A contiguous storage unit: all rows share one component-presence shape.
pub struct Chunk {
    /// The component ids present on every row of this chunk.
    pub shape: Vec<u32>,
    /// The entity stored in each row.
    pub entities: Vec<Entity>,
    /// The fetched payload of each row, one value per entity.
    pub values: Vec<u64>,
}

impl Chunk {
    /// A chunk is well formed when its columns are aligned.
    pub open spec fn wf(self) -> bool {
        self.values@.len() == self.entities@.len()
    }

    /// The items of rows `[0, len)`, in row order.
    pub open spec fn items(self) -> Seq<QueryItem> {
        Seq::new(self.entities@.len(), |i: int| QueryItem { entity: self.entities@[i], value: self.values@[i] })
    }

    /// How many entities the chunk holds.
    pub fn entity_count(&self) -> (r: usize)
        ensures
            r == self.entities@.len(),
    {
        self.entities.len()
    }
}

/// Every pair of distinct row positions holds distinct entities.
pub open spec fn distinct_entities(chunks: Seq<Chunk>) -> bool {
    forall|c1: int, r1: int, c2: int, r2: int|
        0 <= c1 < chunks.len() && 0 <= r1 < chunks[c1].entities@.len() && 0 <= c2 < chunks.len()
            && 0 <= r2 < chunks[c2].entities@.len() && (c1 != c2 || r1 != r2) ==> #[trigger] chunks[c1].entities@[r1]
            != #[trigger] chunks[c2].entities@[r2]
}

/// All chunks of a storage have aligned columns.
pub open spec fn chunks_wf(chunks: Seq<Chunk>) -> bool {
    forall|c: int| 0 <= c < chunks.len() ==> (#[trigger] chunks[c]).wf()
}

/// Rejected inputs when a chunk is added to a [`World`].
#[derive(Clone, Copy, PartialEq, Eq, Structural, Debug)]
pub enum WorldError {
    /// The entity and value columns have different lengths.
    ColumnLengthMismatch,
    /// An entity of the new chunk is already stored, or repeats inside it.
    DuplicateEntity,
}

/// Owns all component storage: dense table chunks, sparse archetype chunks,
/// and plain resources keyed by an id.
pub struct World {
    /// Chunks of the dense storage.
    pub tables: Vec<Chunk>,
    /// Chunks of the sparse storage.
    pub archetypes: Vec<Chunk>,
    /// Resource values keyed by a resource id; keys are unique.
    pub resources: Vec<(u64, u64)>,
}

impl World {
    /// The chunk list a query iterates: tables for dense queries,
    /// archetypes for sparse ones.
    pub open spec fn storage(self, dense: bool) -> Seq<Chunk> {
        if dense {
            self.tables@
        } else {
            self.archetypes@
        }
    }

    /// Well-formedness: aligned columns everywhere and no entity stored
    /// twice within either storage.
    pub open spec fn wf(self) -> bool {
        &&& chunks_wf(self.tables@)
        &&& chunks_wf(self.archetypes@)
        &&& distinct_entities(self.tables@)
        &&& distinct_entities(self.archetypes@)
        &&& resource_keys_distinct(self.resources@)
    }

    /// The value of resource `id`, if it is set.
    pub open spec fn resource_of(self, id: u64) -> Option<u64> {
        resource_lookup(self.resources@, id)
    }

    /// An empty world.
    pub fn new() -> (r: World)
        ensures
            r.tables@ =~= Seq::<Chunk>::empty(),
            r.archetypes@ =~= Seq::<Chunk>::empty(),
            r.resources@ =~= Seq::<(u64, u64)>::empty(),
            r.wf(),
    {
        World { tables: Vec::new(), archetypes: Vec::new(), resources: Vec::new() }
    }
}

/// No entity occurs twice in the sequence.
pub open spec fn seq_distinct(entities: Seq<Entity>) -> bool {
    forall|i: int, j: int| 0 <= i < j < entities.len() ==> #[trigger] entities[i] != #[trigger] entities[j]
}

/// Some row of some chunk holds `e`.
pub open spec fn storage_has_entity(chunks: Seq<Chunk>, e: Entity) -> bool {
    exists|c: int, r: int|
        0 <= c < chunks.len() && 0 <= r < chunks[c].entities@.len() && #[trigger] chunks[c].entities@[r] == e
}

/// Linear scan for `e` in one chunk.
pub fn chunk_has_entity(c: &Chunk, e: Entity) -> (r: bool)
    ensures
        r == c.entities@.contains(e),
{
    let n = c.entities.len();
    for i in 0..n
        invariant
            n == c.entities@.len(),
            forall|j: int| 0 <= j < i ==> (#[trigger] c.entities@[j]) != e,
    {
        if c.entities[i].id == e.id {
            return true;
        }
    }
    false
}

/// Linear scan for `e` across a whole storage.
pub fn storage_has(chunks: &Vec<Chunk>, e: Entity) -> (r: bool)
    ensures
        r == storage_has_entity(chunks@, e),
{
    let n = chunks.len();
    for c in 0..n
        invariant
            n == chunks@.len(),
            forall|cc: int, rr: int|
                0 <= cc < c && 0 <= rr < chunks@[cc].entities@.len() ==> (
                #[trigger] chunks@[cc].entities@[rr]) != e,
    {
        if chunk_has_entity(&chunks[c], e) {
            proof {
                let r = choose|r: int| 0 <= r < chunks@[c as int].entities@.len() && chunks@[c as int].entities@[r] == e;
                assert(chunks@[c as int].entities@[r] == e);
            }
            return true;
        }
        proof {
            assert forall|rr: int| 0 <= rr < chunks@[c as int].entities@.len() implies (
            #[trigger] chunks@[c as int].entities@[rr]) != e by {
                assert(!chunks@[c as int].entities@.contains(e));
            }
        }
    }
    false
}

/// No entity of `entities` repeats.
pub fn entities_distinct(entities: &Vec<Entity>) -> (r: bool)
    ensures
        r == seq_distinct(entities@),
{
    let n = entities.len();
    for i in 0..n
        invariant
            n == entities@.len(),
            forall|a: int, b: int| 0 <= a < b < entities@.len() && b < i ==> #[trigger] entities@[a]
                != #[trigger] entities@[b],
    {
        for j in 0..i
            invariant
                i < n,
                n == entities@.len(),
                forall|a: int, b: int| 0 <= a < b < entities@.len() && b < i ==> #[trigger] entities@[a]
                    != #[trigger] entities@[b],
                forall|a: int| 0 <= a < j ==> #[trigger] entities@[a] != entities@[i as int],
        {
            if entities[j].id == entities[i].id {
                return false;
            }
        }
    }
    true
}

/// Is some entity of `entities` already stored in `chunks`?
pub fn any_in_storage(chunks: &Vec<Chunk>, entities: &Vec<Entity>) -> (r: bool)
    ensures
        r == exists|i: int|
            0 <= i < entities@.len() && storage_has_entity(chunks@, #[trigger] entities@[i]),
{
    let n = entities.len();
    for i in 0..n
        invariant
            n == entities@.len(),
            forall|j: int| 0 <= j < i ==> !storage_has_entity(chunks@, #[trigger] entities@[j]),
    {
        if storage_has(chunks, entities[i]) {
            return true;
        }
    }
    false
}

impl World {
    /// Adds a chunk of rows to the chosen storage and returns its
    /// identifier. Rejected iff the columns are misaligned
    /// (`ColumnLengthMismatch`) or some entity repeats within the new rows
    /// or is already stored in that storage (`DuplicateEntity`); a rejected
    /// call leaves the world unchanged.
    pub fn add_chunk(&mut self, dense: bool, shape: Vec<u32>, entities: Vec<Entity>, values: Vec<
        u64,
    >) -> (r: Result<usize, WorldError>)
        requires
            old(self).wf(),
        ensures
            final(self).wf(),
            final(self).resources@ == old(self).resources@,
            final(self).storage(!dense) == old(self).storage(!dense),
            r == Err::<usize, WorldError>(WorldError::ColumnLengthMismatch) <==> entities@.len()
                != values@.len(),
            r == Err::<usize, WorldError>(WorldError::DuplicateEntity) <==> (entities@.len()
                == values@.len() && (!seq_distinct(entities@) || exists|i: int|
                0 <= i < entities@.len() && storage_has_entity(
                    old(self).storage(dense),
                    #[trigger] entities@[i],
                ))),
            r is Err ==> final(self).storage(dense) == old(self).storage(dense),
            r matches Ok(id) ==> {
                &&& id == old(self).storage(dense).len()
                &&& final(self).storage(dense).len() == old(self).storage(dense).len() + 1
                &&& forall|c: int|
                    0 <= c < old(self).storage(dense).len() ==> final(self).storage(dense)[c] == old(
                        self,
                    ).storage(dense)[c]
                &&& final(self).storage(dense)[id as int].shape@ == shape@
                &&& final(self).storage(dense)[id as int].entities@ == entities@
                &&& final(self).storage(dense)[id as int].values@ == values@
            },
    {
        if entities.len() != values.len() {
            return Err(WorldError::ColumnLengthMismatch);
        }
        if !entities_distinct(&entities) {
            return Err(WorldError::DuplicateEntity);
        }
        let collides = if dense {
            any_in_storage(&self.tables, &entities)
        } else {
            any_in_storage(&self.archetypes, &entities)
        };
        if collides {
            return Err(WorldError::DuplicateEntity);
        }
        let ghost olds = self.storage(dense);
        let ghost news = entities@;
        let chunk = Chunk { shape, entities, values };
        let id = if dense {
            self.tables.push(chunk);
            self.tables.len() - 1
        } else {
            self.archetypes.push(chunk);
            self.archetypes.len() - 1
        };
        proof {
            let s = self.storage(dense);
            assert(s == olds.push(s[olds.len() as int]));
            assert forall|c1: int, r1: int, c2: int, r2: int|
                0 <= c1 < s.len() && 0 <= r1 < s[c1].entities@.len() && 0 <= c2 < s.len() && 0 <= r2
                    < s[c2].entities@.len() && (c1 != c2 || r1 != r2) implies #[trigger] s[c1].entities@[r1]
                != #[trigger] s[c2].entities@[r2] by {
                if c1 < olds.len() && c2 < olds.len() {
                    assert(olds[c1].entities@[r1] != olds[c2].entities@[r2]);
                } else if c1 == olds.len() && c2 == olds.len() {
                    assert(news[r1] != news[r2]);
                } else if c1 == olds.len() {
                    assert(!storage_has_entity(olds, news[r1]));
                    assert(olds[c2].entities@[r2] != news[r1]);
                } else {
                    assert(!storage_has_entity(olds, news[r2]));
                    assert(olds[c1].entities@[r1] != news[r2]);
                }
            }
        }
        Ok(id)
    }

    /// Reads resource `id`.
    pub fn resource(&self, id: u64) -> (r: Option<u64>)
        ensures
            r == self.resource_of(id),
    {
        let n = self.resources.len();
        for i in 0..n
            invariant
                n == self.resources@.len(),
                forall|j: int| 0 <= j < i ==> (#[trigger] self.resources@[j]).0 != id,
        {
            if self.resources[i].0 == id {
                proof {
                    lemma_resource_lookup_hit(self.resources@, id, i as int);
                }
                return Some(self.resources[i].1);
            }
        }
        proof {
            lemma_resource_lookup_miss(self.resources@, id);
        }
        None
    }

    /// Sets resource `id` to `value`, adding it if absent.
    pub fn insert_resource(&mut self, id: u64, value: u64)
        requires
            old(self).wf(),
        ensures
            final(self).wf(),
            final(self).resource_of(id) == Some(value),
            forall|other: u64| other != id ==> final(self).resource_of(other) == old(self).resource_of(other),
            final(self).tables@ == old(self).tables@,
            final(self).archetypes@ == old(self).archetypes@,
    {
        let n = self.resources.len();
        for i in 0..n
            invariant
                self == old(self),
                old(self).wf(),
                n == self.resources@.len(),
                forall|j: int| 0 <= j < i ==> (#[trigger] self.resources@[j]).0 != id,
        {
            if self.resources[i].0 == id {
                self.resources.set(i, (id, value));
                proof {
                    lemma_resource_lookup_update(old(self).resources@, self.resources@, id, value, i as int);
                }
                return;
            }
        }
        self.resources.push((id, value));
        proof {
            lemma_resource_lookup_push(old(self).resources@, id, value);
        }
    }
}

/// The value paired with `id`, if any; keys are expected to be unique.
pub open spec fn resource_lookup(entries: Seq<(u64, u64)>, id: u64) -> Option<u64>
    decreases entries.len(),
{
    if entries.len() == 0 {
        None
    } else if entries[0].0 == id {
        Some(entries[0].1)
    } else {
        resource_lookup(entries.drop_first(), id)
    }
}

/// No resource id occurs twice.
pub open spec fn resource_keys_distinct(entries: Seq<(u64, u64)>) -> bool {
    forall|i: int, j: int|
        0 <= i < j < entries.len() ==> (#[trigger] entries[i]).0 != (#[trigger] entries[j]).0
}

/// Entity distinctness only depends on the entity columns, so a write
/// that leaves them untouched preserves it.
pub proof fn lemma_distinct_preserved(olds: Seq<Chunk>, news: Seq<Chunk>)
    requires
        news.len() == olds.len(),
        forall|c: int| 0 <= c < olds.len() ==> (#[trigger] news[c]).entities@ == olds[c].entities@,
        distinct_entities(olds),
    ensures
        distinct_entities(news),
{
    assert forall|c1: int, r1: int, c2: int, r2: int|
        0 <= c1 < news.len() && 0 <= r1 < news[c1].entities@.len() && 0 <= c2 < news.len() && 0 <= r2
            < news[c2].entities@.len() && (c1 != c2 || r1 != r2) implies #[trigger] news[c1].entities@[r1]
        != #[trigger] news[c2].entities@[r2] by {
        assert(olds[c1].entities@[r1] != olds[c2].entities@[r2]);
    }
}

proof fn lemma_resource_lookup_hit(entries: Seq<(u64, u64)>, id: u64, i: int)
    requires
        0 <= i < entries.len(),
        entries[i].0 == id,
        forall|j: int| 0 <= j < i ==> (#[trigger] entries[j]).0 != id,
    ensures
        resource_lookup(entries, id) == Some(entries[i].1),
    decreases i,
{
    if i > 0 {
        lemma_resource_lookup_hit(entries.drop_first(), id, i - 1);
    }
}

proof fn lemma_resource_lookup_miss(entries: Seq<(u64, u64)>, id: u64)
    requires
        forall|j: int| 0 <= j < entries.len() ==> (#[trigger] entries[j]).0 != id,
    ensures
        resource_lookup(entries, id) is None,
    decreases entries.len(),
{
    if entries.len() > 0 {
        lemma_resource_lookup_miss(entries.drop_first(), id);
    }
}

proof fn lemma_resource_lookup_update(
    entries: Seq<(u64, u64)>,
    updated: Seq<(u64, u64)>,
    id: u64,
    value: u64,
    i: int,
)
    requires
        0 <= i < entries.len(),
        entries[i].0 == id,
        resource_keys_distinct(entries),
        updated == entries.update(i, (id, value)),
    ensures
        resource_lookup(updated, id) == Some(value),
        forall|other: u64| other != id ==> resource_lookup(updated, other) == resource_lookup(entries, other),
        resource_keys_distinct(updated),
    decreases i,
{
    assert forall|c1: int, c2: int| 0 <= c1 < c2 < updated.len() implies (#[trigger] updated[c1]).0
        != (#[trigger] updated[c2]).0 by {
        assert(entries[c1].0 != entries[c2].0);
    }
    if i == 0 {
        assert(updated.drop_first() =~= entries.drop_first());
    } else {
        assert(updated.drop_first() =~= entries.drop_first().update(i - 1, (id, value)));
        assert(resource_keys_distinct(entries.drop_first())) by {
            assert forall|c1: int, c2: int|
                0 <= c1 < c2 < entries.drop_first().len() implies (#[trigger] entries.drop_first()[c1]).0
                != (#[trigger] entries.drop_first()[c2]).0 by {
                assert(entries[c1 + 1].0 != entries[c2 + 1].0);
            }
        }
        lemma_resource_lookup_update(entries.drop_first(), updated.drop_first(), id, value, i - 1);
        assert(updated[0] == entries[0]);
        assert(entries[0].0 != id);
        assert(resource_lookup(updated, id) == resource_lookup(updated.drop_first(), id));
        assert forall|other: u64| other != id implies resource_lookup(updated, other)
            == resource_lookup(entries, other) by {
            if entries[0].0 == other {
                assert(resource_lookup(updated, other) == Some(updated[0].1));
                assert(resource_lookup(entries, other) == Some(entries[0].1));
            } else {
                assert(resource_lookup(updated, other) == resource_lookup(updated.drop_first(), other));
                assert(resource_lookup(entries, other) == resource_lookup(entries.drop_first(), other));
            }
        }
    }
}

proof fn lemma_resource_lookup_push(entries: Seq<(u64, u64)>, id: u64, value: u64)
    requires
        resource_keys_distinct(entries),
        forall|j: int| 0 <= j < entries.len() ==> (#[trigger] entries[j]).0 != id,
    ensures
        resource_lookup(entries.push((id, value)), id) == Some(value),
        forall|other: u64| other != id ==> resource_lookup(entries.push((id, value)), other)
            == resource_lookup(entries, other),
        resource_keys_distinct(entries.push((id, value))),
    decreases entries.len(),
{
    if entries.len() == 0 {
        assert(entries.push((id, value)).drop_first() =~= entries);
        lemma_resource_lookup_miss(entries, id);
    } else {
        assert(entries.push((id, value)).drop_first() =~= entries.drop_first().push((id, value)));
        assert(resource_keys_distinct(entries.drop_first())) by {
            assert forall|c1: int, c2: int|
                0 <= c1 < c2 < entries.drop_first().len() implies (#[trigger] entries.drop_first()[c1]).0
                != (#[trigger] entries.drop_first()[c2]).0 by {
                assert(entries[c1 + 1].0 != entries[c2 + 1].0);
            }
        }
        lemma_resource_lookup_push(entries.drop_first(), id, value);
        let p = entries.push((id, value));
        assert(p[0] == entries[0]);
        assert(entries[0].0 != id);
        assert(resource_lookup(p, id) == resource_lookup(p.drop_first(), id));
        assert forall|other: u64| other != id implies resource_lookup(p, other) == resource_lookup(
            entries,
            other,
        ) by {
            if entries[0].0 == other {
                assert(resource_lookup(p, other) == Some(p[0].1));
                assert(resource_lookup(entries, other) == Some(entries[0].1));
            } else {
                assert(resource_lookup(p, other) == resource_lookup(p.drop_first(), other));
                assert(resource_lookup(entries, other) == resource_lookup(entries.drop_first(), other));
            }
        }
        assert forall|c1: int, c2: int| 0 <= c1 < c2 < p.len() implies (#[trigger] p[c1]).0 != (
        #[trigger] p[c2]).0 by {
            if c2 < entries.len() {
                assert(entries[c1].0 != entries[c2].0);
            } else {
                assert(p[c2].0 == id);
                assert(entries[c1].0 != id);
            }
        }
    }
}

} // verus!
