//! Restricted scans over an explicit entity list: which items they visit,
//! in list order, silently skipping entities the query does not match.

use vstd::prelude::*;
use vstd::pervasive::VecAdditionalExecFns;
use crate::storage::Chunk;
use crate::storage::Entity;
use crate::storage::QueryItem;
use crate::storage::chunks_wf;
use crate::storage::seq_distinct;
use crate::query::QueryState;

verus! {

/// The first row of the chunk holding `e`, scanning from row `from`.
pub open spec fn find_row_from(c: Chunk, e: Entity, from: int) -> Option<int>
    decreases c.entities@.len() - from,
{
    if from < 0 || from >= c.entities@.len() {
        None
    } else if c.entities@[from] == e {
        Some(from)
    } else {
        find_row_from(c, e, from + 1)
    }
}

/// The location of `e` among the matched chunks, scanning them in matched
/// order from position `from` of the cache: the chunk identifier and row
/// of the first occurrence, or `None` when no matched chunk holds `e`.
pub open spec fn find_entity_from(q: QueryState, chunks: Seq<Chunk>, e: Entity, from: int) -> Option<
    (int, int),
>
    decreases q.matched@.len() - from,
{
    if from < 0 || from >= q.matched@.len() {
        None
    } else {
        let id = q.matched@[from] as int;
        match find_row_from(chunks[id], e, 0) {
            Some(r) => Some((id, r)),
            None => find_entity_from(q, chunks, e, from + 1),
        }
    }
}

/// Where a restricted scan reads entity `e`, if the query matches it.
pub open spec fn find_entity(q: QueryState, chunks: Seq<Chunk>, e: Entity) -> Option<(int, int)> {
    find_entity_from(q, chunks, e, 0)
}

/// The items a restricted scan visits: one item per listed entity that a
/// matched chunk holds, in list order; the others are silently skipped.
pub open spec fn list_items(q: QueryState, chunks: Seq<Chunk>, list: Seq<Entity>) -> Seq<QueryItem>
    decreases list.len(),
{
    if list.len() == 0 {
        Seq::empty()
    } else {
        let head = match find_entity(q, chunks, list[0]) {
            Some((c, r)) => seq![
                QueryItem { entity: chunks[c].entities@[r], value: chunks[c].values@[r] },
            ],
            None => Seq::<QueryItem>::empty(),
        };
        head + list_items(q, chunks, list.drop_first())
    }
}

/// The storage slots a restricted scan reads, aligned with its items.
pub open spec fn list_slots(q: QueryState, chunks: Seq<Chunk>, list: Seq<Entity>) -> Seq<
    (int, int),
>
    decreases list.len(),
{
    if list.len() == 0 {
        Seq::empty()
    } else {
        let head = match find_entity(q, chunks, list[0]) {
            Some((c, r)) => seq![(c, r)],
            None => Seq::<(int, int)>::empty(),
        };
        head + list_slots(q, chunks, list.drop_first())
    }
}

/// A restricted scan over a split list visits the two halves' items in
/// order, and reads the two halves' slots in order.
pub proof fn lemma_list_split(q: QueryState, chunks: Seq<Chunk>, a: Seq<Entity>, b: Seq<Entity>)
    ensures
        list_items(q, chunks, a + b) == list_items(q, chunks, a) + list_items(q, chunks, b),
        list_slots(q, chunks, a + b) == list_slots(q, chunks, a) + list_slots(q, chunks, b),
    decreases a.len(),
{
    if a.len() == 0 {
        assert(a + b =~= b);
        assert(list_items(q, chunks, a) =~= Seq::<QueryItem>::empty());
        assert(list_slots(q, chunks, a) =~= Seq::<(int, int)>::empty());
        assert(list_items(q, chunks, a) + list_items(q, chunks, b) =~= list_items(q, chunks, b));
        assert(list_slots(q, chunks, a) + list_slots(q, chunks, b) =~= list_slots(q, chunks, b));
    } else {
        lemma_list_split(q, chunks, a.drop_first(), b);
        assert((a + b).len() > 0);
        assert((a + b)[0] == a[0]);
        assert((a + b).drop_first() =~= a.drop_first() + b);
        assert(list_items(q, chunks, a + b) =~= list_items(q, chunks, a) + list_items(
            q,
            chunks,
            b,
        ));
        assert(list_slots(q, chunks, a + b) =~= list_slots(q, chunks, a) + list_slots(
            q,
            chunks,
            b,
        ));
    }
}

/// Exec slot pairs seen as mathematical pairs.
pub open spec fn slots_view(slots: Seq<(usize, usize)>) -> Seq<(int, int)> {
    slots.map_values(|s: (usize, usize)| (s.0 as int, s.1 as int))
}

/// `(c, r)` is one of the listed slots.
pub open spec fn slot_in(slots: Seq<(int, int)>, c: int, r: int) -> bool {
    exists|i: int| 0 <= i < slots.len() && #[trigger] slots[i] == (c, r)
}

/// Every slot points at an existing row of an existing chunk.
pub open spec fn slots_wf(chunks: Seq<Chunk>, slots: Seq<(int, int)>) -> bool {
    forall|i: int|
        0 <= i < slots.len() ==> 0 <= (#[trigger] slots[i]).0 < chunks.len() && 0 <= slots[i].1
            < chunks[slots[i].0].entities@.len()
}

/// No slot is written twice.
pub open spec fn slots_distinct(slots: Seq<(int, int)>) -> bool {
    forall|i: int, j: int| 0 <= i < j < slots.len() ==> #[trigger] slots[i] != #[trigger] slots[j]
}

/// `out` is `chunks` with `vals[i]` stored at slot `slots[i]` for each
/// `i`, and every other value, and all shape and entity columns, intact.
pub open spec fn is_slots_write(
    chunks: Seq<Chunk>,
    slots: Seq<(int, int)>,
    vals: Seq<u64>,
    out: Seq<Chunk>,
) -> bool {
    &&& out.len() == chunks.len()
    &&& forall|c: int|
        0 <= c < chunks.len() ==> (#[trigger] out[c]).shape@ == chunks[c].shape@ && out[c].entities@
            == chunks[c].entities@ && out[c].values@.len() == chunks[c].values@.len()
    &&& forall|i: int|
        0 <= i < slots.len() ==> out[(#[trigger] slots[i]).0].values@[slots[i].1] == vals[i]
    &&& forall|c: int, r: int|
        0 <= c < chunks.len() && 0 <= r < chunks[c].values@.len() && !slot_in(slots, c, r) ==> (
        #[trigger] out[c].values@[r]) == chunks[c].values@[r]
}

/// One write step extends the written slot prefix by one.
proof fn lemma_slots_write_step(
    chunks0: Seq<Chunk>,
    slots: Seq<(int, int)>,
    vals: Seq<u64>,
    pre: Seq<Chunk>,
    out: Seq<Chunk>,
    k: int,
)
    requires
        chunks_wf(chunks0),
        slots_wf(chunks0, slots),
        slots_distinct(slots),
        vals.len() == slots.len(),
        0 <= k < slots.len(),
        is_slots_write(chunks0, slots.subrange(0, k), vals.subrange(0, k), pre),
        out.len() == pre.len(),
        out == pre.update(slots[k].0, out[slots[k].0]),
        out[slots[k].0].shape@ == pre[slots[k].0].shape@,
        out[slots[k].0].entities@ == pre[slots[k].0].entities@,
        out[slots[k].0].values@ == pre[slots[k].0].values@.update(slots[k].1, vals[k]),
    ensures
        is_slots_write(chunks0, slots.subrange(0, k + 1), vals.subrange(0, k + 1), out),
{
    let ck = slots[k].0;
    let rk = slots[k].1;
    assert forall|i: int|
        0 <= i < slots.subrange(0, k + 1).len() implies out[(#[trigger] slots.subrange(
        0,
        k + 1,
    )[i]).0].values@[slots.subrange(0, k + 1)[i].1] == vals.subrange(0, k + 1)[i] by {
        assert(slots.subrange(0, k + 1)[i] == slots[i]);
        assert(vals.subrange(0, k + 1)[i] == vals[i]);
        if i < k {
            assert(slots.subrange(0, k)[i] == slots[i]);
            assert(vals.subrange(0, k)[i] == vals[i]);
            assert(pre[slots[i].0].values@[slots[i].1] == vals[i]);
            assert(pre[slots[i].0].values@.len() == chunks0[slots[i].0].values@.len());
            assert(chunks0[slots[i].0].wf());
            if slots[i].0 != ck {
                assert(out[slots[i].0] == pre[slots[i].0]);
            } else {
                assert(slots[i] != slots[k]);
                assert(slots[i].1 != rk);
                assert(out[ck].values@ == pre[ck].values@.update(rk, vals[k]));
                assert(out[slots[i].0].values@[slots[i].1] == pre[slots[i].0].values@[slots[i].1]);
            }
        }
    }
    assert forall|c: int, r: int|
        0 <= c < chunks0.len() && 0 <= r < chunks0[c].values@.len() && !slot_in(
            slots.subrange(0, k + 1),
            c,
            r,
        ) implies (#[trigger] out[c].values@[r]) == chunks0[c].values@[r] by {
        assert forall|i: int| 0 <= i < k implies #[trigger] slots.subrange(0, k)[i] != (c, r) by {
            assert(slots.subrange(0, k + 1)[i] == slots.subrange(0, k)[i]);
        }
        assert(!slot_in(slots.subrange(0, k), c, r));
        assert(pre[c].values@[r] == chunks0[c].values@[r]);
        assert(pre[c].values@.len() == chunks0[c].values@.len());
        if c == ck {
            assert(slots.subrange(0, k + 1)[k] == slots[k]);
            assert((c, r) != (ck, rk));
            assert(r != rk);
            assert(out[ck].values@ == pre[ck].values@.update(rk, vals[k]));
            assert(out[c].values@[r] == pre[c].values@[r]);
        } else {
            assert(out[c] == pre[c]);
        }
    }
}

/// Stores `vals[i]` at slot `slots[i]` for every `i`; no other value and
/// no entity or shape column changes.
pub fn write_slots(chunks: &mut Vec<Chunk>, slots: &Vec<(usize, usize)>, vals: &Vec<u64>)
    requires
        chunks_wf(old(chunks)@),
        slots_wf(old(chunks)@, slots_view(slots@)),
        slots_distinct(slots_view(slots@)),
        vals@.len() == slots@.len(),
    ensures
        chunks_wf(final(chunks)@),
        final(chunks)@.len() == old(chunks)@.len(),
        forall|c: int|
            0 <= c < old(chunks)@.len() ==> (#[trigger] final(chunks)@[c]).entities@ == old(
                chunks,
            )@[c].entities@ && final(chunks)@[c].shape@ == old(chunks)@[c].shape@,
        is_slots_write(old(chunks)@, slots_view(slots@), vals@, final(chunks)@),
    {
    let n = slots.len();
    let ghost sv = slots_view(slots@);
    proof {
        assert(sv.subrange(0, 0) =~= Seq::<(int, int)>::empty());
        assert(vals@.subrange(0, 0) =~= Seq::<u64>::empty());
    }
    for k in 0..n
        invariant
            n == slots@.len(),
            sv == slots_view(slots@),
            vals@.len() == n,
            chunks_wf(chunks@),
            chunks_wf(old(chunks)@),
            chunks@.len() == old(chunks)@.len(),
            slots_wf(old(chunks)@, sv),
            slots_distinct(sv),
            forall|c: int|
                0 <= c < old(chunks)@.len() ==> (#[trigger] chunks@[c]).entities@ == old(
                    chunks,
                )@[c].entities@ && chunks@[c].shape@ == old(chunks)@[c].shape@,
            is_slots_write(old(chunks)@, sv.subrange(0, k as int), vals@.subrange(0, k as int), chunks@),
    {
        let (c, r) = slots[k];
        proof {
            assert(sv[k as int] == (c as int, r as int));
            assert(chunks@[c as int].entities@ == old(chunks)@[c as int].entities@);
            assert(chunks@[c as int].wf());
        }
        let ghost pre = chunks@;
        let mut ch = chunks.remove(c);
        ch.values.set(r, vals[k]);
        chunks.insert(c, ch);
        proof {
            assert(chunks@ =~= pre.update(c as int, chunks@[c as int]));
            lemma_slots_write_step(old(chunks)@, sv, vals@, pre, chunks@, k as int);
        }
    }
    proof {
        assert(sv.subrange(0, n as int) =~= sv);
        assert(vals@.subrange(0, n as int) =~= vals@);
    }
}

/// Every read slot holds one of the listed entities.
pub proof fn lemma_list_slots_entities(q: QueryState, chunks: Seq<Chunk>, list: Seq<Entity>)
    requires
        q.wf_for(chunks),
    ensures
        slots_wf(chunks, list_slots(q, chunks, list)),
        forall|i: int|
            0 <= i < list_slots(q, chunks, list).len() ==> list.contains(
                chunks[(#[trigger] list_slots(q, chunks, list)[i]).0].entities@[list_slots(
                    q,
                    chunks,
                    list,
                )[i].1],
            ),
    decreases list.len(),
{
    if list.len() > 0 {
        lemma_list_slots_entities(q, chunks, list.drop_first());
        let slots = list_slots(q, chunks, list);
        let rest = list_slots(q, chunks, list.drop_first());
        match find_entity(q, chunks, list[0]) {
            Some((c, r)) => {
                lemma_find_entity_bounds(q, chunks, list[0], 0, c, r);
                assert(slots =~= seq![(c, r)] + rest);
                assert forall|i: int| 0 <= i < slots.len() implies 0 <= (#[trigger] slots[i]).0
                    < chunks.len() && 0 <= slots[i].1 < chunks[slots[i].0].entities@.len()
                    && list.contains(chunks[slots[i].0].entities@[slots[i].1]) by {
                    if i == 0 {
                        assert(slots[0] == (c, r));
                        assert(chunks[c].entities@[r] == list[0]);
                        assert(list[0] == list[0] && 0 <= 0 < list.len());
                    } else {
                        assert(slots[i] == rest[i - 1]);
                        let e2 = chunks[rest[i - 1].0].entities@[rest[i - 1].1];
                        assert(list.drop_first().contains(e2));
                        let j = choose|j: int|
                            0 <= j < list.drop_first().len() && list.drop_first()[j] == e2;
                        assert(list[j + 1] == e2);
                    }
                }
            },
            None => {
                assert(slots =~= rest);
                assert forall|i: int| 0 <= i < slots.len() implies 0 <= (#[trigger] slots[i]).0
                    < chunks.len() && 0 <= slots[i].1 < chunks[slots[i].0].entities@.len()
                    && list.contains(chunks[slots[i].0].entities@[slots[i].1]) by {
                    assert(slots[i] == rest[i]);
                    let e2 = chunks[rest[i].0].entities@[rest[i].1];
                    assert(list.drop_first().contains(e2));
                    let j = choose|j: int|
                        0 <= j < list.drop_first().len() && list.drop_first()[j] == e2;
                    assert(list[j + 1] == e2);
                }
            },
        }
    }
}

/// A duplicate-free entity list reads pairwise distinct slots.
pub proof fn lemma_list_slots_distinct(q: QueryState, chunks: Seq<Chunk>, list: Seq<Entity>)
    requires
        q.wf_for(chunks),
        seq_distinct(list),
    ensures
        slots_distinct(list_slots(q, chunks, list)),
    decreases list.len(),
{
    if list.len() > 0 {
        assert(seq_distinct(list.drop_first())) by {
            assert forall|i: int, j: int|
                0 <= i < j < list.drop_first().len() implies #[trigger] list.drop_first()[i]
                != #[trigger] list.drop_first()[j] by {
                assert(list[i + 1] != list[j + 1]);
            }
        }
        lemma_list_slots_distinct(q, chunks, list.drop_first());
        lemma_list_slots_entities(q, chunks, list.drop_first());
        let slots = list_slots(q, chunks, list);
        let rest = list_slots(q, chunks, list.drop_first());
        match find_entity(q, chunks, list[0]) {
            Some((c, r)) => {
                lemma_find_entity_bounds(q, chunks, list[0], 0, c, r);
                assert(slots =~= seq![(c, r)] + rest);
                assert forall|i: int, j: int|
                    0 <= i < j < slots.len() implies #[trigger] slots[i] != #[trigger] slots[j] by {
                    if i == 0 {
                        assert(slots[j] == rest[j - 1]);
                        let e2 = chunks[rest[j - 1].0].entities@[rest[j - 1].1];
                        assert(list.drop_first().contains(e2));
                        let jj = choose|jj: int|
                            0 <= jj < list.drop_first().len() && list.drop_first()[jj] == e2;
                        assert(list[jj + 1] == e2);
                        assert(list[0] != list[jj + 1]);
                        assert(chunks[c].entities@[r] == list[0]);
                        if slots[0] == slots[j] {
                            assert(e2 == list[0]);
                        }
                    } else {
                        assert(slots[i] == rest[i - 1] && slots[j] == rest[j - 1]);
                    }
                }
            },
            None => {
                assert(slots =~= rest);
                assert forall|i: int, j: int|
                    0 <= i < j < slots.len() implies #[trigger] slots[i] != #[trigger] slots[j] by {
                    assert(slots[i] == rest[i] && slots[j] == rest[j]);
                }
            },
        }
    }
}

/// The ranges tile `[0, len)` in order: each is non-empty, within bounds,
/// and starts where the previous one ended.
#[verifier::opaque]
pub open spec fn ranges_chained(rsv: Seq<(usize, usize)>, len: int) -> bool {
    &&& forall|i: int| 0 <= i < rsv.len() ==> ((#[trigger] rsv[i]).0 < rsv[i].1 <= len)
    &&& forall|i: int| 0 < i < rsv.len() ==> ((#[trigger] rsv[i]).0 == rsv[i - 1].1)
    &&& (rsv.len() > 0 ==> rsv[0].0 == 0 && rsv[rsv.len() - 1].1 == len)
    &&& (rsv.len() == 0 ==> len == 0)
}

/// Splits the index range `[0, len)` into contiguous batches of at most
/// `batch_size` indices each.
pub fn make_ranges(len: usize, batch_size: usize) -> (rs: Vec<(usize, usize)>)
    requires
        batch_size >= 1,
    ensures
        forall|i: int|
            0 <= i < rs@.len() ==> (#[trigger] rs@[i]).0 < rs@[i].1 <= len && rs@[i].1 - rs@[i].0
                <= batch_size,
        rs@.len() == 0 <==> len == 0,
        rs@.len() > 0 ==> rs@[0].0 == 0 && rs@[rs@.len() - 1].1 == len,
        forall|i: int| 0 < i < rs@.len() ==> (#[trigger] rs@[i]).0 == rs@[i - 1].1,
{
    let mut rs: Vec<(usize, usize)> = Vec::new();
    let mut lo: usize = 0;
    while lo < len
        invariant
            batch_size >= 1,
            lo <= len,
            forall|i: int|
                0 <= i < rs@.len() ==> (#[trigger] rs@[i]).0 < rs@[i].1 <= len && rs@[i].1
                    - rs@[i].0 <= batch_size,
            rs@.len() == 0 ==> lo == 0,
            rs@.len() > 0 ==> rs@[0].0 == 0 && rs@[rs@.len() - 1].1 == lo,
            lo == 0 ==> rs@.len() == 0,
            forall|i: int| 0 < i < rs@.len() ==> (#[trigger] rs@[i]).0 == rs@[i - 1].1,
        decreases len - lo,
    {
        let hi = if len - lo < batch_size {
            len
        } else {
            lo + batch_size
        };
        rs.push((lo, hi));
        lo = hi;
    }
    rs
}

/// A found row lies inside the chunk and holds the entity.
pub proof fn lemma_find_row_bounds(c: Chunk, e: Entity, from: int, r: int)
    requires
        find_row_from(c, e, from) == Some(r),
    ensures
        from <= r < c.entities@.len(),
        c.entities@[r] == e,
    decreases c.entities@.len() - from,
{
    if !(from < 0 || from >= c.entities@.len()) && c.entities@[from] != e {
        lemma_find_row_bounds(c, e, from + 1, r);
    }
}

/// A found location lies inside the storage and holds the entity.
pub proof fn lemma_find_entity_bounds(
    q: QueryState,
    chunks: Seq<Chunk>,
    e: Entity,
    from: int,
    c: int,
    r: int,
)
    requires
        q.wf_for(chunks),
        find_entity_from(q, chunks, e, from) == Some((c, r)),
    ensures
        0 <= c < chunks.len(),
        0 <= r < chunks[c].entities@.len(),
        chunks[c].entities@[r] == e,
    decreases q.matched@.len() - from,
{
    if !(from < 0 || from >= q.matched@.len()) {
        let id = q.matched@[from] as int;
        match find_row_from(chunks[id], e, 0) {
            Some(rr) => {
                lemma_find_row_bounds(chunks[id], e, 0, rr);
            },
            None => {
                lemma_find_entity_bounds(q, chunks, e, from + 1, c, r);
            },
        }
    }
}

proof fn lemma_find_row_skip(c: Chunk, e: Entity, r: int)
    requires
        0 <= r <= c.entities@.len(),
        forall|j: int| 0 <= j < r ==> (#[trigger] c.entities@[j]) != e,
    ensures
        find_row_from(c, e, 0) == find_row_from(c, e, r),
    decreases r,
{
    if r > 0 {
        lemma_find_row_skip(c, e, r - 1);
    }
}

proof fn lemma_find_entity_skip(q: QueryState, chunks: Seq<Chunk>, e: Entity, k: int)
    requires
        0 <= k <= q.matched@.len(),
        forall|j: int|
            0 <= j < k ==> find_row_from(chunks[(#[trigger] q.matched@[j]) as int], e, 0) is None,
    ensures
        find_entity(q, chunks, e) == find_entity_from(q, chunks, e, k),
    decreases k,
{
    if k > 0 {
        assert(find_row_from(chunks[q.matched@[k - 1] as int], e, 0) is None);
        lemma_find_entity_skip(q, chunks, e, k - 1);
    }
}

/// The first row of `c` holding `e`, if any.
fn find_row(c: &Chunk, e: Entity) -> (r: Option<usize>)
    ensures
        match r {
            Some(row) => find_row_from(*c, e, 0) == Some(row as int),
            None => find_row_from(*c, e, 0) is None,
        },
{
    let n = c.entities.len();
    for row in 0..n
        invariant
            n == c.entities@.len(),
            forall|j: int| 0 <= j < row ==> (#[trigger] c.entities@[j]) != e,
    {
        if c.entities[row].id == e.id {
            proof {
                lemma_find_row_skip(*c, e, row as int);
            }
            return Some(row);
        }
    }
    proof {
        lemma_find_row_skip(*c, e, n as int);
    }
    None
}

/// Looks an entity up among the matched chunks, in matched order.
pub fn find_entity_exec(chunks: &Vec<Chunk>, q: &QueryState, e: Entity) -> (r: Option<
    (usize, usize),
>)
    requires
        q.wf_for(chunks@),
    ensures
        match r {
            Some((c, row)) => find_entity(*q, chunks@, e) == Some((c as int, row as int)),
            None => find_entity(*q, chunks@, e) is None,
        },
{
    let m = q.matched.len();
    for k in 0..m
        invariant
            m == q.matched@.len(),
            q.wf_for(chunks@),
            forall|j: int|
                0 <= j < k ==> find_row_from(chunks@[(#[trigger] q.matched@[j]) as int], e, 0) is None,
    {
        let id = q.matched[k];
        match find_row(&chunks[id], e) {
            Some(row) => {
                proof {
                    lemma_find_entity_skip(*q, chunks@, e, k as int);
                }
                return Some((id, row));
            },
            None => {},
        }
    }
    proof {
        lemma_find_entity_skip(*q, chunks@, e, m as int);
    }
    None
}

/// Collects the items and slots a restricted scan of `list[lo..hi]`
/// visits, in list order.
pub fn collect_list_items(
    chunks: &Vec<Chunk>,
    q: &QueryState,
    list: &Vec<Entity>,
    lo: usize,
    hi: usize,
) -> (r: (Vec<QueryItem>, Vec<(usize, usize)>))
    requires
        q.wf_for(chunks@),
        chunks_wf(chunks@),
        lo <= hi <= list@.len(),
    ensures
        r.0@ == list_items(*q, chunks@, list@.subrange(lo as int, hi as int)),
        r.1@.len() == r.0@.len(),
        forall|i: int|
            0 <= i < r.1@.len() ==> list_slots(*q, chunks@, list@.subrange(lo as int, hi as int))[i]
                == ((#[trigger] r.1@[i]).0 as int, r.1@[i].1 as int),
{
    let mut items: Vec<QueryItem> = Vec::new();
    let mut slots: Vec<(usize, usize)> = Vec::new();
    for i in lo..hi
        invariant
            q.wf_for(chunks@),
            chunks_wf(chunks@),
            lo <= i <= hi <= list@.len(),
            items@ == list_items(*q, chunks@, list@.subrange(lo as int, i as int)),
            slots@.len() == items@.len(),
            list_slots(*q, chunks@, list@.subrange(lo as int, i as int)).len() == slots@.len(),
            forall|ii: int|
                0 <= ii < slots@.len() ==> list_slots(
                    *q,
                    chunks@,
                    list@.subrange(lo as int, i as int),
                )[ii] == ((#[trigger] slots@[ii]).0 as int, slots@[ii].1 as int),
    {
        let e = list[i];
        let ghost pre = list@.subrange(lo as int, i as int);
        let ghost one = list@.subrange(i as int, i as int + 1);
        proof {
            lemma_list_split(*q, chunks@, pre, one);
            assert(pre + one =~= list@.subrange(lo as int, i as int + 1));
            assert(one[0] == e);
            assert(one.drop_first() =~= Seq::<Entity>::empty());
        }
        match find_entity_exec(chunks, q, e) {
            Some((c, row)) => {
                proof {
                    lemma_find_entity_bounds(*q, chunks@, e, 0, c as int, row as int);
                    assert(chunks@[c as int].wf());
                    assert(find_entity(*q, chunks@, e) == Some((c as int, row as int)));
                    assert(one[0] == e && find_entity(*q, chunks@, one[0]) == Some(
                        (c as int, row as int),
                    ));
                    assert(list_items(*q, chunks@, one.drop_first()) =~= Seq::<QueryItem>::empty());
                    assert(list_slots(*q, chunks@, one.drop_first()) =~= Seq::<(int, int)>::empty());
                    assert(list_items(*q, chunks@, one) =~= seq![
                        QueryItem {
                            entity: chunks@[c as int].entities@[row as int],
                            value: chunks@[c as int].values@[row as int],
                        },
                    ]);
                    assert(list_slots(*q, chunks@, one) =~= seq![(c as int, row as int)]);
                }
                let item = QueryItem { entity: chunks[c].entities[row], value: chunks[c].values[row] };
                items.push(item);
                slots.push((c, row));
                proof {
                    assert(items@ =~= list_items(*q, chunks@, pre) + list_items(*q, chunks@, one));
                }
            },
            None => {
                proof {
                    assert(one[0] == e && find_entity(*q, chunks@, one[0]) is None);
                    assert(list_items(*q, chunks@, one.drop_first()) =~= Seq::<QueryItem>::empty());
                    assert(list_slots(*q, chunks@, one.drop_first()) =~= Seq::<(int, int)>::empty());
                    assert(list_items(*q, chunks@, one) =~= Seq::<QueryItem>::empty());
                    assert(list_slots(*q, chunks@, one) =~= Seq::<(int, int)>::empty());
                    assert(items@ =~= list_items(*q, chunks@, pre) + list_items(*q, chunks@, one));
                }
            },
        }
    }
    proof {
        assert(list@.subrange(lo as int, hi as int) == list@.subrange(lo as int, hi as int));
    }
    (items, slots)
}

} // verus!
