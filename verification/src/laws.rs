//! Crate-level laws of the dispatch engine, stated and proved over the
//! same specifications its public contracts use.

use vstd::prelude::*;
use crate::storage::Chunk;
use crate::storage::QueryItem;
use crate::query::QueryState;
use crate::iter::Visit;
use crate::iter::is_matched_write;
use crate::iter::visited_of;
use crate::iter::written_of;
use crate::many::is_slots_write;
use crate::many::slot_in;
use crate::par_iter::dispatch_outcome;

verus! {

/// Law: however a dispatch call splits its work, the visited items are
/// those of one sequential scan. In particular, any two iteration calls
/// over the same query and storage — a parallel one with many tasks and a
/// sequential one with a single task, whatever their callbacks — visit the
/// same items, and so the same multiset of items; only the grouping into
/// tasks may differ.
pub proof fn lemma_iterations_visit_same_items<
    T1,
    INIT1: Fn() -> T1,
    F1: Fn(T1, QueryItem) -> (T1, u64),
    T2,
    INIT2: Fn() -> T2,
    F2: Fn(T2, QueryItem) -> (T2, u64),
>(
    init1: INIT1,
    func1: F1,
    init2: INIT2,
    func2: F2,
    q: QueryState,
    chunks0: Seq<Chunk>,
    out1: Seq<Chunk>,
    out2: Seq<Chunk>,
    accs1: Seq<T1>,
    accs2: Seq<T2>,
    runs1: Seq<Seq<Visit>>,
    runs2: Seq<Seq<Visit>>,
)
    requires
        dispatch_outcome(init1, func1, q, chunks0, out1, accs1, runs1),
        dispatch_outcome(init2, func2, q, chunks0, out2, accs2, runs2),
    ensures
        visited_of(runs1.flatten()) == q.matched_items(chunks0),
        visited_of(runs1.flatten()) == visited_of(runs2.flatten()),
        visited_of(runs1.flatten()).to_multiset() == visited_of(runs2.flatten()).to_multiset(),
{
}

/// Law: the values a mutable list iteration stores are a function of the
/// (slot, value) pairs alone. Two storages that both hold the same written
/// values at the same slots over the same starting chunks agree
/// everywhere, so the final component values do not depend on the order
/// the tasks completed or their writes were applied.
pub proof fn lemma_slot_writes_deterministic(
    chunks: Seq<Chunk>,
    slots: Seq<(int, int)>,
    vals: Seq<u64>,
    out1: Seq<Chunk>,
    out2: Seq<Chunk>,
)
    requires
        is_slots_write(chunks, slots, vals, out1),
        is_slots_write(chunks, slots, vals, out2),
    ensures
        out1.len() == out2.len(),
        forall|c: int|
            0 <= c < out1.len() ==> (#[trigger] out1[c]).shape@ == out2[c].shape@
                && out1[c].entities@ == out2[c].entities@ && out1[c].values@ == out2[c].values@,
{
    assert forall|c: int|
        0 <= c < out1.len() implies (#[trigger] out1[c]).shape@ == out2[c].shape@
        && out1[c].entities@ == out2[c].entities@ && out1[c].values@ == out2[c].values@ by {
        assert(out1[c].values@.len() == chunks[c].values@.len());
        assert(out2[c].values@.len() == chunks[c].values@.len());
        assert forall|r: int| 0 <= r < chunks[c].values@.len() implies out1[c].values@[r]
            == out2[c].values@[r] by {
            if slot_in(slots, c, r) {
                let i = choose|i: int| 0 <= i < slots.len() && #[trigger] slots[i] == (c, r);
                assert(out1[slots[i].0].values@[slots[i].1] == vals[i]);
                assert(out2[slots[i].0].values@[slots[i].1] == vals[i]);
            } else {
                assert(out1[c].values@[r] == chunks[c].values@[r]);
                assert(out2[c].values@[r] == chunks[c].values@[r]);
            }
        }
        assert(out1[c].values@ =~= out2[c].values@);
    }
}

/// The same holds of a full-scan write: the storage after the call is a
/// function of the written value sequence alone, not of how the values
/// were produced or grouped into batches.
pub proof fn lemma_matched_write_deterministic(
    q: QueryState,
    chunks: Seq<Chunk>,
    vals: Seq<u64>,
    out1: Seq<Chunk>,
    out2: Seq<Chunk>,
)
    requires
        is_matched_write(q, chunks, vals, out1),
        is_matched_write(q, chunks, vals, out2),
    ensures
        out1.len() == out2.len(),
        forall|c: int|
            0 <= c < out1.len() ==> (#[trigger] out1[c]).shape@ == out2[c].shape@
                && out1[c].entities@ == out2[c].entities@ && out1[c].values@ == out2[c].values@,
{
    assert forall|c: int|
        0 <= c < out1.len() implies (#[trigger] out1[c]).shape@ == out2[c].shape@
        && out1[c].entities@ == out2[c].entities@ && out1[c].values@ == out2[c].values@ by {
        if crate::iter::matched_before(q, q.matched@.len() as int, c) {
            let k = choose|k: int|
                0 <= k < q.matched@.len() && (#[trigger] q.matched@[k]) as int == c;
            assert(out1[c].values@ == vals.subrange(
                q.items_prefix(chunks, k).len() as int,
                q.items_prefix(chunks, k).len() + chunks[c].entities@.len() as int,
            ));
            assert(out2[c].values@ == vals.subrange(
                q.items_prefix(chunks, k).len() as int,
                q.items_prefix(chunks, k).len() + chunks[c].entities@.len() as int,
            ));
        } else {
            assert(out1[c] == chunks[c]);
            assert(out2[c] == chunks[c]);
        }
    }
}

/// Matched items only depend on the entity and value columns: two
/// storages equal in those columns are scanned identically.
proof fn lemma_matched_items_viewwise(q: QueryState, a: Seq<Chunk>, b: Seq<Chunk>, k: int)
    requires
        a.len() == b.len(),
        forall|c: int|
            0 <= c < a.len() ==> (#[trigger] a[c]).entities@ == b[c].entities@ && a[c].values@
                == b[c].values@,
        0 <= k <= q.matched@.len(),
        forall|kk: int| 0 <= kk < q.matched@.len() ==> (#[trigger] q.matched@[kk]) < a.len(),
    ensures
        q.items_prefix(a, k) == q.items_prefix(b, k),
    decreases k,
{
    if k > 0 {
        lemma_matched_items_viewwise(q, a, b, k - 1);
        let id = q.matched@[k - 1] as int;
        assert(a[id].items() =~= b[id].items());
    }
}

/// A write that stores every item's own value back leaves the storage as
/// it was, column for column.
pub proof fn lemma_readonly_write_is_identity(
    q: QueryState,
    chunks: Seq<Chunk>,
    vals: Seq<u64>,
    out: Seq<Chunk>,
)
    requires
        q.wf_for(chunks),
        crate::storage::chunks_wf(chunks),
        is_matched_write(q, chunks, vals, out),
        vals == q.matched_items(chunks).map_values(|item: QueryItem| item.value),
    ensures
        out.len() == chunks.len(),
        forall|c: int|
            0 <= c < chunks.len() ==> (#[trigger] out[c]).shape@ == chunks[c].shape@
                && out[c].entities@ == chunks[c].entities@ && out[c].values@ == chunks[c].values@,
{
    assert forall|c: int|
        0 <= c < chunks.len() implies (#[trigger] out[c]).shape@ == chunks[c].shape@
        && out[c].entities@ == chunks[c].entities@ && out[c].values@ == chunks[c].values@ by {
        if crate::iter::matched_before(q, q.matched@.len() as int, c) {
            let k = choose|k: int|
                0 <= k < q.matched@.len() && (#[trigger] q.matched@[k]) as int == c;
            lemma_prefix_of_matched_items(q, chunks, k);
            let off = q.items_prefix(chunks, k).len() as int;
            assert(out[c].values@ == vals.subrange(off, off + chunks[c].entities@.len() as int));
            assert forall|r: int| 0 <= r < chunks[c].values@.len() implies out[c].values@[r]
                == chunks[c].values@[r] by {
                assert(q.matched_items(chunks)[off + r] == chunks[c].items()[r]);
                assert(vals[off + r] == chunks[c].items()[r].value);
                assert(chunks[c].items()[r].value == chunks[c].values@[r]);
            }
            assert(out[c].values@ =~= chunks[c].values@);
        } else {
            assert(out[c] == chunks[c]);
        }
    }
}

/// The scan of the whole matched set begins with the scan of any matched
/// prefix, and continues with the `k`-th matched chunk's items.
proof fn lemma_prefix_of_matched_items(q: QueryState, chunks: Seq<Chunk>, k: int)
    requires
        0 <= k < q.matched@.len(),
    ensures
        forall|r: int|
            0 <= r < chunks[q.matched@[k] as int].entities@.len() ==> q.matched_items(chunks)[(
            q.items_prefix(chunks, k).len() + r) as int] == (#[trigger] chunks[q.matched@[k] as int].items()[r]),
        q.items_prefix(chunks, k).len() + chunks[q.matched@[k] as int].entities@.len()
            <= q.matched_items(chunks).len(),
{
    lemma_prefix_extends(q, chunks, k + 1, q.matched@.len() as int);
    assert(q.items_prefix(chunks, k + 1) == q.items_prefix(chunks, k) + chunks[q.matched@[k] as int].items());
    assert forall|r: int|
        0 <= r < chunks[q.matched@[k] as int].entities@.len() implies q.matched_items(chunks)[(
        q.items_prefix(chunks, k).len() + r) as int] == (#[trigger] chunks[q.matched@[k] as int].items()[r]) by {
        assert(q.items_prefix(chunks, k + 1)[q.items_prefix(chunks, k).len() + r] == chunks[
            q.matched@[k] as int].items()[r]);
    }
}

/// A longer matched prefix scan extends a shorter one.
proof fn lemma_prefix_extends(q: QueryState, chunks: Seq<Chunk>, k1: int, k2: int)
    requires
        0 <= k1 <= k2,
    ensures
        q.items_prefix(chunks, k2).subrange(0, q.items_prefix(chunks, k1).len() as int)
            == q.items_prefix(chunks, k1),
        q.items_prefix(chunks, k1).len() <= q.items_prefix(chunks, k2).len(),
        forall|i: int|
            0 <= i < q.items_prefix(chunks, k1).len() ==> (#[trigger] q.items_prefix(chunks, k2)[i])
                == q.items_prefix(chunks, k1)[i],
    decreases k2,
{
    if k2 > k1 {
        lemma_prefix_extends(q, chunks, k1, k2 - 1);
        assert(q.items_prefix(chunks, k2).subrange(0, q.items_prefix(chunks, k1).len() as int)
            =~= q.items_prefix(chunks, k1));
    } else {
        assert(q.items_prefix(chunks, k2).subrange(0, q.items_prefix(chunks, k1).len() as int)
            =~= q.items_prefix(chunks, k1));
    }
}

/// Law: re-running an iteration over an unchanged world visits the
/// identical items. A read-only pass (one whose visits wrote every item's
/// own value back) leaves the storage column-equal to what it was, and a
/// second dispatch over that storage scans the very same item sequence —
/// so the same multiset — as the first.
pub proof fn lemma_restartable<
    T1,
    INIT1: Fn() -> T1,
    F1: Fn(T1, QueryItem) -> (T1, u64),
    T2,
    INIT2: Fn() -> T2,
    F2: Fn(T2, QueryItem) -> (T2, u64),
>(
    init1: INIT1,
    func1: F1,
    init2: INIT2,
    func2: F2,
    q: QueryState,
    chunks0: Seq<Chunk>,
    chunks1: Seq<Chunk>,
    chunks2: Seq<Chunk>,
    accs1: Seq<T1>,
    accs2: Seq<T2>,
    runs1: Seq<Seq<Visit>>,
    runs2: Seq<Seq<Visit>>,
)
    requires
        q.wf_for(chunks0),
        crate::storage::chunks_wf(chunks0),
        dispatch_outcome(init1, func1, q, chunks0, chunks1, accs1, runs1),
        written_of(runs1.flatten()) == visited_of(runs1.flatten()).map_values(
            |item: QueryItem| item.value,
        ),
        dispatch_outcome(init2, func2, q, chunks1, chunks2, accs2, runs2),
    ensures
        visited_of(runs2.flatten()) == visited_of(runs1.flatten()),
        visited_of(runs2.flatten()).to_multiset() == visited_of(runs1.flatten()).to_multiset(),
{
    lemma_readonly_write_is_identity(q, chunks0, written_of(runs1.flatten()), chunks1);
    lemma_matched_items_viewwise(q, chunks0, chunks1, q.matched@.len() as int);
    assert(q.matched_items(chunks1) == q.matched_items(chunks0));
}

} // verus!
