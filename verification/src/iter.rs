//! The sequential query core: which items a scan visits, how a fold over
//! them is described, and how written values land back in the chunks.

use vstd::prelude::*;
use vstd::pervasive::VecAdditionalExecFns;
use crate::storage::Chunk;
use crate::storage::QueryItem;
use crate::storage::chunks_wf;
use crate::query::QueryState;

verus! {

/// A contiguous run of rows `[start, end)` of one storage chunk, assigned
/// to a single batch.
#[derive(Clone, Copy, PartialEq, Eq, Structural, Debug)]
pub struct Segment {
    /// The storage identifier of the chunk the rows come from.
    pub chunk: usize,
    /// First row of the run.
    pub start: usize,
    /// One past the last row of the run.
    pub end: usize,
}

impl Segment {
    /// The run lies inside its chunk.
    pub open spec fn wf(self, chunks: Seq<Chunk>) -> bool {
        &&& (self.chunk as int) < chunks.len()
        &&& self.start <= self.end <= chunks[self.chunk as int].entities@.len()
    }

    /// The items of the run, in row order.
    pub open spec fn items(self, chunks: Seq<Chunk>) -> Seq<QueryItem> {
        chunks[self.chunk as int].items().subrange(self.start as int, self.end as int)
    }
}

/// All segments lie inside their chunks.
pub open spec fn segs_wf(chunks: Seq<Chunk>, segs: Seq<Segment>) -> bool {
    forall|i: int| 0 <= i < segs.len() ==> (#[trigger] segs[i]).wf(chunks)
}

/// The items of a segment list, concatenated in list order.
pub open spec fn segs_items(chunks: Seq<Chunk>, segs: Seq<Segment>) -> Seq<QueryItem>
    decreases segs.len(),
{
    if segs.len() == 0 {
        Seq::empty()
    } else {
        segs_items(chunks, segs.drop_last()) + segs.last().items(chunks)
    }
}

/// One visit of a fold: the item handed to the callback and the value the
/// callback wrote back for it.
pub type Visit = (QueryItem, u64);

/// `visits` is a possible trace of folding `f` over the listed items
/// starting from accumulator `a0` and ending at `an`: each step's new
/// accumulator and written value are an allowed outcome of `f` on the
/// previous accumulator and that item.
pub open spec fn fold_chain<T, F: Fn(T, QueryItem) -> (T, u64)>(
    f: F,
    a0: T,
    visits: Seq<Visit>,
    an: T,
) -> bool
    decreases visits.len(),
{
    if visits.len() == 0 {
        an == a0
    } else {
        exists|mid: T|
            #[trigger] call_ensures(f, (a0, visits[0].0), (mid, visits[0].1)) && fold_chain(
                f,
                mid,
                visits.drop_first(),
                an,
            )
    }
}

/// The items of a visit trace.
pub open spec fn visited_of(visits: Seq<Visit>) -> Seq<QueryItem> {
    visits.map_values(|v: Visit| v.0)
}

/// The values a visit trace wrote back, one per item.
pub open spec fn written_of(visits: Seq<Visit>) -> Seq<u64> {
    visits.map_values(|v: Visit| v.1)
}

/// Pairs items with the values written for them.
pub open spec fn zip_visits(items: Seq<QueryItem>, vals: Seq<u64>) -> Seq<Visit>
    recommends
        items.len() == vals.len(),
{
    Seq::new(items.len(), |i: int| (items[i], vals[i]))
}

/// Extending a fold trace by one more allowed step keeps it a fold trace.
pub proof fn lemma_fold_chain_snoc<T, F: Fn(T, QueryItem) -> (T, u64)>(
    f: F,
    a0: T,
    visits: Seq<Visit>,
    an: T,
    item: QueryItem,
    val: u64,
    next: T,
)
    requires
        fold_chain(f, a0, visits, an),
        call_ensures(f, (an, item), (next, val)),
    ensures
        fold_chain(f, a0, visits.push((item, val)), next),
    decreases visits.len(),
{
    let p = visits.push((item, val));
    if visits.len() == 0 {
        assert(p[0] == (item, val));
        assert(p.drop_first() =~= Seq::<Visit>::empty());
        assert(fold_chain(f, next, p.drop_first(), next));
        assert(call_ensures(f, (a0, p[0].0), (next, p[0].1)));
    } else {
        let mid = choose|mid: T|
            #[trigger] call_ensures(f, (a0, visits[0].0), (mid, visits[0].1)) && fold_chain(
                f,
                mid,
                visits.drop_first(),
                an,
            );
        lemma_fold_chain_snoc(f, mid, visits.drop_first(), an, item, val, next);
        assert(p.drop_first() =~= visits.drop_first().push((item, val)));
        assert(p[0] == visits[0]);
        assert(call_ensures(f, (a0, p[0].0), (mid, p[0].1)) && fold_chain(f, mid, p.drop_first(), next));
    }
}

/// The visit's written value is an allowed outcome of `f` on its item for
/// some pair of accumulators.
pub open spec fn visit_consistent<T, F: Fn(T, QueryItem) -> (T, u64)>(f: F, v: Visit) -> bool {
    exists|a: T, b: T| #[trigger] call_ensures(f, (a, v.0), (b, v.1))
}

/// Every step of a fold trace is an allowed outcome of `f` on its item.
pub proof fn lemma_fold_chain_pointwise<T, F: Fn(T, QueryItem) -> (T, u64)>(
    f: F,
    a0: T,
    visits: Seq<Visit>,
    an: T,
)
    requires
        fold_chain(f, a0, visits, an),
    ensures
        forall|i: int| 0 <= i < visits.len() ==> visit_consistent::<T, F>(f, #[trigger] visits[i]),
    decreases visits.len(),
{
    if visits.len() > 0 {
        let mid = choose|mid: T|
            #[trigger] call_ensures(f, (a0, visits[0].0), (mid, visits[0].1)) && fold_chain(
                f,
                mid,
                visits.drop_first(),
                an,
            );
        lemma_fold_chain_pointwise(f, mid, visits.drop_first(), an);
        assert forall|i: int|
            0 <= i < visits.len() implies visit_consistent::<T, F>(f, #[trigger] visits[i]) by {
            if i == 0 {
                assert(call_ensures(f, (a0, visits[0].0), (mid, visits[0].1)));
            } else {
                assert(visits.drop_first()[i - 1] == visits[i]);
                assert(visit_consistent::<T, F>(f, visits.drop_first()[i - 1]));
            }
        }
    }
}

/// `items` is a possible trace of a read-only fold of `f` from `a0` to
/// `an`: each step's new accumulator is an allowed outcome of `f` on the
/// previous accumulator and that item.
pub open spec fn fold_chain_ro<T, F: Fn(T, QueryItem) -> T>(
    f: F,
    a0: T,
    items: Seq<QueryItem>,
    an: T,
) -> bool
    decreases items.len(),
{
    if items.len() == 0 {
        an == a0
    } else {
        exists|mid: T|
            #[trigger] call_ensures(f, (a0, items[0]), mid) && fold_chain_ro(
                f,
                mid,
                items.drop_first(),
                an,
            )
    }
}

/// Extending a read-only fold trace by one allowed step keeps it one.
pub proof fn lemma_fold_chain_ro_snoc<T, F: Fn(T, QueryItem) -> T>(
    f: F,
    a0: T,
    items: Seq<QueryItem>,
    an: T,
    item: QueryItem,
    next: T,
)
    requires
        fold_chain_ro(f, a0, items, an),
        call_ensures(f, (an, item), next),
    ensures
        fold_chain_ro(f, a0, items.push(item), next),
    decreases items.len(),
{
    let p = items.push(item);
    if items.len() == 0 {
        assert(p[0] == item);
        assert(p.drop_first() =~= Seq::<QueryItem>::empty());
        assert(fold_chain_ro(f, next, p.drop_first(), next));
        assert(call_ensures(f, (a0, p[0]), next));
    } else {
        let mid = choose|mid: T|
            #[trigger] call_ensures(f, (a0, items[0]), mid) && fold_chain_ro(
                f,
                mid,
                items.drop_first(),
                an,
            );
        lemma_fold_chain_ro_snoc(f, mid, items.drop_first(), an, item, next);
        assert(p.drop_first() =~= items.drop_first().push(item));
        assert(p[0] == items[0]);
        assert(call_ensures(f, (a0, p[0]), mid) && fold_chain_ro(f, mid, p.drop_first(), next));
    }
}

/// A read-only fold trace of a callback reached through a reference is one
/// of the callback itself.
pub proof fn lemma_fold_chain_ro_deref<T, F: Fn(T, QueryItem) -> T>(
    f: &F,
    a0: T,
    items: Seq<QueryItem>,
    an: T,
)
    ensures
        fold_chain_ro(f, a0, items, an) <==> fold_chain_ro(*f, a0, items, an),
    decreases items.len(),
{
    if items.len() > 0 {
        if fold_chain_ro(f, a0, items, an) {
            let mid = choose|mid: T|
                #[trigger] call_ensures(f, (a0, items[0]), mid) && fold_chain_ro(
                    f,
                    mid,
                    items.drop_first(),
                    an,
                );
            lemma_fold_chain_ro_deref(f, mid, items.drop_first(), an);
            assert(call_ensures(*f, (a0, items[0]), mid) && fold_chain_ro(
                *f,
                mid,
                items.drop_first(),
                an,
            ));
        }
        if fold_chain_ro(*f, a0, items, an) {
            let mid = choose|mid: T|
                #[trigger] call_ensures(*f, (a0, items[0]), mid) && fold_chain_ro(
                    *f,
                    mid,
                    items.drop_first(),
                    an,
                );
            lemma_fold_chain_ro_deref(f, mid, items.drop_first(), an);
            assert(call_ensures(f, (a0, items[0]), mid) && fold_chain_ro(
                f,
                mid,
                items.drop_first(),
                an,
            ));
        }
    }
}

/// Folds `func` over the given items read-only, starting from `a0`.
pub fn fold_items_ro<T, F: Fn(T, QueryItem) -> T>(items: &Vec<QueryItem>, a0: T, func: &F) -> (r: T)
    requires
        forall|a: T, item: QueryItem|
            items@.contains(item) ==> #[trigger] call_requires(*func, (a, item)),
    ensures
        fold_chain_ro(*func, a0, items@, r),
{
    let mut acc = a0;
    let n = items.len();
    let mut i: usize = 0;
    while i < n
        invariant
            n == items@.len(),
            0 <= i <= n,
            forall|a: T, item: QueryItem|
                items@.contains(item) ==> #[trigger] call_requires(*func, (a, item)),
            fold_chain_ro(*func, a0, items@.subrange(0, i as int), acc),
        decreases n - i,
    {
        let item = items[i];
        proof {
            assert(items@.contains(item));
        }
        let next = func(acc, item);
        proof {
            lemma_fold_chain_ro_snoc(*func, a0, items@.subrange(0, i as int), acc, item, next);
            assert(items@.subrange(0, i as int + 1) =~= items@.subrange(0, i as int).push(item));
        }
        acc = next;
        i += 1;
    }
    proof {
        assert(items@.subrange(0, n as int) =~= items@);
    }
    acc
}

/// Collects the items of a segment list, in order.
pub fn collect_segment_items(chunks: &Vec<Chunk>, segs: &Vec<Segment>) -> (v: Vec<QueryItem>)
    requires
        chunks_wf(chunks@),
        segs_wf(chunks@, segs@),
    ensures
        v@ == segs_items(chunks@, segs@),
{
    let mut v: Vec<QueryItem> = Vec::new();
    let n = segs.len();
    for s in 0..n
        invariant
            chunks_wf(chunks@),
            segs_wf(chunks@, segs@),
            n == segs@.len(),
            v@ == segs_items(chunks@, segs@.subrange(0, s as int)),
    {
        let seg = segs[s];
        let c = &chunks[seg.chunk];
        let ghost before = v@;
        let mut r = seg.start;
        while r < seg.end
            invariant
                chunks_wf(chunks@),
                seg.wf(chunks@),
                c == chunks@[seg.chunk as int],
                seg.start <= r <= seg.end,
                v@ == before + c.items().subrange(seg.start as int, r as int),
            decreases seg.end - r,
        {
            v.push(QueryItem { entity: c.entities[r], value: c.values[r] });
            proof {
                assert(c.items()[r as int] == QueryItem { entity: c.entities@[r as int], value: c.values@[r as int] });
                assert(v@ =~= before + c.items().subrange(seg.start as int, r as int + 1));
            }
            r += 1;
        }
        proof {
            assert(segs@.subrange(0, s as int + 1).drop_last() =~= segs@.subrange(0, s as int));
            assert(segs@.subrange(0, s as int + 1).last() == seg);
            assert(v@ =~= segs_items(chunks@, segs@.subrange(0, s as int)) + seg.items(chunks@));
        }
    }
    proof {
        assert(segs@.subrange(0, n as int) =~= segs@);
    }
    v
}

/// One full-range segment per matched chunk: the coverage of a whole scan.
pub fn full_segments(chunks: &Vec<Chunk>, q: &QueryState) -> (segs: Vec<Segment>)
    requires
        q.wf_for(chunks@),
    ensures
        segs_wf(chunks@, segs@),
        segs_items(chunks@, segs@) == q.matched_items(chunks@),
        segs@.len() == q.matched@.len(),
        forall|k: int|
            0 <= k < segs@.len() ==> (#[trigger] segs@[k]) == (Segment {
                chunk: q.matched@[k],
                start: 0,
                end: chunks@[q.matched@[k] as int].entities@.len() as usize,
            }),
{
    let mut segs: Vec<Segment> = Vec::new();
    let m = q.matched.len();
    for k in 0..m
        invariant
            q.wf_for(chunks@),
            m == q.matched@.len(),
            segs@.len() == k,
            segs_wf(chunks@, segs@),
            segs_items(chunks@, segs@) == q.items_prefix(chunks@, k as int),
            forall|kk: int|
                0 <= kk < k ==> (#[trigger] segs@[kk]) == (Segment {
                    chunk: q.matched@[kk],
                    start: 0,
                    end: chunks@[q.matched@[kk] as int].entities@.len() as usize,
                }),
    {
        let id = q.matched[k];
        let rows = chunks[id].entity_count();
        let seg = Segment { chunk: id, start: 0, end: rows };
        let ghost before = segs@;
        segs.push(seg);
        proof {
            assert(segs@.drop_last() =~= before);
            assert(seg.items(chunks@) =~= chunks@[id as int].items());
            assert(segs_items(chunks@, segs@) == q.items_prefix(chunks@, k as int + 1));
        }
    }
    segs
}

/// The chunk id `c` is the target of one of the first `upto` matched ids.
pub open spec fn matched_before(q: QueryState, upto: int, c: int) -> bool {
    exists|k: int| 0 <= k < upto && (#[trigger] q.matched@[k]) as int == c
}

/// `out` is `chunks` with the values of the first `upto` matched chunks
/// replaced by the corresponding runs of `vals` (aligned with the order in
/// which a scan visits the items); every other chunk, and the shape and
/// entity columns everywhere, are untouched.
pub open spec fn is_matched_write_upto(
    q: QueryState,
    chunks: Seq<Chunk>,
    vals: Seq<u64>,
    out: Seq<Chunk>,
    upto: int,
) -> bool {
    &&& out.len() == chunks.len()
    &&& forall|c: int| 0 <= c < chunks.len() && !matched_before(q, upto, c) ==> #[trigger] out[c] == chunks[c]
    &&& forall|k: int|
        0 <= k < upto ==> {
            let id = (#[trigger] q.matched@[k]) as int;
            &&& out[id].shape@ == chunks[id].shape@
            &&& out[id].entities@ == chunks[id].entities@
            &&& out[id].values@ == vals.subrange(
                q.items_prefix(chunks, k).len() as int,
                q.items_prefix(chunks, k).len() + chunks[id].entities@.len() as int,
            )
        }
}

/// `out` is `chunks` with every matched chunk's values replaced by the run
/// of `vals` that a full scan would have written to it.
pub open spec fn is_matched_write(
    q: QueryState,
    chunks: Seq<Chunk>,
    vals: Seq<u64>,
    out: Seq<Chunk>,
) -> bool {
    is_matched_write_upto(q, chunks, vals, out, q.matched@.len() as int)
}

/// The scan visits of a longer matched prefix are at least as many.
pub proof fn lemma_items_prefix_mono(q: QueryState, chunks: Seq<Chunk>, k1: int, k2: int)
    requires
        0 <= k1 <= k2,
    ensures
        q.items_prefix(chunks, k1).len() <= q.items_prefix(chunks, k2).len(),
    decreases k2,
{
    if k2 > k1 {
        lemma_items_prefix_mono(q, chunks, k1, k2 - 1);
    }
}

/// One write step extends the written prefix by one matched chunk.
proof fn lemma_write_matched_step(
    q: QueryState,
    chunks0: Seq<Chunk>,
    vals: Seq<u64>,
    pre: Seq<Chunk>,
    out: Seq<Chunk>,
    k: int,
)
    requires
        q.wf_for(chunks0),
        0 <= k < q.matched@.len(),
        is_matched_write_upto(q, chunks0, vals, pre, k),
        out == pre.update(
            q.matched@[k] as int,
            out[q.matched@[k] as int],
        ),
        out.len() == pre.len(),
        out[q.matched@[k] as int].shape@ == chunks0[q.matched@[k] as int].shape@,
        out[q.matched@[k] as int].entities@ == chunks0[q.matched@[k] as int].entities@,
        out[q.matched@[k] as int].values@ == vals.subrange(
            q.items_prefix(chunks0, k).len() as int,
            q.items_prefix(chunks0, k).len() + chunks0[q.matched@[k] as int].entities@.len() as int,
        ),
    ensures
        is_matched_write_upto(q, chunks0, vals, out, k + 1),
{
    let id = q.matched@[k] as int;
    assert forall|c: int|
        0 <= c < chunks0.len() && !matched_before(q, k + 1, c) implies #[trigger] out[c]
        == chunks0[c] by {
        assert(!matched_before(q, k, c));
        assert(c != id);
        assert(out[c] == pre[c]);
    }
    assert forall|kk: int| 0 <= kk < k + 1 implies {
        let i2 = (#[trigger] q.matched@[kk]) as int;
        &&& out[i2].shape@ == chunks0[i2].shape@
        &&& out[i2].entities@ == chunks0[i2].entities@
        &&& out[i2].values@ == vals.subrange(
            q.items_prefix(chunks0, kk).len() as int,
            q.items_prefix(chunks0, kk).len() + chunks0[i2].entities@.len() as int,
        )
    } by {
        let i2 = q.matched@[kk] as int;
        if kk < k {
            assert(q.matched@[kk] < q.matched@[k]);
            assert(i2 != id);
            assert(out[i2] == pre[i2]);
        } else {
            assert(i2 == id);
        }
    }
}

/// Copies `vals[off .. off + cnt]` into a fresh vector.
fn copy_range(vals: &Vec<u64>, off: usize, cnt: usize) -> (nv: Vec<u64>)
    requires
        off + cnt <= vals@.len(),
    ensures
        nv@ == vals@.subrange(off as int, off as int + cnt as int),
{
    let n = vals.len();
    let mut nv: Vec<u64> = Vec::new();
    let mut r: usize = 0;
    while r < cnt
        invariant
            r <= cnt,
            off + cnt <= vals@.len(),
            n == vals@.len(),
            nv@ == vals@.subrange(off as int, off as int + r as int),
        decreases cnt - r,
    {
        nv.push(vals[off + r]);
        proof {
            assert(nv@ =~= vals@.subrange(off as int, off as int + r as int + 1));
        }
        r += 1;
    }
    nv
}

/// Writes `vals` back into the matched chunks, run by run, in scan order.
#[verifier::rlimit(100)]
#[verifier::spinoff_prover]
pub fn write_matched(chunks: &mut Vec<Chunk>, q: &QueryState, vals: &Vec<u64>)
    requires
        chunks_wf(old(chunks)@),
        q.wf_for(old(chunks)@),
        vals@.len() == q.matched_items(old(chunks)@).len(),
    ensures
        is_matched_write(*q, old(chunks)@, vals@, final(chunks)@),
        chunks_wf(final(chunks)@),
        final(chunks)@.len() == old(chunks)@.len(),
        forall|c: int|
            0 <= c < old(chunks)@.len() ==> (#[trigger] final(chunks)@[c]).entities@ == old(
                chunks,
            )@[c].entities@ && final(chunks)@[c].shape@ == old(chunks)@[c].shape@,
{
    let m = q.matched.len();
    let vlen = vals.len();
    let mut off: usize = 0;
    for k in 0..m
        invariant
            m == q.matched@.len(),
            chunks@.len() == old(chunks)@.len(),
            chunks_wf(chunks@),
            q.wf_for(old(chunks)@),
            vals@.len() == q.matched_items(old(chunks)@).len(),
            vlen == vals@.len(),
            off == q.items_prefix(old(chunks)@, k as int).len(),
            is_matched_write_upto(*q, old(chunks)@, vals@, chunks@, k as int),
            forall|c: int|
                0 <= c < old(chunks)@.len() ==> (#[trigger] chunks@[c]).entities@ == old(
                    chunks,
                )@[c].entities@ && chunks@[c].shape@ == old(chunks)@[c].shape@,
    {
        let id = q.matched[k];
        let cnt = chunks[id].entity_count();
        proof {
            assert(chunks@[id as int].entities@ == old(chunks)@[id as int].entities@);
            assert(q.items_prefix(old(chunks)@, k as int + 1).len() == off + cnt);
            lemma_items_prefix_mono(*q, old(chunks)@, k as int + 1, m as int);
        }
        let nv = copy_range(vals, off, cnt);
        let ghost pre = chunks@;
        let mut ch = chunks.remove(id);
        ch.values = nv;
        chunks.insert(id, ch);
        proof {
            assert(chunks@ =~= pre.update(id as int, chunks@[id as int]));
            assert(chunks@[id as int].entities@ == old(chunks)@[id as int].entities@);
            assert(chunks@[id as int].values@ == vals@.subrange(
                q.items_prefix(old(chunks)@, k as int).len() as int,
                q.items_prefix(old(chunks)@, k as int).len() + old(chunks)@[id as int].entities@.len() as int,
            ));
            lemma_write_matched_step(*q, old(chunks)@, vals@, pre, chunks@, k as int);
        }
        off += cnt;
    }
}

/// Folds `func` over the given items starting from `a0`, returning the
/// final accumulator and the value written for each item.
pub fn fold_items<T, F: Fn(T, QueryItem) -> (T, u64)>(items: &Vec<QueryItem>, a0: T, func: &F) -> (r: (
    T,
    Vec<u64>,
))
    requires
        forall|a: T, item: QueryItem|
            items@.contains(item) ==> #[trigger] call_requires(*func, (a, item)),
    ensures
        r.1@.len() == items@.len(),
        fold_chain(*func, a0, zip_visits(items@, r.1@), r.0),
{
    let mut vals: Vec<u64> = Vec::new();
    let mut acc = a0;
    let n = items.len();
    let mut i: usize = 0;
    while i < n
        invariant
            n == items@.len(),
            0 <= i <= n,
            vals@.len() == i,
            forall|a: T, item: QueryItem|
                items@.contains(item) ==> #[trigger] call_requires(*func, (a, item)),
            fold_chain(*func, a0, zip_visits(items@.subrange(0, i as int), vals@), acc),
        decreases n - i,
    {
        let item = items[i];
        proof {
            assert(items@.contains(item));
        }
        let (next, val) = func(acc, item);
        proof {
            lemma_fold_chain_snoc(
                *func,
                a0,
                zip_visits(items@.subrange(0, i as int), vals@),
                acc,
                item,
                val,
                next,
            );
            assert(zip_visits(items@.subrange(0, i as int + 1), vals@.push(val)) =~= zip_visits(
                items@.subrange(0, i as int),
                vals@,
            ).push((item, val)));
        }
        vals.push(val);
        acc = next;
        i += 1;
    }
    proof {
        assert(items@.subrange(0, n as int) =~= items@);
    }
    (acc, vals)
}

} // verus!
