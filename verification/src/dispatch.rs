//! The parallel dispatch engine: partitioning matched chunks into batches
//! and running one fold task per batch on the worker pool.

use vstd::prelude::*;
use crate::storage::Chunk;
use crate::storage::QueryItem;
use crate::storage::chunks_wf;
use crate::query::QueryState;
use crate::iter::Segment;
use crate::iter::Visit;
use crate::iter::collect_segment_items;
use crate::iter::fold_chain;
use crate::iter::visit_consistent;
use crate::iter::lemma_fold_chain_pointwise;
use crate::iter::fold_items;
use crate::iter::segs_items;
use crate::iter::segs_wf;
use crate::iter::visited_of;
use crate::iter::written_of;
use crate::iter::zip_visits;
use crate::pool::scope_map;

verus! {

/// The items of a batch plan: every batch's items, concatenated in batch
/// order.
pub open spec fn plan_items(chunks: Seq<Chunk>, plan: Seq<Vec<Segment>>) -> Seq<QueryItem>
    decreases plan.len(),
{
    if plan.len() == 0 {
        Seq::empty()
    } else {
        plan_items(chunks, plan.drop_last()) + segs_items(chunks, plan.last()@)
    }
}

/// Every batch of the plan is inside its chunks and holds between 1 and
/// `batch_size` items.
pub open spec fn plan_wf(chunks: Seq<Chunk>, plan: Seq<Vec<Segment>>, batch_size: int) -> bool {
    forall|b: int|
        0 <= b < plan.len() ==> segs_wf(chunks, (#[trigger] plan[b])@) && 1 <= segs_items(
            chunks,
            plan[b]@,
        ).len() <= batch_size
}

/// Partitions the matched chunks into contiguous batches of at most
/// `batch_size` entities each: a large chunk is split across several
/// batches, small chunks are coalesced into one, and the concatenation of
/// all batches visits exactly the items of a full sequential scan, in the
/// same order.
pub fn make_plan(chunks: &Vec<Chunk>, q: &QueryState, batch_size: usize) -> (plan: Vec<
    Vec<Segment>,
>)
    requires
        batch_size >= 1,
        q.wf_for(chunks@),
    ensures
        plan_wf(chunks@, plan@, batch_size as int),
        plan_items(chunks@, plan@) == q.matched_items(chunks@),
{
    let mut plan: Vec<Vec<Segment>> = Vec::new();
    let mut cur: Vec<Segment> = Vec::new();
    let mut cur_count: usize = 0;
    let m = q.matched.len();
    for k in 0..m
        invariant
            q.wf_for(chunks@),
            m == q.matched@.len(),
            batch_size >= 1,
            cur_count == segs_items(chunks@, cur@).len(),
            cur_count <= batch_size,
            segs_wf(chunks@, cur@),
            plan_wf(chunks@, plan@, batch_size as int),
            plan_items(chunks@, plan@) + segs_items(chunks@, cur@) == q.items_prefix(
                chunks@,
                k as int,
            ),
    {
        let id = q.matched[k];
        let rows = chunks[id].entity_count();
        let ghost citems = chunks@[id as int].items();
        let mut pos: usize = 0;
        proof {
            assert(citems.subrange(0, 0) =~= Seq::<QueryItem>::empty());
            assert(plan_items(chunks@, plan@) + segs_items(chunks@, cur@) + citems.subrange(0, 0)
                =~= q.items_prefix(chunks@, k as int));
        }
        while pos < rows
            invariant
                q.wf_for(chunks@),
                m == q.matched@.len(),
                k < m,
                id == q.matched@[k as int],
                batch_size >= 1,
                rows == chunks@[id as int].entities@.len(),
                citems == chunks@[id as int].items(),
                pos <= rows,
                cur_count == segs_items(chunks@, cur@).len(),
                cur_count <= batch_size,
                segs_wf(chunks@, cur@),
                plan_wf(chunks@, plan@, batch_size as int),
                plan_items(chunks@, plan@) + segs_items(chunks@, cur@) == q.items_prefix(
                    chunks@,
                    k as int,
                ) + citems.subrange(0, pos as int),
            decreases rows - pos,
        {
            if cur_count == batch_size {
                let ghost pplan = plan@;
                let full = cur;
                plan.push(full);
                cur = Vec::new();
                cur_count = 0;
                proof {
                    assert(plan@.drop_last() =~= pplan);
                    assert(segs_items(chunks@, cur@) =~= Seq::<QueryItem>::empty());
                    assert(plan_items(chunks@, plan@) + segs_items(chunks@, cur@) =~= q.items_prefix(
                        chunks@,
                        k as int,
                    ) + citems.subrange(0, pos as int));
                }
            }
            let space = batch_size - cur_count;
            let remaining = rows - pos;
            let take = if space < remaining {
                space
            } else {
                remaining
            };
            let seg = Segment { chunk: id, start: pos, end: pos + take };
            let ghost pcur = cur@;
            cur.push(seg);
            proof {
                assert(cur@.drop_last() =~= pcur);
                assert(seg.items(chunks@) == citems.subrange(pos as int, pos as int + take as int));
                assert(seg.items(chunks@).len() == take);
                assert(segs_items(chunks@, cur@) == segs_items(chunks@, pcur) + seg.items(chunks@));
                assert(citems.subrange(0, pos as int) + citems.subrange(
                    pos as int,
                    pos as int + take as int,
                ) =~= citems.subrange(0, pos as int + take as int));
                assert(plan_items(chunks@, plan@) + segs_items(chunks@, cur@) =~= (plan_items(
                    chunks@,
                    plan@,
                ) + segs_items(chunks@, pcur)) + seg.items(chunks@));
                assert((q.items_prefix(chunks@, k as int) + citems.subrange(0, pos as int))
                    + seg.items(chunks@) =~= q.items_prefix(chunks@, k as int) + citems.subrange(
                    0,
                    pos as int + take as int,
                ));
                assert(plan_items(chunks@, plan@) + segs_items(chunks@, cur@) =~= q.items_prefix(
                    chunks@,
                    k as int,
                ) + citems.subrange(0, pos as int + take as int));
            }
            cur_count += take;
            pos += take;
        }
        proof {
            assert(citems.subrange(0, rows as int) =~= citems);
            assert(q.items_prefix(chunks@, k as int) + citems =~= q.items_prefix(
                chunks@,
                k as int + 1,
            ));
        }
    }
    if cur_count > 0 {
        let ghost pplan = plan@;
        plan.push(cur);
        proof {
            assert(plan@.drop_last() =~= pplan);
        }
    } else {
        proof {
            assert(segs_items(chunks@, cur@) =~= Seq::<QueryItem>::empty());
            assert(plan_items(chunks@, plan@) =~= plan_items(chunks@, plan@) + segs_items(
                chunks@,
                cur@,
            ));
        }
    }
    plan
}

/// `acc` is the result of folding `func` over the run's items from a
/// fresh accumulator produced by `init`.
pub open spec fn batch_fold_ok<T, INIT: Fn() -> T, F: Fn(T, QueryItem) -> (T, u64)>(
    init: INIT,
    func: F,
    run: Seq<Visit>,
    acc: T,
) -> bool {
    exists|a0: T| #[trigger] call_ensures(init, (), a0) && fold_chain(func, a0, run, acc)
}

/// One visit trace per task explains the accumulators and written values
/// of a dispatch call: the traces visit, in batch order, exactly the items
/// of a full scan; their written values are `vals`; and each task's
/// accumulator is a fold of its own trace from a fresh `init` value.
pub open spec fn par_runs_ok<T, INIT: Fn() -> T, F: Fn(T, QueryItem) -> (T, u64)>(
    init: INIT,
    func: F,
    q: QueryState,
    chunks: Seq<Chunk>,
    runs: Seq<Seq<Visit>>,
    accs: Seq<T>,
    vals: Seq<u64>,
) -> bool {
    &&& runs.len() == accs.len()
    &&& visited_of(runs.flatten()) == q.matched_items(chunks)
    &&& written_of(runs.flatten()) == vals
    &&& forall|j: int|
        0 <= j < runs.len() ==> batch_fold_ok(init, func, #[trigger] runs[j], accs[j])
}

/// An item of one batch is an item of the whole plan.
proof fn lemma_plan_item_member(
    chunks: Seq<Chunk>,
    plan: Seq<Vec<Segment>>,
    b: int,
    item: QueryItem,
)
    requires
        0 <= b < plan.len(),
        segs_items(chunks, plan[b]@).contains(item),
    ensures
        plan_items(chunks, plan).contains(item),
    decreases plan.len(),
{
    if b == plan.len() - 1 {
        let idx = choose|idx: int|
            0 <= idx < segs_items(chunks, plan[b]@).len() && segs_items(chunks, plan[b]@)[idx]
                == item;
        let pre = plan_items(chunks, plan.drop_last());
        assert(plan.last() == plan[b]);
        assert(plan_items(chunks, plan)[pre.len() as int + idx] == item);
    } else {
        assert(plan.drop_last()[b] == plan[b]);
        lemma_plan_item_member(chunks, plan.drop_last(), b, item);
        let idx = choose|idx: int|
            0 <= idx < plan_items(chunks, plan.drop_last()).len() && plan_items(
                chunks,
                plan.drop_last(),
            )[idx] == item;
        assert(plan_items(chunks, plan)[idx] == item);
    }
}

/// A fold trace of a callback reached through a reference is a fold
/// trace of the callback itself.
pub proof fn lemma_fold_chain_deref<T, F: Fn(T, QueryItem) -> (T, u64)>(
    f: &F,
    a0: T,
    visits: Seq<Visit>,
    an: T,
)
    ensures
        fold_chain(f, a0, visits, an) <==> fold_chain(*f, a0, visits, an),
    decreases visits.len(),
{
    if visits.len() > 0 {
        if fold_chain(f, a0, visits, an) {
            let mid = choose|mid: T|
                #[trigger] call_ensures(f, (a0, visits[0].0), (mid, visits[0].1)) && fold_chain(
                    f,
                    mid,
                    visits.drop_first(),
                    an,
                );
            lemma_fold_chain_deref(f, mid, visits.drop_first(), an);
            assert(call_ensures(*f, (a0, visits[0].0), (mid, visits[0].1)) && fold_chain(
                *f,
                mid,
                visits.drop_first(),
                an,
            ));
        }
        if fold_chain(*f, a0, visits, an) {
            let mid = choose|mid: T|
                #[trigger] call_ensures(*f, (a0, visits[0].0), (mid, visits[0].1)) && fold_chain(
                    *f,
                    mid,
                    visits.drop_first(),
                    an,
                );
            lemma_fold_chain_deref(f, mid, visits.drop_first(), an);
            assert(call_ensures(f, (a0, visits[0].0), (mid, visits[0].1)) && fold_chain(
                f,
                mid,
                visits.drop_first(),
                an,
            ));
        }
    }
}

/// A per-batch fold explained through references is one explained by the
/// callbacks themselves.
pub proof fn lemma_batch_fold_ok_deref<T, INIT: Fn() -> T, F: Fn(T, QueryItem) -> (T, u64)>(
    init: &INIT,
    func: &F,
    run: Seq<Visit>,
    acc: T,
)
    requires
        batch_fold_ok(init, func, run, acc),
    ensures
        batch_fold_ok(*init, *func, run, acc),
{
    let a0 = choose|a0: T| #[trigger] call_ensures(init, (), a0) && fold_chain(func, a0, run, acc);
    lemma_fold_chain_deref(func, a0, run, acc);
    assert(call_ensures(*init, (), a0) && fold_chain(*func, a0, run, acc));
}

/// Every visit of every trace is an allowed outcome of `func` on its
/// item, when each trace is a fold of `func` from a fresh accumulator.
pub proof fn lemma_runs_pointwise<T, INIT: Fn() -> T, F: Fn(T, QueryItem) -> (T, u64)>(
    init: INIT,
    func: F,
    runs: Seq<Seq<Visit>>,
    accs: Seq<T>,
)
    requires
        runs.len() == accs.len(),
        forall|j: int| 0 <= j < runs.len() ==> batch_fold_ok(init, func, #[trigger] runs[j], accs[j]),
    ensures
        forall|i: int|
            0 <= i < runs.flatten().len() ==> visit_consistent::<T, F>(
                func,
                #[trigger] runs.flatten()[i],
            ),
    decreases runs.len(),
{
    if runs.len() > 0 {
        let rl = runs.drop_last();
        let last = runs.last();
        assert forall|j: int| 0 <= j < rl.len() implies batch_fold_ok(
            init,
            func,
            #[trigger] rl[j],
            accs.drop_last()[j],
        ) by {
            assert(rl[j] == runs[j]);
            assert(accs.drop_last()[j] == accs[j]);
        }
        lemma_runs_pointwise(init, func, rl, accs.drop_last());
        rl.lemma_flatten_push(last);
        assert(runs =~= rl.push(last));
        assert(runs.flatten() == rl.flatten() + last);
        assert(batch_fold_ok(init, func, runs[runs.len() - 1], accs[runs.len() - 1]));
        let a0 = choose|a0: T|
            #[trigger] call_ensures(init, (), a0) && fold_chain(
                func,
                a0,
                last,
                accs[runs.len() - 1],
            );
        lemma_fold_chain_pointwise(func, a0, last, accs[runs.len() - 1]);
        let plen = rl.flatten().len() as int;
        assert forall|i: int|
            0 <= i < runs.flatten().len() implies visit_consistent::<T, F>(
            func,
            #[trigger] runs.flatten()[i],
        ) by {
            if i < plen {
                assert(runs.flatten()[i] == rl.flatten()[i]);
                assert(visit_consistent::<T, F>(func, rl.flatten()[i]));
            } else {
                assert(runs.flatten()[i] == last[i - plen]);
                assert(visit_consistent::<T, F>(func, last[i - plen]));
            }
        }
    }
}

/// Runs one fold task per batch of the plan on the worker pool and
/// collects, in batch order, the accumulator of each task and the values
/// written for every visited item. The chunks themselves are not touched:
/// the caller applies the returned values afterwards.
#[verifier::loop_isolation(false)]
pub fn run_par_tasks<
    T: Send + 'static,
    INIT: Fn() -> T + Send + Sync,
    F: Fn(T, QueryItem) -> (T, u64) + Send + Sync,
>(
    chunks: &Vec<Chunk>,
    q: &QueryState,
    batch_size: usize,
    pool: &bevy_tasks::ComputeTaskPool,
    init: &INIT,
    func: &F,
) -> (r: (Vec<T>, Vec<u64>))
    requires
        chunks_wf(chunks@),
        q.wf_for(chunks@),
        batch_size >= 1,
        call_requires(*init, ()),
        forall|a: T, item: QueryItem|
            q.matched_items(chunks@).contains(item) ==> #[trigger] call_requires(*func, (a, item)),
    ensures
        r.1@.len() == q.matched_items(chunks@).len(),
        exists|runs: Seq<Seq<Visit>>| par_runs_ok(*init, *func, *q, chunks@, runs, r.0@, r.1@),
{
    let plan = make_plan(chunks, q, batch_size);
    proof {
        assert forall|b: int, item: QueryItem|
            0 <= b < plan@.len() && #[trigger] segs_items(
                chunks@,
                (#[trigger] plan@[b])@,
            ).contains(item) implies q.matched_items(chunks@).contains(item) by {
            lemma_plan_item_member(chunks@, plan@, b, item);
        }
    }
    let worker = |bi: usize, segs: &Vec<Segment>| -> (out: (T, Vec<u64>))
        requires
            chunks_wf(chunks@),
            segs_wf(chunks@, segs@),
            forall|a: T, item: QueryItem|
                segs_items(chunks@, segs@).contains(item) ==> #[trigger] call_requires(
                    func,
                    (a, item),
                ),
            call_requires(init, ()),
        ensures
            out.1@.len() == segs_items(chunks@, segs@).len(),
            batch_fold_ok(init, func, zip_visits(segs_items(chunks@, segs@), out.1@), out.0),
        {
            let items = collect_segment_items(chunks, segs);
            let a0 = init();
            let folded = fold_items(&items, a0, func);
            proof {
                lemma_fold_chain_deref(func, a0, zip_visits(items@, folded.1@), folded.0);
                assert(items@ == segs_items(chunks@, segs@));
                assert(call_ensures(init, (), a0));
                assert(fold_chain(func, a0, zip_visits(segs_items(chunks@, segs@), folded.1@), folded.0));
                assert(batch_fold_ok(init, func, zip_visits(segs_items(chunks@, segs@), folded.1@), folded.0));
            }
            folded
        };
    let mut results = scope_map(pool, &plan, &worker);
    let nb = results.len();
    let ghost resv = results@;
    let ghost planv = plan@;
    let mut accs: Vec<T> = Vec::new();
    let mut vals: Vec<u64> = Vec::new();
    let ghost mut runs: Seq<Seq<Visit>> = Seq::empty();
    for j in 0..nb
        invariant
            nb == resv.len(),
            resv.len() == planv.len(),
            planv == plan@,
            chunks_wf(chunks@),
            q.wf_for(chunks@),
            plan_wf(chunks@, planv, batch_size as int),
            plan_items(chunks@, planv) == q.matched_items(chunks@),
            results@ == resv.subrange(j as int, nb as int),
            accs@.len() == j,
            runs.len() == j,
            forall|i: int|
                0 <= i < nb ==> call_ensures(worker, (i as usize, &planv[i]), #[trigger] resv[i]),
            visited_of(runs.flatten()) == plan_items(chunks@, planv.subrange(0, j as int)),
            written_of(runs.flatten()) == vals@,
            forall|jj: int|
                0 <= jj < j ==> batch_fold_ok(*init, *func, #[trigger] runs[jj], accs@[jj]),
    {
        proof {
            assert(results@[0] == resv[j as int]);
        }
        let pair = results.remove(0);
        proof {
            assert(results@ =~= resv.subrange(j as int + 1, nb as int));
        }
        let (a, vs) = pair;
        let ghost bitems = segs_items(chunks@, planv[j as int]@);
        let ghost run = zip_visits(bitems, vs@);
        let ghost oldruns = runs;
        let ghost oldvals = vals@;
        proof {
            assert(call_ensures(worker, (j as usize, &planv[j as int]), (a, vs)));
            assert(vs@.len() == bitems.len());
            assert(batch_fold_ok(init, func, run, a));
            lemma_batch_fold_ok_deref(init, func, run, a);
            runs = runs.push(run);
            oldruns.lemma_flatten_push(run);
            assert(runs.flatten() == oldruns.flatten() + run);
            assert(visited_of(oldruns.flatten() + run) =~= visited_of(oldruns.flatten())
                + visited_of(run));
            assert(written_of(oldruns.flatten() + run) =~= written_of(oldruns.flatten())
                + written_of(run));
            assert(visited_of(run) =~= bitems);
            assert(planv.subrange(0, j as int + 1).drop_last() =~= planv.subrange(0, j as int));
            assert(planv.subrange(0, j as int + 1).last() == planv[j as int]);
            assert(plan_items(chunks@, planv.subrange(0, j as int + 1)) == plan_items(
                chunks@,
                planv.subrange(0, j as int),
            ) + bitems);
            assert(visited_of(runs.flatten()) =~= plan_items(
                chunks@,
                planv.subrange(0, j as int + 1),
            ));
        }
        accs.push(a);
        let vn = vs.len();
        for idx in 0..vn
            invariant
                vn == vs@.len(),
                vals@ == oldvals + vs@.subrange(0, idx as int),
        {
            vals.push(vs[idx]);
            proof {
                assert(vals@ =~= oldvals + vs@.subrange(0, idx as int + 1));
            }
        }
        proof {
            assert(vs@.subrange(0, vn as int) =~= vs@);
            assert(written_of(run) =~= vs@);
            assert(written_of(runs.flatten()) =~= vals@);
            assert forall|jj: int|
                0 <= jj < j + 1 implies batch_fold_ok(*init, *func, #[trigger] runs[jj], accs@[jj]) by {
                if jj < j {
                    assert(runs[jj] == oldruns[jj]);
                } else {
                    assert(runs[jj] == run);
                }
            }
        }
    }
    proof {
        assert(planv.subrange(0, nb as int) =~= planv);
        assert(visited_of(runs.flatten()) == q.matched_items(chunks@));
        assert(written_of(runs.flatten()).len() == runs.flatten().len());
        assert(visited_of(runs.flatten()).len() == runs.flatten().len());
    }
    let result = (accs, vals);
    proof {
        assert(par_runs_ok(*init, *func, *q, chunks@, runs, result.0@, result.1@));
        assert(exists|rs: Seq<Seq<Visit>>|
            #[trigger] par_runs_ok(*init, *func, *q, chunks@, rs, result.0@, result.1@));
    }
    result
}

} // verus!
