//! Parallel iterators over the query items of an explicit entity list: a
//! read-only variant that tolerates duplicates, and a mutable variant for
//! duplicate-free lists, whose batches may hold simultaneous mutable views
//! into distinct entities.

use vstd::prelude::*;
use vstd::pervasive::unreached;
use crate::batching::BatchingStrategy;
use crate::storage::Chunk;
use crate::storage::Entity;
use crate::storage::QueryItem;
use crate::storage::World;
use crate::storage::chunks_wf;
use crate::storage::lemma_distinct_preserved;
use crate::storage::seq_distinct;
use crate::query::QueryState;
use crate::iter::Visit;
use crate::iter::fold_chain_ro;
use crate::iter::fold_items;
use crate::iter::fold_items_ro;
use crate::iter::lemma_fold_chain_ro_deref;
use crate::iter::visited_of;
use crate::iter::written_of;
use crate::iter::zip_visits;
use crate::dispatch::batch_fold_ok;
use crate::dispatch::lemma_batch_fold_ok_deref;
use crate::dispatch::lemma_fold_chain_deref;
use crate::dispatch::lemma_runs_pointwise;
use crate::iter::visit_consistent;
use crate::many::collect_list_items;
use crate::many::is_slots_write;
use crate::many::lemma_list_slots_distinct;
use crate::many::lemma_list_slots_entities;
use crate::many::lemma_list_split;
use crate::many::list_items;
use crate::many::list_slots;
use crate::many::make_ranges;
use crate::many::ranges_chained;
use crate::many::slots_view;
use crate::many::write_slots;
use crate::pool::pool_thread_count;
use crate::pool::scope_map;

verus! {

/// `acc` is a read-only fold of `func` over the run's items from a fresh
/// accumulator produced by `init`.
pub open spec fn batch_fold_ro_ok<T, INIT: Fn() -> T, F: Fn(T, QueryItem) -> T>(
    init: INIT,
    func: F,
    run: Seq<QueryItem>,
    acc: T,
) -> bool {
    exists|a0: T| #[trigger] call_ensures(init, (), a0) && fold_chain_ro(func, a0, run, acc)
}

proof fn lemma_batch_fold_ro_ok_deref<T, INIT: Fn() -> T, F: Fn(T, QueryItem) -> T>(
    init: &INIT,
    func: &F,
    run: Seq<QueryItem>,
    acc: T,
)
    requires
        batch_fold_ro_ok(init, func, run, acc),
    ensures
        batch_fold_ro_ok(*init, *func, run, acc),
{
    let a0 = choose|a0: T| #[trigger] call_ensures(init, (), a0) && fold_chain_ro(func, a0, run, acc);
    lemma_fold_chain_ro_deref(func, a0, run, acc);
    assert(call_ensures(*init, (), a0) && fold_chain_ro(*func, a0, run, acc));
}

/// The outcome of one read-only list iteration: one run of items per task,
/// together visiting, in batch order, exactly the items a sequential
/// restricted scan of the list visits, each task's accumulator a read-only
/// fold of its run from a fresh `init` value.
pub open spec fn list_ro_outcome<T, INIT: Fn() -> T, F: Fn(T, QueryItem) -> T>(
    init: INIT,
    func: F,
    q: QueryState,
    chunks: Seq<Chunk>,
    list: Seq<Entity>,
    accs: Seq<T>,
    runs: Seq<Seq<QueryItem>>,
) -> bool {
    &&& runs.len() == accs.len()
    &&& runs.flatten() == list_items(q, chunks, list)
    &&& forall|j: int|
        0 <= j < runs.len() ==> batch_fold_ro_ok(init, func, #[trigger] runs[j], accs[j])
}

/// The outcome of one mutable list iteration: one visit trace per task,
/// together visiting exactly the items a sequential restricted scan of the
/// list visits, each task's accumulator a fold of its own trace, and the
/// storage after the call holding each trace's written value at the slot
/// the entity was read from.
pub open spec fn list_rw_outcome<T, INIT: Fn() -> T, F: Fn(T, QueryItem) -> (T, u64)>(
    init: INIT,
    func: F,
    q: QueryState,
    chunks0: Seq<Chunk>,
    chunks1: Seq<Chunk>,
    list: Seq<Entity>,
    accs: Seq<T>,
    runs: Seq<Seq<Visit>>,
) -> bool {
    &&& runs.len() == accs.len()
    &&& visited_of(runs.flatten()) == list_items(q, chunks0, list)
    &&& is_slots_write(chunks0, list_slots(q, chunks0, list), written_of(runs.flatten()), chunks1)
    &&& forall|j: int|
        0 <= j < runs.len() ==> batch_fold_ok(init, func, #[trigger] runs[j], accs[j])
}

/// Appends all values of `src` to `dst`.
fn append_values(dst: &mut Vec<u64>, src: &Vec<u64>)
    ensures
        final(dst)@ == old(dst)@ + src@,
{
    let n = src.len();
    let ghost base = dst@;
    for i in 0..n
        invariant
            n == src@.len(),
            dst@ == base + src@.subrange(0, i as int),
    {
        dst.push(src[i]);
        proof {
            assert(dst@ =~= base + src@.subrange(0, i as int + 1));
        }
    }
    proof {
        assert(src@.subrange(0, n as int) =~= src@);
    }
}

/// One unpacking step of a read-only list dispatch: appending the next
/// batch's items extends the visited coverage.
proof fn lemma_ro_unpack_step(
    q: QueryState,
    chunks: Seq<Chunk>,
    list: Seq<Entity>,
    lo: int,
    hi: int,
    oldruns: Seq<Seq<QueryItem>>,
)
    requires
        0 <= lo <= hi <= list.len(),
        oldruns.flatten() == list_items(q, chunks, list.subrange(0, lo)),
    ensures
        oldruns.push(list_items(q, chunks, list.subrange(lo, hi))).flatten() == list_items(
            q,
            chunks,
            list.subrange(0, hi),
        ),
{
    let run = list_items(q, chunks, list.subrange(lo, hi));
    oldruns.lemma_flatten_push(run);
    lemma_list_split(q, chunks, list.subrange(0, lo), list.subrange(lo, hi));
    assert(list.subrange(0, lo) + list.subrange(lo, hi) =~= list.subrange(0, hi));
}

/// What one read-only list task of a dispatch call guarantees: its
/// accumulator is a read-only fold of its batch's items from a fresh
/// accumulator.
#[verifier::opaque]
pub open spec fn ro_batch_fact<T, INIT: Fn() -> T, F: Fn(T, QueryItem) -> T>(
    init: INIT,
    func: F,
    q: QueryState,
    chunks: Seq<Chunk>,
    list: Seq<Entity>,
    range: (usize, usize),
    acc: T,
) -> bool {
    batch_fold_ro_ok(
        init,
        func,
        list_items(q, chunks, list.subrange(range.0 as int, range.1 as int)),
        acc,
    )
}

/// Runs one read-only fold task per contiguous run of list indices.
#[verifier::rlimit(100)]
fn run_list_tasks_ro<
    T: Send + 'static,
    INIT: Fn() -> T + Send + Sync,
    F: Fn(T, QueryItem) -> T + Send + Sync,
>(
    chunks: &Vec<Chunk>,
    q: &QueryState,
    list: &Vec<Entity>,
    batch_size: usize,
    pool: &bevy_tasks::ComputeTaskPool,
    init: &INIT,
    func: &F,
) -> (accs: Vec<T>)
    requires
        chunks_wf(chunks@),
        q.wf_for(chunks@),
        batch_size >= 1,
        call_requires(*init, ()),
        forall|a: T, item: QueryItem|
            list_items(*q, chunks@, list@).contains(item) ==> #[trigger] call_requires(
                *func,
                (a, item),
            ),
    ensures
        exists|runs: Seq<Seq<QueryItem>>|
            #[trigger] list_ro_outcome(*init, *func, *q, chunks@, list@, accs@, runs),
{
    let ranges = make_ranges(list.len(), batch_size);
    proof {
        assert(ranges_chained(ranges@, list@.len() as int)) by {
            reveal(ranges_chained);
        }
        assert forall|lo: int, hi: int, item: QueryItem|
            0 <= lo <= hi <= list@.len() && #[trigger] list_items(
                *q,
                chunks@,
                list@.subrange(lo, hi),
            ).contains(item) implies list_items(*q, chunks@, list@).contains(item) by {
            lemma_list_split(*q, chunks@, list@.subrange(0, lo), list@.subrange(lo, hi));
            lemma_list_split(
                *q,
                chunks@,
                list@.subrange(0, lo) + list@.subrange(lo, hi),
                list@.subrange(hi, list@.len() as int),
            );
            assert((list@.subrange(0, lo) + list@.subrange(lo, hi)) + list@.subrange(
                hi,
                list@.len() as int,
            ) =~= list@);
            let sub = list_items(*q, chunks@, list@.subrange(lo, hi));
            let i = choose|i: int| 0 <= i < sub.len() && sub[i] == item;
            assert(list_items(*q, chunks@, list@)[list_items(
                *q,
                chunks@,
                list@.subrange(0, lo),
            ).len() + i] == item);
            assert(list_items(*q, chunks@, list@).contains(item));
        }
    }
    let worker = |j: usize, range: &(usize, usize)| -> (out: T)
        requires
            range.0 <= range.1 <= list@.len(),
            call_requires(init, ()),
            forall|a: T, item: QueryItem|
                list_items(*q, chunks@, list@.subrange(range.0 as int, range.1 as int)).contains(
                    item,
                ) ==> #[trigger] call_requires(func, (a, item)),
        ensures
            batch_fold_ro_ok(
                init,
                func,
                list_items(*q, chunks@, list@.subrange(range.0 as int, range.1 as int)),
                out,
            ),
        {
            let pair = collect_list_items(chunks, q, list, range.0, range.1);
            let a0 = init();
            let out = fold_items_ro(&pair.0, a0, func);
            proof {
                lemma_fold_chain_ro_deref(func, a0, pair.0@, out);
                assert(call_ensures(init, (), a0));
            }
            out
        };
    let mut results = scope_map(pool, &ranges, &worker);
    let nb = results.len();
    let ghost resv = results@;
    let ghost rsv = ranges@;
    proof {
        assert forall|i: int| 0 <= i < nb implies ro_batch_fact(
            *init,
            *func,
            *q,
            chunks@,
            list@,
            #[trigger] rsv[i],
            resv[i],
        ) by {
            assert(call_ensures(worker, (i as usize, &rsv[i]), resv[i]));
            lemma_batch_fold_ro_ok_deref(
                init,
                func,
                list_items(*q, chunks@, list@.subrange(rsv[i].0 as int, rsv[i].1 as int)),
                resv[i],
            );
            reveal(ro_batch_fact);
        }
    }
    let mut accs: Vec<T> = Vec::new();
    let ghost mut runs: Seq<Seq<QueryItem>> = Seq::empty();
    proof {
        assert(runs.flatten() =~= Seq::<QueryItem>::empty());
        if rsv.len() == 0 {
            assert(list@.subrange(0, 0) =~= list@);
        }
        assert(list_items(*q, chunks@, list@.subrange(0, 0)) =~= Seq::<QueryItem>::empty());
    }
    for j in 0..nb
        invariant
            nb == resv.len(),
            resv.len() == rsv.len(),
            rsv == ranges@,
            results@ == resv.subrange(j as int, nb as int),
            accs@.len() == j,
            runs.len() == j,
            ranges_chained(rsv, list@.len() as int),
            runs.flatten() == list_items(
                *q,
                chunks@,
                list@.subrange(0, if j == 0 { 0int } else { rsv[j as int - 1].1 as int }),
            ),
            forall|i: int|
                0 <= i < nb ==> ro_batch_fact(
                    *init,
                    *func,
                    *q,
                    chunks@,
                    list@,
                    #[trigger] rsv[i],
                    resv[i],
                ),
            forall|jj: int|
                0 <= jj < j ==> batch_fold_ro_ok(*init, *func, #[trigger] runs[jj], accs@[jj]),
    {
        proof {
            assert(results@[0] == resv[j as int]);
        }
        let acc = results.remove(0);
        proof {
            assert(results@ =~= resv.subrange(j as int + 1, nb as int));
        }
        let ghost lo = rsv[j as int].0 as int;
        let ghost hi = rsv[j as int].1 as int;
        let ghost run = list_items(*q, chunks@, list@.subrange(lo, hi));
        let ghost oldruns = runs;
        proof {
            reveal(ro_batch_fact);
            assert(ro_batch_fact(*init, *func, *q, chunks@, list@, rsv[j as int], resv[j as int]));
            assert(acc == resv[j as int]);
            assert(batch_fold_ro_ok(*init, *func, run, acc));
            let prevhi: int = if j == 0 {
                0int
            } else {
                rsv[j as int - 1].1 as int
            };
            assert(0 <= lo <= hi <= list@.len() && lo == prevhi) by {
                reveal(ranges_chained);
            }
            lemma_ro_unpack_step(*q, chunks@, list@, lo, hi, oldruns);
            runs = runs.push(run);
        }
        accs.push(acc);
        proof {
            assert forall|jj: int|
                0 <= jj < j + 1 implies batch_fold_ro_ok(
                *init,
                *func,
                #[trigger] runs[jj],
                accs@[jj],
            ) by {
                if jj < j {
                    assert(runs[jj] == oldruns[jj]);
                }
            }
        }
    }
    proof {
        reveal(ranges_chained);
        if rsv.len() == 0 {
            assert(runs.flatten() == list_items(*q, chunks@, list@));
        } else {
            assert(rsv[rsv.len() - 1].1 == list@.len());
            assert(list@.subrange(0, list@.len() as int) =~= list@);
        }
        assert(list_ro_outcome(*init, *func, *q, chunks@, list@, accs@, runs));
    }
    accs
}

/// One unpacking step of a mutable list dispatch: appending the next
/// batch's visit trace extends the visited coverage and written values.
proof fn lemma_rw_unpack_step(
    q: QueryState,
    chunks: Seq<Chunk>,
    list: Seq<Entity>,
    lo: int,
    hi: int,
    oldruns: Seq<Seq<Visit>>,
    oldvals: Seq<u64>,
    vsv: Seq<u64>,
)
    requires
        0 <= lo <= hi <= list.len(),
        vsv.len() == list_items(q, chunks, list.subrange(lo, hi)).len(),
        visited_of(oldruns.flatten()) == list_items(q, chunks, list.subrange(0, lo)),
        written_of(oldruns.flatten()) == oldvals,
    ensures
        visited_of(
            oldruns.push(
                zip_visits(list_items(q, chunks, list.subrange(lo, hi)), vsv),
            ).flatten(),
        ) == list_items(q, chunks, list.subrange(0, hi)),
        written_of(
            oldruns.push(
                zip_visits(list_items(q, chunks, list.subrange(lo, hi)), vsv),
            ).flatten(),
        ) == oldvals + vsv,
{
    let bitems = list_items(q, chunks, list.subrange(lo, hi));
    let run = zip_visits(bitems, vsv);
    let runs = oldruns.push(run);
    oldruns.lemma_flatten_push(run);
    assert(runs.flatten() == oldruns.flatten() + run);
    assert(visited_of(oldruns.flatten() + run) =~= visited_of(oldruns.flatten()) + visited_of(run));
    assert(written_of(oldruns.flatten() + run) =~= written_of(oldruns.flatten()) + written_of(run));
    assert(visited_of(run) =~= bitems);
    assert(written_of(run) =~= vsv);
    lemma_list_split(q, chunks, list.subrange(0, lo), list.subrange(lo, hi));
    assert(list.subrange(0, lo) + list.subrange(lo, hi) =~= list.subrange(0, hi));
    assert(visited_of(runs.flatten()) =~= list_items(q, chunks, list.subrange(0, hi)));
}

/// What one mutable list task of a dispatch call guarantees: the written
/// values match its batch's items in number, and its accumulator is a
/// fold of the batch's visit trace from a fresh accumulator.
#[verifier::opaque]
pub open spec fn rw_batch_fact<T, INIT: Fn() -> T, F: Fn(T, QueryItem) -> (T, u64)>(
    init: INIT,
    func: F,
    q: QueryState,
    chunks: Seq<Chunk>,
    list: Seq<Entity>,
    range: (usize, usize),
    res: (T, Vec<u64>),
) -> bool {
    let bitems = list_items(q, chunks, list.subrange(range.0 as int, range.1 as int));
    res.1@.len() == bitems.len() && batch_fold_ok(init, func, zip_visits(bitems, res.1@), res.0)
}

/// Runs one mutable fold task per contiguous run of list indices,
/// returning each task's accumulator and the written values, in list
/// order; the caller stores the values afterwards.
#[verifier::rlimit(100)]
fn run_list_tasks_rw<
    T: Send + 'static,
    INIT: Fn() -> T + Send + Sync,
    F: Fn(T, QueryItem) -> (T, u64) + Send + Sync,
>(
    chunks: &Vec<Chunk>,
    q: &QueryState,
    list: &Vec<Entity>,
    batch_size: usize,
    pool: &bevy_tasks::ComputeTaskPool,
    init: &INIT,
    func: &F,
) -> (r: (Vec<T>, Vec<u64>))
    requires
        chunks_wf(chunks@),
        q.wf_for(chunks@),
        batch_size >= 1,
        call_requires(*init, ()),
        forall|a: T, item: QueryItem|
            list_items(*q, chunks@, list@).contains(item) ==> #[trigger] call_requires(
                *func,
                (a, item),
            ),
    ensures
        r.1@.len() == list_items(*q, chunks@, list@).len(),
        exists|runs: Seq<Seq<Visit>>| {
            &&& runs.len() == r.0@.len()
            &&& visited_of(runs.flatten()) == list_items(*q, chunks@, list@)
            &&& written_of(runs.flatten()) == r.1@
            &&& forall|j: int|
                0 <= j < runs.len() ==> batch_fold_ok(*init, *func, #[trigger] runs[j], r.0@[j])
        },
{
    let ranges = make_ranges(list.len(), batch_size);
    proof {
        assert(ranges_chained(ranges@, list@.len() as int)) by {
            reveal(ranges_chained);
        }
        assert forall|lo: int, hi: int, item: QueryItem|
            0 <= lo <= hi <= list@.len() && #[trigger] list_items(
                *q,
                chunks@,
                list@.subrange(lo, hi),
            ).contains(item) implies list_items(*q, chunks@, list@).contains(item) by {
            lemma_list_split(*q, chunks@, list@.subrange(0, lo), list@.subrange(lo, hi));
            lemma_list_split(
                *q,
                chunks@,
                list@.subrange(0, lo) + list@.subrange(lo, hi),
                list@.subrange(hi, list@.len() as int),
            );
            assert((list@.subrange(0, lo) + list@.subrange(lo, hi)) + list@.subrange(
                hi,
                list@.len() as int,
            ) =~= list@);
            let sub = list_items(*q, chunks@, list@.subrange(lo, hi));
            let i = choose|i: int| 0 <= i < sub.len() && sub[i] == item;
            assert(list_items(*q, chunks@, list@)[list_items(
                *q,
                chunks@,
                list@.subrange(0, lo),
            ).len() + i] == item);
            assert(list_items(*q, chunks@, list@).contains(item));
        }
    }
    let worker = |j: usize, range: &(usize, usize)| -> (out: (T, Vec<u64>))
        requires
            range.0 <= range.1 <= list@.len(),
            call_requires(init, ()),
            forall|a: T, item: QueryItem|
                list_items(*q, chunks@, list@.subrange(range.0 as int, range.1 as int)).contains(
                    item,
                ) ==> #[trigger] call_requires(func, (a, item)),
        ensures
            out.1@.len() == list_items(
                *q,
                chunks@,
                list@.subrange(range.0 as int, range.1 as int),
            ).len(),
            batch_fold_ok(
                init,
                func,
                zip_visits(
                    list_items(*q, chunks@, list@.subrange(range.0 as int, range.1 as int)),
                    out.1@,
                ),
                out.0,
            ),
        {
            let pair = collect_list_items(chunks, q, list, range.0, range.1);
            let a0 = init();
            let out = fold_items(&pair.0, a0, func);
            proof {
                lemma_fold_chain_deref(func, a0, zip_visits(pair.0@, out.1@), out.0);
                assert(call_ensures(init, (), a0));
            }
            out
        };
    let mut results = scope_map(pool, &ranges, &worker);
    let nb = results.len();
    let ghost resv = results@;
    let ghost rsv = ranges@;
    proof {
        assert forall|i: int| 0 <= i < nb implies rw_batch_fact(
            *init,
            *func,
            *q,
            chunks@,
            list@,
            #[trigger] rsv[i],
            resv[i],
        ) by {
            assert(call_ensures(worker, (i as usize, &rsv[i]), resv[i]));
            lemma_batch_fold_ok_deref(
                init,
                func,
                zip_visits(
                    list_items(*q, chunks@, list@.subrange(rsv[i].0 as int, rsv[i].1 as int)),
                    resv[i].1@,
                ),
                resv[i].0,
            );
            reveal(rw_batch_fact);
        }
    }
    let mut accs: Vec<T> = Vec::new();
    let mut vals: Vec<u64> = Vec::new();
    let ghost mut runs: Seq<Seq<Visit>> = Seq::empty();
    proof {
        assert(runs.flatten() =~= Seq::<Visit>::empty());
        if rsv.len() == 0 {
            assert(list@.subrange(0, 0) =~= list@);
        }
        assert(list_items(*q, chunks@, list@.subrange(0, 0)) =~= Seq::<QueryItem>::empty());
        assert(visited_of(runs.flatten()) =~= Seq::<QueryItem>::empty());
        assert(written_of(runs.flatten()) =~= Seq::<u64>::empty());
    }
    for j in 0..nb
        invariant
            nb == resv.len(),
            resv.len() == rsv.len(),
            rsv == ranges@,
            results@ == resv.subrange(j as int, nb as int),
            accs@.len() == j,
            runs.len() == j,
            ranges_chained(rsv, list@.len() as int),
            visited_of(runs.flatten()) == list_items(
                *q,
                chunks@,
                list@.subrange(0, if j == 0 { 0int } else { rsv[j as int - 1].1 as int }),
            ),
            written_of(runs.flatten()) == vals@,
            forall|i: int|
                0 <= i < nb ==> rw_batch_fact(
                    *init,
                    *func,
                    *q,
                    chunks@,
                    list@,
                    #[trigger] rsv[i],
                    resv[i],
                ),
            forall|jj: int|
                0 <= jj < j ==> batch_fold_ok(*init, *func, #[trigger] runs[jj], accs@[jj]),
    {
        proof {
            assert(results@[0] == resv[j as int]);
        }
        let pair = results.remove(0);
        proof {
            assert(results@ =~= resv.subrange(j as int + 1, nb as int));
        }
        let (acc, vs) = pair;
        let ghost lo = rsv[j as int].0 as int;
        let ghost hi = rsv[j as int].1 as int;
        let ghost bitems = list_items(*q, chunks@, list@.subrange(lo, hi));
        let ghost run = zip_visits(bitems, vs@);
        let ghost oldruns = runs;
        let ghost oldvals = vals@;
        proof {
            reveal(rw_batch_fact);
            assert(rw_batch_fact(*init, *func, *q, chunks@, list@, rsv[j as int], resv[j as int]));
            assert((acc, vs) == resv[j as int]);
            assert(vs@.len() == bitems.len());
            assert(batch_fold_ok(*init, *func, run, acc));
            let prevhi: int = if j == 0 {
                0int
            } else {
                rsv[j as int - 1].1 as int
            };
            assert(0 <= lo <= hi <= list@.len() && lo == prevhi) by {
                reveal(ranges_chained);
            }
            lemma_rw_unpack_step(*q, chunks@, list@, lo, hi, oldruns, oldvals, vs@);
            runs = runs.push(run);
        }
        accs.push(acc);
        append_values(&mut vals, &vs);
        proof {
            assert(vals@ == oldvals + vs@);
            assert forall|jj: int|
                0 <= jj < j + 1 implies batch_fold_ok(*init, *func, #[trigger] runs[jj], accs@[jj]) by {
                if jj < j {
                    assert(runs[jj] == oldruns[jj]);
                }
            }
        }
    }
    proof {
        reveal(ranges_chained);
        if rsv.len() == 0 {
            assert(visited_of(runs.flatten()) == list_items(*q, chunks@, list@));
        } else {
            assert(rsv[rsv.len() - 1].1 == list@.len());
            assert(list@.subrange(0, list@.len() as int) =~= list@);
        }
        assert(visited_of(runs.flatten()).len() == runs.flatten().len());
        assert(written_of(runs.flatten()).len() == runs.flatten().len());
    }
    let result = (accs, vals);
    proof {
        let ghost runsw = runs;
        assert(runsw.len() == result.0@.len() && visited_of(runsw.flatten()) == list_items(
            *q,
            chunks@,
            list@,
        ) && written_of(runsw.flatten()) == result.1@ && forall|j: int|
            0 <= j < runsw.len() ==> batch_fold_ok(*init, *func, #[trigger] runsw[j], result.0@[j]));
    }
    result
}

/// Items and slots of a restricted scan come in equal number.
proof fn lemma_list_lens(q: QueryState, chunks: Seq<Chunk>, list: Seq<Entity>)
    ensures
        list_slots(q, chunks, list).len() == list_items(q, chunks, list).len(),
    decreases list.len(),
{
    if list.len() > 0 {
        lemma_list_lens(q, chunks, list.drop_first());
    }
}

/// One sequential mutable pass over a list: collect, fold once, store.
fn run_list_seq_rw_on<T, INIT: Fn() -> T, F: Fn(T, QueryItem) -> (T, u64)>(
    chunks: &mut Vec<Chunk>,
    q: &QueryState,
    list: &Vec<Entity>,
    init: &INIT,
    func: &F,
) -> (accs: Vec<T>)
    requires
        chunks_wf(old(chunks)@),
        q.wf_for(old(chunks)@),
        seq_distinct(list@),
        call_requires(*init, ()),
        forall|a: T, item: QueryItem|
            list_items(*q, old(chunks)@, list@).contains(item) ==> #[trigger] call_requires(
                *func,
                (a, item),
            ),
    ensures
        accs@.len() == 1,
        chunks_wf(final(chunks)@),
        final(chunks)@.len() == old(chunks)@.len(),
        forall|c: int|
            0 <= c < old(chunks)@.len() ==> (#[trigger] final(chunks)@[c]).entities@ == old(
                chunks,
            )@[c].entities@ && final(chunks)@[c].shape@ == old(chunks)@[c].shape@,
        exists|runs: Seq<Seq<Visit>>|
            #[trigger] list_rw_outcome(
                *init,
                *func,
                *q,
                old(chunks)@,
                final(chunks)@,
                list@,
                accs@,
                runs,
            ),
{
    let len = list.len();
    let (items, slots) = collect_list_items(chunks, q, list, 0, len);
    proof {
        assert(list@.subrange(0, len as int) =~= list@);
        lemma_list_lens(*q, chunks@, list@);
        lemma_list_slots_entities(*q, chunks@, list@);
        lemma_list_slots_distinct(*q, chunks@, list@);
        assert(slots_view(slots@) =~= list_slots(*q, chunks@, list@));
    }
    let a0 = init();
    proof {
        assert(call_ensures(*init, (), a0));
    }
    let folded = fold_items(&items, a0, func);
    let (an, vals) = folded;
    write_slots(chunks, &slots, &vals);
    let mut accs: Vec<T> = Vec::new();
    accs.push(an);
    proof {
        let run = zip_visits(items@, vals@);
        let runs = seq![run];
        runs.lemma_flatten_one_element();
        assert(runs.flatten() == run);
        assert(visited_of(run) =~= items@);
        assert(written_of(run) =~= vals@);
        assert(batch_fold_ok(*init, *func, run, an));
        assert(runs[0] == run && accs@[0] == an);
        assert(list_rw_outcome(*init, *func, *q, old(chunks)@, chunks@, list@, accs@, runs));
    }
    accs
}

/// A parallel iterator over the query items of an explicit entity list.
///
/// This variant is read-only: the list may hold the same entity twice, so
/// handing out mutable views would alias. Rejecting mutable access is
/// structural, not a runtime check: the type offers no writing call, and
/// iteration takes the world by shared reference.
pub struct QueryParManyIter {
    /// The query description with its matched-chunk cache, brought current
    /// at construction.
    pub state: QueryState,
    /// The entities to visit, in order; duplicates are allowed.
    pub entity_list: Vec<Entity>,
    /// Start of the change-detection window, a shared snapshot.
    pub last_run: u64,
    /// End of the change-detection window.
    pub this_run: u64,
    /// How the call is split into batches.
    pub batching_strategy: BatchingStrategy,
}

impl QueryParManyIter {
    /// Builds an iteration call over an entity list, bringing the query's
    /// matched-chunk cache current first.
    pub fn new(
        world: &World,
        state: QueryState,
        entity_list: Vec<Entity>,
        last_run: u64,
        this_run: u64,
    ) -> (r: QueryParManyIter)
        requires
            state.wf_for(world.storage(state.is_dense)),
        ensures
            r.state.wf_for(world.storage(r.state.is_dense)),
            r.state.required == state.required,
            r.state.is_dense == state.is_dense,
            r.entity_list == entity_list,
            r.last_run == last_run,
            r.this_run == this_run,
            r.batching_strategy.batch_size_limits is None,
            r.batching_strategy.batches_per_thread == 1,
            r.batching_strategy.wf(),
    {
        let mut st = state;
        st.update_matched(world);
        QueryParManyIter {
            state: st,
            entity_list,
            last_run,
            this_run,
            batching_strategy: BatchingStrategy::new(),
        }
    }

    /// Changes the batching strategy used when iterating.
    pub fn batching_strategy(self, strategy: BatchingStrategy) -> (r: Self)
        ensures
            r.state == self.state,
            r.entity_list == self.entity_list,
            r.last_run == self.last_run,
            r.this_run == self.this_run,
            r.batching_strategy == strategy,
    {
        QueryParManyIter {
            state: self.state,
            entity_list: self.entity_list,
            last_run: self.last_run,
            this_run: self.this_run,
            batching_strategy: strategy,
        }
    }

    /// The batch size for this call: the strategy's override, or its
    /// estimate from the length of the entity list.
    fn get_batch_size(&self, thread_count: usize) -> (r: usize)
        requires
            self.batching_strategy.wf(),
            thread_count >= 1,
        ensures
            self.batching_strategy.fixed_batch_size() is Some ==> r
                == self.batching_strategy.fixed_batch_size()->Some_0,
            self.batching_strategy.fixed_batch_size() is None ==> r as nat
                == self.batching_strategy.spec_batch_size(
                self.entity_list@.len(),
                thread_count as nat,
            ),
    {
        let ghost n = self.entity_list@.len();
        let supplier = || -> (m: usize)
            ensures
                m as nat == n,
            { self.entity_list.len() };
        let r = self.batching_strategy.calc_batch_size(supplier, thread_count);
        proof {
            if self.batching_strategy.fixed_batch_size() is None {
                let mm = choose|mm: usize|
                    #[trigger] call_ensures(supplier, (), mm) && r
                        == self.batching_strategy.spec_batch_size(mm as nat, thread_count as nat);
            }
        }
        r
    }

    /// Runs `func` read-only on the query item of every listed entity that
    /// the query matches, in parallel when the pool offers more than one
    /// worker; entities the query does not match are silently skipped.
    /// `init` produces a fresh accumulator per task; the per-task
    /// accumulators come back in batch order for the caller to merge.
    pub fn for_each_init<
        T: Send + 'static,
        INIT: Fn() -> T + Send + Sync,
        F: Fn(T, QueryItem) -> T + Send + Sync,
    >(
        self,
        world: &World,
        pool: Option<&bevy_tasks::ComputeTaskPool>,
        init: INIT,
        func: F,
    ) -> (accs: Vec<T>)
        requires
            world.wf(),
            self.state.wf_for(world.storage(self.state.is_dense)),
            self.batching_strategy.wf(),
            call_requires(init, ()),
            forall|a: T, item: QueryItem|
                list_items(
                    self.state,
                    world.storage(self.state.is_dense),
                    self.entity_list@,
                ).contains(item) ==> #[trigger] call_requires(func, (a, item)),
        ensures
            pool is None ==> accs@.len() == 1,
            exists|runs: Seq<Seq<QueryItem>>|
                #[trigger] list_ro_outcome(
                    init,
                    func,
                    self.state,
                    world.storage(self.state.is_dense),
                    self.entity_list@,
                    accs@,
                    runs,
                ),
    {
        let chunks = if self.state.is_dense {
            &world.tables
        } else {
            &world.archetypes
        };
        let mut use_par = false;
        let mut tc: usize = 0;
        match pool {
            Some(p) => {
                tc = pool_thread_count(p);
                if tc > 1 {
                    use_par = true;
                }
            },
            None => {},
        }
        if use_par {
            let p = match pool {
                Some(p) => p,
                None => unreached(),
            };
            let bs0 = self.get_batch_size(tc);
            let bs = if bs0 == 0 {
                1
            } else {
                bs0
            };
            run_list_tasks_ro(chunks, &self.state, &self.entity_list, bs, p, &init, &func)
        } else {
            let len = self.entity_list.len();
            let pair = collect_list_items(chunks, &self.state, &self.entity_list, 0, len);
            let a0 = init();
            proof {
                assert(call_ensures(init, (), a0));
                assert(self.entity_list@.subrange(0, len as int) =~= self.entity_list@);
            }
            let an = fold_items_ro(&pair.0, a0, &func);
            proof {
                lemma_fold_chain_ro_deref(&func, a0, pair.0@, an);
            }
            let mut accs: Vec<T> = Vec::new();
            accs.push(an);
            proof {
                let run = pair.0@;
                let runs = seq![run];
                runs.lemma_flatten_one_element();
                assert(runs.flatten() == run);
                assert(batch_fold_ro_ok(init, func, run, an));
                assert(runs[0] == run && accs@[0] == an);
                assert(list_ro_outcome(
                    init,
                    func,
                    self.state,
                    world.storage(self.state.is_dense),
                    self.entity_list@,
                    accs@,
                    runs,
                ));
            }
            accs
        }
    }

    /// Runs `func` read-only on the query item of every listed entity that
    /// the query matches. All guarantees live on [`Self::for_each_init`],
    /// which this call wraps with a unit accumulator; what `func` observes
    /// it reports only through its own captured state.
    pub fn for_each<F: Fn(QueryItem) -> () + Send + Sync>(
        self,
        world: &World,
        pool: Option<&bevy_tasks::ComputeTaskPool>,
        func: F,
    )
        requires
            world.wf(),
            self.state.wf_for(world.storage(self.state.is_dense)),
            self.batching_strategy.wf(),
            forall|item: QueryItem|
                list_items(
                    self.state,
                    world.storage(self.state.is_dense),
                    self.entity_list@,
                ).contains(item) ==> #[trigger] call_requires(func, (item,)),
    {
        let funcr = &func;
        let init2 = || -> (u: ())
            { };
        let func2 = |a: (), item: QueryItem| -> (out: ())
            requires
                call_requires(funcr, (item,)),
            { funcr(item) };
        self.for_each_init(world, pool, init2, func2);
    }
}


/// Every visited item's written value is an allowed outcome of `func` on
/// that item alone.
pub open spec fn slot_writes_allowed<F: Fn(QueryItem) -> u64>(
    func: F,
    items: Seq<QueryItem>,
    vals: Seq<u64>,
) -> bool {
    &&& vals.len() == items.len()
    &&& forall|i: int| 0 <= i < items.len() ==> call_ensures(func, ((#[trigger] items[i]),), vals[i])
}

/// A parallel iterator over the unique query items of a duplicate-free
/// entity list.
///
/// Because no entity repeats, concurrent tasks may hold simultaneous
/// mutable views into different entities of the same storage: the batches
/// partition the list by index, so no two tasks ever write the same slot.
/// Construction rejects a list holding a duplicate entity.
pub struct QueryParManyUniqueIter {
    /// The query description with its matched-chunk cache, brought current
    /// at construction.
    pub state: QueryState,
    /// The entities to visit, in order, free of duplicates.
    pub entity_list: Vec<Entity>,
    /// Start of the change-detection window, a shared snapshot.
    pub last_run: u64,
    /// End of the change-detection window.
    pub this_run: u64,
    /// How the call is split into batches.
    pub batching_strategy: BatchingStrategy,
}

impl QueryParManyUniqueIter {
    /// Builds a mutable iteration call over a duplicate-free entity list,
    /// bringing the query's matched-chunk cache current first. A list
    /// holding the same entity twice is rejected with `None`: handing out
    /// concurrent mutable views for it would alias.
    pub fn new(
        world: &World,
        state: QueryState,
        entity_list: Vec<Entity>,
        last_run: u64,
        this_run: u64,
    ) -> (r: Option<QueryParManyUniqueIter>)
        requires
            state.wf_for(world.storage(state.is_dense)),
        ensures
            r is Some <==> seq_distinct(entity_list@),
            r matches Some(it) ==> {
                &&& it.state.wf_for(world.storage(it.state.is_dense))
                &&& it.state.required == state.required
                &&& it.state.is_dense == state.is_dense
                &&& it.entity_list == entity_list
                &&& seq_distinct(it.entity_list@)
                &&& it.last_run == last_run
                &&& it.this_run == this_run
                &&& it.batching_strategy.batch_size_limits is None
                &&& it.batching_strategy.batches_per_thread == 1
                &&& it.batching_strategy.wf()
            },
    {
        if !crate::storage::entities_distinct(&entity_list) {
            return None;
        }
        let mut st = state;
        st.update_matched(world);
        Some(
            QueryParManyUniqueIter {
                state: st,
                entity_list,
                last_run,
                this_run,
                batching_strategy: BatchingStrategy::new(),
            },
        )
    }

    /// Changes the batching strategy used when iterating.
    pub fn batching_strategy(self, strategy: BatchingStrategy) -> (r: Self)
        ensures
            r.state == self.state,
            r.entity_list == self.entity_list,
            r.last_run == self.last_run,
            r.this_run == self.this_run,
            r.batching_strategy == strategy,
    {
        QueryParManyUniqueIter {
            state: self.state,
            entity_list: self.entity_list,
            last_run: self.last_run,
            this_run: self.this_run,
            batching_strategy: strategy,
        }
    }

    /// The batch size for this call: the strategy's override, or its
    /// estimate from the length of the entity list.
    fn get_batch_size(&self, thread_count: usize) -> (r: usize)
        requires
            self.batching_strategy.wf(),
            thread_count >= 1,
        ensures
            self.batching_strategy.fixed_batch_size() is Some ==> r
                == self.batching_strategy.fixed_batch_size()->Some_0,
            self.batching_strategy.fixed_batch_size() is None ==> r as nat
                == self.batching_strategy.spec_batch_size(
                self.entity_list@.len(),
                thread_count as nat,
            ),
    {
        let ghost n = self.entity_list@.len();
        let supplier = || -> (m: usize)
            ensures
                m as nat == n,
            { self.entity_list.len() };
        let r = self.batching_strategy.calc_batch_size(supplier, thread_count);
        proof {
            if self.batching_strategy.fixed_batch_size() is None {
                let mm = choose|mm: usize|
                    #[trigger] call_ensures(supplier, (), mm) && r
                        == self.batching_strategy.spec_batch_size(mm as nat, thread_count as nat);
            }
        }
        r
    }

    /// Runs `func` on the query item of every listed entity the query
    /// matches, in parallel when the pool offers more than one worker,
    /// writing each returned value back to the slot its entity was read
    /// from. `init` produces a fresh accumulator per task; the per-task
    /// accumulators come back in batch order for the caller to merge. The
    /// call blocks until every item has been visited and stored.
    pub fn for_each_init<
        T: Send + 'static,
        INIT: Fn() -> T + Send + Sync,
        F: Fn(T, QueryItem) -> (T, u64) + Send + Sync,
    >(
        self,
        world: &mut World,
        pool: Option<&bevy_tasks::ComputeTaskPool>,
        init: INIT,
        func: F,
    ) -> (accs: Vec<T>)
        requires
            old(world).wf(),
            self.state.wf_for(old(world).storage(self.state.is_dense)),
            seq_distinct(self.entity_list@),
            self.batching_strategy.wf(),
            call_requires(init, ()),
            forall|a: T, item: QueryItem|
                list_items(
                    self.state,
                    old(world).storage(self.state.is_dense),
                    self.entity_list@,
                ).contains(item) ==> #[trigger] call_requires(func, (a, item)),
        ensures
            final(world).wf(),
            final(world).resources@ == old(world).resources@,
            final(world).storage(!self.state.is_dense) == old(world).storage(
                !self.state.is_dense,
            ),
            pool is None ==> accs@.len() == 1,
            exists|runs: Seq<Seq<Visit>>|
                #[trigger] list_rw_outcome(
                    init,
                    func,
                    self.state,
                    old(world).storage(self.state.is_dense),
                    final(world).storage(self.state.is_dense),
                    self.entity_list@,
                    accs@,
                    runs,
                ),
    {
        let mut use_par = false;
        let mut tc: usize = 0;
        match pool {
            Some(p) => {
                tc = pool_thread_count(p);
                if tc > 1 {
                    use_par = true;
                }
            },
            None => {},
        }
        if use_par {
            let p = match pool {
                Some(p) => p,
                None => unreached(),
            };
            let bs0 = self.get_batch_size(tc);
            let bs = if bs0 == 0 {
                1
            } else {
                bs0
            };
            let pair = if self.state.is_dense {
                run_list_tasks_rw(&world.tables, &self.state, &self.entity_list, bs, p, &init, &func)
            } else {
                run_list_tasks_rw(
                    &world.archetypes,
                    &self.state,
                    &self.entity_list,
                    bs,
                    p,
                    &init,
                    &func,
                )
            };
            let (accs, vals) = pair;
            let slots = if self.state.is_dense {
                collect_list_items(&world.tables, &self.state, &self.entity_list, 0, self.entity_list.len()).1
            } else {
                collect_list_items(
                    &world.archetypes,
                    &self.state,
                    &self.entity_list,
                    0,
                    self.entity_list.len(),
                ).1
            };
            proof {
                let chunks0 = old(world).storage(self.state.is_dense);
                assert(self.entity_list@.subrange(0, self.entity_list@.len() as int)
                    =~= self.entity_list@);
                lemma_list_lens(self.state, chunks0, self.entity_list@);
                lemma_list_slots_entities(self.state, chunks0, self.entity_list@);
                lemma_list_slots_distinct(self.state, chunks0, self.entity_list@);
                assert(slots_view(slots@) =~= list_slots(self.state, chunks0, self.entity_list@));
            }
            if self.state.is_dense {
                write_slots(&mut world.tables, &slots, &vals);
            } else {
                write_slots(&mut world.archetypes, &slots, &vals);
            }
            proof {
                lemma_distinct_preserved(
                    old(world).storage(self.state.is_dense),
                    world.storage(self.state.is_dense),
                );
                let chunks0 = old(world).storage(self.state.is_dense);
                let runs = choose|runs: Seq<Seq<Visit>>| {
                    &&& runs.len() == accs@.len()
                    &&& visited_of(runs.flatten()) == list_items(
                        self.state,
                        chunks0,
                        self.entity_list@,
                    )
                    &&& written_of(runs.flatten()) == vals@
                    &&& forall|j: int|
                        0 <= j < runs.len() ==> batch_fold_ok(init, func, #[trigger] runs[j], accs@[j])
                };
                assert(list_rw_outcome(
                    init,
                    func,
                    self.state,
                    chunks0,
                    world.storage(self.state.is_dense),
                    self.entity_list@,
                    accs@,
                    runs,
                ));
            }
            accs
        } else {
            let accs = if self.state.is_dense {
                run_list_seq_rw_on(&mut world.tables, &self.state, &self.entity_list, &init, &func)
            } else {
                run_list_seq_rw_on(
                    &mut world.archetypes,
                    &self.state,
                    &self.entity_list,
                    &init,
                    &func,
                )
            };
            proof {
                lemma_distinct_preserved(
                    old(world).storage(self.state.is_dense),
                    world.storage(self.state.is_dense),
                );
            }
            accs
        }
    }

    /// Runs `func` on the query item of every listed entity the query
    /// matches, writing `func`'s result back as the item's new value.
    pub fn for_each<F: Fn(QueryItem) -> u64 + Send + Sync>(
        self,
        world: &mut World,
        pool: Option<&bevy_tasks::ComputeTaskPool>,
        func: F,
    )
        requires
            old(world).wf(),
            self.state.wf_for(old(world).storage(self.state.is_dense)),
            seq_distinct(self.entity_list@),
            self.batching_strategy.wf(),
            forall|item: QueryItem|
                list_items(
                    self.state,
                    old(world).storage(self.state.is_dense),
                    self.entity_list@,
                ).contains(item) ==> #[trigger] call_requires(func, (item,)),
        ensures
            final(world).wf(),
            final(world).resources@ == old(world).resources@,
            final(world).storage(!self.state.is_dense) == old(world).storage(
                !self.state.is_dense,
            ),
            exists|vals: Seq<u64>| {
                &&& #[trigger] slot_writes_allowed(
                    func,
                    list_items(
                        self.state,
                        old(world).storage(self.state.is_dense),
                        self.entity_list@,
                    ),
                    vals,
                )
                &&& is_slots_write(
                    old(world).storage(self.state.is_dense),
                    list_slots(
                        self.state,
                        old(world).storage(self.state.is_dense),
                        self.entity_list@,
                    ),
                    vals,
                    final(world).storage(self.state.is_dense),
                )
            },
    {
        let ghost st = self.state;
        let ghost listv = self.entity_list@;
        let ghost chunks0 = old(world).storage(self.state.is_dense);
        let init2 = || -> (u: ())
            { };
        let funcr = &func;
        let func2 = |a: (), item: QueryItem| -> (out: ((), u64))
            requires
                call_requires(funcr, (item,)),
            ensures
                call_ensures(funcr, (item,), out.1),
            { ((), funcr(item)) };
        let accs = self.for_each_init(world, pool, init2, func2);
        proof {
            let items = list_items(st, chunks0, listv);
            let runs = choose|runs: Seq<Seq<Visit>>|
                #[trigger] list_rw_outcome(
                    init2,
                    func2,
                    st,
                    chunks0,
                    world.storage(st.is_dense),
                    listv,
                    accs@,
                    runs,
                );
            lemma_runs_pointwise(init2, func2, runs, accs@);
            let flat = runs.flatten();
            let vals = written_of(flat);
            assert(visited_of(flat) == items);
            assert(visited_of(flat).len() == flat.len());
            assert(vals.len() == flat.len());
            assert forall|i: int| 0 <= i < items.len() implies call_ensures(
                func,
                ((#[trigger] items[i]),),
                vals[i],
            ) by {
                assert(visit_consistent::<(), _>(func2, flat[i]));
                let (a, b) = choose|a: (), b: ()|
                    #[trigger] call_ensures(func2, (a, flat[i].0), (b, flat[i].1));
                assert(call_ensures(func2, (a, flat[i].0), (b, flat[i].1)));
                assert(call_ensures(funcr, (flat[i].0,), flat[i].1));
                assert(call_ensures(func, (flat[i].0,), flat[i].1));
                assert(flat[i].0 == items[i]);
                assert(flat[i].1 == vals[i]);
            }
            assert(slot_writes_allowed(func, items, vals));
        }
    }
}

} // verus!
