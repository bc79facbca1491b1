//! Parallel iterators over query results: full-storage scans dispatched
//! onto the shared worker pool, with a sequential fallback.

use vstd::prelude::*;
use crate::batching::BatchingStrategy;
use crate::storage::Chunk;
use crate::storage::QueryItem;
use crate::storage::World;
use crate::storage::chunks_wf;
use crate::storage::lemma_distinct_preserved;
use crate::query::QueryState;
use crate::iter::Visit;
use crate::iter::collect_segment_items;
use crate::iter::fold_items;
use crate::iter::full_segments;
use crate::iter::is_matched_write;
use crate::iter::visit_consistent;
use crate::iter::visited_of;
use crate::iter::written_of;
use crate::iter::write_matched;
use crate::iter::zip_visits;
use crate::dispatch::batch_fold_ok;
use crate::dispatch::lemma_runs_pointwise;
use crate::dispatch::par_runs_ok;
use crate::dispatch::run_par_tasks;
use crate::pool::pool_thread_count;

verus! {

/// The largest entity count among the first `k` matched chunks: the item
/// estimate a dispatch call hands to the batching strategy (batches are
/// drawn chunk by chunk, so the largest single chunk matters, not the sum).
pub open spec fn max_count_prefix(q: QueryState, chunks: Seq<Chunk>, k: int) -> nat
    decreases k,
{
    if k <= 0 {
        0
    } else {
        let c = chunks[q.matched@[k - 1] as int].entities@.len();
        let rest = max_count_prefix(q, chunks, k - 1);
        if c > rest {
            c
        } else {
            rest
        }
    }
}

/// The largest entity count among all matched chunks.
pub fn max_chunk_count(chunks: &Vec<Chunk>, q: &QueryState) -> (r: usize)
    requires
        q.wf_for(chunks@),
    ensures
        r as nat == max_count_prefix(*q, chunks@, q.matched@.len() as int),
{
    let m = q.matched.len();
    let mut best: usize = 0;
    for k in 0..m
        invariant
            m == q.matched@.len(),
            q.wf_for(chunks@),
            best as nat == max_count_prefix(*q, chunks@, k as int),
    {
        let id = q.matched[k];
        let cnt = chunks[id].entity_count();
        if cnt > best {
            best = cnt;
        }
    }
    best
}

/// The full outcome of one iteration call over a storage: one visit trace
/// per task explains the returned accumulators, the traces together visit
/// exactly the items of a sequential scan, and the storage after the call
/// is the storage before it with each visited item's value replaced by the
/// value its visit wrote.
pub open spec fn dispatch_outcome<T, INIT: Fn() -> T, F: Fn(T, QueryItem) -> (T, u64)>(
    init: INIT,
    func: F,
    q: QueryState,
    chunks0: Seq<Chunk>,
    chunks1: Seq<Chunk>,
    accs: Seq<T>,
    runs: Seq<Seq<Visit>>,
) -> bool {
    &&& runs.len() == accs.len()
    &&& visited_of(runs.flatten()) == q.matched_items(chunks0)
    &&& is_matched_write(q, chunks0, written_of(runs.flatten()), chunks1)
    &&& forall|j: int|
        0 <= j < runs.len() ==> batch_fold_ok(init, func, #[trigger] runs[j], accs[j])
}

/// One fully sequential pass over a storage: collect the items of a scan,
/// fold the callback over them from one fresh accumulator, and write the
/// produced values back.
fn run_sequential_on<T, INIT: Fn() -> T, F: Fn(T, QueryItem) -> (T, u64)>(
    chunks: &mut Vec<Chunk>,
    q: &QueryState,
    init: &INIT,
    func: &F,
) -> (accs: Vec<T>)
    requires
        chunks_wf(old(chunks)@),
        q.wf_for(old(chunks)@),
        call_requires(*init, ()),
        forall|a: T, item: QueryItem|
            q.matched_items(old(chunks)@).contains(item) ==> #[trigger] call_requires(
                *func,
                (a, item),
            ),
    ensures
        accs@.len() == 1,
        chunks_wf(final(chunks)@),
        final(chunks)@.len() == old(chunks)@.len(),
        forall|c: int|
            0 <= c < old(chunks)@.len() ==> (#[trigger] final(chunks)@[c]).entities@ == old(
                chunks,
            )@[c].entities@ && final(chunks)@[c].shape@ == old(chunks)@[c].shape@,
        exists|runs: Seq<Seq<Visit>>|
            #[trigger] dispatch_outcome(*init, *func, *q, old(chunks)@, final(chunks)@, accs@, runs),
{
    let segs = full_segments(chunks, q);
    let items = collect_segment_items(chunks, &segs);
    let a0 = init();
    proof {
        assert(call_ensures(*init, (), a0));
    }
    let folded = fold_items(&items, a0, func);
    let (an, vals) = folded;
    write_matched(chunks, q, &vals);
    let mut accs: Vec<T> = Vec::new();
    accs.push(an);
    proof {
        let run = zip_visits(items@, vals@);
        let runs = seq![run];
        runs.lemma_flatten_one_element();
        assert(runs.flatten() == run);
        assert(visited_of(run) =~= items@);
        assert(written_of(run) =~= vals@);
        assert(batch_fold_ok(*init, *func, run, an));
        assert(runs[0] == run && accs@[0] == an);
        assert(dispatch_outcome(*init, *func, *q, old(chunks)@, chunks@, accs@, runs));
    }
    accs
}

/// Lifts one sequential pass from a storage to the world that owns it.
fn run_sequential_world<T, INIT: Fn() -> T, F: Fn(T, QueryItem) -> (T, u64)>(
    world: &mut World,
    q: &QueryState,
    init: &INIT,
    func: &F,
) -> (accs: Vec<T>)
    requires
        old(world).wf(),
        q.wf_for(old(world).storage(q.is_dense)),
        call_requires(*init, ()),
        forall|a: T, item: QueryItem|
            q.matched_items(old(world).storage(q.is_dense)).contains(item)
                ==> #[trigger] call_requires(*func, (a, item)),
    ensures
        accs@.len() == 1,
        final(world).wf(),
        final(world).resources@ == old(world).resources@,
        final(world).storage(!q.is_dense) == old(world).storage(!q.is_dense),
        exists|runs: Seq<Seq<Visit>>|
            #[trigger] dispatch_outcome(
                *init,
                *func,
                *q,
                old(world).storage(q.is_dense),
                final(world).storage(q.is_dense),
                accs@,
                runs,
            ),
{
    let accs = if q.is_dense {
        run_sequential_on(&mut world.tables, q, init, func)
    } else {
        run_sequential_on(&mut world.archetypes, q, init, func)
    };
    proof {
        lemma_distinct_preserved(old(world).storage(q.is_dense), world.storage(q.is_dense));
    }
    accs
}

/// Every visited item's written value is an allowed outcome of `func` on
/// that item alone.
pub open spec fn writes_allowed<F: Fn(QueryItem) -> u64>(
    func: F,
    items: Seq<QueryItem>,
    vals: Seq<u64>,
) -> bool {
    &&& vals.len() == items.len()
    &&& forall|i: int| 0 <= i < items.len() ==> call_ensures(func, ((#[trigger] items[i]),), vals[i])
}

/// A parallel iterator over the query results of one iteration call.
///
/// It owns the query state for the duration of the call: a value of this
/// type is consumed by `for_each`/`for_each_init`, so one iteration call
/// cannot run twice concurrently over the same matched entities.
pub struct QueryParIter {
    /// The query description with its matched-chunk cache, brought current
    /// at construction.
    pub state: QueryState,
    /// Start of the change-detection window, a snapshot shared unchanged
    /// by every task of the call.
    pub last_run: u64,
    /// End of the change-detection window, shared the same way.
    pub this_run: u64,
    /// How the call is split into batches.
    pub batching_strategy: BatchingStrategy,
}

impl QueryParIter {
    /// Builds an iteration call, bringing the query's matched-chunk cache
    /// current for this world first (the storage locator runs here, before
    /// each iteration).
    pub fn new(world: &World, state: QueryState, last_run: u64, this_run: u64) -> (r:
        QueryParIter)
        requires
            state.wf_for(world.storage(state.is_dense)),
        ensures
            r.state.wf_for(world.storage(r.state.is_dense)),
            r.state.seen == world.storage(r.state.is_dense).len(),
            r.state.required == state.required,
            r.state.is_dense == state.is_dense,
            r.last_run == last_run,
            r.this_run == this_run,
            r.batching_strategy.batch_size_limits is None,
            r.batching_strategy.batches_per_thread == 1,
            r.batching_strategy.wf(),
    {
        let mut st = state;
        st.update_matched(world);
        QueryParIter { state: st, last_run, this_run, batching_strategy: BatchingStrategy::new() }
    }

    /// Changes the batching strategy used when iterating.
    pub fn batching_strategy(self, strategy: BatchingStrategy) -> (r: Self)
        ensures
            r.state == self.state,
            r.last_run == self.last_run,
            r.this_run == self.this_run,
            r.batching_strategy == strategy,
    {
        QueryParIter {
            state: self.state,
            last_run: self.last_run,
            this_run: self.this_run,
            batching_strategy: strategy,
        }
    }

    /// Computes this call's batch size: the strategy's override if one is
    /// set, otherwise its estimate from the largest matched chunk. The
    /// estimate supplier runs only in the second case.
    fn get_batch_size(&self, chunks: &Vec<Chunk>, thread_count: usize) -> (r: usize)
        requires
            self.batching_strategy.wf(),
            thread_count >= 1,
            self.state.wf_for(chunks@),
        ensures
            self.batching_strategy.fixed_batch_size() is Some ==> r
                == self.batching_strategy.fixed_batch_size()->Some_0,
            self.batching_strategy.fixed_batch_size() is None ==> r as nat
                == self.batching_strategy.spec_batch_size(
                max_count_prefix(self.state, chunks@, self.state.matched@.len() as int),
                thread_count as nat,
            ),
    {
        let ghost qs = self.state;
        let supplier = || -> (m: usize)
            ensures
                m as nat == max_count_prefix(qs, chunks@, qs.matched@.len() as int),
            { max_chunk_count(chunks, &self.state) };
        let r = self.batching_strategy.calc_batch_size(supplier, thread_count);
        proof {
            if self.batching_strategy.fixed_batch_size() is None {
                let mm = choose|mm: usize|
                    #[trigger] call_ensures(supplier, (), mm) && r
                        == self.batching_strategy.spec_batch_size(
                        mm as nat,
                        thread_count as nat,
                    );
            }
        }
        r
    }

    /// Runs `func` on every query result, in parallel when the pool offers
    /// more than one worker, writing `func`'s result back as the item's
    /// new value. A missing pool, or one with a single worker, falls back
    /// to one sequential pass. The call blocks until every item has been
    /// visited.
    pub fn for_each<F: Fn(QueryItem) -> u64 + Send + Sync>(
        self,
        world: &mut World,
        pool: Option<&bevy_tasks::ComputeTaskPool>,
        func: F,
    )
        requires
            old(world).wf(),
            self.state.wf_for(old(world).storage(self.state.is_dense)),
            self.batching_strategy.wf(),
            forall|item: QueryItem|
                self.state.matched_items(old(world).storage(self.state.is_dense)).contains(item)
                    ==> #[trigger] call_requires(func, (item,)),
        ensures
            final(world).wf(),
            final(world).resources@ == old(world).resources@,
            final(world).storage(!self.state.is_dense) == old(world).storage(
                !self.state.is_dense,
            ),
            exists|vals: Seq<u64>| {
                &&& #[trigger] writes_allowed(
                    func,
                    self.state.matched_items(old(world).storage(self.state.is_dense)),
                    vals,
                )
                &&& is_matched_write(
                    self.state,
                    old(world).storage(self.state.is_dense),
                    vals,
                    final(world).storage(self.state.is_dense),
                )
            },
    {
        let ghost st = self.state;
        let ghost chunks0 = old(world).storage(self.state.is_dense);
        let init2 = || -> (u: ())
            { };
        let funcr = &func;
        let func2 = |a: (), item: QueryItem| -> (out: ((), u64))
            requires
                call_requires(funcr, (item,)),
            ensures
                call_ensures(funcr, (item,), out.1),
            { ((), funcr(item)) };
        let accs = self.for_each_init(world, pool, init2, func2);
        proof {
            let items = st.matched_items(chunks0);
            let runs = choose|runs: Seq<Seq<Visit>>|
                #[trigger] dispatch_outcome(
                    init2,
                    func2,
                    st,
                    chunks0,
                    world.storage(st.is_dense),
                    accs@,
                    runs,
                );
            lemma_runs_pointwise(init2, func2, runs, accs@);
            let flat = runs.flatten();
            let vals = written_of(flat);
            assert(visited_of(flat) == items);
            assert(visited_of(flat).len() == flat.len());
            assert(vals.len() == flat.len());
            assert forall|i: int| 0 <= i < items.len() implies call_ensures(
                func,
                ((#[trigger] items[i]),),
                vals[i],
            ) by {
                assert(visit_consistent::<(), _>(func2, flat[i]));
                let (a, b) = choose|a: (), b: ()|
                    #[trigger] call_ensures(func2, (a, flat[i].0), (b, flat[i].1));
                assert(call_ensures(func2, (a, flat[i].0), (b, flat[i].1)));
                assert(call_ensures(funcr, (flat[i].0,), flat[i].1));
                assert(call_ensures(func, (flat[i].0,), flat[i].1));
                assert(flat[i].0 == items[i]);
                assert(flat[i].1 == vals[i]);
            }
            assert(writes_allowed(func, items, vals));
        }
    }

    /// Runs `func` on every query result, in parallel when the pool offers
    /// more than one worker.
    ///
    /// `init` produces a fresh accumulator per task (it may run many times
    /// and its values are independent); `func` folds one item into the
    /// accumulator and returns the value written back for that item. The
    /// per-task accumulators come back in batch order for the caller to
    /// merge: the engine does not merge them. A missing pool, or one with
    /// a single worker, falls back to one sequential fold. The call blocks
    /// until every item has been visited.
    pub fn for_each_init<
        T: Send + 'static,
        INIT: Fn() -> T + Send + Sync,
        F: Fn(T, QueryItem) -> (T, u64) + Send + Sync,
    >(
        self,
        world: &mut World,
        pool: Option<&bevy_tasks::ComputeTaskPool>,
        init: INIT,
        func: F,
    ) -> (accs: Vec<T>)
        requires
            old(world).wf(),
            self.state.wf_for(old(world).storage(self.state.is_dense)),
            self.batching_strategy.wf(),
            call_requires(init, ()),
            forall|a: T, item: QueryItem|
                self.state.matched_items(old(world).storage(self.state.is_dense)).contains(item)
                    ==> #[trigger] call_requires(func, (a, item)),
        ensures
            final(world).wf(),
            final(world).resources@ == old(world).resources@,
            final(world).storage(!self.state.is_dense) == old(world).storage(
                !self.state.is_dense,
            ),
            pool is None ==> accs@.len() == 1,
            exists|runs: Seq<Seq<Visit>>|
                #[trigger] dispatch_outcome(
                    init,
                    func,
                    self.state,
                    old(world).storage(self.state.is_dense),
                    final(world).storage(self.state.is_dense),
                    accs@,
                    runs,
                ),
    {
        match pool {
            None => run_sequential_world(world, &self.state, &init, &func),
            Some(p) => {
                let tc = pool_thread_count(p);
                if tc <= 1 {
                    run_sequential_world(world, &self.state, &init, &func)
                } else {
                    let pair = if self.state.is_dense {
                        let bs0 = self.get_batch_size(&world.tables, tc);
                        let bs = if bs0 == 0 {
                            1
                        } else {
                            bs0
                        };
                        run_par_tasks(&world.tables, &self.state, bs, p, &init, &func)
                    } else {
                        let bs0 = self.get_batch_size(&world.archetypes, tc);
                        let bs = if bs0 == 0 {
                            1
                        } else {
                            bs0
                        };
                        run_par_tasks(&world.archetypes, &self.state, bs, p, &init, &func)
                    };
                    let (accs, vals) = pair;
                    proof {
                        let runs = choose|runs: Seq<Seq<Visit>>|
                            par_runs_ok(
                                init,
                                func,
                                self.state,
                                old(world).storage(self.state.is_dense),
                                runs,
                                accs@,
                                vals@,
                            );
                    }
                    if self.state.is_dense {
                        write_matched(&mut world.tables, &self.state, &vals);
                    } else {
                        write_matched(&mut world.archetypes, &self.state, &vals);
                    }
                    proof {
                        lemma_distinct_preserved(
                            old(world).storage(self.state.is_dense),
                            world.storage(self.state.is_dense),
                        );
                        let runs = choose|runs: Seq<Seq<Visit>>|
                            par_runs_ok(
                                init,
                                func,
                                self.state,
                                old(world).storage(self.state.is_dense),
                                runs,
                                accs@,
                                vals@,
                            );
                        assert(written_of(runs.flatten()) == vals@);
                        assert(dispatch_outcome(
                            init,
                            func,
                            self.state,
                            old(world).storage(self.state.is_dense),
                            world.storage(self.state.is_dense),
                            accs@,
                            runs,
                        ));
                    }
                    accs
                }
            },
        }
    }
}

} // verus!
