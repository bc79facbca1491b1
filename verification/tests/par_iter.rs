use std::sync::atomic::AtomicUsize;
use std::sync::atomic::Ordering;

use bevy_tasks::ComputeTaskPool;
use bevy_tasks::TaskPoolBuilder;
use par_query::batching::BatchingStrategy;
use par_query::par_iter::QueryParIter;
use par_query::query::QueryState;
use par_query::storage::Entity;
use par_query::storage::World;

fn entities(ids: &[u64]) -> Vec<Entity> {
    ids.iter().map(|id| Entity { id: *id }).collect()
}

fn demo_world() -> World {
    let mut world = World::new();
    // Two matching chunks and one that lacks the required component.
    world
        .add_chunk(true, vec![1, 2], entities(&[10, 11, 12]), vec![100, 110, 120])
        .unwrap();
    world.add_chunk(true, vec![2], entities(&[20, 21]), vec![200, 210]).unwrap();
    world.add_chunk(true, vec![1], entities(&[30]), vec![300]).unwrap();
    world
}

fn collected_items(world: &mut World, pool: Option<&ComputeTaskPool>) -> Vec<(u64, u64)> {
    let state = QueryState::new(vec![1], true);
    let iter = QueryParIter::new(world, state, 0, 1);
    let accs = iter.for_each_init(world, pool, Vec::new, |mut acc: Vec<(u64, u64)>, item| {
        acc.push((item.entity.id, item.value));
        let value = item.value;
        (acc, value)
    });
    let mut all: Vec<(u64, u64)> = accs.into_iter().flatten().collect();
    all.sort();
    all
}

#[test]
fn sequential_scan_visits_matching_chunks_in_order() {
    let mut world = demo_world();
    let state = QueryState::new(vec![1], true);
    let iter = QueryParIter::new(&world, state, 0, 1);
    let accs = iter.for_each_init(&mut world, None, Vec::new, |mut acc: Vec<u64>, item| {
        acc.push(item.entity.id);
        let value = item.value;
        (acc, value)
    });
    assert_eq!(accs.len(), 1);
    assert_eq!(accs[0], vec![10, 11, 12, 30]);
}

#[test]
fn parallel_matches_sequential_multiset() {
    ComputeTaskPool::get_or_init(|| TaskPoolBuilder::new().num_threads(4).build());
    let mut world_a = demo_world();
    let mut world_b = demo_world();
    let seq = collected_items(&mut world_a, None);
    let par = collected_items(&mut world_b, ComputeTaskPool::try_get());
    assert_eq!(seq, par);
}

#[test]
fn parallel_small_batches_still_cover_everything() {
    ComputeTaskPool::get_or_init(|| TaskPoolBuilder::new().num_threads(4).build());
    let mut world = demo_world();
    let state = QueryState::new(vec![1], true);
    let iter = QueryParIter::new(&world, state, 0, 1).batching_strategy(BatchingStrategy::fixed(1));
    let accs = iter.for_each_init(
        &mut world,
        ComputeTaskPool::try_get(),
        Vec::new,
        |mut acc: Vec<u64>, item| {
            acc.push(item.entity.id);
            let value = item.value;
            (acc, value)
        },
    );
    // One task per entity with a batch size of one.
    assert_eq!(accs.len(), 4);
    let mut all: Vec<u64> = accs.into_iter().flatten().collect();
    all.sort();
    assert_eq!(all, vec![10, 11, 12, 30]);
}

#[test]
fn parallel_writes_land_in_storage() {
    ComputeTaskPool::get_or_init(|| TaskPoolBuilder::new().num_threads(4).build());
    let mut world = demo_world();
    let state = QueryState::new(vec![1], true);
    let iter = QueryParIter::new(&world, state, 0, 1);
    iter.for_each(&mut world, ComputeTaskPool::try_get(), |item| item.value + 5);
    assert_eq!(world.tables[0].values, vec![105, 115, 125]);
    assert_eq!(world.tables[1].values, vec![200, 210]);
    assert_eq!(world.tables[2].values, vec![305]);
}

#[test]
fn missing_pool_takes_the_sequential_path() {
    // With no worker pool the fallback runs one fold: init is called
    // exactly once and every item is still visited.
    let mut world = demo_world();
    let state = QueryState::new(vec![1], true);
    let iter = QueryParIter::new(&world, state, 0, 1);
    let init_calls = AtomicUsize::new(0);
    let visited = AtomicUsize::new(0);
    let accs = iter.for_each_init(
        &mut world,
        None,
        || init_calls.fetch_add(1, Ordering::SeqCst),
        |acc, item| {
            visited.fetch_add(1, Ordering::SeqCst);
            let value = item.value;
            (acc, value)
        },
    );
    assert_eq!(accs.len(), 1);
    assert_eq!(init_calls.load(Ordering::SeqCst), 1);
    assert_eq!(visited.load(Ordering::SeqCst), 4);
}

#[test]
fn single_worker_takes_the_sequential_path() {
    let pool = ComputeTaskPool::get_or_init(|| TaskPoolBuilder::new().num_threads(1).build());
    assert_eq!(pool.thread_num(), 1);
    let mut world = demo_world();
    let state = QueryState::new(vec![1], true);
    let iter = QueryParIter::new(&world, state, 0, 1).batching_strategy(BatchingStrategy::fixed(1));
    let init_calls = AtomicUsize::new(0);
    let accs = iter.for_each_init(
        &mut world,
        Some(pool),
        || init_calls.fetch_add(1, Ordering::SeqCst),
        |acc, item| {
            let value = item.value;
            (acc, value)
        },
    );
    // The parallel-only path would have created one task (and one fresh
    // accumulator) per entity; the fallback folds everything at once.
    assert_eq!(accs.len(), 1);
    assert_eq!(init_calls.load(Ordering::SeqCst), 1);
}

#[test]
fn rerunning_visits_the_same_items() {
    let mut world = demo_world();
    let first = collected_items(&mut world, None);
    let second = collected_items(&mut world, None);
    assert_eq!(first, second);
}

#[test]
fn sparse_queries_scan_archetypes() {
    let mut world = World::new();
    world.add_chunk(false, vec![7], entities(&[1, 2]), vec![10, 20]).unwrap();
    world.add_chunk(true, vec![7], entities(&[3]), vec![30]).unwrap();
    let state = QueryState::new(vec![7], false);
    let iter = QueryParIter::new(&world, state, 0, 1);
    let accs = iter.for_each_init(&mut world, None, Vec::new, |mut acc: Vec<u64>, item| {
        acc.push(item.entity.id);
        let value = item.value;
        (acc, value)
    });
    assert_eq!(accs[0], vec![1, 2]);
}

#[test]
fn empty_query_visits_nothing() {
    let mut world = demo_world();
    let state = QueryState::new(vec![9], true);
    let iter = QueryParIter::new(&world, state, 0, 1);
    let visited = AtomicUsize::new(0);
    iter.for_each(&mut world, None, |item| {
        visited.fetch_add(1, Ordering::SeqCst);
        item.value
    });
    assert_eq!(visited.load(Ordering::SeqCst), 0);
}
