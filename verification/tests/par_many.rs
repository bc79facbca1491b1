use std::sync::atomic::AtomicUsize;
use std::sync::atomic::Ordering;

use bevy_tasks::ComputeTaskPool;
use bevy_tasks::TaskPoolBuilder;
use par_query::batching::BatchingStrategy;
use par_query::par_many::QueryParManyIter;
use par_query::par_many::QueryParManyUniqueIter;
use par_query::query::QueryState;
use par_query::storage::Entity;
use par_query::storage::World;

fn entities(ids: &[u64]) -> Vec<Entity> {
    ids.iter().map(|id| Entity { id: *id }).collect()
}

fn list_world() -> World {
    let mut world = World::new();
    world.add_chunk(true, vec![1], entities(&[1, 2, 3]), vec![10, 20, 30]).unwrap();
    world.add_chunk(true, vec![1], entities(&[4]), vec![40]).unwrap();
    world
}

#[test]
fn list_iteration_keeps_list_order_and_skips() {
    let world = list_world();
    let state = QueryState::new(vec![1], true);
    // Entity 9 does not exist; it is skipped, not an error.
    let iter = QueryParManyIter::new(&world, state, entities(&[4, 9, 2, 1]), 0, 1);
    let accs = iter.for_each_init(&world, None, Vec::new, |mut acc: Vec<u64>, item| {
        acc.push(item.entity.id);
        acc
    });
    assert_eq!(accs.len(), 1);
    assert_eq!(accs[0], vec![4, 2, 1]);
}

#[test]
fn list_iteration_visits_duplicates_read_only() {
    let world = list_world();
    let state = QueryState::new(vec![1], true);
    let iter = QueryParManyIter::new(&world, state, entities(&[1, 1]), 0, 1);
    let visited = AtomicUsize::new(0);
    iter.for_each(&world, None, |_item| {
        visited.fetch_add(1, Ordering::SeqCst);
    });
    assert_eq!(visited.load(Ordering::SeqCst), 2);
    // The world is untouched: this variant has no writing call at all.
    assert_eq!(world.tables[0].values, vec![10, 20, 30]);
}

#[test]
fn parallel_list_iteration_matches_sequential() {
    ComputeTaskPool::get_or_init(|| TaskPoolBuilder::new().num_threads(4).build());
    let world = list_world();
    let collect = |pool: Option<&ComputeTaskPool>| -> Vec<u64> {
        let state = QueryState::new(vec![1], true);
        let iter = QueryParManyIter::new(&world, state, entities(&[1, 2, 3, 4]), 0, 1)
            .batching_strategy(BatchingStrategy::fixed(2));
        let accs = iter.for_each_init(&world, pool, Vec::new, |mut acc: Vec<u64>, item| {
            acc.push(item.value);
            acc
        });
        let mut all: Vec<u64> = accs.into_iter().flatten().collect();
        all.sort();
        all
    };
    assert_eq!(collect(None), collect(ComputeTaskPool::try_get()));
}

#[test]
fn unique_list_rejects_duplicates() {
    let world = list_world();
    let state = QueryState::new(vec![1], true);
    let iter = QueryParManyUniqueIter::new(&world, state, entities(&[1, 1]), 0, 1);
    assert!(iter.is_none());
}

#[test]
fn unique_list_accepts_distinct_entities() {
    let world = list_world();
    let state = QueryState::new(vec![1], true);
    let iter = QueryParManyUniqueIter::new(&world, state, entities(&[1, 2, 3]), 0, 1);
    assert!(iter.is_some());
}

#[test]
fn unique_parallel_mutation_matches_sequential() {
    // Three entities split into two batches (sizes 2 and 1): concurrent
    // mutation of the entities' values lands exactly as a sequential pass
    // would, whatever order the tasks finish in.
    ComputeTaskPool::get_or_init(|| TaskPoolBuilder::new().num_threads(4).build());
    let run = |pool: Option<&ComputeTaskPool>| -> World {
        let mut world = list_world();
        let state = QueryState::new(vec![1], true);
        let iter = QueryParManyUniqueIter::new(&world, state, entities(&[1, 2, 3]), 0, 1)
            .unwrap()
            .batching_strategy(BatchingStrategy::fixed(2));
        iter.for_each(&mut world, pool, |item| item.value * 10 + item.entity.id);
        world
    };
    let seq = run(None);
    let par = run(ComputeTaskPool::try_get());
    assert_eq!(seq.tables[0].values, vec![101, 202, 303]);
    assert_eq!(par.tables[0].values, seq.tables[0].values);
    assert_eq!(par.tables[1].values, vec![40]);
}

#[test]
fn unique_mutation_only_touches_listed_entities() {
    let mut world = list_world();
    let state = QueryState::new(vec![1], true);
    let iter = QueryParManyUniqueIter::new(&world, state, entities(&[2]), 0, 1).unwrap();
    iter.for_each(&mut world, None, |item| item.value + 1);
    assert_eq!(world.tables[0].values, vec![10, 21, 30]);
    assert_eq!(world.tables[1].values, vec![40]);
}
