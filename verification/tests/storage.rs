use par_query::query::QueryState;
use par_query::render_settings::configure_depth_texture_usages;
use par_query::render_settings::OitLayers;
use par_query::storage::Entity;
use par_query::storage::World;
use par_query::storage::WorldError;

fn entities(ids: &[u64]) -> Vec<Entity> {
    ids.iter().map(|id| Entity { id: *id }).collect()
}

#[test]
fn add_chunk_rejects_misaligned_columns() {
    let mut world = World::new();
    let err = world.add_chunk(true, vec![1], entities(&[1, 2]), vec![10]);
    assert_eq!(err, Err(WorldError::ColumnLengthMismatch));
    assert!(world.tables.is_empty());
}

#[test]
fn add_chunk_rejects_duplicate_in_new_rows() {
    let mut world = World::new();
    let err = world.add_chunk(true, vec![1], entities(&[1, 1]), vec![10, 20]);
    assert_eq!(err, Err(WorldError::DuplicateEntity));
}

#[test]
fn add_chunk_rejects_entity_already_stored() {
    let mut world = World::new();
    world.add_chunk(true, vec![1], entities(&[1]), vec![10]).unwrap();
    let err = world.add_chunk(true, vec![2], entities(&[1]), vec![20]);
    assert_eq!(err, Err(WorldError::DuplicateEntity));
    // The same id may live in the sparse storage: the pools are separate.
    assert!(world.add_chunk(false, vec![2], entities(&[1]), vec![20]).is_ok());
}

#[test]
fn resources_overwrite_in_place() {
    let mut world = World::new();
    assert_eq!(world.resource(1), None);
    world.insert_resource(1, 10);
    world.insert_resource(2, 20);
    world.insert_resource(1, 11);
    assert_eq!(world.resource(1), Some(11));
    assert_eq!(world.resource(2), Some(20));
}

#[test]
fn matched_cache_extends_and_never_shrinks() {
    let mut world = World::new();
    world.add_chunk(true, vec![1], entities(&[1]), vec![10]).unwrap();
    world.add_chunk(true, vec![2], entities(&[2]), vec![20]).unwrap();
    let mut state = QueryState::new(vec![1], true);
    state.update_matched(&world);
    assert_eq!(state.matched_storage_ids(), &vec![0]);
    world.add_chunk(true, vec![1, 2], entities(&[3]), vec![30]).unwrap();
    state.update_matched(&world);
    assert_eq!(state.matched_storage_ids(), &vec![0, 2]);
}

#[test]
fn depth_texture_usages_gain_required_bits() {
    let mut world = World::new();
    // The payload column models each camera's depth texture usage bits.
    world.add_chunk(true, vec![3], entities(&[1, 2]), vec![0x1, 0x14]).unwrap();
    world.add_chunk(true, vec![4], entities(&[3]), vec![0x0]).unwrap();
    let mut cameras = QueryState::new(vec![3], true);
    cameras.update_matched(&world);
    configure_depth_texture_usages(&mut world, &cameras);
    assert_eq!(world.tables[0].values, vec![0x15, 0x14]);
    assert_eq!(world.tables[1].values, vec![0x0]);
}

#[test]
fn oit_layers_default_is_eight() {
    assert_eq!(OitLayers::default().0, 8);
}
