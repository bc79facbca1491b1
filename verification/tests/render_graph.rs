use par_query::render_graph::RenderGraphV2;
use par_query::render_graph::System;
use par_query::storage::Entity;
use par_query::storage::World;

const FOO: u64 = 1;

enum TestSystem {
    MainNode,
    EndPostProcess,
}

impl System for TestSystem {
    fn initialize(&mut self, _world: &mut World) {}

    fn run(&mut self, view_entity: Option<Entity>, world: &mut World) {
        match self {
            TestSystem::MainNode => {
                let foo = world.resource(FOO).unwrap();
                println!("main {view_entity:?} foo: {}", foo);
                assert!(foo == 42);
                world.insert_resource(FOO, 69);
            }
            TestSystem::EndPostProcess => {
                let foo = world.resource(FOO).unwrap();
                println!("end_post_process {view_entity:?} foo: {}", foo);
                assert!(foo == 69);
                world.insert_resource(FOO, 42);
            }
        }
    }
}

#[test]
fn test_render_graph() {
    let mut world = World::new();
    let mut graph = RenderGraphV2::new();

    world.insert_resource(FOO, 42);

    graph.add_node(TestSystem::MainNode);
    graph.add_node(TestSystem::EndPostProcess);

    graph.init(&mut world);

    graph.run(&mut world);

    graph.run(&mut world);
}
