//! A flat graph of render systems, run in insertion order against a world.

use vstd::prelude::*;
use crate::storage::Entity;
use crate::storage::World;

verus! {

/// A node of the render graph: user code run with a view entity and
/// exclusive world access. Implementations decide freely what they do to
/// the world.
pub trait System: Sized {
    /// Prepares whatever state the system needs from the world.
    fn initialize(&mut self, world: &mut World);

    /// Runs the system for one view entity.
    fn run(&mut self, view_entity: Option<Entity>, world: &mut World);
}

/// An ordered list of render systems.
pub struct RenderGraphV2<S: System> {
    /// The nodes, in the order they were added and run.
    pub systems: Vec<S>,
}

impl<S: System> RenderGraphV2<S> {
    /// An empty graph.
    pub fn new() -> (r: Self)
        ensures
            r.systems@.len() == 0,
    {
        RenderGraphV2 { systems: Vec::new() }
    }

    /// Appends a node; it will run after every node added before it.
    pub fn add_node(&mut self, system: S)
        ensures
            final(self).systems@.len() == old(self).systems@.len() + 1,
    {
        self.systems.push(system);
    }

    /// Initializes every node against the world, in order.
    pub fn init(&mut self, world: &mut World)
        ensures
            final(self).systems@.len() == old(self).systems@.len(),
    {
        let n = self.systems.len();
        let mut i: usize = 0;
        while i < n
            invariant
                n == self.systems@.len(),
                i <= n,
            decreases n - i,
        {
            let mut sys = self.systems.remove(i);
            sys.initialize(world);
            self.systems.insert(i, sys);
            proof {
                assert(self.systems@.len() == n);
            }
            i += 1;
        }
    }

    /// Runs every node once, in order, handing each the placeholder view
    /// entity and exclusive access to the world.
    pub fn run(&mut self, world: &mut World)
        ensures
            final(self).systems@.len() == old(self).systems@.len(),
    {
        let n = self.systems.len();
        let mut i: usize = 0;
        while i < n
            invariant
                n == self.systems@.len(),
                i <= n,
            decreases n - i,
        {
            let view_entity = Entity::placeholder();
            let mut sys = self.systems.remove(i);
            sys.run(Some(view_entity), world);
            self.systems.insert(i, sys);
            proof {
                assert(self.systems@.len() == n);
            }
            i += 1;
        }
    }
}

} // verus!
