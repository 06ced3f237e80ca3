//! What happened to a world, in order, for whoever replicates it.
use crate::entity::{ComponentId, Entity};
use vstd::prelude::*;

verus! {

/// One thing that happened.
#[derive(Clone, Copy, Debug, PartialEq, Eq, Structural)]
pub enum TrackedChange {
    /// The entity was made.
    Spawned(Entity),
    /// A component of the entity was inserted or written to.
    ComponentChanged { entity: Entity, component: ComponentId },
}

/// A log of changes.
#[derive(Debug)]
pub struct ChangeTracker {
    log: Vec<TrackedChange>,
}

impl View for ChangeTracker {
    type V = Seq<TrackedChange>;

    closed spec fn view(&self) -> Seq<TrackedChange> {
        self.log@
    }
}

impl ChangeTracker {
    /// A tracker that has seen nothing.
    pub fn new() -> (tracker: Self)
        ensures
            tracker@ == Seq::<TrackedChange>::empty(),
    {
        ChangeTracker { log: Vec::new() }
    }

    /// Records that an entity was made.
    pub fn record_spawn(&mut self, entity: Entity)
        ensures
            final(self)@ == old(self)@.push(TrackedChange::Spawned(entity)),
    {
        self.log.push(TrackedChange::Spawned(entity));
    }

    /// Records that a component was inserted or written to.
    pub fn record_component_change(&mut self, entity: Entity, component: ComponentId)
        ensures
            final(self)@ == old(self)@.push(
                TrackedChange::ComponentChanged { entity, component },
            ),
    {
        self.log.push(TrackedChange::ComponentChanged { entity, component });
    }

    /// What was recorded.
    pub fn changes(&self) -> (changes: &Vec<TrackedChange>)
        ensures
            changes@ == self@,
    {
        &self.log
    }
}

} // verus!
