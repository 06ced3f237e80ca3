//! Identities: entities and component types.
use vstd::prelude::*;

verus! {

/// An entity: a dense index plus the generation that index had when the entity was made.
#[derive(Clone, Copy, Debug, PartialEq, Eq, Hash, Structural)]
pub struct Entity {
    pub index: u32,
    pub generation: u32,
}

impl Entity {
    /// The entity with this index and generation.
    pub fn new(index: u32, generation: u32) -> (entity: Self)
        ensures
            entity == (Entity { index, generation }),
    {
        Entity { index, generation }
    }

    /// The dense index.
    pub fn index(self) -> (index: u32)
        ensures
            index == self.index,
    {
        self.index
    }

    /// The generation.
    pub fn generation(self) -> (generation: u32)
        ensures
            generation == self.generation,
    {
        self.generation
    }
}

/// A component type. Ids are dense and start at one.
#[derive(Clone, Copy, Debug, PartialEq, Eq, Hash, Structural)]
pub struct ComponentId(pub u32);

} // verus!
