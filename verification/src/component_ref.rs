//! References to a component of an entity.
//!
//! A reference names an entity and a component type. It is looked up in the world at every access,
//! and leads nowhere once the entity is gone or no longer has the component; it never leads to an
//! entity that took the slot of another.
use crate::component::{ComponentType, ComponentTypes};
use crate::entity::{ComponentId, Entity};
use crate::handle_ledger::HandleId;
use crate::mut_guard::{Mut, MutDyn, MutHooks, Observers};
use crate::world::World;
use vstd::prelude::*;

verus! {

use crate::change_journal::{
    law_reader_gets_what_happened_since, ComponentChange, ComponentChangeKind,
};
use crate::component::{id_of, is_id, is_known, with_type};
use crate::mut_guard::{hooks_for, ObserverState};
use crate::world::{despawns, follows, WorldState};

/// A reference to a component of any type.
#[derive(Clone, Copy, Debug, PartialEq, Eq, Hash, Structural)]
pub struct ComponentRef {
    pub entity: Entity,
    pub component: ComponentId,
}

/// A reference to a component of a type that was known when the reference was made.
#[derive(Clone, Copy, Debug, PartialEq, Eq, Hash, Structural)]
pub struct ComponentHandle {
    entity: Entity,
    component: ComponentId,
}

/// The sequence a list of handles has, if there is a list.
pub open spec fn listed(handles: Option<Vec<HandleId>>) -> Option<Seq<HandleId>> {
    match handles {
        Some(handles) => Some(handles@),
        None => None,
    }
}

impl ComponentRef {
    /// A reference to the component of an entity.
    pub fn new(entity: Entity, component: ComponentId) -> (r: Self)
        ensures
            r == (ComponentRef { entity, component }),
    {
        ComponentRef { entity, component }
    }

    /// A reference to the entity's component of type `ty`.
    pub fn of(types: &mut ComponentTypes, entity: Entity, ty: ComponentType) -> (r: Self)
        requires
            old(types).wf(),
            is_known(old(types)@, ty.key) || old(types)@.len() < u32::MAX,
        ensures
            final(types).wf(),
            final(types)@ == with_type(old(types)@, ty),
            r == (ComponentRef { entity, component: id_of(final(types)@, ty.key) }),
    {
        ComponentRef::new(entity, types.component_id(ty))
    }

    /// Whether the entity is alive and has the component.
    pub fn is_valid<V>(&self, world: &World<V>) -> (valid: bool)
        requires
            world.wf(),
        ensures
            valid == (world@.value(self.entity, self.component) is Some),
    {
        world.has_component(self.entity, self.component)
    }

    /// The component, if the entity is alive and has it.
    pub fn get<'w, V>(&self, world: &'w World<V>) -> (value: Option<&'w V>)
        requires
            world.wf(),
        ensures
            match value {
                Some(value) => world@.value(self.entity, self.component) == Some(*value),
                None => world@.value(self.entity, self.component) is None,
            },
    {
        world.get(self.entity, self.component)
    }

    /// Write access to the component, if the entity is alive and has it. `handles` are those the
    /// component holds, `None` if its type holds none.
    pub fn get_mut<'w, V>(
        &self,
        world: &'w mut World<V>,
        types: &ComponentTypes,
        observers: &Observers,
        handles: Option<Vec<HandleId>>,
    ) -> (guard: Option<MutDyn<'w, V>>)
        requires
            old(world).wf(),
            is_id(types@, self.component),
        ensures
            final(world).wf(),
            match guard {
                Some(guard) => {
                    &&& old(world)@.value(self.entity, self.component) == Some(*guard.value)
                    &&& final(world)@ == old(world)@.inserted(
                        self.entity,
                        self.component,
                        *final(guard.value),
                    )
                    &&& !guard.mutated
                    &&& guard.hooks@ == hooks_for(
                        observers@,
                        self.entity,
                        self.component,
                        listed(handles),
                    )
                    &&& guard.key == types@[self.component.0 - 1].0
                },
                None => {
                    &&& old(world)@.value(self.entity, self.component) is None
                    &&& final(world)@ == old(world)@
                },
            },
    {
        match world.get_mut(self.entity, self.component) {
            Some(value) => {
                let hooks = MutHooks::new(observers, self.entity, self.component, handles);
                Some(MutDyn::new(value, hooks, types.type_of(self.component)))
            },
            None => None,
        }
    }

    /// The reference as one to a component of type `ty`, if it is one.
    pub fn typed(&self, types: &ComponentTypes, ty: ComponentType) -> (handle: Option<
        ComponentHandle,
    >)
        requires
            types.wf(),
        ensures
            match handle {
                Some(handle) => {
                    &&& is_known(types@, ty.key)
                    &&& self.component == id_of(types@, ty.key)
                    &&& handle.reference() == *self
                },
                None => !(is_known(types@, ty.key) && self.component == id_of(types@, ty.key)),
            },
    {
        match types.find(ty.key) {
            Some(id) => if id == self.component {
                Some(ComponentHandle { entity: self.entity, component: self.component })
            } else {
                None
            },
            None => None,
        }
    }
}

impl ComponentHandle {
    /// What the handle refers to.
    pub closed spec fn reference(&self) -> ComponentRef {
        ComponentRef { entity: self.entity, component: self.component }
    }

    /// A reference to the entity's component of type `ty`.
    pub fn new(types: &mut ComponentTypes, entity: Entity, ty: ComponentType) -> (handle: Self)
        requires
            old(types).wf(),
            is_known(old(types)@, ty.key) || old(types)@.len() < u32::MAX,
        ensures
            final(types).wf(),
            final(types)@ == with_type(old(types)@, ty),
            handle.reference() == (ComponentRef {
                entity,
                component: id_of(final(types)@, ty.key),
            }),
    {
        ComponentHandle { entity, component: types.component_id(ty) }
    }

    /// The entity.
    pub fn entity(&self) -> (entity: Entity)
        ensures
            entity == self.reference().entity,
    {
        self.entity
    }

    /// Whether the entity is alive and has the component.
    pub fn is_valid<V>(&self, world: &World<V>) -> (valid: bool)
        requires
            world.wf(),
        ensures
            valid == (world@.value(self.reference().entity, self.reference().component) is Some),
    {
        world.get(self.entity, self.component).is_some()
    }

    /// The component, if the entity is alive and has it.
    pub fn get<'w, V>(&self, world: &'w World<V>) -> (value: Option<&'w V>)
        requires
            world.wf(),
        ensures
            match value {
                Some(value) => world@.value(self.reference().entity, self.reference().component)
                    == Some(*value),
                None => world@.value(self.reference().entity, self.reference().component) is None,
            },
    {
        world.get(self.entity, self.component)
    }

    /// Write access to the component, if the entity is alive and has it. `handles` are those the
    /// component holds, `None` if its type holds none.
    pub fn get_mut<'w, V>(
        &self,
        world: &'w mut World<V>,
        observers: &Observers,
        handles: Option<Vec<HandleId>>,
    ) -> (guard: Option<Mut<'w, V>>)
        requires
            old(world).wf(),
        ensures
            final(world).wf(),
            match guard {
                Some(guard) => {
                    let r = self.reference();
                    &&& old(world)@.value(r.entity, r.component) == Some(*guard.value)
                    &&& final(world)@ == old(world)@.inserted(
                        r.entity,
                        r.component,
                        *final(guard.value),
                    )
                    &&& !guard.mutated
                    &&& guard.hooks@ == hooks_for(
                        observers@,
                        r.entity,
                        r.component,
                        listed(handles),
                    )
                },
                None => {
                    let r = self.reference();
                    &&& old(world)@.value(r.entity, r.component) is None
                    &&& final(world)@ == old(world)@
                },
            },
    {
        match world.get_mut(self.entity, self.component) {
            Some(value) => {
                let hooks = MutHooks::new(observers, self.entity, self.component, handles);
                Some(Mut::new(value, hooks))
            },
            None => None,
        }
    }

    /// The reference without its type.
    pub fn erase(&self) -> (r: ComponentRef)
        ensures
            r == self.reference(),
    {
        ComponentRef { entity: self.entity, component: self.component }
    }
}

/// A reference leads nowhere once its entity is despawned, in that world and in every later one,
/// however often the entity's slot is used again, as long as the slot's generation has not come
/// round.
pub proof fn law_stale_reference_leads_nowhere<V>(
    s: WorldState<V>,
    later: Seq<WorldState<V>>,
    r: ComponentRef,
    n: int,
)
    requires
        s.consistent(),
        s.alive(r.entity),
        0 <= n < later.len(),
        later[0] == s.despawned(r.entity),
        forall|k: int| 0 <= k < n ==> follows(#[trigger] later[k], later[k + 1]),
        despawns(later, r.entity.index as int, n) < u32::MAX,
    ensures
        later[0].value(r.entity, r.component) is None,
        later[n].value(r.entity, r.component) is None,
{
    crate::world::lemma_despawned(s, r.entity);
    crate::world::law_dead_entities_stay_dead(later, r.entity, r.component, 0);
    crate::world::law_dead_entities_stay_dead(later, r.entity, r.component, n);
}

/// A write through a reference is what the component then is, and the end of the access is one
/// change: a reader of the journal that stood at the end is given that change and nothing else, and
/// the journals of other types stay. It is so whether the type of the component is known or not.
pub proof fn law_write_is_seen_and_recorded_once<V>(
    s: WorldState<V>,
    observers: ObserverState,
    r: ComponentRef,
    value: V,
    handles: Option<Seq<HandleId>>,
    current: Seq<HandleId>,
    other: ComponentId,
)
    requires
        s.consistent(),
        s.value(r.entity, r.component) is Some,
        observers.journals is Some,
        observers.journals->0.dom().contains(r.component),
        observers.journals->0[r.component].consistent(),
        observers.can_report(hooks_for(observers, r.entity, r.component, handles), current),
    ensures
        s.inserted(r.entity, r.component, value).value(r.entity, r.component) == Some(value),
        ({
            let before = observers.journals->0;
            let ended = observers.ended(
                hooks_for(observers, r.entity, r.component, handles),
                current,
                true,
            );
            let after = ended.journals->0;
            let unread = after[r.component].entries.skip(
                before[r.component].end() - after[r.component].first,
            );
            &&& ended.journals is Some
            &&& after[r.component].reaches(before[r.component].end() as u64)
            &&& unread == seq![
                ComponentChange { entity: r.entity, kind: ComponentChangeKind::Mutated },
            ]
            &&& after.dom() == before.dom()
            &&& other != r.component && before.dom().contains(other) ==> after[other]
                == before[other]
        }),
{
    crate::world::law_insert_sets_one_component(
        s,
        r.entity,
        r.component,
        value,
        r.entity,
        r.component,
    );
    let before = observers.journals->0;
    let change = ComponentChange { entity: r.entity, kind: ComponentChangeKind::Mutated };
    let journal = before[r.component];
    law_reader_gets_what_happened_since(journal, seq![change]);
    assert(seq![change].drop_last() =~= seq![]);
    assert(journal.recorded_all(seq![]) == journal);
    assert(journal.recorded_all(seq![change]) == journal.recorded(change));
}

} // verus!
