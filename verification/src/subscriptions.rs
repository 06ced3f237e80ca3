//! Subscriptions to a component of an entity, and the events they gave rise to.
use crate::change_journal::ComponentChangeKind;
use crate::entity::{ComponentId, Entity};
use vstd::prelude::*;

verus! {

/// A change of a component somebody subscribed to.
#[derive(Clone, Copy, Debug, PartialEq, Eq, Structural)]
pub struct ComponentChangeEvent {
    pub entity: Entity,
    pub component: ComponentId,
    pub kind: ComponentChangeKind,
}

/// What is subscribed to, and the events that nobody has taken yet.
pub struct SubscriptionState {
    pub watched: Set<(Entity, ComponentId)>,
    pub events: Seq<ComponentChangeEvent>,
}

impl SubscriptionState {
    /// The component changed; that is an event if somebody subscribed to it.
    pub open spec fn recorded(
        self,
        entity: Entity,
        component: ComponentId,
        kind: ComponentChangeKind,
    ) -> SubscriptionState {
        if self.watched.contains((entity, component)) {
            SubscriptionState {
                events: self.events.push(ComponentChangeEvent { entity, component, kind }),
                ..self
            }
        } else {
            self
        }
    }
}

/// Subscriptions and their events.
#[derive(Debug)]
pub struct SubscriptionRegistry {
    watched: Vec<(Entity, ComponentId)>,
    events: Vec<ComponentChangeEvent>,
}

impl View for SubscriptionRegistry {
    type V = SubscriptionState;

    closed spec fn view(&self) -> SubscriptionState {
        SubscriptionState { watched: self.watched@.to_set(), events: self.events@ }
    }
}

impl SubscriptionRegistry {
    /// Nothing is subscribed to.
    pub fn new() -> (registry: Self)
        ensures
            registry@.watched == Set::<(Entity, ComponentId)>::empty(),
            registry@.events == Seq::<ComponentChangeEvent>::empty(),
    {
        let registry = SubscriptionRegistry { watched: Vec::new(), events: Vec::new() };
        assert(registry@.watched =~= Set::<(Entity, ComponentId)>::empty());
        registry
    }

    /// Subscribes to a component of an entity.
    pub fn subscribe(&mut self, entity: Entity, component: ComponentId)
        ensures
            final(self)@ == (SubscriptionState {
                watched: old(self)@.watched.insert((entity, component)),
                ..old(self)@
            }),
    {
        let ghost before = self.watched@;
        self.watched.push((entity, component));
        proof {
            let after = self.watched@;
            assert forall|x: (Entity, ComponentId)| #[trigger] after.to_set().contains(x)
                == before.to_set().insert((entity, component)).contains(x) by {
                if before.contains(x) {
                    let k = choose|k: int| 0 <= k < before.len() && before[k] == x;
                    assert(after[k] == x);
                }
                assert(after[before.len() as int] == (entity, component));
                if after.contains(x) && x != (entity, component) {
                    let k = choose|k: int| 0 <= k < after.len() && after[k] == x;
                    assert(before[k] == x);
                }
            }
            assert(after.to_set() =~= before.to_set().insert((entity, component)));
        }
    }

    /// Records a change, if somebody subscribed to the component.
    pub fn record(&mut self, entity: Entity, component: ComponentId, kind: ComponentChangeKind)
        ensures
            final(self)@ == old(self)@.recorded(entity, component, kind),
    {
        let mut i: usize = 0;
        let mut watched: bool = false;
        while i < self.watched.len() && !watched
            invariant
                self@ == old(self)@,
                i <= self.watched@.len(),
                !watched ==> forall|k: int|
                    0 <= k < i ==> #[trigger] self.watched@[k] != (entity, component),
                watched ==> self.watched@.contains((entity, component)),
            decreases self.watched@.len() - i + !watched as int,
        {
            if self.watched[i].0 == entity && self.watched[i].1 == component {
                assert(self.watched@[i as int] == (entity, component));
                watched = true;
            } else {
                i = i + 1;
            }
        }
        if watched {
            self.events.push(ComponentChangeEvent { entity, component, kind });
        }
    }

    /// The events since they were last taken.
    pub fn take_events(&mut self) -> (events: Vec<ComponentChangeEvent>)
        ensures
            events@ == old(self)@.events,
            final(self)@ == (SubscriptionState { events: seq![], ..old(self)@ }),
    {
        let mut events: Vec<ComponentChangeEvent> = Vec::new();
        std::mem::swap(&mut events, &mut self.events);
        assert(self.events@ =~= seq![]);
        events
    }
}

/// A change is an event, the newest, if and only if that component of that entity is watched; it
/// changes nothing that is watched and no earlier event.
pub proof fn law_watched_changes_are_events(
    state: SubscriptionState,
    entity: Entity,
    component: ComponentId,
    kind: ComponentChangeKind,
)
    ensures
        ({
            let after = state.recorded(entity, component, kind);
            let more = after.events.len() - state.events.len();
            &&& after.watched == state.watched
            &&& more == if state.watched.contains((entity, component)) {
                1int
            } else {
                0
            }
            &&& after.events.take(state.events.len() as int) == state.events
            &&& more == 1 ==> after.events.last().entity == entity
                && after.events.last().component == component && after.events.last().kind == kind
        }),
{
    let after = state.recorded(entity, component, kind);
    assert(after.events.take(state.events.len() as int) =~= state.events);
}

} // verus!
