//! Write access to a component, and whom a write is reported to.
//!
//! Whom to report to is settled when the access is given; the reports are made when it ends. An
//! access that wrote nothing still counts as one for the device mirror and the change tracker, which
//! are told of every access, but not for the rest.
use crate::change_journal::{ChangeJournals, ComponentChangeKind};
use crate::change_tracker::ChangeTracker;
use crate::component::ComponentType;
use crate::entity::{ComponentId, Entity};
use crate::gpu::buffer_registry::TypeKey;
use crate::handle_ledger::{report_captured_swap, HandleCounts, HandleId};
use crate::subscriptions::SubscriptionRegistry;
use vstd::prelude::*;

verus! {

use crate::change_journal::{can_record, change_recorded, JournalState};
use crate::change_tracker::TrackedChange;
use crate::handle_ledger::{has_room, swap_underflows, swapped_all, Counts, Underflows};
use crate::subscriptions::SubscriptionState;

/// A component to be mirrored to the device again, as if it were new.
#[derive(Clone, Copy, Debug, PartialEq, Eq, Structural)]
pub struct MirrorRequest {
    pub row: u32,
    pub component: ComponentId,
}

/// The components that are mirrored to the device, and the requests to do so.
#[derive(Debug)]
pub struct MirrorRequests {
    pub mirrored: Vec<ComponentId>,
    pub pending: Vec<MirrorRequest>,
}

/// Whom a write is reported to. What is absent is not told.
pub struct Observers {
    pub mirror: Option<MirrorRequests>,
    pub tracker: Option<ChangeTracker>,
    pub subscriptions: Option<SubscriptionRegistry>,
    pub journals: Option<ChangeJournals>,
    pub handle_counts: HandleCounts,
}

/// What the observers know.
#[verifier::ext_equal]
pub struct ObserverState {
    pub mirrored: Option<Seq<ComponentId>>,
    pub pending: Seq<MirrorRequest>,
    pub tracker: Option<Seq<TrackedChange>>,
    pub subscriptions: Option<SubscriptionState>,
    pub journals: Option<Map<ComponentId, JournalState>>,
    pub counts: Counts,
    /// The releases of handles that were not referenced.
    pub underflows: Underflows,
}

impl View for Observers {
    type V = ObserverState;

    open spec fn view(&self) -> ObserverState {
        ObserverState {
            mirrored: match self.mirror {
                Some(m) => Some(m.mirrored@),
                None => None,
            },
            pending: match self.mirror {
                Some(m) => m.pending@,
                None => seq![],
            },
            tracker: match self.tracker {
                Some(t) => Some(t@),
                None => None,
            },
            subscriptions: match self.subscriptions {
                Some(s) => Some(s@),
                None => None,
            },
            journals: match self.journals {
                Some(j) => Some(j@),
                None => None,
            },
            counts: self.handle_counts@,
            underflows: self.handle_counts.underflows(),
        }
    }
}

/// Whom a write to one component of one entity is reported to.
pub struct HookState {
    pub entity: Entity,
    pub component: ComponentId,
    pub mirror: bool,
    pub tracker: bool,
    pub subscriptions: bool,
    pub journals: bool,
    /// The handles the component held when the access was given, if its type holds any.
    pub captured: Option<Seq<HandleId>>,
}

impl ObserverState {
    /// The mirror is asked for a row.
    pub open spec fn mirror_asked(self, hooks: HookState) -> ObserverState {
        if hooks.mirror && self.mirrored is Some {
            ObserverState {
                pending: self.pending.push(
                    MirrorRequest { row: hooks.entity.index, component: hooks.component },
                ),
                ..self
            }
        } else {
            self
        }
    }

    /// The tracker is told.
    pub open spec fn tracker_told(self, hooks: HookState) -> ObserverState {
        ObserverState {
            tracker: match self.tracker {
                Some(log) => Some(
                    if hooks.tracker {
                        log.push(
                            TrackedChange::ComponentChanged {
                                entity: hooks.entity,
                                component: hooks.component,
                            },
                        )
                    } else {
                        log
                    },
                ),
                None => None,
            },
            ..self
        }
    }

    /// Subscribers are told.
    pub open spec fn subscribers_told(self, hooks: HookState) -> ObserverState {
        ObserverState {
            subscriptions: match self.subscriptions {
                Some(s) => Some(
                    if hooks.subscriptions {
                        s.recorded(
                            hooks.entity,
                            hooks.component,
                            ComponentChangeKind::Mutated,
                        )
                    } else {
                        s
                    },
                ),
                None => None,
            },
            ..self
        }
    }

    /// The journals are told.
    pub open spec fn journals_told(self, hooks: HookState) -> ObserverState {
        ObserverState {
            journals: match self.journals {
                Some(j) => Some(
                    if hooks.journals {
                        change_recorded(
                            j,
                            hooks.entity,
                            hooks.component,
                            ComponentChangeKind::Mutated,
                        )
                    } else {
                        j
                    },
                ),
                None => None,
            },
            ..self
        }
    }

    /// The handles the component held are swapped for those it holds now.
    pub open spec fn handles_swapped(self, hooks: HookState, current: Seq<HandleId>) -> ObserverState {
        ObserverState {
            counts: match hooks.captured {
                Some(captured) => swapped_all(self.counts, captured, current, current.len()),
                None => self.counts,
            },
            underflows: match hooks.captured {
                Some(captured) => swap_underflows(
                    self.underflows,
                    self.counts,
                    captured,
                    current,
                    current.len(),
                ),
                None => self.underflows,
            },
            ..self
        }
    }

    /// The end of an access.
    pub open spec fn ended(
        self,
        hooks: HookState,
        current: Seq<HandleId>,
        mutated: bool,
    ) -> ObserverState {
        let told = self.mirror_asked(hooks).tracker_told(hooks);
        if mutated {
            told.handles_swapped(hooks, current).subscribers_told(hooks).journals_told(hooks)
        } else {
            told
        }
    }

    /// The reports can be made: the handles are as many as before, and the counters have room.
    pub open spec fn can_report(self, hooks: HookState, current: Seq<HandleId>) -> bool {
        &&& hooks.captured matches Some(captured) ==> captured.len() == current.len() && has_room(
            self.counts,
            current.len() as int,
        )
        &&& hooks.journals && self.journals is Some ==> can_record(
            self.journals->0,
            hooks.component,
        )
    }
}

/// Whom a write is reported to.
#[derive(Debug)]
pub struct MutHooks {
    entity: Entity,
    component: ComponentId,
    mirror: bool,
    tracker: bool,
    subscriptions: bool,
    journals: bool,
    captured: Option<Vec<HandleId>>,
}

impl View for MutHooks {
    type V = HookState;

    closed spec fn view(&self) -> HookState {
        HookState {
            entity: self.entity,
            component: self.component,
            mirror: self.mirror,
            tracker: self.tracker,
            subscriptions: self.subscriptions,
            journals: self.journals,
            captured: match self.captured {
                Some(captured) => Some(captured@),
                None => None,
            },
        }
    }
}

impl Observers {
    /// The handle counts and the journals are sound.
    pub open spec fn wf(&self) -> bool {
        &&& self.handle_counts.wf()
        &&& self.journals matches Some(j) ==> j.wf()
    }
}

/// Whom a write is to be reported to, as things are.
pub open spec fn hooks_for(
    observers: ObserverState,
    entity: Entity,
    component: ComponentId,
    handles: Option<Seq<HandleId>>,
) -> HookState {
    HookState {
        entity,
        component,
        mirror: observers.mirrored is Some && observers.mirrored->0.contains(component),
        tracker: observers.tracker is Some,
        subscriptions: observers.subscriptions is Some,
        journals: observers.journals is Some,
        captured: handles,
    }
}

impl MutHooks {
    /// Settles whom a write is reported to: the mirror if it mirrors the component, the others if
    /// they are there. `handles` are those the component holds now, `None` if its type holds none.
    pub fn new(
        observers: &Observers,
        entity: Entity,
        component: ComponentId,
        handles: Option<Vec<HandleId>>,
    ) -> (hooks: Self)
        ensures
            hooks@ == hooks_for(
                observers@,
                entity,
                component,
                match handles {
                    Some(handles) => Some(handles@),
                    None => None,
                },
            ),
    {
        let mirror: bool = match &observers.mirror {
            Some(m) => {
                let mut i: usize = 0;
                let mut found: bool = false;
                while i < m.mirrored.len() && !found
                    invariant
                        i <= m.mirrored@.len(),
                        found ==> m.mirrored@.contains(component),
                        !found ==> forall|k: int|
                            0 <= k < i ==> #[trigger] m.mirrored@[k] != component,
                    decreases m.mirrored@.len() - i + !found as int,
                {
                    if m.mirrored[i] == component {
                        assert(m.mirrored@[i as int] == component);
                        found = true;
                    } else {
                        i = i + 1;
                    }
                }
                found
            },
            None => false,
        };
        MutHooks {
            entity,
            component,
            mirror,
            tracker: observers.tracker.is_some(),
            subscriptions: observers.subscriptions.is_some(),
            journals: observers.journals.is_some(),
            captured: handles,
        }
    }

    fn ask_mirror(&self, observers: &mut Observers)
        requires
            old(observers).wf(),
        ensures
            final(observers).wf(),
            final(observers)@ == old(observers)@.mirror_asked(self@),
    {
        if self.mirror {
            match &mut observers.mirror {
                Some(m) => {
                    m.pending.push(
                        MirrorRequest { row: self.entity.index, component: self.component },
                    );
                },
                None => {},
            }
        }
    }

    fn tell_tracker(&self, observers: &mut Observers)
        requires
            old(observers).wf(),
        ensures
            final(observers).wf(),
            final(observers)@ == old(observers)@.tracker_told(self@),
    {
        if self.tracker {
            match &mut observers.tracker {
                Some(t) => {
                    t.record_component_change(self.entity, self.component);
                },
                None => {},
            }
        }
    }

    fn tell_subscribers(&self, observers: &mut Observers)
        requires
            old(observers).wf(),
        ensures
            final(observers).wf(),
            final(observers)@ == old(observers)@.subscribers_told(self@),
    {
        if self.subscriptions {
            match &mut observers.subscriptions {
                Some(s) => {
                    s.record(self.entity, self.component, ComponentChangeKind::Mutated);
                },
                None => {},
            }
        }
    }

    fn tell_journals(&self, observers: &mut Observers)
        requires
            old(observers).wf(),
            self@.journals && old(observers)@.journals is Some ==> can_record(
                old(observers)@.journals->0,
                self@.component,
            ),
        ensures
            final(observers).wf(),
            final(observers)@ == old(observers)@.journals_told(self@),
    {
        if self.journals {
            match &mut observers.journals {
                Some(j) => {
                    j.record(self.entity, self.component, ComponentChangeKind::Mutated);
                },
                None => {},
            }
        }
    }

    fn swap_handles(&self, observers: &mut Observers, current: &Vec<HandleId>)
        requires
            old(observers).wf(),
            old(observers)@.can_report(self@, current@),
        ensures
            final(observers).wf(),
            final(observers)@ == old(observers)@.handles_swapped(self@, current@),
    {
        match &self.captured {
            Some(captured) => {
                report_captured_swap(
                    &mut observers.handle_counts,
                    captured.as_slice(),
                    current.as_slice(),
                );
            },
            None => {},
        }
    }

    /// Reports the end of an access: the mirror and the tracker are told in any case, the others
    /// only if something was written. `current` are the handles the component holds now.
    pub fn fire_on_drop(&self, observers: &mut Observers, current: &Vec<HandleId>, mutated: bool)
        requires
            old(observers).wf(),
            old(observers)@.can_report(self@, current@),
        ensures
            final(observers).wf(),
            final(observers)@ == old(observers)@.ended(self@, current@, mutated),
    {
        if mutated {
            self.swap_handles(observers, current);
        }
        self.ask_mirror(observers);
        self.tell_tracker(observers);
        if mutated {
            self.tell_subscribers(observers);
            self.tell_journals(observers);
        }
    }

    /// Reports a write right away, to everybody.
    pub fn fire_now(self, observers: &mut Observers, current: &Vec<HandleId>)
        requires
            old(observers).wf(),
            old(observers)@.can_report(self@, current@),
        ensures
            final(observers).wf(),
            final(observers)@ == old(observers)@.ended(self@, current@, true),
    {
        self.ask_mirror(observers);
        self.swap_handles(observers, current);
        self.tell_tracker(observers);
        self.tell_subscribers(observers);
        self.tell_journals(observers);
    }
}

/// Write access to a component of known type.
pub struct Mut<'a, V> {
    pub value: &'a mut V,
    /// Whether something was written.
    pub mutated: bool,
    pub hooks: MutHooks,
}

/// Write access to a component whose type is known by its key only.
pub struct MutDyn<'a, V> {
    pub value: &'a mut V,
    /// Whether something was written.
    pub mutated: bool,
    pub hooks: MutHooks,
    /// The type of the component.
    pub key: TypeKey,
}

impl<'a, V> Mut<'a, V> {
    /// Access to `value`. Nothing has been written.
    pub fn new(value: &'a mut V, hooks: MutHooks) -> (guard: Self)
        ensures
            *guard.value == *old(value),
            *final(guard.value) == *final(value),
            !guard.mutated,
            guard.hooks == hooks,
    {
        Mut { value, mutated: false, hooks }
    }

    /// The value, to read.
    pub fn get(&self) -> (value: &V)
        ensures
            *value == *old(self.value),
    {
        &*self.value
    }

    /// The value, to write to. That counts as a write.
    pub fn get_mut(&mut self) -> (value: &mut V)
        ensures
            *value == *old(self).value,
            *final(self).value == *final(value),
            *final(final(self).value) == *final(old(self).value),
            final(self).mutated,
            final(self).hooks == old(self).hooks,
    {
        self.mutated = true;
        &mut *self.value
    }

    /// Ends the access and makes the reports. `current` are the handles the component holds now.
    pub fn finish(self, observers: &mut Observers, current: &Vec<HandleId>)
        requires
            old(observers).wf(),
            old(observers)@.can_report(self.hooks@, current@),
        ensures
            final(observers).wf(),
            final(observers)@ == old(observers)@.ended(self.hooks@, current@, self.mutated),
            *final(self.value) == *old(self.value),
    {
        self.hooks.fire_on_drop(observers, current, self.mutated);
    }

    /// Reports a write right away and hands out the bare reference. What is written through it later
    /// is reported to nobody.
    pub fn into_inner(self, observers: &mut Observers, current: &Vec<HandleId>) -> (value: &'a mut V)
        requires
            old(observers).wf(),
            old(observers)@.can_report(self.hooks@, current@),
        ensures
            final(observers).wf(),
            final(observers)@ == old(observers)@.ended(self.hooks@, current@, true),
            *value == *old(self.value),
            *final(value) == *final(self.value),
    {
        let Mut { value, mutated: _, hooks } = self;
        hooks.fire_now(observers, current);
        value
    }
}

impl<'a, V> MutDyn<'a, V> {
    /// Access to `value`, a component of the type with this key. Nothing has been written.
    pub fn new(value: &'a mut V, hooks: MutHooks, key: TypeKey) -> (guard: Self)
        ensures
            *guard.value == *old(value),
            *final(guard.value) == *final(value),
            !guard.mutated,
            guard.hooks == hooks,
            guard.key == key,
    {
        MutDyn { value, mutated: false, hooks, key }
    }

    /// The value, to read.
    pub fn get(&self) -> (value: &V)
        ensures
            *value == *old(self.value),
    {
        &*self.value
    }

    /// The value, to write to. That counts as a write.
    pub fn get_mut(&mut self) -> (value: &mut V)
        ensures
            *value == *old(self).value,
            *final(self).value == *final(value),
            *final(final(self).value) == *final(old(self).value),
            final(self).mutated,
            final(self).hooks == old(self).hooks,
            final(self).key == old(self).key,
    {
        self.mutated = true;
        &mut *self.value
    }

    /// The value, to write to, if it is of this type. Asking for it counts as a write.
    pub fn downcast_mut(&mut self, ty: ComponentType) -> (value: Option<&mut V>)
        ensures
            final(self).mutated,
            final(self).hooks == old(self).hooks,
            final(self).key == old(self).key,
            *final(final(self).value) == *final(old(self).value),
            match value {
                Some(value) => {
                    &&& old(self).key == ty.key
                    &&& *value == *old(self).value
                    &&& *final(self).value == *final(value)
                },
                None => old(self).key != ty.key && *final(self).value == *old(self).value,
            },
    {
        self.mutated = true;
        if self.key == ty.key {
            Some(&mut *self.value)
        } else {
            None
        }
    }

    /// Ends the access and makes the reports. `current` are the handles the component holds now.
    pub fn finish(self, observers: &mut Observers, current: &Vec<HandleId>)
        requires
            old(observers).wf(),
            old(observers)@.can_report(self.hooks@, current@),
        ensures
            final(observers).wf(),
            final(observers)@ == old(observers)@.ended(self.hooks@, current@, self.mutated),
            *final(self.value) == *old(self.value),
    {
        self.hooks.fire_on_drop(observers, current, self.mutated);
    }

    /// Reports a write right away and hands out the bare reference. What is written through it later
    /// is reported to nobody.
    pub fn into_inner(self, observers: &mut Observers, current: &Vec<HandleId>) -> (value: &'a mut V)
        requires
            old(observers).wf(),
            old(observers)@.can_report(self.hooks@, current@),
        ensures
            final(observers).wf(),
            final(observers)@ == old(observers)@.ended(self.hooks@, current@, true),
            *value == *old(self.value),
            *final(value) == *final(self.value),
    {
        let MutDyn { value, mutated: _, hooks, key: _ } = self;
        hooks.fire_now(observers, current);
        value
    }
}

/// An access that wrote nothing is told to the mirror and the tracker only.
pub proof fn law_reading_is_no_write(state: ObserverState, hooks: HookState, current: Seq<HandleId>)
    ensures
        state.ended(hooks, current, false).subscriptions == state.subscriptions,
        state.ended(hooks, current, false).journals == state.journals,
        state.ended(hooks, current, false).counts == state.counts,
        state.ended(hooks, current, false).tracker == state.ended(hooks, current, true).tracker,
        state.ended(hooks, current, false).pending == state.ended(hooks, current, true).pending,
{
}

/// Where nobody observes, a write is told to nobody; only the handles it swapped are counted.
pub proof fn law_unobserved_write_tells_nobody(
    state: ObserverState,
    entity: Entity,
    component: ComponentId,
    handles: Option<Seq<HandleId>>,
    current: Seq<HandleId>,
)
    requires
        state.mirrored is None,
        state.tracker is None,
        state.subscriptions is None,
        state.journals is None,
    ensures
        ({
            let hooks = hooks_for(state, entity, component, handles);
            state.ended(hooks, current, true) == state.handles_swapped(hooks, current)
        }),
{
    let hooks = hooks_for(state, entity, component, handles);
    assert(state.ended(hooks, current, true) =~= state.handles_swapped(hooks, current));
}

/// A write tells every observer there is, once: the mirror is asked for the row of the entity if the
/// component is mirrored, the tracker logs the change, whoever subscribed gets an event, the
/// component's journal gets an entry, and the references of the handles it held before go over to
/// those it holds now.
pub proof fn law_write_tells_every_observer(
    state: ObserverState,
    entity: Entity,
    component: ComponentId,
    handles: Option<Seq<HandleId>>,
    current: Seq<HandleId>,
)
    requires
        state.journals is Some && state.journals->0.dom().contains(component) ==> {
            &&& state.journals->0[component].consistent()
            &&& state.journals->0[component].end() < u64::MAX
        },
    ensures
        ({
            let after = state.ended(
                hooks_for(state, entity, component, handles),
                current,
                true,
            );
            let asks = state.mirrored is Some && state.mirrored->0.contains(component);
            &&& after.mirrored == state.mirrored
            &&& asks ==> after.pending == state.pending.push(
                MirrorRequest { row: entity.index, component },
            )
            &&& !asks ==> after.pending == state.pending
            &&& state.tracker is None ==> after.tracker is None
            &&& state.tracker matches Some(log) ==> after.tracker == Some(
                log.push(TrackedChange::ComponentChanged { entity, component }),
            )
            &&& state.subscriptions is None ==> after.subscriptions is None
            &&& state.subscriptions matches Some(s) ==> after.subscriptions == Some(
                if s.watched.contains((entity, component)) {
                    SubscriptionState {
                        events: s.events.push(
                            crate::subscriptions::ComponentChangeEvent {
                                entity,
                                component,
                                kind: ComponentChangeKind::Mutated,
                            },
                        ),
                        ..s
                    }
                } else {
                    s
                },
            )
            &&& state.journals is None ==> after.journals is None
            &&& state.journals matches Some(j) ==> {
                &&& after.journals is Some
                &&& after.journals->0.dom() == j.dom()
                &&& j.dom().contains(component) ==> after.journals->0[component].end()
                    == j[component].end() + 1
                &&& j.dom().contains(component) ==> after.journals->0[component].entries.last()
                    == (crate::change_journal::ComponentChange {
                    entity,
                    kind: ComponentChangeKind::Mutated,
                })
            }
            &&& handles is None ==> after.counts == state.counts && after.underflows
                == state.underflows
            &&& handles matches Some(held) ==> after.counts == swapped_all(
                state.counts,
                held,
                current,
                current.len(),
            )
        }),
{
    let hooks = hooks_for(state, entity, component, handles);
    let after = state.ended(hooks, current, true);
    if state.journals is Some {
        assert(after.journals->0.dom() =~= state.journals->0.dom());
    }
}

} // verus!
