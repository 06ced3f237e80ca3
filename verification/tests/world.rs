use pulsar_scenedb::archetype::Archetype;
use pulsar_scenedb::bundle::Bundle;
use pulsar_scenedb::change_journal::{
    ChangeJournals, ChangeRead, ComponentChange, ComponentChangeKind,
};
use pulsar_scenedb::change_tracker::{ChangeTracker, TrackedChange};
use pulsar_scenedb::component::{ComponentType, ComponentTypes};
use pulsar_scenedb::component_methods::{
    call_outcome, Callee, ComponentCallError, ComponentMethod, ComponentMethods, MethodInfo, ReceiverKind,
    ReflectedMethod, TypeMethods, WorldMethod, WorldMethodRegistration,
};
use pulsar_scenedb::component_ref::{ComponentHandle, ComponentRef};
use pulsar_scenedb::entity::{ComponentId, Entity};
use pulsar_scenedb::gpu::buffer_registry::TypeKey;
use pulsar_scenedb::handle_ledger::{HandleCounts, HandleId};
use pulsar_scenedb::mut_guard::{MirrorRequest, MirrorRequests, Observers};
use pulsar_scenedb::query::{QueryIter, WorldQuery};
use pulsar_scenedb::relation::{ConflictReason, RelationIndex};
use pulsar_scenedb::subscriptions::{ComponentChangeEvent, SubscriptionRegistry};
use pulsar_scenedb::world::World;

fn entity(i: u32) -> Entity {
    Entity::new(i, 0)
}

fn u32_type() -> ComponentType {
    ComponentType { key: TypeKey(1), name: "u32" }
}

fn u64_type() -> ComponentType {
    ComponentType { key: TypeKey(2), name: "u64" }
}

#[test]
fn readers_advance_independently() {
    let mut types = ComponentTypes::new();
    let cid = types.component_id(u32_type());
    let mut journals = ChangeJournals::new();
    let mut a = journals.open(cid);
    journals.record(entity(1), cid, ComponentChangeKind::Inserted);
    let mut b = journals.open(cid);
    journals.record(entity(2), cid, ComponentChangeKind::Mutated);

    let mut out: Vec<ComponentChange> = Vec::new();
    assert_eq!(journals.read(&mut a, &mut out), ChangeRead::Complete);
    assert_eq!(out.iter().map(|c| c.entity).collect::<Vec<_>>(), [entity(1), entity(2)]);
    out.clear();
    assert_eq!(journals.read(&mut b, &mut out), ChangeRead::Complete);
    assert_eq!(out.iter().map(|c| c.entity).collect::<Vec<_>>(), [entity(2)]);
    out.clear();
    assert_eq!(journals.read(&mut a, &mut out), ChangeRead::Complete);
    assert!(out.is_empty());
}

#[test]
fn untracked_types_record_nothing() {
    let mut types = ComponentTypes::new();
    let watched = types.component_id(u32_type());
    let unwatched = types.component_id(u64_type());
    let mut journals = ChangeJournals::new();
    let mut cursor = journals.open(watched);
    journals.record(entity(1), unwatched, ComponentChangeKind::Inserted);
    let mut out = Vec::new();
    assert_eq!(journals.read(&mut cursor, &mut out), ChangeRead::Complete);
    assert!(out.is_empty());
}

#[test]
fn a_lagging_reader_overflows_instead_of_reading_a_gap() {
    let mut types = ComponentTypes::new();
    let cid = types.component_id(u32_type());
    let mut journals = ChangeJournals::new();
    let mut cursor = journals.open(cid);
    assert!(journals.set_capacity(cid, 4));
    for i in 0..6 {
        journals.record(entity(i), cid, ComponentChangeKind::Mutated);
    }
    let mut out: Vec<ComponentChange> = Vec::new();
    assert_eq!(journals.read(&mut cursor, &mut out), ChangeRead::Overflowed);
    assert!(out.is_empty());
    journals.record(entity(9), cid, ComponentChangeKind::Mutated);
    assert_eq!(journals.read(&mut cursor, &mut out), ChangeRead::Complete);
    assert_eq!(out.iter().map(|c| c.entity).collect::<Vec<_>>(), [entity(9)]);
}

#[test]
fn a_reader_at_the_edge_of_the_ring_still_reads_everything() {
    let cid = ComponentId(0);
    let mut journals = ChangeJournals::new();
    let mut cursor = journals.open(cid);
    assert_eq!(cursor.component(), cid);
    assert!(journals.set_capacity(cid, 4));
    for i in 0..4 {
        journals.record(entity(i), cid, ComponentChangeKind::Removed);
    }
    let mut out: Vec<ComponentChange> = Vec::new();
    assert_eq!(journals.read(&mut cursor, &mut out), ChangeRead::Complete);
    assert_eq!(out.len(), 4);
    assert!(out.iter().all(|c| c.kind == ComponentChangeKind::Removed));
}

#[test]
fn an_unopened_journal_has_no_capacity_to_set() {
    let mut journals = ChangeJournals::new();
    assert!(!journals.set_capacity(ComponentId(7), 4));
}

struct PortalLink {
    linked_to: Entity,
}

#[test]
fn reciprocal_links_pair_once_each() {
    let link = ComponentId(0);
    let mut world = World::new();
    let a = world.spawn();
    let b = world.spawn();
    world.insert(a, link, PortalLink { linked_to: b });
    world.insert(b, link, PortalLink { linked_to: a });

    let mut index = RelationIndex::new();
    index.build(&world, link, |c: &PortalLink| c.linked_to);
    let view = index.view();

    assert_eq!(view.pairs.len(), 1);
    let (p0, p1) = view.pairs[0];
    assert!((p0 == a && p1 == b) || (p0 == b && p1 == a));
    assert!(view.unmatched.is_empty());
    assert!(view.conflicts.is_empty());
}

#[test]
fn one_sided_link_is_unmatched_and_broken_reciprocity_is_a_conflict() {
    let link = ComponentId(0);
    let mut world = World::new();
    let lonely = world.spawn();
    let target_without_component = world.spawn();
    world.insert(lonely, link, PortalLink { linked_to: target_without_component });

    let wants_c = world.spawn();
    let wants_a_instead = world.spawn();
    let actually_linked = world.spawn();
    world.insert(wants_c, link, PortalLink { linked_to: actually_linked });
    world.insert(actually_linked, link, PortalLink { linked_to: wants_a_instead });
    world.insert(wants_a_instead, link, PortalLink { linked_to: actually_linked });

    let mut index = RelationIndex::new();
    index.build(&world, link, |c: &PortalLink| c.linked_to);
    let view = index.view();

    assert_eq!(view.pairs.len(), 1);
    let (p0, p1) = view.pairs[0];
    assert!(
        (p0 == actually_linked && p1 == wants_a_instead)
            || (p0 == wants_a_instead && p1 == actually_linked)
    );

    assert_eq!(view.unmatched, &[lonely]);

    assert_eq!(view.conflicts.len(), 1);
    assert_eq!(view.conflicts[0].source, wants_c);
    assert_eq!(view.conflicts[0].target, actually_linked);
    assert_eq!(view.conflicts[0].reason, ConflictReason::NotReciprocated(wants_a_instead));
}

#[test]
fn rebuilding_a_relation_forgets_the_old_links() {
    let link = ComponentId(0);
    let mut world = World::new();
    let a = world.spawn();
    let b = world.spawn();
    world.insert(a, link, PortalLink { linked_to: b });
    world.insert(b, link, PortalLink { linked_to: a });
    let mut index = RelationIndex::new();
    index.build(&world, link, |c: &PortalLink| c.linked_to);
    assert!(world.despawn(b));
    index.build(&world, link, |c: &PortalLink| c.linked_to);
    assert!(index.view().pairs.is_empty());
    assert_eq!(index.view().unmatched, &[a]);
}

#[test]
fn a_self_link_pairs_with_itself() {
    let mut index = RelationIndex::new();
    index.resolve(&vec![(entity(3), entity(3))]);
    assert_eq!(index.view().pairs, &[(entity(3), entity(3))]);
    assert!(index.view().unmatched.is_empty());
}

const POSITION: ComponentId = ComponentId(0);
const SPEED: ComponentId = ComponentId(1);
const NAME: ComponentId = ComponentId(2);

#[test]
fn components_are_set_read_replaced_and_removed() {
    let mut world: World<i32> = World::new();
    let a = world.spawn();
    assert!(world.is_alive(a));
    assert!(!world.has_component(a, SPEED));
    assert_eq!(world.get(a, SPEED), None);
    world.insert(a, SPEED, 5);
    world.insert(a, POSITION, 7);
    assert!(world.has_component(a, SPEED));
    assert_eq!(world.get(a, SPEED), Some(&5));
    assert_eq!(world.get(a, POSITION), Some(&7));
    world.insert(a, SPEED, 6);
    assert_eq!(world.get(a, SPEED), Some(&6));
    *world.get_mut(a, POSITION).unwrap() += 1;
    assert_eq!(world.get(a, POSITION), Some(&8));
    assert_eq!(world.remove(a, SPEED), Some(6));
    assert_eq!(world.remove(a, SPEED), None);
    assert_eq!(world.get(a, POSITION), Some(&8));
}

#[test]
fn other_entities_keep_their_components() {
    let mut world: World<i32> = World::new();
    let all: Vec<Entity> = (0..5)
        .map(|i| {
            let e = world.spawn();
            world.insert(e, POSITION, i);
            e
        })
        .collect();
    assert_eq!(world.remove(all[1], POSITION), Some(1));
    assert!(world.despawn(all[3]));
    for i in [0, 2, 4] {
        assert_eq!(world.get(all[i], POSITION), Some(&(i as i32)));
    }
    assert_eq!(world.get(all[1], POSITION), None);
    assert!(world.is_alive(all[1]));
    assert!(!world.is_alive(all[3]));
}

#[test]
fn a_reused_index_does_not_revive_the_old_entity() {
    let mut world: World<i32> = World::new();
    let old = world.spawn();
    world.insert(old, POSITION, 1);
    assert!(world.despawn(old));
    assert!(!world.despawn(old));
    let new = world.spawn();
    assert_eq!(new.index(), old.index());
    assert_ne!(new.generation(), old.generation());
    assert!(!world.is_alive(old));
    assert_eq!(world.get(old, POSITION), None);
    assert_eq!(world.get(new, POSITION), None);
    assert_eq!(world.remove(old, POSITION), None);
}

#[test]
fn entities_of_the_same_shape_share_an_archetype() {
    let mut world: World<i32> = World::new();
    let a = world.spawn();
    let b = world.spawn();
    world.insert(a, SPEED, 1);
    world.insert(a, POSITION, 2);
    world.insert(b, POSITION, 3);
    world.insert(b, SPEED, 4);
    let both = (0..world.archetype_count())
        .map(|i| world.archetype(i))
        .find(|arch| arch.ids() == &[POSITION, SPEED])
        .unwrap();
    assert_eq!(both.entities(), &[a, b]);
    assert_eq!(both.column_of(SPEED), Some(1));
    assert_eq!(both.column_of(NAME), None);
    assert!(both.has_columns(&[SPEED, POSITION]));
    assert!(!both.has_columns(&[SPEED, NAME]));
    assert_eq!(both.value(1, 1), &4);
}

fn all<V: Copy>(mut iter: QueryIter<'_, V>) -> Vec<(Entity, Vec<V>)> {
    let mut out = Vec::new();
    while let Some((e, values)) = iter.next() {
        out.push((e, values.into_iter().copied().collect()));
    }
    out
}

#[test]
fn a_query_visits_each_match_once_with_its_values() {
    let mut world: World<i32> = World::new();
    let a = world.spawn();
    let b = world.spawn();
    let c = world.spawn();
    let d = world.spawn();
    world.insert(a, POSITION, 1);
    world.insert(a, SPEED, 10);
    world.insert(b, POSITION, 2);
    world.insert(c, SPEED, 30);
    world.insert(c, POSITION, 3);
    world.insert(c, NAME, 300);
    world.insert(d, POSITION, 4);
    world.insert(d, SPEED, 40);
    world.despawn(d);

    let mut found = all(world.query(WorldQuery { ids: vec![SPEED, POSITION] }));
    found.sort_by_key(|(e, _)| e.index());
    assert_eq!(found, vec![(a, vec![10, 1]), (c, vec![30, 3])]);
    assert_eq!(all(world.query(WorldQuery { ids: vec![POSITION] })).len(), 3);
    assert_eq!(all(world.query(WorldQuery { ids: vec![] })).len(), 3);
    assert!(all(world.query(WorldQuery { ids: vec![ComponentId(9)] })).is_empty());
}

#[test]
fn a_writing_query_changes_what_it_visits_and_nothing_else() {
    let mut world: World<i32> = World::new();
    let a = world.spawn();
    let b = world.spawn();
    let c = world.spawn();
    for (e, position) in [(a, 1), (b, 2), (c, 3)] {
        world.insert(e, POSITION, position);
    }
    world.insert(a, SPEED, 10);
    world.insert(c, SPEED, 30);
    world.insert(c, NAME, 300);

    let mut visited = Vec::new();
    let mut query = world.query_mut(WorldQuery { ids: vec![SPEED, POSITION] });
    while let Some(e) = query.next() {
        let speed = *query.get(0);
        *query.get_mut(1) += speed;
        assert_eq!(*query.get(0), speed);
        visited.push(e);
    }
    assert!(query.next().is_none());
    visited.sort_by_key(|e| e.index());
    assert_eq!(visited, vec![a, c], "each match once");
    assert_eq!(world.get(a, POSITION), Some(&11));
    assert_eq!(world.get(b, POSITION), Some(&2));
    assert_eq!(world.get(c, POSITION), Some(&33));
    assert_eq!(world.get(a, SPEED), Some(&10));
    assert_eq!(world.get(c, NAME), Some(&300));
    assert_eq!(all(world.query(WorldQuery { ids: vec![SPEED, POSITION] })).len(), 2);
}

#[test]
fn one_component_of_a_row_is_fetched_to_write_to() {
    let mut archetype: Archetype<i32> = Archetype::new(vec![POSITION, SPEED]);
    archetype.push_row(entity(0), vec![1, 10]);
    archetype.push_row(entity(1), vec![2, 20]);
    let query = WorldQuery { ids: vec![SPEED, POSITION] };
    let columns = query.init_fetch(&archetype);
    *query.fetch_mut(&mut archetype, &columns, 0, 1) = 21;
    assert_eq!(query.fetch(&archetype, &columns, 1), vec![&21, &2]);
    assert_eq!(query.fetch(&archetype, &columns, 0), vec![&10, &1]);
}

#[test]
fn a_size_hint_never_promises_too_much() {
    let mut world: World<i32> = World::new();
    for i in 0..4 {
        let e = world.spawn();
        world.insert(e, POSITION, i);
    }
    let mut iter = world.query(WorldQuery { ids: vec![POSITION] });
    let mut left: usize = 4;
    loop {
        assert!(iter.size_hint() <= left);
        if iter.next().is_none() {
            break;
        }
        left -= 1;
    }
    assert_eq!(left, 0);
    assert!(iter.next().is_none());
}

#[test]
fn a_spawned_bundle_has_all_its_components() {
    let mut world: World<i32> = World::new();
    world.reserve_bundle(&vec![POSITION, SPEED], 3);
    let e = world.spawn_bundle(Bundle { parts: vec![(SPEED, 5), (POSITION, 6)] });
    assert_eq!(world.get(e, SPEED), Some(&5));
    assert_eq!(world.get(e, POSITION), Some(&6));
    assert_eq!(world.get(e, NAME), None);

    let mut other: World<i32> = World::new();
    let f = other.spawn();
    other.insert(f, SPEED, 5);
    other.insert(f, POSITION, 6);
    assert_eq!(other.get(f, SPEED), world.get(e, SPEED));
    assert_eq!(other.get(f, POSITION), world.get(e, POSITION));
}

#[test]
fn inserting_a_bundle_replaces_and_adds() {
    let mut world: World<i32> = World::new();
    let e = world.spawn();
    world.insert(e, SPEED, 1);
    world.insert(e, NAME, 2);
    world.insert_bundle(e, Bundle { parts: vec![(POSITION, 3), (SPEED, 4)] });
    assert_eq!(world.get(e, SPEED), Some(&4));
    assert_eq!(world.get(e, POSITION), Some(&3));
    assert_eq!(world.get(e, NAME), Some(&2));
}

#[test]
fn tracked_bundles_are_logged() {
    let mut world: World<i32> = World::new();
    let mut tracker = ChangeTracker::new();
    let e = world.spawn_bundle_tracked(Bundle { parts: vec![(SPEED, 5)] }, &mut tracker);
    world.insert_bundle_tracked(e, Bundle { parts: vec![(POSITION, 6)] }, &mut tracker);
    assert_eq!(
        tracker.changes(),
        &[
            TrackedChange::Spawned(e),
            TrackedChange::ComponentChanged { entity: e, component: SPEED },
            TrackedChange::ComponentChanged { entity: e, component: POSITION },
        ]
    );
    assert_eq!(world.get(e, POSITION), Some(&6));
}

#[test]
fn component_ids_are_stable_and_distinct() {
    let mut types = ComponentTypes::new();
    assert_eq!(types.find(TypeKey(1)), None);
    let a = types.component_id(u32_type());
    let b = types.component_id(u64_type());
    assert_ne!(a, b);
    assert_eq!(types.component_id(u32_type()), a);
    assert_eq!(types.find(TypeKey(2)), Some(b));
    assert_eq!(types.type_of(b), TypeKey(2));
    assert_eq!(types.name_of(a), "u32");
}

#[test]
fn only_subscribed_pairs_make_events() {
    let mut registry = SubscriptionRegistry::new();
    registry.subscribe(entity(1), SPEED);
    registry.record(entity(1), SPEED, ComponentChangeKind::Mutated);
    registry.record(entity(1), NAME, ComponentChangeKind::Mutated);
    registry.record(entity(2), SPEED, ComponentChangeKind::Mutated);
    let expected = ComponentChangeEvent {
        entity: entity(1),
        component: SPEED,
        kind: ComponentChangeKind::Mutated,
    };
    assert_eq!(registry.take_events(), vec![expected]);
    assert!(registry.take_events().is_empty());
}

fn nobody() -> Observers {
    Observers {
        mirror: None,
        tracker: None,
        subscriptions: None,
        journals: None,
        handle_counts: HandleCounts::default(),
    }
}

fn everybody(component: ComponentId) -> Observers {
    let mut journals = ChangeJournals::new();
    let _ = journals.open(component);
    Observers {
        mirror: Some(MirrorRequests { mirrored: vec![component], pending: vec![] }),
        tracker: Some(ChangeTracker::new()),
        subscriptions: Some(SubscriptionRegistry::new()),
        journals: Some(journals),
        handle_counts: HandleCounts::default(),
    }
}

#[test]
fn a_written_guard_tells_every_observer_once() {
    let mut types = ComponentTypes::new();
    let mut world: World<i32> = World::new();
    let e = world.spawn();
    let handle = ComponentHandle::new(&mut types, e, u32_type());
    let cid = handle.erase().component;
    world.insert(e, cid, 3);

    let mut observers = everybody(cid);
    observers.subscriptions.as_mut().unwrap().subscribe(e, cid);
    let mut cursor = observers.journals.as_mut().unwrap().open(cid);
    let old_id = HandleId(11);
    let new_id = HandleId(12);
    observers.handle_counts.acquire(old_id);

    let mut guard = handle.get_mut(&mut world, &observers, Some(vec![old_id])).unwrap();
    assert_eq!(guard.get(), &3);
    *guard.get_mut() = 4;
    *guard.get_mut() += 1;
    guard.finish(&mut observers, &vec![new_id]);

    assert_eq!(world.get(e, cid), Some(&5));
    assert_eq!(
        observers.mirror.as_ref().unwrap().pending,
        vec![MirrorRequest { row: e.index(), component: cid }]
    );
    assert_eq!(
        observers.tracker.as_ref().unwrap().changes(),
        &[TrackedChange::ComponentChanged { entity: e, component: cid }]
    );
    assert_eq!(observers.subscriptions.as_mut().unwrap().take_events().len(), 1);
    let mut out = Vec::new();
    let read = observers.journals.as_ref().unwrap().read(&mut cursor, &mut out);
    assert_eq!(read, ChangeRead::Complete);
    assert_eq!(out, vec![ComponentChange { entity: e, kind: ComponentChangeKind::Mutated }]);
    assert_eq!(observers.handle_counts.get(old_id), 0);
    assert_eq!(observers.handle_counts.get(new_id), 1);
}

#[test]
fn a_guard_that_was_only_read_tells_mirror_and_tracker_alone() {
    let mut types = ComponentTypes::new();
    let mut world: World<i32> = World::new();
    let e = world.spawn();
    let handle = ComponentHandle::new(&mut types, e, u32_type());
    let cid = handle.erase().component;
    world.insert(e, cid, 3);
    let mut observers = everybody(cid);
    observers.subscriptions.as_mut().unwrap().subscribe(e, cid);
    let mut cursor = observers.journals.as_mut().unwrap().open(cid);
    let id = HandleId(11);
    observers.handle_counts.acquire(id);
    let guard = handle.get_mut(&mut world, &observers, Some(vec![id])).unwrap();
    assert_eq!(guard.get(), &3);
    guard.finish(&mut observers, &vec![id]);
    assert_eq!(observers.mirror.as_ref().unwrap().pending.len(), 1);
    assert_eq!(observers.tracker.as_ref().unwrap().changes().len(), 1);
    assert!(observers.subscriptions.as_mut().unwrap().take_events().is_empty());
    let mut out = Vec::new();
    let read = observers.journals.as_ref().unwrap().read(&mut cursor, &mut out);
    assert_eq!(read, ChangeRead::Complete);
    assert!(out.is_empty());
    assert_eq!(observers.handle_counts.get(id), 1);
}

#[test]
fn an_unobserved_write_only_counts_handles() {
    let mut types = ComponentTypes::new();
    let mut world: World<i32> = World::new();
    let e = world.spawn();
    let handle = ComponentHandle::new(&mut types, e, u32_type());
    world.insert(e, handle.erase().component, 3);
    let mut observers = nobody();
    let mut guard = handle.get_mut(&mut world, &observers, Some(vec![HandleId(1)])).unwrap();
    *guard.get_mut() = 4;
    guard.finish(&mut observers, &vec![HandleId(2)]);
    assert!(observers.mirror.is_none() && observers.tracker.is_none());
    assert_eq!(observers.handle_counts.get(HandleId(2)), 1);
}

#[test]
fn taking_the_inner_reference_reports_before_it_is_handed_out() {
    let mut types = ComponentTypes::new();
    let mut world: World<i32> = World::new();
    let e = world.spawn();
    let handle = ComponentHandle::new(&mut types, e, u32_type());
    let cid = handle.erase().component;
    world.insert(e, cid, 3);
    let mut observers = everybody(cid);
    let guard = handle.get_mut(&mut world, &observers, None).unwrap();
    let value = guard.into_inner(&mut observers, &vec![]);
    *value = 9;
    assert_eq!(world.get(e, cid), Some(&9));
    assert_eq!(observers.tracker.as_ref().unwrap().changes().len(), 1);
}

#[test]
fn an_erased_guard_only_downcasts_to_its_own_type() {
    let mut types = ComponentTypes::new();
    let mut world: World<i32> = World::new();
    let e = world.spawn();
    let erased = ComponentRef::of(&mut types, e, u32_type());
    world.insert(e, erased.component, 3);
    let mut observers = everybody(erased.component);
    let mut guard = erased.get_mut(&mut world, &types, &observers, None).unwrap();
    assert!(guard.downcast_mut(u64_type()).is_none());
    *guard.downcast_mut(u32_type()).unwrap() = 8;
    assert_eq!(guard.get(), &8);
    guard.finish(&mut observers, &vec![]);
    assert_eq!(world.get(e, erased.component), Some(&8));
    assert_eq!(observers.tracker.as_ref().unwrap().changes().len(), 1);
}

#[test]
fn references_to_dead_entities_lead_nowhere() {
    let mut types = ComponentTypes::new();
    let mut world: World<i32> = World::new();
    let e = world.spawn();
    let handle = ComponentHandle::new(&mut types, e, u32_type());
    let erased = handle.erase();
    assert!(!handle.is_valid(&world));
    world.insert(e, erased.component, 3);
    assert!(handle.is_valid(&world));
    assert!(erased.is_valid(&world));
    assert_eq!(handle.get(&world), Some(&3));
    assert_eq!(erased.get(&world), Some(&3));
    world.despawn(e);
    let reborn = world.spawn();
    world.insert(reborn, erased.component, 4);
    assert_eq!(handle.entity(), e);
    assert!(!handle.is_valid(&world));
    assert_eq!(handle.get(&world), None);
    assert_eq!(erased.get(&world), None);
    let observers = nobody();
    assert!(handle.get_mut(&mut world, &observers, None).is_none());
    assert!(erased.get_mut(&mut world, &types, &observers, None).is_none());
}

#[test]
fn an_erased_reference_becomes_typed_only_as_its_own_type() {
    let mut types = ComponentTypes::new();
    let erased = ComponentRef::of(&mut types, entity(4), u32_type());
    assert_eq!(erased.typed(&types, u32_type()).unwrap().erase(), erased);
    assert!(erased.typed(&types, u64_type()).is_none());
    assert_eq!(ComponentRef::new(entity(4), erased.component), erased);
}

fn method(name: &'static str, receiver: ReceiverKind, shim: u32) -> ReflectedMethod {
    let side_effect_free = receiver == ReceiverKind::Ref;
    ReflectedMethod { info: MethodInfo { name, side_effect_free }, receiver, shim }
}

fn world_method(name: &'static str, shim: u32) -> WorldMethod {
    WorldMethod { info: MethodInfo { name, side_effect_free: false }, shim }
}

fn some_methods() -> ComponentMethods {
    ComponentMethods::collect(
        &vec![TypeMethods {
            ty: TypeKey(1),
            methods: vec![
                method("create", ReceiverKind::Absent, 0),
                method("read", ReceiverKind::Ref, 1),
                method("write", ReceiverKind::Mut, 2),
            ],
        }],
        &vec![WorldMethodRegistration {
            component: TypeKey(1),
            methods: vec![world_method("write", 3), world_method("spawn_child", 4)],
        }],
    )
}

#[test]
fn method_tables_skip_receiverless_methods_and_taken_names() {
    let methods = some_methods();
    let mut types = ComponentTypes::new();
    let cid = types.component_id(u32_type());
    let other = types.component_id(u64_type());
    let names: Vec<&str> =
        methods.component_methods(&types, cid).iter().map(|m| m.name()).collect();
    assert_eq!(names, vec!["read", "write", "spawn_child"]);
    assert!(methods.component_methods(&types, other).is_empty());
    assert!(methods.component_methods_of_type(TypeKey(2)).is_empty());
    let write = methods.find_component_method(&types, cid, "write").unwrap();
    assert!(matches!(write, ComponentMethod::Reflected(m) if m.shim == 2));
    assert!(write.mutates());
    assert!(!methods.find_component_method(&types, cid, "read").unwrap().mutates());
    assert!(methods.find_component_method(&types, cid, "spawn_child").unwrap().mutates());
    assert!(methods.find_component_method(&types, cid, "read").unwrap().info().side_effect_free);
    assert!(methods.find_component_method(&types, cid, "create").is_none());
}

#[test]
fn calls_reach_the_component_as_the_method_takes_it() {
    let methods = some_methods();
    let mut types = ComponentTypes::new();
    let cid = types.component_id(u32_type());
    let mut world: World<i32> = World::new();
    let e = world.spawn();
    world.insert(e, cid, 3);
    let mut observers = everybody(cid);

    match world.call_component_method(&methods, &types, &observers, None, e, cid, "read") {
        Ok((_, Callee::Read(value))) => assert_eq!(value, &3),
        _ => panic!("not a read"),
    }
    match world.call_component_method(&methods, &types, &observers, None, e, cid, "write") {
        Ok((_, Callee::Write(mut guard))) => {
            *guard.get_mut() = 4;
            guard.finish(&mut observers, &vec![]);
        }
        _ => panic!("not a write"),
    }
    assert_eq!(world.get(e, cid), Some(&4));
    assert_eq!(observers.tracker.as_ref().unwrap().changes().len(), 1);
    let called =
        world.call_component_method(&methods, &types, &observers, None, e, cid, "spawn_child");
    assert!(matches!(called, Ok((ComponentMethod::World(m), Callee::World)) if m.shim == 4));
}

#[test]
fn what_a_method_fails_with_is_a_failed_call() {
    assert!(matches!(call_outcome(Ok(7)), Ok(7)));
    match call_outcome::<u32>(Err("too far".to_string())) {
        Err(ComponentCallError::Call(message)) => assert_eq!(message, "too far"),
        _ => panic!("not a failed call"),
    }
    let e = ComponentCallError::from("too near".to_string());
    assert_eq!(e.describe(), "too near");
}

#[test]
fn a_stale_reference_never_comes_back_to_life() {
    let mut types = ComponentTypes::new();
    let cid = types.component_id(u32_type());
    let mut world: World<i32> = World::new();
    let e = world.spawn();
    world.insert(e, cid, 1);
    let stale = ComponentRef::new(e, cid);
    world.despawn(e);
    for n in 0..5 {
        let next = world.spawn();
        assert_eq!(next.index, e.index, "the slot is used again");
        world.insert(next, cid, n);
        assert_eq!(world.get(stale.entity, stale.component), None);
        assert_eq!(world.get(next, cid), Some(&n));
        world.despawn(next);
        assert_eq!(world.get(stale.entity, stale.component), None);
    }
}

#[test]
fn calls_that_cannot_be_made_say_why() {
    let methods = some_methods();
    let mut types = ComponentTypes::new();
    let cid = types.component_id(u32_type());
    let mut world: World<i32> = World::new();
    let e = world.spawn();
    let observers = nobody();

    match world.call_component_method(&methods, &types, &observers, None, e, cid, "fly") {
        Err(err) => {
            assert!(matches!(err, ComponentCallError::NoSuchMethod { .. }));
            assert_eq!(err.describe(), "u32 has no method `fly`");
        }
        Ok(_) => panic!("called"),
    }
    match world.call_component_method(&methods, &types, &observers, None, e, cid, "read") {
        Err(err) => {
            assert!(matches!(err, ComponentCallError::MissingComponent { .. }));
            let expected = format!("{e:?} has no u32");
            assert_eq!(err.describe(), expected);
        }
        Ok(_) => panic!("called"),
    }
    let read = methods.find_component_method(&types, cid, "read").unwrap();
    assert!(world.invoke_component_method(&types, &observers, None, e, cid, read).is_err());
    assert_eq!(ComponentCallError::Call("too far".to_string()).describe(), "too far");
}
