//! Several components at once: one move to the right archetype instead of one per component.
use crate::archetype::place_in;
use crate::change_tracker::ChangeTracker;
use crate::entity::{ComponentId, Entity};
use crate::world::World;
use vstd::prelude::*;

verus! {

use crate::archetype::{holds, lemma_place, lemma_with, place, sorted, Row};
use crate::change_tracker::TrackedChange;
use crate::world::{
    archetype_at, follows, has_archetype, has_room_for, lemma_allocated, lemma_follows,
    lemma_inserted, lemma_inserted_room, lemma_kept_for, lemma_kept_twice, lemma_settled,
    lemma_with_archetype, others_kept, slot_kept, WorldState,
};

/// Components, each with its value.
#[derive(Debug)]
pub struct Bundle<V> {
    pub parts: Vec<(ComponentId, V)>,
}

/// No component twice.
pub open spec fn distinct<V>(parts: Seq<(ComponentId, V)>) -> bool {
    forall|i: int, j: int|
        #![trigger parts[i], parts[j]]
        0 <= i < j < parts.len() ==> parts[i].0 != parts[j].0
}

/// The row the components make.
pub open spec fn bundle_row<V>(parts: Seq<(ComponentId, V)>) -> Row<V>
    decreases parts.len(),
{
    if parts.len() == 0 {
        Row::empty()
    } else {
        bundle_row(parts.drop_last()).with(parts.last().0, parts.last().1)
    }
}

/// The component types of a bundle, ascending, from its types in the order given.
pub open spec fn bundle_ids(ids: Seq<ComponentId>) -> Seq<ComponentId>
    decreases ids.len(),
{
    if ids.len() == 0 {
        seq![]
    } else {
        let front = bundle_ids(ids.drop_last());
        if holds(front, ids.last()) {
            front
        } else {
            front.insert(place(front, ids.last()), ids.last())
        }
    }
}

/// The types of the components.
pub open spec fn part_ids<V>(parts: Seq<(ComponentId, V)>) -> Seq<ComponentId> {
    Seq::new(parts.len(), |i: int| parts[i].0)
}

/// There is an archetype for the first component type, for the first two, and so on.
pub open spec fn walked<V>(s: WorldState<V>, ids: Seq<ComponentId>) -> WorldState<V>
    decreases ids.len(),
{
    if ids.len() == 0 {
        s.with_archetype(seq![])
    } else {
        walked(s, ids.drop_last()).with_archetype(bundle_ids(ids))
    }
}

/// A new entity with these components.
pub open spec fn bundle_spawned<V>(
    s: WorldState<V>,
    parts: Seq<(ComponentId, V)>,
) -> WorldState<V> {
    walked(s.allocated(), part_ids(parts)).settled(s.next_index(), bundle_row(parts))
}

/// An entity gets these components, one after the other.
pub open spec fn bundle_inserted<V>(
    s: WorldState<V>,
    entity: Entity,
    parts: Seq<(ComponentId, V)>,
) -> WorldState<V>
    decreases parts.len(),
{
    if parts.len() == 0 {
        s
    } else {
        bundle_inserted(s, entity, parts.drop_last()).inserted(
            entity,
            parts.last().0,
            parts.last().1,
        )
    }
}

/// The records of the components of an entity.
pub open spec fn part_changes<V>(
    entity: Entity,
    parts: Seq<(ComponentId, V)>,
) -> Seq<TrackedChange> {
    Seq::new(
        parts.len(),
        |i: int| TrackedChange::ComponentChanged { entity, component: parts[i].0 },
    )
}

/// The row has exactly the components of the bundle; of a component that is there twice, the last
/// value.
pub proof fn lemma_bundle_row<V>(parts: Seq<(ComponentId, V)>)
    ensures
        bundle_row(parts).consistent(),
        bundle_row(parts).ids == bundle_ids(part_ids(parts)),
        sorted(bundle_ids(part_ids(parts))),
        forall|id: ComponentId|
            (#[trigger] bundle_row(parts).value(id)) is Some ==> part_ids(parts).contains(id),
        forall|i: int|
            0 <= i < parts.len() && distinct(parts) ==> bundle_row(parts).value(
                (#[trigger] parts[i]).0,
            ) == Some(parts[i].1),
    decreases parts.len(),
{
    if parts.len() == 0 {
        assert(part_ids(parts) =~= seq![]);
    } else {
        let front = parts.drop_last();
        let last = parts.last();
        lemma_bundle_row(front);
        lemma_with(bundle_row(front), last.0, last.1);
        assert(part_ids(parts).drop_last() =~= part_ids(front));
        assert(part_ids(parts).last() == last.0);
        assert forall|id: ComponentId| (#[trigger] bundle_row(parts).value(id)) is Some implies
            part_ids(parts).contains(id) by {
            if id == last.0 {
                assert(part_ids(parts)[parts.len() - 1] == id);
            } else {
                assert(bundle_row(front).value(id) is Some);
                let k = choose|k: int| 0 <= k < front.len() && part_ids(front)[k] == id;
                assert(part_ids(parts)[k] == id);
            }
        }
        assert forall|i: int| 0 <= i < parts.len() && distinct(parts) implies bundle_row(
            parts,
        ).value((#[trigger] parts[i]).0) == Some(parts[i].1) by {
            if i < front.len() {
                assert(distinct(front)) by {
                    assert forall|a: int, b: int|
                        #![trigger front[a], front[b]]
                        0 <= a < b < front.len() implies front[a].0 != front[b].0 by {
                        assert(parts[a].0 != parts[b].0);
                    }
                }
                assert(front[i] == parts[i]);
                assert(parts[i].0 != parts[parts.len() - 1].0);
            }
        }
    }
}

/// Walking makes archetypes and changes nothing for the entities.
proof fn lemma_walked<V>(s: WorldState<V>, ids: Seq<ComponentId>, floating: int, n: int)
    requires
        s.sound(floating),
        ids.len() < n,
        has_room_for(s, n),
    ensures
        walked(s, ids).sound(floating),
        sorted(bundle_ids(ids)),
        walked(s, ids).slots == s.slots,
        walked(s, ids).free == s.free,
        others_kept(s, walked(s, ids), floating),
        has_room_for(walked(s, ids), n - ids.len() - 1),
        has_archetype(walked(s, ids).archetypes, bundle_ids(ids)),
        forall|a: int|
            0 <= a < walked(s, ids).archetypes.len() ==> (
            #[trigger] walked(s, ids).archetypes[a]).entities.len() < usize::MAX,
    decreases ids.len(),
{
    lemma_bundle_ids_sorted(ids);
    if ids.len() == 0 {
        assert(s.archetypes[0].ids =~= seq![]);
        assert(has_archetype(s.archetypes, seq![]));
        assert forall|j: int| 0 <= j < s.slots.len() && j != floating implies #[trigger] slot_kept(
            s,
            s,
            j,
        ) by {}
        assert forall|a: int| 0 <= a < s.archetypes.len() implies (
        #[trigger] s.archetypes[a]).entities.len() < usize::MAX by {
            assert(s.archetypes[a].entities.len() + n <= usize::MAX);
        }
    } else {
        let front = ids.drop_last();
        lemma_walked(s, front, floating, n);
        let before = walked(s, front);
        lemma_with_archetype(before, bundle_ids(ids), floating);
        lemma_kept_twice(s, before, walked(s, ids), floating);
        assert forall|a: int| 0 <= a < walked(s, ids).archetypes.len() implies (
        #[trigger] walked(s, ids).archetypes[a]).entities.len() < usize::MAX by {
            if a < before.archetypes.len() {
                assert(before.archetypes[a].entities.len() < usize::MAX);
            }
        }
        assert forall|a: int| 0 <= a < walked(s, ids).archetypes.len() implies (
        #[trigger] walked(s, ids).archetypes[a]).entities.len() + (n - ids.len() - 1)
            <= usize::MAX by {
            if a < before.archetypes.len() {
                assert(before.archetypes[a].entities.len() + (n - front.len() - 1)
                    <= usize::MAX);
            }
        }
    }
}

proof fn lemma_bundle_ids_sorted(ids: Seq<ComponentId>)
    ensures
        sorted(bundle_ids(ids)),
    decreases ids.len(),
{
    if ids.len() > 0 {
        lemma_bundle_ids_sorted(ids.drop_last());
        let front = bundle_ids(ids.drop_last());
        let units = Row { ids: front, values: Seq::new(front.len(), |i: int| 0int) };
        lemma_with(units, ids.last(), 0int);
        assert(units.with(ids.last(), 0int).ids == bundle_ids(ids));
    }
}

impl<V> World<V> {
    /// Makes the archetypes for these component types, in the order given. Returns the one for all.
    fn walk(&mut self, ids: &Vec<ComponentId>, Ghost(floating): Ghost<int>) -> (r: (
        usize,
        Vec<ComponentId>,
    ))
        requires
            old(self)@.sound(floating),
            has_room_for(old(self)@, (ids@.len() + 1) as int),
        ensures
            final(self)@ == walked(old(self)@, ids@),
            final(self)@.sound(floating),
            r.1@ == bundle_ids(ids@),
            r.0 == archetype_at(final(self)@.archetypes, r.1@),
            r.0 < final(self)@.archetypes.len(),
            final(self)@.archetypes[r.0 as int].ids == r.1@,
    {
        let ghost before = self@;
        let mut walked_ids: Vec<ComponentId> = Vec::new();
        assert(walked_ids@ =~= seq![]);
        let ghost n = (ids@.len() + 1) as int;
        let mut at: usize = self.archetype_for(&walked_ids, Ghost(floating));
        assert(ids@.take(0) =~= seq![]);
        let mut i: usize = 0;
        while i < ids.len()
            invariant
                before == old(self)@,
                before.sound(floating),
                n == ids@.len() + 1,
                has_room_for(before, n),
                i <= ids@.len(),
                self@ == walked(before, ids@.take(i as int)),
                self@.sound(floating),
                walked_ids@ == bundle_ids(ids@.take(i as int)),
                at == archetype_at(self@.archetypes, walked_ids@),
                at < self@.archetypes.len(),
                self@.archetypes[at as int].ids == walked_ids@,
            decreases ids@.len() - i,
        {
            proof {
                let more = ids@.take(i + 1);
                assert(more.drop_last() =~= ids@.take(i as int));
                assert(more.last() == ids@[i as int]);
                lemma_walked(before, ids@.take(i as int), floating, n);
                lemma_bundle_ids_sorted(more);
                lemma_place(walked_ids@, ids@[i as int]);
            }
            let id: ComponentId = ids[i];
            let p: usize = place_in(&walked_ids, id);
            if !(p < walked_ids.len() && walked_ids[p] == id) {
                walked_ids.insert(p, id);
            }
            at = self.archetype_for(&walked_ids, Ghost(floating));
            i = i + 1;
        }
        assert(ids@.take(i as int) =~= ids@);
        (at, walked_ids)
    }

    /// Prepares for `count` entities with a bundle of these component types: its archetype is made,
    /// with room for as many.
    pub fn reserve_bundle(&mut self, ids: &Vec<ComponentId>, count: u32)
        requires
            old(self).wf(),
            has_room_for(old(self)@, (ids@.len() + 1) as int),
        ensures
            final(self).wf(),
            final(self)@ == walked(old(self)@, ids@),
    {
        let (at, _) = self.walk(ids, Ghost(-1));
        self.reserve_rows(at, count as usize);
    }

    /// Makes an entity with all components of the bundle.
    pub fn spawn_bundle(&mut self, bundle: Bundle<V>) -> (entity: Entity)
        requires
            old(self).wf(),
            old(self)@.can_spawn(),
            distinct(bundle.parts@),
            has_room_for(old(self)@, (bundle.parts@.len() + 2) as int),
        ensures
            final(self).wf(),
            final(self)@ == bundle_spawned(old(self)@, bundle.parts@),
            entity == old(self)@.next_entity(),
    {
        let ghost s = self@;
        let ghost parts = bundle.parts@;
        let ghost i = s.next_index();
        proof {
            lemma_allocated(s);
            lemma_walked(s.allocated(), part_ids(parts), i, (parts.len() + 2) as int);
            lemma_bundle_row(parts);
            assert(s.allocated().archetypes == s.archetypes);
        }
        let entity = self.allocate_slot();
        let mut ids: Vec<ComponentId> = Vec::new();
        let mut k: usize = 0;
        while k < bundle.parts.len()
            invariant
                k <= bundle.parts@.len(),
                parts == bundle.parts@,
                ids@ == part_ids(parts).take(k as int),
            decreases bundle.parts@.len() - k,
        {
            ids.push(bundle.parts[k].0);
            k = k + 1;
            assert(ids@ =~= part_ids(parts).take(k as int));
        }
        assert(ids@ =~= part_ids(parts));
        let (at, _) = self.walk(&ids, Ghost(i));
        let values = bundle_values(bundle);
        proof {
            let ready = walked(s.allocated(), part_ids(parts));
            assert(ready.archetypes[at as int].consistent());
            lemma_settled(ready, i, bundle_row(parts));
        }
        self.place_slot(entity, at, values);
        entity
    }

    /// Makes an entity with all components of the bundle, and records that in the tracker: first the
    /// entity, then each component.
    pub fn spawn_bundle_tracked(&mut self, bundle: Bundle<V>, tracker: &mut ChangeTracker) -> (entity:
        Entity)
        requires
            old(self).wf(),
            old(self)@.can_spawn(),
            distinct(bundle.parts@),
            has_room_for(old(self)@, (bundle.parts@.len() + 2) as int),
        ensures
            final(self).wf(),
            final(self)@ == bundle_spawned(old(self)@, bundle.parts@),
            entity == old(self)@.next_entity(),
            final(tracker)@ == old(tracker)@.push(TrackedChange::Spawned(entity)) + part_changes(
                entity,
                bundle.parts@,
            ),
    {
        let ghost parts = bundle.parts@;
        let mut ids: Vec<ComponentId> = Vec::new();
        let mut k: usize = 0;
        while k < bundle.parts.len()
            invariant
                k <= bundle.parts@.len(),
                parts == bundle.parts@,
                ids@ == part_ids(parts).take(k as int),
            decreases bundle.parts@.len() - k,
        {
            ids.push(bundle.parts[k].0);
            k = k + 1;
            assert(ids@ =~= part_ids(parts).take(k as int));
        }
        let entity = self.spawn_bundle(bundle);
        tracker.record_spawn(entity);
        let ghost spawned = tracker@;
        let mut j: usize = 0;
        while j < ids.len()
            invariant
                j <= ids@.len(),
                ids@ == part_ids(parts),
                tracker@ == spawned + part_changes(entity, parts).take(j as int),
            decreases ids@.len() - j,
        {
            tracker.record_component_change(entity, ids[j]);
            j = j + 1;
            assert(tracker@ =~= spawned + part_changes(entity, parts).take(j as int));
        }
        assert(part_changes(entity, parts).take(j as int) =~= part_changes(entity, parts));
        entity
    }

    /// Gives an entity all components of the bundle; of those that it has, new values.
    pub fn insert_bundle(&mut self, entity: Entity, bundle: Bundle<V>)
        requires
            old(self).wf(),
            old(self)@.alive(entity),
            has_room_for(old(self)@, bundle.parts@.len() as int),
        ensures
            final(self).wf(),
            final(self)@ == bundle_inserted(old(self)@, entity, bundle.parts@),
            final(self)@.alive(entity),
    {
        let ghost s = self@;
        let ghost parts = bundle.parts@;
        let mut rest = reversed(bundle);
        let ghost n = parts.len() as int;
        let mut done: Ghost<int> = Ghost(0);
        while rest.len() > 0
            invariant
                s == old(self)@,
                n == parts.len(),
                0 <= done@ <= n,
                rest@.len() == n - done@,
                forall|k: int| 0 <= k < rest@.len() ==> rest@[k] == parts[n - 1 - k],
                self.wf(),
                self@ == bundle_inserted(s, entity, parts.take(done@)),
                self@.alive(entity),
                has_room_for(self@, n - done@),
                n <= usize::MAX,
            decreases rest@.len(),
        {
            let ghost before = self@;
            let ghost d = done@;
            match rest.pop() {
                Some((id, value)) => {
                    proof {
                        assert((id, value) == parts[d]);
                        assert(parts.take(d + 1).drop_last() =~= parts.take(d));
                        assert(parts.take(d + 1).last() == parts[d]);
                        lemma_inserted_room(before, entity, id, value, n - d);
                        lemma_inserted(before, entity, id, value);
                    }
                    self.insert(entity, id, value);
                    done = Ghost(d + 1);
                },
                None => {
                    assert(false);
                },
            }
        }
        assert(parts.take(done@) =~= parts);
    }

    /// Gives an entity all components of the bundle, and records each in the tracker.
    pub fn insert_bundle_tracked(
        &mut self,
        entity: Entity,
        bundle: Bundle<V>,
        tracker: &mut ChangeTracker,
    )
        requires
            old(self).wf(),
            old(self)@.alive(entity),
            has_room_for(old(self)@, bundle.parts@.len() as int),
        ensures
            final(self).wf(),
            final(self)@ == bundle_inserted(old(self)@, entity, bundle.parts@),
            final(self)@.alive(entity),
            final(tracker)@ == old(tracker)@ + part_changes(entity, bundle.parts@),
    {
        let ghost logged = tracker@;
        let ghost parts = bundle.parts@;
        let mut k: usize = 0;
        while k < bundle.parts.len()
            invariant
                k <= bundle.parts@.len(),
                parts == bundle.parts@,
                tracker@ == logged + part_changes(entity, parts).take(k as int),
            decreases bundle.parts@.len() - k,
        {
            tracker.record_component_change(entity, bundle.parts[k].0);
            k = k + 1;
            assert(tracker@ =~= logged + part_changes(entity, parts).take(k as int));
        }
        assert(part_changes(entity, parts).take(k as int) =~= part_changes(entity, parts));
        self.insert_bundle(entity, bundle)
    }
}

/// The parts in reverse order.
fn reversed<V>(bundle: Bundle<V>) -> (rest: Vec<(ComponentId, V)>)
    ensures
        rest@.len() == bundle.parts@.len(),
        forall|k: int|
            0 <= k < rest@.len() ==> rest@[k] == bundle.parts@[bundle.parts@.len() - 1 - k],
        bundle.parts@.len() <= usize::MAX,
{
    let ghost parts = bundle.parts@;
    assert(bundle.parts.len() <= usize::MAX);
    let mut left = bundle.parts;
    let mut rest: Vec<(ComponentId, V)> = Vec::new();
    while left.len() > 0
        invariant
            left@.len() + rest@.len() == parts.len(),
            left@ == parts.take(left@.len() as int),
            forall|k: int| 0 <= k < rest@.len() ==> rest@[k] == parts[parts.len() - 1 - k],
        decreases left@.len(),
    {
        match left.pop() {
            Some(part) => {
                rest.push(part);
            },
            None => {
                assert(false);
            },
        }
        assert(left@ =~= parts.take(left@.len() as int));
    }
    rest
}

/// The values in the order of their component types.
fn bundle_values<V>(bundle: Bundle<V>) -> (values: Vec<V>)
    requires
        distinct(bundle.parts@),
    ensures
        values@ == bundle_row(bundle.parts@).values,
{
    let ghost parts = bundle.parts@;
    let ghost n = parts.len() as int;
    let mut rest = reversed(bundle);
    let mut ids: Vec<ComponentId> = Vec::new();
    let mut values: Vec<V> = Vec::new();
    let mut done: Ghost<int> = Ghost(0);
    assert(ids@ =~= seq![]);
    assert(values@ =~= seq![]);
    while rest.len() > 0
        invariant
            n == parts.len(),
            distinct(parts),
            0 <= done@ <= n,
            rest@.len() == n - done@,
            forall|k: int| 0 <= k < rest@.len() ==> rest@[k] == parts[n - 1 - k],
            ids@ == bundle_row(parts.take(done@)).ids,
            values@ == bundle_row(parts.take(done@)).values,
        decreases rest@.len(),
    {
        let ghost d = done@;
        match rest.pop() {
            Some((id, value)) => {
                let p: usize = place_in(&ids, id);
                proof {
                    let front = parts.take(d);
                    assert((id, value) == parts[d]);
                    assert(parts.take(d + 1).drop_last() =~= front);
                    assert(parts.take(d + 1).last() == parts[d]);
                    lemma_bundle_row(front);
                    lemma_place(ids@, id);
                    if holds(ids@, id) {
                        assert(bundle_row(front).value(id) is Some);
                        let k = choose|k: int|
                            0 <= k < front.len() && part_ids(front)[k] == id;
                        assert(parts[k].0 != parts[d].0);
                    }
                }
                ids.insert(p, id);
                values.insert(p, value);
                done = Ghost(d + 1);
            },
            None => {
                assert(false);
            },
        }
    }
    assert(parts.take(done@) =~= parts);
    values
}

/// An entity spawned with a bundle has exactly the components of the bundle, and the other entities
/// keep theirs.
pub proof fn law_spawned_bundle_has_its_components<V>(
    s: WorldState<V>,
    parts: Seq<(ComponentId, V)>,
    other: Entity,
    id: ComponentId,
)
    requires
        s.consistent(),
        s.can_spawn(),
        distinct(parts),
        has_room_for(s, (parts.len() + 2) as int),
        other != s.next_entity(),
    ensures
        bundle_spawned(s, parts).alive(s.next_entity()),
        forall|i: int|
            0 <= i < parts.len() ==> bundle_spawned(s, parts).value(
                s.next_entity(),
                (#[trigger] parts[i]).0,
            ) == Some(parts[i].1),
        !part_ids(parts).contains(id) ==> bundle_spawned(s, parts).value(s.next_entity(), id)
            is None,
        bundle_spawned(s, parts).alive(other) == s.alive(other),
        bundle_spawned(s, parts).value(other, id) == s.value(other, id),
{
    let i = s.next_index();
    lemma_allocated(s);
    lemma_walked(s.allocated(), part_ids(parts), i, (parts.len() + 2) as int);
    lemma_bundle_row(parts);
    let ready = walked(s.allocated(), part_ids(parts));
    lemma_settled(ready, i, bundle_row(parts));
    lemma_kept_twice(s, s.allocated(), ready, i);
    lemma_kept_twice(s, ready, bundle_spawned(s, parts), i);
    lemma_kept_for(s, bundle_spawned(s, parts), i, other, id);
}

/// An entity that is given a bundle has its components, and keeps those that the bundle does not
/// name; the other entities keep theirs.
pub proof fn law_inserted_bundle_sets_its_components<V>(
    s: WorldState<V>,
    entity: Entity,
    parts: Seq<(ComponentId, V)>,
    other: Entity,
    id: ComponentId,
)
    requires
        s.consistent(),
        s.alive(entity),
        distinct(parts),
        has_room_for(s, parts.len() as int),
        parts.len() <= usize::MAX,
    ensures
        bundle_inserted(s, entity, parts).consistent(),
        bundle_inserted(s, entity, parts).alive(other) == s.alive(other),
        forall|i: int|
            0 <= i < parts.len() ==> bundle_inserted(s, entity, parts).value(
                entity,
                (#[trigger] parts[i]).0,
            ) == Some(parts[i].1),
        !part_ids(parts).contains(id) || other != entity ==> bundle_inserted(
            s,
            entity,
            parts,
        ).value(other, id) == s.value(other, id),
{
    lemma_bundle_inserted(s, entity, parts, other, id, parts.len() as int);
}

proof fn lemma_bundle_inserted<V>(
    s: WorldState<V>,
    entity: Entity,
    parts: Seq<(ComponentId, V)>,
    other: Entity,
    id: ComponentId,
    n: int,
)
    requires
        s.consistent(),
        s.alive(entity),
        distinct(parts),
        parts.len() <= n <= usize::MAX,
        has_room_for(s, n),
    ensures
        bundle_inserted(s, entity, parts).consistent(),
        bundle_inserted(s, entity, parts).alive(entity),
        bundle_inserted(s, entity, parts).alive(other) == s.alive(other),
        forall|i: int|
            0 <= i < parts.len() ==> bundle_inserted(s, entity, parts).value(
                entity,
                (#[trigger] parts[i]).0,
            ) == Some(parts[i].1),
        !part_ids(parts).contains(id) || other != entity ==> bundle_inserted(
            s,
            entity,
            parts,
        ).value(other, id) == s.value(other, id),
        has_room_for(bundle_inserted(s, entity, parts), n - parts.len()),
    decreases parts.len(),
{
    if parts.len() > 0 {
        let front = parts.drop_last();
        let last = parts.last();
        assert(distinct(front)) by {
            assert forall|a: int, b: int|
                #![trigger front[a], front[b]]
                0 <= a < b < front.len() implies front[a].0 != front[b].0 by {
                assert(parts[a].0 != parts[b].0);
            }
        }
        lemma_bundle_inserted(s, entity, front, other, id, n);
        let before = bundle_inserted(s, entity, front);
        lemma_inserted_room(before, entity, last.0, last.1, n - front.len());
        lemma_inserted(before, entity, last.0, last.1);
        crate::world::law_insert_sets_one_component(before, entity, last.0, last.1, other, id);
        assert forall|i: int| 0 <= i < parts.len() implies bundle_inserted(s, entity, parts).value(
            entity,
            (#[trigger] parts[i]).0,
        ) == Some(parts[i].1) by {
            crate::world::law_insert_sets_one_component(
                before,
                entity,
                last.0,
                last.1,
                entity,
                parts[i].0,
            );
            if i < front.len() {
                assert(front[i] == parts[i]);
                assert(parts[i].0 != parts[parts.len() - 1].0);
            }
        }
        if !part_ids(parts).contains(id) || other != entity {
            if !part_ids(parts).contains(id) {
                assert(part_ids(parts)[parts.len() - 1] == last.0);
                assert(!part_ids(front).contains(id)) by {
                    if part_ids(front).contains(id) {
                        let k = choose|k: int| 0 <= k < front.len() && part_ids(front)[k] == id;
                        assert(part_ids(parts)[k] == id);
                    }
                }
            }
        }
    }
}

/// Spawning with a bundle gives the entity what spawning it and inserting the components one by one
/// gives it.
pub proof fn law_spawning_a_bundle_is_spawning_and_inserting<V>(
    s: WorldState<V>,
    parts: Seq<(ComponentId, V)>,
    id: ComponentId,
)
    requires
        s.consistent(),
        s.can_spawn(),
        distinct(parts),
        has_room_for(s, (parts.len() + 2) as int),
        has_room_for(s.spawned(), parts.len() as int),
        parts.len() <= usize::MAX,
    ensures
        bundle_spawned(s, parts).value(s.next_entity(), id) == bundle_inserted(
            s.spawned(),
            s.next_entity(),
            parts,
        ).value(s.next_entity(), id),
{
    let entity = s.next_entity();
    assert forall|a: int| 0 <= a < s.archetypes.len() implies (
    #[trigger] s.archetypes[a]).entities.len() < usize::MAX by {
        assert(s.archetypes[a].entities.len() + (parts.len() + 2) <= usize::MAX);
    }
    let stranger = Entity { index: entity.index, generation: crate::world::next_generation(
        entity.generation,
    ) };
    law_spawned_bundle_has_its_components(s, parts, stranger, id);
    crate::world::law_spawn_adds_one_entity(s, stranger, id);
    law_inserted_bundle_sets_its_components(s.spawned(), entity, parts, entity, id);
    if part_ids(parts).contains(id) {
        let k = choose|k: int| 0 <= k < parts.len() && part_ids(parts)[k] == id;
        assert(parts[k].0 == id);
    }
}

/// Spawning with a bundle and inserting one give a world that may come next.
pub proof fn law_bundle_calls_follow<V>(
    s: WorldState<V>,
    entity: Entity,
    parts: Seq<(ComponentId, V)>,
)
    requires
        s.consistent(),
        parts.len() + 2 <= usize::MAX,
        has_room_for(s, (parts.len() + 2) as int),
    ensures
        s.can_spawn() ==> follows(s, bundle_spawned(s, parts)),
        s.alive(entity) ==> follows(s, bundle_inserted(s, entity, parts)),
{
    if s.can_spawn() {
        let i = s.next_index();
        lemma_allocated(s);
        lemma_walked(s.allocated(), part_ids(parts), i, (parts.len() + 2) as int);
        lemma_bundle_row(parts);
        let ready = walked(s.allocated(), part_ids(parts));
        lemma_settled(ready, i, bundle_row(parts));
        lemma_kept_twice(s, s.allocated(), ready, i);
        lemma_kept_twice(s, ready, bundle_spawned(s, parts), i);
        lemma_follows(s, bundle_spawned(s, parts), i);
    }
    if s.alive(entity) {
        lemma_bundle_follows(s, entity, parts, (parts.len() + 2) as int);
    }
}

proof fn lemma_bundle_follows<V>(
    s: WorldState<V>,
    entity: Entity,
    parts: Seq<(ComponentId, V)>,
    n: int,
)
    requires
        s.consistent(),
        s.alive(entity),
        parts.len() <= n <= usize::MAX,
        has_room_for(s, n),
    ensures
        bundle_inserted(s, entity, parts).consistent(),
        bundle_inserted(s, entity, parts).alive(entity),
        bundle_inserted(s, entity, parts).slots.len() == s.slots.len(),
        has_room_for(bundle_inserted(s, entity, parts), n - parts.len()),
        others_kept(s, bundle_inserted(s, entity, parts), entity.index as int),
        follows(s, bundle_inserted(s, entity, parts)),
    decreases parts.len(),
{
    let i = entity.index as int;
    let after = bundle_inserted(s, entity, parts);
    if parts.len() > 0 {
        let front = parts.drop_last();
        let last = parts.last();
        lemma_bundle_follows(s, entity, front, n);
        let before = bundle_inserted(s, entity, front);
        lemma_inserted_room(before, entity, last.0, last.1, n - front.len());
        lemma_inserted(before, entity, last.0, last.1);
        lemma_kept_twice(s, before, after, i);
    } else {
        assert forall|j: int| 0 <= j < s.slots.len() && j != i implies #[trigger] slot_kept(
            s,
            s,
            j,
        ) by {}
    }
    lemma_follows(s, after, i);
}

/// The entity that a record is about.
pub open spec fn about(change: TrackedChange) -> Entity {
    match change {
        TrackedChange::Spawned(entity) => entity,
        TrackedChange::ComponentChanged { entity, .. } => entity,
    }
}

/// The records about an entity, in order.
pub open spec fn records_of(log: Seq<TrackedChange>, entity: Entity) -> Seq<TrackedChange>
    decreases log.len(),
{
    if log.len() == 0 {
        seq![]
    } else if about(log.last()) == entity {
        records_of(log.drop_last(), entity).push(log.last())
    } else {
        records_of(log.drop_last(), entity)
    }
}

proof fn lemma_records_added(log: Seq<TrackedChange>, more: Seq<TrackedChange>, entity: Entity)
    ensures
        records_of(log + more, entity) == records_of(log, entity) + records_of(more, entity),
    decreases more.len(),
{
    if more.len() == 0 {
        assert(log + more =~= log);
    } else {
        lemma_records_added(log, more.drop_last(), entity);
        assert((log + more).drop_last() =~= log + more.drop_last());
        assert((log + more).last() == more.last());
    }
    assert(records_of(log + more, entity) =~= records_of(log, entity) + records_of(more, entity));
}

proof fn lemma_records_all_about(log: Seq<TrackedChange>, entity: Entity, other: Entity)
    requires
        forall|i: int| 0 <= i < log.len() ==> about(#[trigger] log[i]) == entity,
    ensures
        records_of(log, other) == if other == entity {
            log
        } else {
            seq![]
        },
    decreases log.len(),
{
    if log.len() > 0 {
        assert(about(log.last()) == entity);
        assert forall|i: int| 0 <= i < log.drop_last().len() implies about(
            #[trigger] log.drop_last()[i],
        ) == entity by {
            assert(about(log[i]) == entity);
        }
        lemma_records_all_about(log.drop_last(), entity, other);
        assert(log.drop_last().push(log.last()) =~= log);
    }
}

/// What a tracked bundle adds to the records is about its entity alone: the spawn, where it was
/// spawned, and then each component in order. No record is lost, and none about another entity is
/// added.
pub proof fn law_tracked_bundle_is_about_its_entity<V>(
    log: Seq<TrackedChange>,
    entity: Entity,
    parts: Seq<(ComponentId, V)>,
    other: Entity,
)
    ensures
        ({
            let spawned = log.push(TrackedChange::Spawned(entity)) + part_changes(entity, parts);
            let inserted = log + part_changes(entity, parts);
            &&& spawned.take(log.len() as int) == log
            &&& inserted.take(log.len() as int) == log
            &&& records_of(spawned, entity) == records_of(log, entity).push(
                TrackedChange::Spawned(entity),
            ) + part_changes(entity, parts)
            &&& records_of(inserted, entity) == records_of(log, entity) + part_changes(
                entity,
                parts,
            )
            &&& other != entity ==> records_of(spawned, other) == records_of(log, other)
                && records_of(inserted, other) == records_of(log, other)
        }),
{
    let changes = part_changes(entity, parts);
    let first = log.push(TrackedChange::Spawned(entity));
    assert((first + changes).take(log.len() as int) =~= log);
    assert((log + changes).take(log.len() as int) =~= log);
    assert(first.drop_last() =~= log);
    lemma_records_all_about(changes, entity, entity);
    lemma_records_all_about(changes, entity, other);
    lemma_records_added(log, changes, entity);
    lemma_records_added(log, changes, other);
    lemma_records_added(first, changes, entity);
    lemma_records_added(first, changes, other);
    assert(records_of(log, other) + seq![] =~= records_of(log, other));
}

/// Of the parts of a bundle with the same component type the last counts, for an entity that the
/// bundle is inserted into.
pub proof fn law_last_part_counts<V>(
    s: WorldState<V>,
    entity: Entity,
    parts: Seq<(ComponentId, V)>,
    k: int,
)
    requires
        s.consistent(),
        s.alive(entity),
        has_room_for(s, parts.len() as int),
        parts.len() <= usize::MAX,
        0 <= k < parts.len(),
        forall|j: int| k < j < parts.len() ==> (#[trigger] parts[j]).0 != parts[k].0,
    ensures
        bundle_inserted(s, entity, parts).value(entity, parts[k].0) == Some(parts[k].1),
{
    lemma_last_part_counts(s, entity, parts, k, parts.len() as int);
}

proof fn lemma_last_part_counts<V>(
    s: WorldState<V>,
    entity: Entity,
    parts: Seq<(ComponentId, V)>,
    k: int,
    n: int,
)
    requires
        s.consistent(),
        s.alive(entity),
        parts.len() <= n <= usize::MAX,
        has_room_for(s, n),
        0 <= k < parts.len(),
        forall|j: int| k < j < parts.len() ==> (#[trigger] parts[j]).0 != parts[k].0,
    ensures
        bundle_inserted(s, entity, parts).value(entity, parts[k].0) == Some(parts[k].1),
    decreases parts.len(),
{
    let front = parts.drop_last();
    let last = parts.last();
    lemma_bundle_follows(s, entity, front, n);
    let most = bundle_inserted(s, entity, front);
    assert(crate::world::has_room(most));
    crate::world::law_insert_sets_one_component(most, entity, last.0, last.1, entity, parts[k].0);
    if k < front.len() {
        lemma_last_part_counts(s, entity, front, k, n);
        assert(parts[parts.len() - 1].0 != parts[k].0);
        assert(front[k] == parts[k]);
    }
}

/// Tracking a bundle logs one change for each of its parts, in their order.
pub proof fn law_tracked_bundle_logs_every_part<V>(
    entity: Entity,
    parts: Seq<(ComponentId, V)>,
    i: int,
)
    requires
        0 <= i < parts.len(),
    ensures
        part_changes(entity, parts).len() == parts.len(),
        part_changes(entity, parts)[i] == (TrackedChange::ComponentChanged {
            entity,
            component: parts[i].0,
        }),
{
}

proof fn lemma_bundle_ids_listed(ids: Seq<ComponentId>, id: ComponentId)
    ensures
        bundle_ids(ids).contains(id) <==> ids.contains(id),
    decreases ids.len(),
{
    if ids.len() > 0 {
        let front = ids.drop_last();
        let last = ids.last();
        lemma_bundle_ids_listed(front, id);
        lemma_bundle_ids_listed(front, last);
        lemma_bundle_ids_sorted(front);
        let some = bundle_ids(front);
        let all = bundle_ids(ids);
        let p = place(some, last);
        crate::archetype::lemma_place(some, last);
        if ids.contains(id) {
            let k = choose|k: int| 0 <= k < ids.len() && ids[k] == id;
            if k < front.len() {
                assert(front[k] == id);
            }
        }
        if front.contains(id) {
            let k = choose|k: int| 0 <= k < front.len() && front[k] == id;
            assert(ids[k] == id);
            let j = choose|j: int| 0 <= j < some.len() && some[j] == id;
            if !holds(some, last) {
                assert(all[if j < p {
                    j
                } else {
                    j + 1
                }] == id);
            }
        }
        if id == last {
            assert(ids[ids.len() - 1] == id);
            if holds(some, last) {
                assert(some[p] == id);
            } else {
                assert(all[p] == id);
            }
        }
        if all.contains(id) && id != last {
            let j = choose|j: int| 0 <= j < all.len() && all[j] == id;
            if !holds(some, last) {
                assert(some[if j < p {
                    j
                } else {
                    j - 1
                }] == id);
            }
        }
    }
}

/// Making ready for a bundle makes an archetype for exactly its component types, and changes nothing
/// for any entity.
pub proof fn law_readiness_changes_no_entity<V>(
    s: WorldState<V>,
    ids: Seq<ComponentId>,
    entity: Entity,
    id: ComponentId,
)
    requires
        s.consistent(),
        has_room_for(s, (ids.len() + 1) as int),
    ensures
        walked(s, ids).consistent(),
        walked(s, ids).alive(entity) == s.alive(entity),
        walked(s, ids).value(entity, id) == s.value(entity, id),
        has_archetype(walked(s, ids).archetypes, bundle_ids(ids)),
        sorted(bundle_ids(ids)),
        bundle_ids(ids).contains(id) <==> ids.contains(id),
{
    lemma_walked(s, ids, -1, (ids.len() + 1) as int);
    lemma_bundle_ids_listed(ids, id);
    if s.alive(entity) {
        assert(slot_kept(s, walked(s, ids), entity.index as int));
    }
}

} // verus!
