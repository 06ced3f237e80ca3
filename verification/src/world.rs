//! Entities and their components, in archetypes.
//!
//! `V` is the type of a component's value, whatever the component type. An entity carries the
//! generation its slot had when it was made, so a reference to an entity that is gone never reaches
//! the one that took its slot.
use crate::archetype::{copy_ids, place_in, same_ids, Archetype};
use crate::entity::{ComponentId, Entity};
use vstd::prelude::*;

verus! {

use crate::archetype::{
    holds, lemma_place, lemma_with, lemma_without, place, sorted, ArchState, Row,
};

/// Where the entity of a slot is. A slot that is not alive waits to be used again.
#[derive(Clone, Copy, Debug, PartialEq, Eq, Structural)]
pub struct Slot {
    pub generation: u32,
    pub archetype: usize,
    pub row: usize,
    pub alive: bool,
}

/// What a world holds.
#[verifier::ext_equal]
pub struct WorldState<V> {
    pub archetypes: Seq<ArchState<V>>,
    pub slots: Seq<Slot>,
    /// The slots to use again, the next one last.
    pub free: Seq<u32>,
}

/// Whether some archetype has exactly these component types.
pub open spec fn has_archetype<V>(archetypes: Seq<ArchState<V>>, ids: Seq<ComponentId>) -> bool {
    exists|a: int| 0 <= a < archetypes.len() && (#[trigger] archetypes[a]).ids == ids
}

/// The archetype with exactly these component types.
pub open spec fn archetype_at<V>(archetypes: Seq<ArchState<V>>, ids: Seq<ComponentId>) -> int {
    choose|a: int| 0 <= a < archetypes.len() && (#[trigger] archetypes[a]).ids == ids
}

impl<V> WorldState<V> {
    /// A world without entities.
    pub open spec fn initial() -> WorldState<V> {
        WorldState {
            archetypes: seq![ArchState::<V>::empty(seq![])],
            slots: seq![],
            free: seq![],
        }
    }

    /// Slot `i` says where its entity is.
    pub open spec fn located(self, i: int) -> bool {
        let slot = self.slots[i];
        &&& slot.archetype < self.archetypes.len()
        &&& slot.row < self.archetypes[slot.archetype as int].entities.len()
        &&& self.archetypes[slot.archetype as int].entities[slot.row as int] == (Entity {
            index: i as u32,
            generation: slot.generation,
        })
    }

    /// The entity in a row of an archetype is alive and says that it is there.
    pub open spec fn row_known(self, a: int, r: int, floating: int) -> bool {
        let entity = self.archetypes[a].entities[r];
        &&& entity.index < self.slots.len()
        &&& entity.index != floating
        &&& self.slots[entity.index as int] == (Slot {
            generation: entity.generation,
            archetype: a as usize,
            row: r as usize,
            alive: true,
        })
    }

    /// Slots and archetypes agree, except for the slot `floating`, which is alive and in no
    /// archetype.
    pub open spec fn sound(self, floating: int) -> bool {
        &&& 0 < self.archetypes.len() <= usize::MAX
        &&& self.archetypes[0].ids.len() == 0
        &&& forall|a: int|
            0 <= a < self.archetypes.len() ==> (#[trigger] self.archetypes[a]).consistent()
                && self.archetypes[a].entities.len() <= usize::MAX
        &&& forall|a: int, b: int|
            #![trigger self.archetypes[a], self.archetypes[b]]
            0 <= a < b < self.archetypes.len() ==> self.archetypes[a].ids
                != self.archetypes[b].ids
        &&& forall|i: int|
            0 <= i < self.slots.len() && self.slots[i].alive && i != floating
                ==> #[trigger] self.located(i)
        &&& forall|a: int, r: int|
            0 <= a < self.archetypes.len() && 0 <= r < self.archetypes[a].entities.len()
                ==> #[trigger] self.row_known(a, r, floating)
        &&& forall|k: int|
            0 <= k < self.free.len() ==> (#[trigger] self.free[k]) < self.slots.len()
                && !self.slots[self.free[k] as int].alive
        &&& forall|k: int, l: int|
            #![trigger self.free[k], self.free[l]]
            0 <= k < l < self.free.len() ==> self.free[k] != self.free[l]
        &&& self.slots.len() <= u32::MAX
        &&& floating >= 0 ==> floating < self.slots.len() && self.slots[floating].alive
    }

    /// Slots and archetypes agree.
    pub open spec fn consistent(self) -> bool {
        self.sound(-1)
    }

    /// Whether the entity is alive.
    pub open spec fn alive(self, entity: Entity) -> bool {
        &&& entity.index < self.slots.len()
        &&& self.slots[entity.index as int].alive
        &&& self.slots[entity.index as int].generation == entity.generation
    }

    /// The components of the entity of slot `i`.
    pub open spec fn row_of(self, i: int) -> Row<V> {
        self.archetypes[self.slots[i].archetype as int].row(self.slots[i].row as int)
    }

    /// The value of an entity's component, if the entity is alive and has it.
    pub open spec fn value(self, entity: Entity, id: ComponentId) -> Option<V> {
        if self.alive(entity) {
            self.row_of(entity.index as int).value(id)
        } else {
            None
        }
    }

    /// The slot a new entity gets: the one freed last, or a new one.
    pub open spec fn next_index(self) -> int {
        if self.free.len() > 0 {
            self.free.last() as int
        } else {
            self.slots.len() as int
        }
    }

    /// There is a slot for one more entity.
    pub open spec fn can_spawn(self) -> bool {
        self.free.len() > 0 || self.slots.len() < u32::MAX
    }

    /// The next entity.
    pub open spec fn next_entity(self) -> Entity {
        Entity {
            index: self.next_index() as u32,
            generation: if self.free.len() > 0 {
                self.slots[self.next_index()].generation
            } else {
                0
            },
        }
    }

    /// The next entity's slot is alive; it is in no archetype yet.
    pub open spec fn allocated(self) -> WorldState<V> {
        let slot = Slot {
            generation: self.next_entity().generation,
            archetype: 0,
            row: 0,
            alive: true,
        };
        if self.free.len() > 0 {
            WorldState {
                slots: self.slots.update(self.next_index(), slot),
                free: self.free.drop_last(),
                ..self
            }
        } else {
            WorldState { slots: self.slots.push(slot), ..self }
        }
    }

    /// Slot `i` leaves its archetype, whose last row takes its place.
    pub open spec fn detached(self, i: int) -> WorldState<V> {
        let slot = self.slots[i];
        let archetype = self.archetypes[slot.archetype as int];
        let moved = archetype.entities.last().index as int;
        WorldState {
            archetypes: self.archetypes.update(
                slot.archetype as int,
                archetype.without_row(slot.row as int),
            ),
            slots: if moved == i {
                self.slots
            } else {
                self.slots.update(moved, Slot { row: slot.row, ..self.slots[moved] })
            },
            ..self
        }
    }

    /// There is an archetype with exactly these component types.
    pub open spec fn with_archetype(self, ids: Seq<ComponentId>) -> WorldState<V> {
        if has_archetype(self.archetypes, ids) {
            self
        } else {
            WorldState { archetypes: self.archetypes.push(ArchState::empty(ids)), ..self }
        }
    }

    /// Slot `i` goes to the end of an archetype, with these values.
    pub open spec fn placed(self, i: int, at: int, values: Seq<V>) -> WorldState<V> {
        let archetype = self.archetypes[at];
        let entity = Entity { index: i as u32, generation: self.slots[i].generation };
        WorldState {
            archetypes: self.archetypes.update(at, archetype.with_row(entity, values)),
            slots: self.slots.update(
                i,
                Slot {
                    archetype: at as usize,
                    row: archetype.entities.len() as usize,
                    ..self.slots[i]
                },
            ),
            ..self
        }
    }

    /// Slot `i`, which is in no archetype, gets these components.
    pub open spec fn settled(self, i: int, row: Row<V>) -> WorldState<V> {
        let ready = self.with_archetype(row.ids);
        ready.placed(i, archetype_at(ready.archetypes, row.ids), row.values)
    }

    /// A new entity without components.
    pub open spec fn spawned(self) -> WorldState<V> {
        self.allocated().settled(self.next_index(), Row::empty())
    }

    /// An entity gets a component, or a new value for one that it has.
    pub open spec fn inserted(self, entity: Entity, id: ComponentId, value: V) -> WorldState<V> {
        let i = entity.index as int;
        let row = self.row_of(i);
        if holds(row.ids, id) {
            let at = self.slots[i].archetype as int;
            WorldState {
                archetypes: self.archetypes.update(
                    at,
                    self.archetypes[at].with_value(
                        place(row.ids, id),
                        self.slots[i].row as int,
                        value,
                    ),
                ),
                ..self
            }
        } else {
            self.detached(i).settled(i, row.with(id, value))
        }
    }

    /// An entity loses a component.
    pub open spec fn removed(self, entity: Entity, id: ComponentId) -> WorldState<V> {
        let i = entity.index as int;
        if self.alive(entity) && holds(self.row_of(i).ids, id) {
            self.detached(i).settled(i, self.row_of(i).without(id))
        } else {
            self
        }
    }

    /// An entity and its components are gone; its slot gets a new generation.
    pub open spec fn despawned(self, entity: Entity) -> WorldState<V> {
        let i = entity.index as int;
        if self.alive(entity) {
            let gone = self.detached(i);
            WorldState {
                slots: gone.slots.update(
                    i,
                    Slot {
                        alive: false,
                        generation: next_generation(gone.slots[i].generation),
                        ..gone.slots[i]
                    },
                ),
                free: gone.free.push(entity.index),
                ..gone
            }
        } else {
            self
        }
    }
}

/// The generation after this one.
pub open spec fn next_generation(generation: u32) -> u32 {
    if generation == u32::MAX {
        0
    } else {
        (generation + 1) as u32
    }
}

/// The other entities and their components are as they were.
pub open spec fn others_kept<V>(before: WorldState<V>, after: WorldState<V>, i: int) -> bool {
    forall|j: int|
        0 <= j < before.slots.len() && j != i ==> #[trigger] slot_kept(before, after, j)
}

/// The entity of slot `j` and its components are as they were.
pub open spec fn slot_kept<V>(before: WorldState<V>, after: WorldState<V>, j: int) -> bool {
    &&& j < after.slots.len()
    &&& after.slots[j].alive == before.slots[j].alive
    &&& after.slots[j].generation == before.slots[j].generation
    &&& before.slots[j].alive ==> after.row_of(j) == before.row_of(j)
}

proof fn lemma_archetype_at<V>(archetypes: Seq<ArchState<V>>, ids: Seq<ComponentId>, at: int)
    requires
        0 <= at < archetypes.len(),
        archetypes[at].ids == ids,
        forall|a: int, b: int|
            #![trigger archetypes[a], archetypes[b]]
            0 <= a < b < archetypes.len() ==> archetypes[a].ids != archetypes[b].ids,
    ensures
        has_archetype(archetypes, ids),
        archetype_at(archetypes, ids) == at,
{
    let a = archetype_at(archetypes, ids);
    assert(archetypes[a].ids == ids);
    if a < at {
        assert(archetypes[a].ids != archetypes[at].ids);
    } else if at < a {
        assert(archetypes[at].ids != archetypes[a].ids);
    }
}

/// A slot that leaves its archetype is in none; the others stay what they are.
#[verifier::rlimit(60)]
proof fn lemma_detached<V>(s: WorldState<V>, i: int)
    requires
        s.consistent(),
        0 <= i < s.slots.len(),
        s.slots[i].alive,
    ensures
        s.detached(i).sound(i),
        others_kept(s, s.detached(i), i),
        s.detached(i).slots.len() == s.slots.len(),
        s.detached(i).slots[i] == s.slots[i],
        s.detached(i).free == s.free,
        s.detached(i).archetypes.len() == s.archetypes.len(),
{
    let after = s.detached(i);
    let slot = s.slots[i];
    let at = slot.archetype as int;
    let r = slot.row as int;
    assert(s.located(i));
    let arch = s.archetypes[at];
    let last = arch.entities.len() - 1;
    assert(arch.consistent());
    assert(s.row_known(at, last, -1));
    assert(s.row_known(at, r, -1));
    let moved = arch.entities[last].index as int;
    assert((moved == i) == (r == last));
    let narrow = arch.without_row(r);
    assert(narrow.consistent()) by {
        assert forall|k: int| 0 <= k < narrow.columns.len() implies (
        #[trigger] narrow.columns[k]).len() == narrow.entities.len() by {
            assert(arch.columns[k].len() == arch.entities.len());
        }
    }
    assert forall|a: int| 0 <= a < after.archetypes.len() implies (
    #[trigger] after.archetypes[a]).consistent() && after.archetypes[a].entities.len()
        <= usize::MAX by {
        if a != at {
            assert(s.archetypes[a].consistent());
        }
    }
    assert forall|a: int, b: int|
        #![trigger after.archetypes[a], after.archetypes[b]]
        0 <= a < b < after.archetypes.len() implies after.archetypes[a].ids
        != after.archetypes[b].ids by {
        assert(s.archetypes[a].ids != s.archetypes[b].ids);
    }
    assert forall|a: int, q: int|
        0 <= a < after.archetypes.len() && 0 <= q < after.archetypes[a].entities.len() implies (
    #[trigger] after.row_known(a, q, i)) by {
        if a != at {
            assert(s.row_known(a, q, -1));
            let e = s.archetypes[a].entities[q];
            assert(e.index != i);
            assert(e.index != moved);
        } else if q == r {
            assert(after.archetypes[a].entities[q] == arch.entities[last]);
        } else {
            assert(s.row_known(at, q, -1));
            assert(after.archetypes[a].entities[q] == arch.entities[q]);
            let e = arch.entities[q];
            assert(e.index != i);
            assert(e.index != moved);
        }
    }
    assert forall|j: int|
        0 <= j < after.slots.len() && after.slots[j].alive && j != i implies (
    #[trigger] after.located(j)) by {
        assert(s.located(j));
        if j == moved {
            assert(narrow.entities[r] == arch.entities[last]);
        } else if s.slots[j].archetype == at {
            let q = s.slots[j].row as int;
            assert(s.row_known(at, q, -1));
            assert(q != last) by {
                if q == last {
                    assert(arch.entities[q].index == moved);
                }
            }
            assert(q != r);
            assert(narrow.entities[q] == arch.entities[q]);
        }
    }
    assert forall|k: int| 0 <= k < after.free.len() implies (#[trigger] after.free[k])
        < after.slots.len() && !after.slots[after.free[k] as int].alive by {
        assert(!s.slots[s.free[k] as int].alive);
        assert(s.slots[moved].alive);
    }
    assert forall|j: int| 0 <= j < s.slots.len() && j != i implies #[trigger] slot_kept(
        s,
        after,
        j,
    ) by {
        if s.slots[j].alive {
            assert(s.located(j));
            let a = s.slots[j].archetype as int;
            let q = s.slots[j].row as int;
            if a == at {
                if j == moved {
                    assert(q == last);
                    assert forall|k: int| 0 <= k < arch.columns.len() implies narrow.columns[k][r]
                        == arch.columns[k][last] by {
                        assert(arch.columns[k].len() == arch.entities.len());
                    }
                    assert(narrow.row(r) =~= arch.row(last));
                } else {
                    assert(s.row_known(at, q, -1));
                    assert(q != last && q != r);
                    assert forall|k: int| 0 <= k < arch.columns.len() implies narrow.columns[k][q]
                        == arch.columns[k][q] by {
                        assert(arch.columns[k].len() == arch.entities.len());
                    }
                    assert(narrow.row(q) =~= arch.row(q));
                }
            }
        }
    }
}

/// Making an archetype changes nothing for the entities.
pub(crate) proof fn lemma_with_archetype<V>(s: WorldState<V>, ids: Seq<ComponentId>, floating: int)
    requires
        s.sound(floating),
        sorted(ids),
        s.archetypes.len() < usize::MAX,
    ensures
        s.with_archetype(ids).sound(floating),
        has_archetype(s.with_archetype(ids).archetypes, ids),
        0 <= archetype_at(s.with_archetype(ids).archetypes, ids)
            < s.with_archetype(ids).archetypes.len(),
        s.with_archetype(ids).slots == s.slots,
        s.with_archetype(ids).free == s.free,
        others_kept(s, s.with_archetype(ids), floating),
        s.archetypes.len() <= s.with_archetype(ids).archetypes.len() <= s.archetypes.len() + 1,
{
    let after = s.with_archetype(ids);
    if !has_archetype(s.archetypes, ids) {
        assert(after.archetypes[s.archetypes.len() as int].ids == ids);
        assert forall|a: int| 0 <= a < after.archetypes.len() implies (
        #[trigger] after.archetypes[a]).consistent() && after.archetypes[a].entities.len()
            <= usize::MAX by {
            if a < s.archetypes.len() {
                assert(s.archetypes[a].consistent());
            }
        }
        assert forall|a: int, b: int|
            #![trigger after.archetypes[a], after.archetypes[b]]
            0 <= a < b < after.archetypes.len() implies after.archetypes[a].ids
            != after.archetypes[b].ids by {
            if b == s.archetypes.len() {
                assert(s.archetypes[a].ids != ids);
            } else {
                assert(s.archetypes[a].ids != s.archetypes[b].ids);
            }
        }
        assert forall|a: int, q: int|
            0 <= a < after.archetypes.len() && 0 <= q < after.archetypes[a].entities.len() implies (
        #[trigger] after.row_known(a, q, floating)) by {
            assert(a < s.archetypes.len());
            assert(s.row_known(a, q, floating));
        }
        assert forall|j: int|
            0 <= j < after.slots.len() && after.slots[j].alive && j != floating implies (
        #[trigger] after.located(j)) by {
            assert(s.located(j));
        }
        assert forall|j: int| 0 <= j < s.slots.len() && j != floating implies #[trigger] slot_kept(
            s,
            after,
            j,
        ) by {
            if s.slots[j].alive {
                assert(s.located(j));
            }
        }
    } else {
        assert forall|j: int| 0 <= j < s.slots.len() && j != floating implies #[trigger] slot_kept(
            s,
            after,
            j,
        ) by {}
    }
}

/// A slot that was in no archetype is in one again, with the values it was given.
#[verifier::rlimit(60)]
proof fn lemma_placed<V>(s: WorldState<V>, i: int, at: int, values: Seq<V>)
    requires
        s.sound(i),
        0 <= i < s.slots.len(),
        0 <= at < s.archetypes.len(),
        values.len() == s.archetypes[at].columns.len(),
        s.archetypes[at].entities.len() < usize::MAX,
    ensures
        s.placed(i, at, values).consistent(),
        others_kept(s, s.placed(i, at, values), i),
        s.placed(i, at, values).slots.len() == s.slots.len(),
        s.placed(i, at, values).free == s.free,
        s.placed(i, at, values).row_of(i) == (Row { ids: s.archetypes[at].ids, values }),
        s.placed(i, at, values).slots[i].alive,
        s.placed(i, at, values).slots[i].generation == s.slots[i].generation,
        s.placed(i, at, values).archetypes.len() == s.archetypes.len(),
{
    let after = s.placed(i, at, values);
    let arch = s.archetypes[at];
    let entity = Entity { index: i as u32, generation: s.slots[i].generation };
    let wide = arch.with_row(entity, values);
    let n = arch.entities.len() as int;
    assert(arch.consistent());
    assert(wide.consistent()) by {
        assert forall|k: int| 0 <= k < wide.columns.len() implies (#[trigger] wide.columns[k]).len()
            == wide.entities.len() by {
            assert(arch.columns[k].len() == arch.entities.len());
        }
    }
    assert forall|a: int| 0 <= a < after.archetypes.len() implies (
    #[trigger] after.archetypes[a]).consistent() && after.archetypes[a].entities.len()
        <= usize::MAX by {
        if a != at {
            assert(s.archetypes[a].consistent());
        }
    }
    assert forall|a: int, b: int|
        #![trigger after.archetypes[a], after.archetypes[b]]
        0 <= a < b < after.archetypes.len() implies after.archetypes[a].ids
        != after.archetypes[b].ids by {
        assert(s.archetypes[a].ids != s.archetypes[b].ids);
    }
    assert forall|a: int, q: int|
        0 <= a < after.archetypes.len() && 0 <= q < after.archetypes[a].entities.len() implies (
    #[trigger] after.row_known(a, q, -1)) by {
        if a != at || q < n {
            assert(s.row_known(a, q, i));
        }
    }
    assert forall|j: int|
        0 <= j < after.slots.len() && after.slots[j].alive && j != -1 implies (
    #[trigger] after.located(j)) by {
        if j != i {
            assert(s.located(j));
        }
    }
    assert forall|j: int| 0 <= j < s.slots.len() && j != i implies #[trigger] slot_kept(
        s,
        after,
        j,
    ) by {
        if s.slots[j].alive {
            assert(s.located(j));
            let a = s.slots[j].archetype as int;
            let q = s.slots[j].row as int;
            if a == at {
                assert forall|k: int| 0 <= k < arch.columns.len() implies wide.columns[k][q]
                    == arch.columns[k][q] by {
                    assert(arch.columns[k].len() == arch.entities.len());
                }
                assert(wide.row(q) =~= arch.row(q));
            }
        }
    }
    assert forall|k: int| 0 <= k < arch.columns.len() implies wide.columns[k][n] == values[k] by {
        assert(arch.columns[k].len() == arch.entities.len());
    }
    assert(wide.row(n).values =~= values);
    assert forall|k: int| 0 <= k < after.free.len() implies (#[trigger] after.free[k])
        < after.slots.len() && !after.slots[after.free[k] as int].alive by {
        assert(!s.slots[s.free[k] as int].alive);
    }
}

/// There is room for one more archetype and one more row.
pub open spec fn has_room<V>(s: WorldState<V>) -> bool {
    &&& s.archetypes.len() < usize::MAX
    &&& forall|a: int|
        0 <= a < s.archetypes.len() ==> (#[trigger] s.archetypes[a]).entities.len() < usize::MAX
}

/// There is room for `n` more archetypes and `n` more rows.
pub open spec fn has_room_for<V>(s: WorldState<V>, n: int) -> bool {
    &&& s.archetypes.len() + n <= usize::MAX
    &&& forall|a: int|
        0 <= a < s.archetypes.len() ==> (#[trigger] s.archetypes[a]).entities.len() + n
            <= usize::MAX
}

/// An insertion takes room for one archetype and one row at most.
pub(crate) proof fn lemma_inserted_room<V>(
    s: WorldState<V>,
    entity: Entity,
    id: ComponentId,
    value: V,
    n: int,
)
    requires
        s.consistent(),
        s.alive(entity),
        1 <= n <= usize::MAX,
        has_room_for(s, n),
    ensures
        has_room(s),
        has_room_for(s.inserted(entity, id, value), n - 1),
{
    let i = entity.index as int;
    let after = s.inserted(entity, id, value);
    assert forall|a: int| 0 <= a < s.archetypes.len() implies (
    #[trigger] s.archetypes[a]).entities.len() < usize::MAX by {
        assert(s.archetypes[a].entities.len() + n <= usize::MAX);
    }
    assert(s.located(i));
    if holds(s.row_of(i).ids, id) {
        assert forall|a: int| 0 <= a < after.archetypes.len() implies (
        #[trigger] after.archetypes[a]).entities.len() + (n - 1) <= usize::MAX by {
            assert(s.archetypes[a].entities.len() + n <= usize::MAX);
        }
    } else {
        let gone = s.detached(i);
        let row = s.row_of(i).with(id, value);
        lemma_rows_consistent(s, i);
        lemma_with(s.row_of(i), id, value);
        lemma_detached(s, i);
        lemma_room_after_detaching(s, i);
        lemma_with_archetype(gone, row.ids, i);
        let ready = gone.with_archetype(row.ids);
        assert forall|a: int| 0 <= a < after.archetypes.len() implies (
        #[trigger] after.archetypes[a]).entities.len() + (n - 1) <= usize::MAX by {
            if a < s.archetypes.len() {
                assert(s.archetypes[a].entities.len() + n <= usize::MAX);
                assert(gone.archetypes[a].entities.len() <= s.archetypes[a].entities.len());
                assert(ready.archetypes[a] == gone.archetypes[a]);
            } else {
                assert(ready.archetypes[a].entities.len() == 0);
            }
        }
    }
}

pub(crate) proof fn lemma_kept_twice<V>(a: WorldState<V>, b: WorldState<V>, c: WorldState<V>, i: int)
    requires
        others_kept(a, b, i),
        others_kept(b, c, i),
    ensures
        others_kept(a, c, i),
{
    assert forall|j: int| 0 <= j < a.slots.len() && j != i implies #[trigger] slot_kept(
        a,
        c,
        j,
    ) by {
        assert(slot_kept(a, b, j));
        assert(slot_kept(b, c, j));
    }
}

/// A slot that is in no archetype gets exactly these components.
pub(crate) proof fn lemma_settled<V>(s: WorldState<V>, i: int, row: Row<V>)
    requires
        s.sound(i),
        0 <= i < s.slots.len(),
        row.consistent(),
        has_room(s),
    ensures
        s.settled(i, row).consistent(),
        others_kept(s, s.settled(i, row), i),
        s.settled(i, row).row_of(i) == row,
        s.settled(i, row).slots.len() == s.slots.len(),
        s.settled(i, row).slots[i].alive,
        s.settled(i, row).slots[i].generation == s.slots[i].generation,
        s.settled(i, row).free == s.free,
{
    lemma_with_archetype(s, row.ids, i);
    let ready = s.with_archetype(row.ids);
    let at = archetype_at(ready.archetypes, row.ids);
    assert(ready.archetypes[at].ids == row.ids);
    assert(ready.archetypes[at].consistent());
    assert(ready.archetypes[at].entities.len() < usize::MAX);
    lemma_placed(ready, i, at, row.values);
    lemma_kept_twice(s, ready, s.settled(i, row), i);
}

/// The next entity's slot is alive and in no archetype; the others stay what they are.
pub(crate) proof fn lemma_allocated<V>(s: WorldState<V>)
    requires
        s.consistent(),
        s.can_spawn(),
    ensures
        s.allocated().sound(s.next_index()),
        0 <= s.next_index() < s.allocated().slots.len(),
        others_kept(s, s.allocated(), s.next_index()),
        s.allocated().slots[s.next_index()].generation == s.next_entity().generation,
        s.allocated().archetypes == s.archetypes,
        !s.alive(s.next_entity()),
{
    let after = s.allocated();
    let i = s.next_index();
    if s.free.len() > 0 {
        assert(s.free[s.free.len() - 1] == i);
        assert(!s.slots[i].alive);
    }
    assert forall|a: int, q: int|
        0 <= a < after.archetypes.len() && 0 <= q < after.archetypes[a].entities.len() implies (
    #[trigger] after.row_known(a, q, i)) by {
        assert(s.row_known(a, q, -1));
    }
    assert forall|j: int|
        0 <= j < after.slots.len() && after.slots[j].alive && j != i implies (
    #[trigger] after.located(j)) by {
        assert(s.located(j));
    }
    assert forall|k: int| 0 <= k < after.free.len() implies (#[trigger] after.free[k])
        < after.slots.len() && !after.slots[after.free[k] as int].alive by {
        assert(!s.slots[s.free[k] as int].alive);
        assert(s.free[k] != s.free[s.free.len() - 1]);
    }
    assert forall|k: int, l: int|
        #![trigger after.free[k], after.free[l]]
        0 <= k < l < after.free.len() implies after.free[k] != after.free[l] by {
        assert(s.free[k] != s.free[l]);
    }
    assert forall|j: int| 0 <= j < s.slots.len() && j != i implies #[trigger] slot_kept(
        s,
        after,
        j,
    ) by {}
}

pub(crate) proof fn lemma_rows_consistent<V>(s: WorldState<V>, i: int)
    requires
        s.consistent(),
        0 <= i < s.slots.len(),
        s.slots[i].alive,
    ensures
        s.row_of(i).consistent(),
        s.located(i),
        s.archetypes[s.slots[i].archetype as int].consistent(),
{
    assert(s.located(i));
    assert(s.archetypes[s.slots[i].archetype as int].consistent());
}

/// Everything but one row of one column stays.
pub(crate) proof fn lemma_overwritten<V>(s: WorldState<V>, i: int, id: ComponentId, value: V)
    requires
        s.consistent(),
        0 <= i < s.slots.len(),
        s.slots[i].alive,
        holds(s.row_of(i).ids, id),
    ensures
        ({
            let slot = s.slots[i];
            let at = slot.archetype as int;
            let after = WorldState {
                archetypes: s.archetypes.update(
                    at,
                    s.archetypes[at].with_value(
                        place(s.row_of(i).ids, id),
                        slot.row as int,
                        value,
                    ),
                ),
                ..s
            };
            &&& after.consistent()
            &&& others_kept(s, after, i)
            &&& after.row_of(i) == s.row_of(i).with(id, value)
        }),
{
    let slot = s.slots[i];
    let at = slot.archetype as int;
    let r = slot.row as int;
    let p = place(s.row_of(i).ids, id);
    assert(s.located(i));
    let arch = s.archetypes[at];
    assert(arch.consistent());
    lemma_place(arch.ids, id);
    let new = arch.with_value(p, r, value);
    let after = WorldState { archetypes: s.archetypes.update(at, new), ..s };
    assert(arch.columns[p].len() == arch.entities.len());
    assert(new.consistent()) by {
        assert forall|k: int| 0 <= k < new.columns.len() implies (#[trigger] new.columns[k]).len()
            == new.entities.len() by {
            assert(arch.columns[k].len() == arch.entities.len());
        }
    }
    assert forall|a: int| 0 <= a < after.archetypes.len() implies (
    #[trigger] after.archetypes[a]).consistent() && after.archetypes[a].entities.len()
        <= usize::MAX by {
        if a != at {
            assert(s.archetypes[a].consistent());
        }
    }
    assert forall|a: int, b: int|
        #![trigger after.archetypes[a], after.archetypes[b]]
        0 <= a < b < after.archetypes.len() implies after.archetypes[a].ids
        != after.archetypes[b].ids by {
        assert(s.archetypes[a].ids != s.archetypes[b].ids);
    }
    assert forall|a: int, q: int|
        0 <= a < after.archetypes.len() && 0 <= q < after.archetypes[a].entities.len() implies (
    #[trigger] after.row_known(a, q, -1)) by {
        assert(s.row_known(a, q, -1));
    }
    assert forall|j: int|
        0 <= j < after.slots.len() && after.slots[j].alive && j != -1 implies (
    #[trigger] after.located(j)) by {
        assert(s.located(j));
    }
    assert forall|j: int| 0 <= j < s.slots.len() && j != i implies #[trigger] slot_kept(
        s,
        after,
        j,
    ) by {
        if s.slots[j].alive {
            assert(s.located(j));
            let a = s.slots[j].archetype as int;
            let q = s.slots[j].row as int;
            if a == at {
                assert(q != r) by {
                    if q == r {
                        assert(arch.entities[q].index == i as u32);
                        assert(arch.entities[q].index == j as u32);
                    }
                }
                assert forall|k: int| 0 <= k < arch.columns.len() implies new.columns[k][q]
                    == arch.columns[k][q] by {
                    assert(arch.columns[k].len() == arch.entities.len());
                }
                assert(new.row(q) =~= arch.row(q));
            }
        }
    }
    assert(after.row_of(i).values =~= s.row_of(i).with(id, value).values) by {
        assert forall|k: int| 0 <= k < arch.columns.len() implies new.columns[k][r] == s.row_of(
            i,
        ).with(id, value).values[k] by {
            assert(arch.columns[k].len() == arch.entities.len());
        }
    }
}

/// What an insertion does, seen from the entities.
pub(crate) proof fn lemma_inserted<V>(s: WorldState<V>, entity: Entity, id: ComponentId, value: V)
    requires
        s.consistent(),
        s.alive(entity),
        s.value(entity, id) is None ==> has_room(s),
    ensures
        s.inserted(entity, id, value).consistent(),
        others_kept(s, s.inserted(entity, id, value), entity.index as int),
        s.inserted(entity, id, value).alive(entity),
        s.inserted(entity, id, value).row_of(entity.index as int) == s.row_of(
            entity.index as int,
        ).with(id, value),
        s.inserted(entity, id, value).slots.len() == s.slots.len(),
{
    let i = entity.index as int;
    lemma_rows_consistent(s, i);
    if holds(s.row_of(i).ids, id) {
        lemma_overwritten(s, i, id, value);
    } else {
        lemma_with(s.row_of(i), id, value);
        lemma_detached(s, i);
        lemma_room_after_detaching(s, i);
        lemma_settled(s.detached(i), i, s.row_of(i).with(id, value));
        lemma_kept_twice(s, s.detached(i), s.inserted(entity, id, value), i);
    }
}

proof fn lemma_room_after_detaching<V>(s: WorldState<V>, i: int)
    requires
        s.consistent(),
        0 <= i < s.slots.len(),
        s.slots[i].alive,
        has_room(s),
    ensures
        has_room(s.detached(i)),
{
    assert(s.located(i));
    let after = s.detached(i);
    assert forall|a: int| 0 <= a < after.archetypes.len() implies (
    #[trigger] after.archetypes[a]).entities.len() < usize::MAX by {
        assert(s.archetypes[a].entities.len() < usize::MAX);
    }
}

/// What a removal does, seen from the entities.
proof fn lemma_removed<V>(s: WorldState<V>, entity: Entity, id: ComponentId)
    requires
        s.consistent(),
        s.value(entity, id) is Some ==> has_room(s),
    ensures
        s.removed(entity, id).consistent(),
        others_kept(s, s.removed(entity, id), entity.index as int),
        s.alive(entity) ==> s.removed(entity, id).alive(entity) && s.removed(entity, id).row_of(
            entity.index as int,
        ) == s.row_of(entity.index as int).without(id),
        s.removed(entity, id).slots.len() == s.slots.len(),
{
    let i = entity.index as int;
    if s.alive(entity) && holds(s.row_of(i).ids, id) {
        lemma_rows_consistent(s, i);
        lemma_without(s.row_of(i), id);
        lemma_detached(s, i);
        lemma_room_after_detaching(s, i);
        lemma_settled(s.detached(i), i, s.row_of(i).without(id));
        lemma_kept_twice(s, s.detached(i), s.removed(entity, id), i);
    } else {
        assert forall|j: int| 0 <= j < s.slots.len() && j != i implies #[trigger] slot_kept(
            s,
            s,
            j,
        ) by {}
    }
}

/// What a despawn does, seen from the entities.
pub(crate) proof fn lemma_despawned<V>(s: WorldState<V>, entity: Entity)
    requires
        s.consistent(),
        s.alive(entity),
    ensures
        s.despawned(entity).consistent(),
        others_kept(s, s.despawned(entity), entity.index as int),
        !s.despawned(entity).slots[entity.index as int].alive,
        s.despawned(entity).slots[entity.index as int].generation == next_generation(
            entity.generation,
        ),
        s.despawned(entity).slots.len() == s.slots.len(),
        s.despawned(entity).free == s.free.push(entity.index),
{
    let i = entity.index as int;
    lemma_detached(s, i);
    let gone = s.detached(i);
    let after = s.despawned(entity);
    assert forall|a: int, q: int|
        0 <= a < after.archetypes.len() && 0 <= q < after.archetypes[a].entities.len() implies (
    #[trigger] after.row_known(a, q, -1)) by {
        assert(gone.row_known(a, q, i));
    }
    assert forall|j: int|
        0 <= j < after.slots.len() && after.slots[j].alive && j != -1 implies (
    #[trigger] after.located(j)) by {
        assert(gone.located(j));
    }
    assert forall|k: int| 0 <= k < after.free.len() implies (#[trigger] after.free[k])
        < after.slots.len() && !after.slots[after.free[k] as int].alive by {
        if k < s.free.len() {
            assert(!gone.slots[gone.free[k] as int].alive);
        }
    }
    assert forall|k: int, l: int|
        #![trigger after.free[k], after.free[l]]
        0 <= k < l < after.free.len() implies after.free[k] != after.free[l] by {
        if l == s.free.len() {
            assert(!gone.slots[gone.free[k] as int].alive);
        } else {
            assert(gone.free[k] != gone.free[l]);
        }
    }
    assert forall|j: int| 0 <= j < s.slots.len() && j != i implies #[trigger] slot_kept(
        s,
        after,
        j,
    ) by {
        assert(slot_kept(s, gone, j));
    }
}

/// A new entity is alive, was not before, has no components, and the others keep theirs.
pub proof fn law_spawn_adds_one_entity<V>(
    s: WorldState<V>,
    other: Entity,
    id: ComponentId,
)
    requires
        s.consistent(),
        s.can_spawn(),
        has_room(s),
        other != s.next_entity(),
    ensures
        s.spawned().consistent(),
        !s.alive(s.next_entity()),
        s.spawned().alive(s.next_entity()),
        s.spawned().value(s.next_entity(), id) is None,
        s.spawned().alive(other) == s.alive(other),
        s.spawned().value(other, id) == s.value(other, id),
{
    lemma_allocated(s);
    let i = s.next_index();
    lemma_settled(s.allocated(), i, Row::<V>::empty());
    lemma_kept_twice(s, s.allocated(), s.spawned(), i);
    lemma_kept_for(s, s.spawned(), i, other, id);
}

pub(crate) proof fn lemma_kept_for<V>(
    s: WorldState<V>,
    after: WorldState<V>,
    i: int,
    other: Entity,
    id: ComponentId,
)
    requires
        others_kept(s, after, i),
        after.slots.len() <= s.slots.len() || after.slots.len() == s.slots.len() + 1 && i
            == s.slots.len(),
        other.index == i ==> (s.alive(other) == after.alive(other) && !s.alive(other)),
    ensures
        after.alive(other) == s.alive(other),
        after.value(other, id) == s.value(other, id),
{
    if other.index != i && other.index < s.slots.len() {
        assert(slot_kept(s, after, other.index as int));
    }
}

/// After an insertion the entity has the component with that value, its other components are as
/// they were, and so is everything of the other entities.
pub proof fn law_insert_sets_one_component<V>(
    s: WorldState<V>,
    entity: Entity,
    id: ComponentId,
    value: V,
    other: Entity,
    other_id: ComponentId,
)
    requires
        s.consistent(),
        s.alive(entity),
        s.value(entity, id) is None ==> has_room(s),
    ensures
        s.inserted(entity, id, value).value(entity, id) == Some(value),
        (other, other_id) != (entity, id) ==> s.inserted(entity, id, value).value(other, other_id)
            == s.value(other, other_id),
        s.inserted(entity, id, value).alive(other) == s.alive(other),
{
    lemma_inserted(s, entity, id, value);
    lemma_rows_consistent(s, entity.index as int);
    lemma_with(s.row_of(entity.index as int), id, value);
    if other.index == entity.index {
        if other == entity && other_id != id {
            assert(s.row_of(entity.index as int).with(id, value).value(other_id) == s.row_of(
                entity.index as int,
            ).value(other_id));
        }
    } else if other.index < s.slots.len() {
        assert(slot_kept(s, s.inserted(entity, id, value), other.index as int));
    }
}

/// After a removal the entity does not have the component, and everything else is as it was.
pub proof fn law_remove_takes_one_component<V>(
    s: WorldState<V>,
    entity: Entity,
    id: ComponentId,
    other: Entity,
    other_id: ComponentId,
)
    requires
        s.consistent(),
        s.value(entity, id) is Some ==> has_room(s),
    ensures
        s.removed(entity, id).value(entity, id) is None,
        (other, other_id) != (entity, id) ==> s.removed(entity, id).value(other, other_id)
            == s.value(other, other_id),
        s.removed(entity, id).alive(other) == s.alive(other),
{
    lemma_removed(s, entity, id);
    if s.alive(entity) {
        lemma_rows_consistent(s, entity.index as int);
        lemma_without(s.row_of(entity.index as int), id);
        if other.index == entity.index {
            if other == entity && other_id != id {
                assert(s.row_of(entity.index as int).without(id).value(other_id) == s.row_of(
                    entity.index as int,
                ).value(other_id));
            }
        } else if other.index < s.slots.len() {
            assert(slot_kept(s, s.removed(entity, id), other.index as int));
        }
    }
}

/// A despawned entity is gone with all its components; the others keep theirs. The entity that
/// takes its slot next is another one: the reference to the former does not reach it.
pub proof fn law_despawn_is_for_good<V>(
    s: WorldState<V>,
    entity: Entity,
    other: Entity,
    id: ComponentId,
)
    requires
        s.consistent(),
        s.alive(entity),
        has_room(s),
        other != entity,
    ensures
        !s.despawned(entity).alive(entity),
        s.despawned(entity).value(entity, id) is None,
        s.despawned(entity).alive(other) == s.alive(other),
        s.despawned(entity).value(other, id) == s.value(other, id),
        s.despawned(entity).next_entity().index == entity.index,
        s.despawned(entity).next_entity() != entity,
        !s.despawned(entity).spawned().alive(entity),
{
    lemma_despawned(s, entity);
    let after = s.despawned(entity);
    lemma_kept_for(s, after, entity.index as int, other, id);
    lemma_room_after_detaching(s, entity.index as int);
    assert(after.free.last() == entity.index);
    lemma_allocated(after);
    lemma_settled(after.allocated(), after.next_index(), Row::<V>::empty());
}

/// The entity of slot `i` was despawned: the slot has the next generation.
pub open spec fn slot_vacated<V>(before: WorldState<V>, after: WorldState<V>, i: int) -> bool {
    &&& before.slots[i].alive
    &&& !after.slots[i].alive
    &&& after.slots[i].generation == next_generation(before.slots[i].generation)
}

/// Slot `i` keeps its generation, or its entity was despawned.
pub open spec fn slot_aged<V>(before: WorldState<V>, after: WorldState<V>, i: int) -> bool {
    after.slots[i].generation == before.slots[i].generation || slot_vacated(before, after, i)
}

/// `after` may come next: no slot is lost, and none gets another generation but by a despawn.
pub open spec fn follows<V>(before: WorldState<V>, after: WorldState<V>) -> bool {
    &&& before.slots.len() <= after.slots.len()
    &&& forall|i: int| 0 <= i < before.slots.len() ==> #[trigger] slot_aged(before, after, i)
}

/// How many entities of slot `i` were despawned on the way to world `n`.
pub open spec fn despawns<V>(worlds: Seq<WorldState<V>>, i: int, n: int) -> int
    decreases n,
{
    if n <= 0 {
        0
    } else if worlds[n].slots[i].generation == worlds[n - 1].slots[i].generation {
        despawns(worlds, i, n - 1)
    } else {
        despawns(worlds, i, n - 1) + 1
    }
}

pub(crate) proof fn lemma_follows<V>(before: WorldState<V>, after: WorldState<V>, i: int)
    requires
        before.slots.len() <= after.slots.len(),
        others_kept(before, after, i),
        0 <= i < before.slots.len() ==> slot_aged(before, after, i),
    ensures
        follows(before, after),
{
    assert forall|j: int| 0 <= j < before.slots.len() implies #[trigger] slot_aged(
        before,
        after,
        j,
    ) by {
        if j != i {
            assert(slot_kept(before, after, j));
        }
    }
}

/// Spawning, inserting, removing and despawning give a world that may come next.
pub proof fn law_calls_follow<V>(s: WorldState<V>, entity: Entity, id: ComponentId, value: V)
    requires
        s.consistent(),
        has_room(s),
    ensures
        s.can_spawn() ==> follows(s, s.spawned()),
        s.alive(entity) ==> follows(s, s.inserted(entity, id, value)),
        follows(s, s.removed(entity, id)),
        follows(s, s.despawned(entity)),
{
    let i = entity.index as int;
    if s.can_spawn() {
        lemma_allocated(s);
        let at = s.next_index();
        lemma_settled(s.allocated(), at, Row::<V>::empty());
        lemma_kept_twice(s, s.allocated(), s.spawned(), at);
        lemma_follows(s, s.spawned(), at);
    }
    if s.alive(entity) {
        lemma_inserted(s, entity, id, value);
        lemma_follows(s, s.inserted(entity, id, value), i);
        lemma_despawned(s, entity);
        lemma_follows(s, s.despawned(entity), i);
    }
    lemma_removed(s, entity, id);
    lemma_follows(s, s.removed(entity, id), i);
}

/// A despawned entity is gone for good: in no later world is it alive or has any component, however
/// often its slot is used again, as long as the slot's generation has not come round.
pub proof fn law_dead_entities_stay_dead<V>(
    worlds: Seq<WorldState<V>>,
    entity: Entity,
    id: ComponentId,
    n: int,
)
    requires
        0 <= n < worlds.len(),
        entity.index < worlds[0].slots.len(),
        worlds[0].slots[entity.index as int].generation == next_generation(entity.generation),
        forall|k: int| 0 <= k < n ==> follows(#[trigger] worlds[k], worlds[k + 1]),
        despawns(worlds, entity.index as int, n) < u32::MAX,
    ensures
        !worlds[n].alive(entity),
        worlds[n].value(entity, id) is None,
{
    lemma_generation(worlds, entity, n);
}

proof fn lemma_generation<V>(worlds: Seq<WorldState<V>>, entity: Entity, n: int)
    requires
        0 <= n < worlds.len(),
        entity.index < worlds[0].slots.len(),
        worlds[0].slots[entity.index as int].generation == next_generation(entity.generation),
        forall|k: int| 0 <= k < n ==> follows(#[trigger] worlds[k], worlds[k + 1]),
        despawns(worlds, entity.index as int, n) < u32::MAX,
    ensures
        entity.index < worlds[n].slots.len(),
        0 <= despawns(worlds, entity.index as int, n),
        ({
            let passed = entity.generation + 1 + despawns(worlds, entity.index as int, n);
            worlds[n].slots[entity.index as int].generation == if passed <= u32::MAX {
                passed
            } else {
                passed - u32::MAX - 1
            }
        }),
    decreases n,
{
    if n > 0 {
        lemma_generation(worlds, entity, n - 1);
        assert(follows(worlds[n - 1], worlds[n - 1 + 1]));
        assert(slot_aged(worlds[n - 1], worlds[n], entity.index as int));
    }
}

/// Entities and their components.
pub struct World<V> {
    archetypes: Vec<Archetype<V>>,
    slots: Vec<Slot>,
    free: Vec<u32>,
}

spec fn archetype_views<V>(archetypes: Seq<Archetype<V>>) -> Seq<ArchState<V>> {
    Seq::new(archetypes.len(), |a: int| archetypes[a]@)
}

impl<V> View for World<V> {
    type V = WorldState<V>;

    closed spec fn view(&self) -> WorldState<V> {
        WorldState {
            archetypes: archetype_views(self.archetypes@),
            slots: self.slots@,
            free: self.free@,
        }
    }
}

impl<V> World<V> {
    /// Slots and archetypes agree.
    pub open spec fn wf(&self) -> bool {
        self@.consistent()
    }

    /// A world without entities.
    pub fn new() -> (world: Self)
        ensures
            world.wf(),
            world@ == WorldState::<V>::initial(),
    {
        let mut archetypes: Vec<Archetype<V>> = Vec::new();
        archetypes.push(Archetype::new(Vec::new()));
        let world = World { archetypes, slots: Vec::new(), free: Vec::new() };
        proof {
            let initial = WorldState::<V>::initial();
            assert(archetypes@[0]@.ids =~= seq![]);
            assert(world@.archetypes =~= initial.archetypes);
            assert(world@ =~= initial);
            assert(initial.archetypes[0].consistent());
        }
        world
    }

    /// Whether the entity is alive.
    pub fn is_alive(&self, entity: Entity) -> (alive: bool)
        ensures
            alive == self@.alive(entity),
    {
        let i: usize = entity.index as usize;
        i < self.slots.len() && self.slots[i].alive && self.slots[i].generation
            == entity.generation
    }

    /// The column and the row where an entity's component is.
    fn locate(&self, entity: Entity, id: ComponentId) -> (at: Option<(usize, usize, usize)>)
        requires
            self.wf(),
        ensures
            match at {
                Some((a, k, r)) => {
                    &&& self@.alive(entity)
                    &&& holds(self@.row_of(entity.index as int).ids, id)
                    &&& a == self@.slots[entity.index as int].archetype
                    &&& r == self@.slots[entity.index as int].row
                    &&& k == place(self@.row_of(entity.index as int).ids, id)
                },
                None => self@.value(entity, id) is None,
            },
    {
        if !self.is_alive(entity) {
            return None;
        }
        let slot: Slot = self.slots[entity.index as usize];
        proof {
            lemma_rows_consistent(self@, entity.index as int);
            assert(self@.archetypes[slot.archetype as int]
                == self.archetypes@[slot.archetype as int]@);
        }
        match self.archetypes[slot.archetype].column_of(id) {
            Some(k) => Some((slot.archetype, k, slot.row)),
            None => None,
        }
    }

    /// Whether the entity is alive and has the component.
    pub fn has_component(&self, entity: Entity, id: ComponentId) -> (has: bool)
        requires
            self.wf(),
        ensures
            has == (self@.value(entity, id) is Some),
    {
        self.locate(entity, id).is_some()
    }

    /// The entity's component, if the entity is alive and has it.
    pub fn get(&self, entity: Entity, id: ComponentId) -> (value: Option<&V>)
        requires
            self.wf(),
        ensures
            match value {
                Some(value) => self@.value(entity, id) == Some(*value),
                None => self@.value(entity, id) is None,
            },
    {
        match self.locate(entity, id) {
            Some((a, k, r)) => {
                proof {
                    lemma_rows_consistent(self@, entity.index as int);
                    assert(self@.archetypes[a as int] == self.archetypes@[a as int]@);
                    lemma_place(self@.archetypes[a as int].ids, id);
                }
                Some(self.archetypes[a].value(k, r))
            },
            None => None,
        }
    }

    /// The entity's component, to write to, if the entity is alive and has it.
    pub fn get_mut(&mut self, entity: Entity, id: ComponentId) -> (value: Option<&mut V>)
        requires
            old(self).wf(),
        ensures
            match value {
                Some(value) => {
                    &&& old(self)@.value(entity, id) == Some(*value)
                    &&& final(self)@ == old(self)@.inserted(entity, id, *final(value))
                },
                None => old(self)@.value(entity, id) is None && final(self)@ == old(self)@,
            },
            final(self).wf(),
    {
        let ghost before = self@;
        match self.locate(entity, id) {
            Some((a, k, r)) => {
                proof {
                    lemma_rows_consistent(self@, entity.index as int);
                    assert(self@.archetypes[a as int] == self.archetypes@[a as int]@);
                    lemma_place(self@.archetypes[a as int].ids, id);
                }
                let value = self.archetypes[a].value_mut(k, r);
                proof {
                    lemma_overwritten(before, entity.index as int, id, *final(value));
                    assert(archetype_views(after_borrow(*self).archetypes@)
                        =~= before.archetypes.update(
                        a as int,
                        before.archetypes[a as int].with_value(
                            k as int,
                            r as int,
                            *final(value),
                        ),
                    ));
                }
                Some(value)
            },
            None => None,
        }
    }

    /// A slot for a new entity, which is in no archetype yet.
    pub(crate) fn allocate_slot(&mut self) -> (entity: Entity)
        requires
            old(self)@.can_spawn(),
            old(self).wf(),
        ensures
            final(self)@ == old(self)@.allocated(),
            entity == old(self)@.next_entity(),
    {
        let ghost before = self@;
        match self.free.pop() {
            Some(index) => {
                assert(before.free[before.free.len() - 1] == index);
                let generation: u32 = self.slots[index as usize].generation;
                self.slots.set(
                    index as usize,
                    Slot { generation, archetype: 0, row: 0, alive: true },
                );
                assert(self@ =~= before.allocated());
                Entity { index, generation }
            },
            None => {
                let index: u32 = self.slots.len() as u32;
                self.slots.push(Slot { generation: 0, archetype: 0, row: 0, alive: true });
                assert(self@ =~= before.allocated());
                Entity { index, generation: 0 }
            },
        }
    }

    /// The archetype with exactly these component types, made if there is none.
    pub(crate) fn archetype_for(&mut self, ids: &Vec<ComponentId>, Ghost(floating): Ghost<int>) -> (at:
        usize)
        requires
            old(self)@.sound(floating),
            sorted(ids@),
            old(self)@.archetypes.len() < usize::MAX,
        ensures
            final(self)@ == old(self)@.with_archetype(ids@),
            final(self)@.sound(floating),
            at == archetype_at(final(self)@.archetypes, ids@),
            at < final(self)@.archetypes.len(),
            final(self)@.archetypes[at as int].ids == ids@,
    {
        let ghost before = self@;
        proof {
            lemma_with_archetype(before, ids@, floating);
        }
        let mut a: usize = 0;
        while a < self.archetypes.len()
            invariant
                self@ == before,
                before == old(self)@,
                before.sound(floating),
                before.with_archetype(ids@).sound(floating),
                a <= self.archetypes@.len(),
                forall|k: int| 0 <= k < a ==> (#[trigger] before.archetypes[k]).ids != ids@,
            decreases self.archetypes@.len() - a,
        {
            assert(before.archetypes[a as int] == self.archetypes@[a as int]@);
            if same_ids(self.archetypes[a].ids(), ids) {
                proof {
                    lemma_archetype_at(before.archetypes, ids@, a as int);
                }
                return a;
            }
            a = a + 1;
        }
        let archetype = Archetype::new(copy_ids(ids));
        self.archetypes.push(archetype);
        proof {
            assert(self@.archetypes =~= before.with_archetype(ids@).archetypes);
            assert(self@ =~= before.with_archetype(ids@));
            assert(self@.archetypes[a as int].ids == ids@);
            lemma_archetype_at(self@.archetypes, ids@, a as int);
        }
        a
    }

    /// Puts a slot that is in no archetype at the end of one.
    pub(crate) fn place_slot(&mut self, entity: Entity, at: usize, values: Vec<V>)
        requires
            old(self)@.sound(entity.index as int),
            entity.index < old(self)@.slots.len(),
            old(self)@.slots[entity.index as int].generation == entity.generation,
            at < old(self)@.archetypes.len(),
            values@.len() == old(self)@.archetypes[at as int].columns.len(),
            old(self)@.archetypes[at as int].entities.len() < usize::MAX,
        ensures
            final(self)@ == old(self)@.placed(entity.index as int, at as int, values@),
            final(self).wf(),
    {
        let ghost before = self@;
        proof {
            lemma_placed(before, entity.index as int, at as int, values@);
            assert(before.archetypes[at as int] == self.archetypes@[at as int]@);
            assert(before.archetypes[at as int].consistent());
        }
        let ghost content = values@;
        let i: usize = entity.index as usize;
        let row: usize = self.archetypes[at].entities().len();
        let generation: u32 = self.slots[i].generation;
        let alive: bool = self.slots[i].alive;
        self.archetypes[at].push_row(entity, values);
        self.slots.set(i, Slot { generation, archetype: at, row, alive });
        assert(self@.archetypes =~= before.placed(i as int, at as int, content).archetypes);
        assert(self@ =~= before.placed(i as int, at as int, content));
    }

    /// Takes an entity's row out of its archetype. Returns the values.
    fn detach(&mut self, entity: Entity) -> (values: Vec<V>)
        requires
            old(self).wf(),
            old(self)@.alive(entity),
        ensures
            final(self)@ == old(self)@.detached(entity.index as int),
            final(self)@.sound(entity.index as int),
            values@ == old(self)@.row_of(entity.index as int).values,
    {
        let ghost before = self@;
        let i: usize = entity.index as usize;
        proof {
            lemma_detached(before, i as int);
            assert(before.located(i as int));
        }
        let slot: Slot = self.slots[i];
        proof {
            let at = slot.archetype as int;
            assert(before.archetypes[at] == self.archetypes@[at]@);
            assert(before.archetypes[at].consistent());
            assert(before.row_known(at, before.archetypes[at].entities.len() - 1, -1));
        }
        let count: usize = self.archetypes[slot.archetype].entities().len();
        let moved: Entity = self.archetypes[slot.archetype].entities()[count - 1];
        let values = self.archetypes[slot.archetype].take_row(slot.row);
        if moved.index != entity.index {
            let m: usize = moved.index as usize;
            let other: Slot = self.slots[m];
            self.slots.set(
                m,
                Slot {
                    generation: other.generation,
                    archetype: other.archetype,
                    row: slot.row,
                    alive: other.alive,
                },
            );
        }
        assert(self@.archetypes =~= before.detached(i as int).archetypes);
        assert(self@ =~= before.detached(i as int));
        values
    }

    /// Makes an entity without components.
    pub fn spawn(&mut self) -> (entity: Entity)
        requires
            old(self).wf(),
            old(self)@.can_spawn(),
            has_room(old(self)@),
        ensures
            final(self).wf(),
            final(self)@ == old(self)@.spawned(),
            entity == old(self)@.next_entity(),
    {
        let ghost before = self@;
        proof {
            lemma_allocated(before);
            lemma_settled(before.allocated(), before.next_index(), Row::<V>::empty());
        }
        let entity = self.allocate_slot();
        let ids: Vec<ComponentId> = Vec::new();
        assert(ids@ =~= Row::<V>::empty().ids);
        let at: usize = self.archetype_for(&ids, Ghost(entity.index as int));
        let values: Vec<V> = Vec::new();
        assert(values@ =~= Row::<V>::empty().values);
        proof {
            assert(self@.archetypes[at as int].consistent());
            assert(self@.archetypes[at as int].entities.len() < usize::MAX);
        }
        self.place_slot(entity, at, values);
        entity
    }

    /// Gives an entity a component, or a new value for one that it has.
    pub fn insert(&mut self, entity: Entity, id: ComponentId, value: V)
        requires
            old(self).wf(),
            old(self)@.alive(entity),
            old(self)@.value(entity, id) is None ==> has_room(old(self)@),
        ensures
            final(self).wf(),
            final(self)@ == old(self)@.inserted(entity, id, value),
    {
        let ghost before = self@;
        let i: usize = entity.index as usize;
        proof {
            lemma_inserted(before, entity, id, value);
            lemma_rows_consistent(before, i as int);
        }
        let slot: Slot = self.slots[i];
        proof {
            assert(before.archetypes[slot.archetype as int]
                == self.archetypes@[slot.archetype as int]@);
            lemma_place(before.row_of(i as int).ids, id);
        }
        match self.archetypes[slot.archetype].column_of(id) {
            Some(k) => {
                let place = self.archetypes[slot.archetype].value_mut(k, slot.row);
                *place = value;
                assert(self@.archetypes =~= before.inserted(entity, id, value).archetypes);
                assert(self@ =~= before.inserted(entity, id, value));
            },
            None => {
                let ghost row = before.row_of(i as int);
                proof {
                    lemma_with(row, id, value);
                    lemma_detached(before, i as int);
                    lemma_room_after_detaching(before, i as int);
                }
                let mut ids = copy_ids(self.archetypes[slot.archetype].ids());
                let p: usize = place_in(&ids, id);
                let mut values = self.detach(entity);
                ids.insert(p, id);
                values.insert(p, value);
                let at: usize = self.archetype_for(&ids, Ghost(entity.index as int));
                proof {
                    assert(self@.archetypes[at as int].consistent());
                    assert(self@.archetypes[at as int].entities.len() < usize::MAX);
                }
                self.place_slot(entity, at, values);
            },
        }
    }

    /// Takes a component from an entity. Its value, if the entity is alive and had it.
    pub fn remove(&mut self, entity: Entity, id: ComponentId) -> (value: Option<V>)
        requires
            old(self).wf(),
            old(self)@.value(entity, id) is Some ==> has_room(old(self)@),
        ensures
            final(self).wf(),
            final(self)@ == old(self)@.removed(entity, id),
            value == old(self)@.value(entity, id),
    {
        let ghost before = self@;
        proof {
            lemma_removed(before, entity, id);
        }
        match self.locate(entity, id) {
            Some((a, k, _)) => {
                let ghost i = entity.index as int;
                let ghost row = before.row_of(i);
                proof {
                    lemma_rows_consistent(before, i);
                    assert(before.archetypes[a as int] == self.archetypes@[a as int]@);
                    lemma_place(row.ids, id);
                    lemma_without(row, id);
                    lemma_detached(before, i);
                    lemma_room_after_detaching(before, i);
                }
                let mut ids = copy_ids(self.archetypes[a].ids());
                let mut values = self.detach(entity);
                let _ = ids.remove(k);
                let value = values.remove(k);
                let at: usize = self.archetype_for(&ids, Ghost(i));
                proof {
                    assert(self@.archetypes[at as int].consistent());
                    assert(self@.archetypes[at as int].entities.len() < usize::MAX);
                }
                self.place_slot(entity, at, values);
                Some(value)
            },
            None => None,
        }
    }

    /// Removes an entity with all its components. Whether it was alive.
    pub fn despawn(&mut self, entity: Entity) -> (was_alive: bool)
        requires
            old(self).wf(),
        ensures
            final(self).wf(),
            final(self)@ == old(self)@.despawned(entity),
            was_alive == old(self)@.alive(entity),
    {
        let ghost before = self@;
        if !self.is_alive(entity) {
            return false;
        }
        proof {
            lemma_despawned(before, entity);
            lemma_detached(before, entity.index as int);
        }
        let _ = self.detach(entity);
        let i: usize = entity.index as usize;
        let slot: Slot = self.slots[i];
        self.slots.set(
            i,
            Slot {
                generation: slot.generation.wrapping_add(1),
                archetype: slot.archetype,
                row: slot.row,
                alive: false,
            },
        );
        self.free.push(entity.index);
        assert(self@ =~= before.despawned(entity));
        true
    }

    /// Number of archetypes.
    pub fn archetype_count(&self) -> (count: usize)
        ensures
            count == self@.archetypes.len(),
    {
        self.archetypes.len()
    }

    /// An archetype.
    pub fn archetype(&self, at: usize) -> (archetype: &Archetype<V>)
        requires
            at < self@.archetypes.len(),
        ensures
            archetype@ == self@.archetypes[at as int],
    {
        &self.archetypes[at]
    }

    /// An archetype, to write to.
    pub(crate) fn archetype_mut(&mut self, at: usize) -> (archetype: &mut Archetype<V>)
        requires
            at < old(self)@.archetypes.len(),
        ensures
            archetype@ == old(self)@.archetypes[at as int],
            final(self)@ == (WorldState {
                archetypes: old(self)@.archetypes.update(at as int, final(archetype)@),
                ..old(self)@
            }),
    {
        let ghost before = self@;
        let archetype = &mut self.archetypes[at];
        assert(archetype_views(after_borrow(*self).archetypes@) =~= before.archetypes.update(
            at as int,
            final(archetype)@,
        ));
        archetype
    }

    /// Makes room for more rows in an archetype. What the world holds stays; the room is the
    /// allocator's and is no part of the view.
    pub(crate) fn reserve_rows(&mut self, at: usize, additional: usize)
        requires
            at < old(self)@.archetypes.len(),
        ensures
            final(self)@ == old(self)@,
    {
        let ghost before = self@;
        self.archetypes[at].reserve(additional);
        assert(self@.archetypes =~= before.archetypes);
    }
}

/// In a new world nobody is alive, and the first entity of a row never used before has generation 0.
pub proof fn law_world_starts_empty<V>(s: WorldState<V>, entity: Entity)
    ensures
        WorldState::<V>::initial().consistent(),
        !WorldState::<V>::initial().alive(entity),
        s.free.len() == 0 && s.slots.len() < u32::MAX ==> s.next_entity().index == s.slots.len()
            && s.next_entity().generation == 0,
{
    let initial = WorldState::<V>::initial();
    assert(initial.archetypes[0].ids =~= seq![]);
}

/// Rows are used again last in, first out, each with a generation one more than its last entity had.
pub proof fn law_rows_are_used_again<V>(s: WorldState<V>, first: Entity, second: Entity)
    requires
        s.consistent(),
        has_room(s),
        s.alive(first),
        s.alive(second),
        first != second,
    ensures
        ({
            let both = s.despawned(first).despawned(second);
            &&& both.next_entity().index == second.index
            &&& second.generation < u32::MAX ==> both.next_entity().generation == second.generation
                + 1
            &&& second.generation == u32::MAX ==> both.next_entity().generation == 0
            &&& both.spawned().next_entity().index == first.index
            &&& first.generation < u32::MAX ==> both.spawned().next_entity().generation
                == first.generation + 1
            &&& first.generation == u32::MAX ==> both.spawned().next_entity().generation == 0
        }),
{
    law_despawn_is_for_good(s, first, second, ComponentId(0));
    assert(s.located(first.index as int));
    assert(s.located(second.index as int));
    lemma_despawned(s, first);
    let one = s.despawned(first);
    assert(one.alive(second));
    assert(one.located(second.index as int));
    assert(one.free.last() == first.index);
    let both = one.despawned(second);
    lemma_despawned(one, second);
    assert(both.free.last() == second.index);
    assert(both.free.drop_last() =~= one.free);
    assert(first.index != second.index);
    let again = both.spawned();
    assert(again.free =~= one.free);
    assert(slot_kept(one, both, first.index as int));
    assert(both.slots[first.index as int].generation == one.slots[first.index as int].generation);
}

/// A call about an entity that is not alive changes nothing, and neither does removing a component
/// that is not there.
pub proof fn law_the_dead_are_left_alone<V>(s: WorldState<V>, entity: Entity, id: ComponentId)
    ensures
        !s.alive(entity) ==> s.despawned(entity) == s,
        s.value(entity, id) is None ==> s.removed(entity, id) == s,
{
}

} // verus!
