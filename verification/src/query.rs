//! Walking the entities that have certain components.
//!
//! Archetypes are visited in order, and the rows of each in order; an archetype that lacks one of
//! the components is passed over as a whole. A query for no components visits every entity.
//! One kind of walk reads; the other visits one entity at a time and can write to its components.
use crate::archetype::Archetype;
use crate::entity::{ComponentId, Entity};
use crate::world::World;
use vstd::prelude::*;

verus! {

use crate::archetype::{has_all, holds, lemma_place, place, sorted, ArchState};
use crate::world::{lemma_overwritten, WorldState};

/// The rows of archetype `a` from row `r` on, if it has all components.
pub open spec fn rows_of<V>(
    archetypes: Seq<ArchState<V>>,
    ids: Seq<ComponentId>,
    a: int,
    r: int,
) -> Seq<(int, int)> {
    if has_all(archetypes[a].ids, ids) {
        Seq::new((archetypes[a].entities.len() - r) as nat, |k: int| (a, r + k))
    } else {
        seq![]
    }
}

/// The rows to visit from row `r` of archetype `a` on.
pub open spec fn rows_from<V>(
    archetypes: Seq<ArchState<V>>,
    ids: Seq<ComponentId>,
    a: int,
    r: int,
) -> Seq<(int, int)>
    decreases archetypes.len() - a,
{
    if a >= archetypes.len() {
        seq![]
    } else {
        rows_of(archetypes, ids, a, r) + rows_from(archetypes, ids, a + 1, 0)
    }
}

/// The rows that a query visits.
pub open spec fn query_rows<V>(s: WorldState<V>, ids: Seq<ComponentId>) -> Seq<(int, int)> {
    rows_from(s.archetypes, ids, 0, 0)
}

/// The entity in a row.
pub open spec fn entity_at<V>(s: WorldState<V>, at: (int, int)) -> Entity {
    s.archetypes[at.0].entities[at.1]
}

/// What is fetched from a row: the components with these ids, in this order.
#[derive(Debug)]
pub struct WorldQuery {
    pub ids: Vec<ComponentId>,
}

/// `columns` are those of the components in an archetype with components `present`.
pub open spec fn columns_resolved(
    present: Seq<ComponentId>,
    ids: Seq<ComponentId>,
    columns: Seq<usize>,
) -> bool {
    &&& columns.len() == ids.len()
    &&& forall|k: int| 0 <= k < ids.len() ==> (#[trigger] columns[k]) == place(present, ids[k])
}

impl WorldQuery {
    /// Whether the archetype has all components.
    pub fn matches<V>(&self, archetype: &Archetype<V>) -> (all: bool)
        requires
            sorted(archetype@.ids),
        ensures
            all == has_all(archetype@.ids, self.ids@),
    {
        archetype.has_columns(self.ids.as_slice())
    }

    /// Finds the columns of the components, once for all rows of the archetype.
    pub fn init_fetch<V>(&self, archetype: &Archetype<V>) -> (columns: Vec<usize>)
        requires
            sorted(archetype@.ids),
            has_all(archetype@.ids, self.ids@),
        ensures
            columns_resolved(archetype@.ids, self.ids@, columns@),
    {
        let mut columns: Vec<usize> = Vec::new();
        let mut k: usize = 0;
        while k < self.ids.len()
            invariant
                sorted(archetype@.ids),
                has_all(archetype@.ids, self.ids@),
                k <= self.ids@.len(),
                columns@.len() == k,
                forall|j: int|
                    0 <= j < k ==> (#[trigger] columns@[j]) == place(archetype@.ids, self.ids@[j]),
            decreases self.ids@.len() - k,
        {
            assert(holds(archetype@.ids, self.ids@[k as int]));
            match archetype.column_of(self.ids[k]) {
                Some(column) => {
                    columns.push(column);
                },
                None => {
                    assert(false);
                },
            }
            k = k + 1;
        }
        columns
    }

    /// The components of one row, whose columns were found before.
    pub fn fetch<'w, V>(
        &self,
        archetype: &'w Archetype<V>,
        columns: &Vec<usize>,
        row: usize,
    ) -> (values: Vec<&'w V>)
        requires
            archetype@.consistent(),
            has_all(archetype@.ids, self.ids@),
            columns_resolved(archetype@.ids, self.ids@, columns@),
            row < archetype@.entities.len(),
        ensures
            values@.len() == self.ids@.len(),
            forall|k: int|
                0 <= k < values@.len() ==> archetype@.row(row as int).value(self.ids@[k]) == Some(
                    *(#[trigger] values@[k]),
                ),
    {
        let mut values: Vec<&'w V> = Vec::new();
        let mut k: usize = 0;
        while k < self.ids.len()
            invariant
                archetype@.consistent(),
                has_all(archetype@.ids, self.ids@),
                columns_resolved(archetype@.ids, self.ids@, columns@),
                row < archetype@.entities.len(),
                k <= self.ids@.len(),
                values@.len() == k,
                forall|j: int|
                    0 <= j < k ==> archetype@.row(row as int).value(self.ids@[j]) == Some(
                        *(#[trigger] values@[j]),
                    ),
            decreases self.ids@.len() - k,
        {
            proof {
                assert(holds(archetype@.ids, self.ids@[k as int]));
                assert(columns@[k as int] == place(archetype@.ids, self.ids@[k as int]));
                lemma_place(archetype@.ids, self.ids@[k as int]);
            }
            values.push(archetype.value(columns[k], row));
            k = k + 1;
        }
        values
    }

    /// One component of one row, whose column was found before, to write to. The other values stay.
    pub fn fetch_mut<'w, V>(
        &self,
        archetype: &'w mut Archetype<V>,
        columns: &Vec<usize>,
        which: usize,
        row: usize,
    ) -> (value: &'w mut V)
        requires
            old(archetype)@.consistent(),
            has_all(old(archetype)@.ids, self.ids@),
            columns_resolved(old(archetype)@.ids, self.ids@, columns@),
            which < self.ids@.len(),
            row < old(archetype)@.entities.len(),
        ensures
            old(archetype)@.row(row as int).value(self.ids@[which as int]) == Some(*value),
            final(archetype)@ == old(archetype)@.with_value(
                place(old(archetype)@.ids, self.ids@[which as int]),
                row as int,
                *final(value),
            ),
    {
        proof {
            assert(holds(archetype@.ids, self.ids@[which as int]));
            assert(columns@[which as int] == place(archetype@.ids, self.ids@[which as int]));
            lemma_place(archetype@.ids, self.ids@[which as int]);
        }
        archetype.value_mut(columns[which], row)
    }
}

/// A position on the way through the rows that a query visits.
pub struct Walk {
    query: WorldQuery,
    arch_idx: usize,
    row: usize,
    /// Rows of the current archetype; none once there is nothing left.
    current_len: usize,
    /// The columns of the components in the current archetype.
    columns: Vec<usize>,
}

impl Walk {
    /// The rows that are still to be visited.
    spec fn remaining<V>(self, s: WorldState<V>) -> Seq<(int, int)> {
        rows_from(s.archetypes, self.query.ids@, self.arch_idx as int, self.row as int)
    }

    /// The position is one in an archetype that has all components, or the end.
    spec fn sits<V>(self, s: WorldState<V>) -> bool {
        &&& self.arch_idx <= s.archetypes.len()
        &&& self.row <= self.current_len
        &&& if self.current_len == 0 {
            self.arch_idx == s.archetypes.len()
        } else {
            let archetype = s.archetypes[self.arch_idx as int];
            &&& self.arch_idx < s.archetypes.len()
            &&& has_all(archetype.ids, self.query.ids@)
            &&& self.current_len == archetype.entities.len()
            &&& columns_resolved(archetype.ids, self.query.ids@, self.columns@)
        }
    }

    /// The row that was visited last, if it is not behind the end.
    spec fn current(self) -> Option<(int, int)> {
        if self.row > 0 {
            Some((self.arch_idx as int, self.row - 1))
        } else {
            None
        }
    }

    /// Before the first row.
    fn new<V>(world: &World<V>, query: WorldQuery) -> (walk: Self)
        requires
            world.wf(),
        ensures
            walk.sits(world@),
            walk.query.ids@ == query.ids@,
            walk.remaining(world@) == query_rows(world@, query.ids@),
            walk.row == 0,
    {
        let mut walk = Walk { query, arch_idx: 0, row: 0, current_len: 0, columns: Vec::new() };
        walk.advance_to_next_matching_archetype(world);
        walk
    }

    /// Goes to the first archetype, from the current one on, that has entities and all components.
    fn advance_to_next_matching_archetype<V>(&mut self, world: &World<V>)
        requires
            world.wf(),
            old(self).arch_idx <= world@.archetypes.len(),
        ensures
            final(self).sits(world@),
            final(self).query.ids@ == old(self).query.ids@,
            final(self).remaining(world@) == rows_from(
                world@.archetypes,
                old(self).query.ids@,
                old(self).arch_idx as int,
                0,
            ),
            final(self).row == 0,
    {
        let ghost archetypes = world@.archetypes;
        let ghost wanted = self.query.ids@;
        let ghost start = self.arch_idx as int;
        let count: usize = world.archetype_count();
        self.row = 0;
        self.current_len = 0;
        while self.arch_idx < count
            invariant
                self.query.ids@ == wanted,
                old(self).query.ids@ == wanted,
                world.wf(),
                archetypes == world@.archetypes,
                start == old(self).arch_idx,
                count == archetypes.len(),
                self.arch_idx <= count,
                self.row == 0,
                self.current_len == 0,
                rows_from(archetypes, wanted, start, 0) == rows_from(
                    archetypes,
                    wanted,
                    self.arch_idx as int,
                    0,
                ),
            decreases count - self.arch_idx,
        {
            let ghost a = self.arch_idx as int;
            assert(archetypes[a].consistent());
            let archetype = world.archetype(self.arch_idx);
            let len: usize = archetype.entities().len();
            if len > 0 && self.query.matches(archetype) {
                self.columns = self.query.init_fetch(archetype);
                self.current_len = len;
                return;
            }
            assert(rows_of(archetypes, wanted, a, 0) =~= seq![]);
            assert(rows_from(archetypes, wanted, a, 0) =~= rows_from(
                archetypes,
                wanted,
                a + 1,
                0,
            ));
            self.arch_idx = self.arch_idx + 1;
        }
    }

    /// Goes to the next row, which is then the current one. Returns its number in its archetype;
    /// `None` at the end.
    fn step<V>(&mut self, world: &World<V>) -> (row: Option<usize>)
        requires
            world.wf(),
            old(self).sits(world@),
        ensures
            final(self).sits(world@),
            final(self).query.ids@ == old(self).query.ids@,
            match row {
                Some(row) => {
                    &&& old(self).remaining(world@).len() > 0
                    &&& old(self).remaining(world@)[0] == (final(self).arch_idx as int, row as int)
                    &&& final(self).remaining(world@) == old(self).remaining(world@).skip(1)
                    &&& final(self).row == row + 1
                    &&& final(self).arch_idx < world@.archetypes.len()
                    &&& row < world@.archetypes[final(self).arch_idx as int].entities.len()
                },
                None => {
                    &&& old(self).remaining(world@).len() == 0
                    &&& final(self).remaining(world@).len() == 0
                    &&& final(self).row == 0
                },
            },
    {
        let ghost archetypes = world@.archetypes;
        let ghost wanted = self.query.ids@;
        if self.row >= self.current_len {
            if self.current_len == 0 {
                return None;
            }
            proof {
                let a = self.arch_idx as int;
                assert(rows_of(archetypes, wanted, a, self.row as int) =~= seq![]);
                assert(rows_from(archetypes, wanted, a, self.row as int) =~= rows_from(
                    archetypes,
                    wanted,
                    a + 1,
                    0,
                ));
            }
            self.arch_idx = self.arch_idx + 1;
            self.advance_to_next_matching_archetype(world);
            if self.current_len == 0 {
                return None;
            }
        }
        proof {
            let a = self.arch_idx as int;
            let r = self.row as int;
            let here = rows_of(archetypes, wanted, a, r);
            let rest = rows_from(archetypes, wanted, a + 1, 0);
            assert(here.len() > 0);
            assert(rows_from(archetypes, wanted, a, r) == here + rest);
            assert(here[0] == (a, r));
            assert(rows_of(archetypes, wanted, a, r + 1) =~= here.skip(1));
            assert((here + rest).skip(1) =~= here.skip(1) + rest);
        }
        let row: usize = self.row;
        self.row = row + 1;
        Some(row)
    }

    /// The entity of the current row is alive, is there, and has the component.
    proof fn lemma_current<V>(self, s: WorldState<V>, which: int)
        requires
            s.consistent(),
            self.sits(s),
            self.row > 0,
            0 <= which < self.query.ids@.len(),
        ensures
            self.current_len > 0,
            self.columns@.len() == self.query.ids@.len(),
            ({
                let archetype = s.archetypes[self.arch_idx as int];
                let r = self.row - 1;
                let entity = archetype.entities[r];
                let id = self.query.ids@[which];
                let column = self.columns@[which] as int;
                &&& archetype.consistent()
                &&& s.alive(entity)
                &&& s.slots[entity.index as int].archetype == self.arch_idx
                &&& s.slots[entity.index as int].row == r
                &&& holds(s.row_of(entity.index as int).ids, id)
                &&& column == place(archetype.ids, id)
                &&& column < archetype.columns.len()
                &&& s.value(entity, id) == Some(archetype.columns[column][r])
            }),
    {
        let archetype = s.archetypes[self.arch_idx as int];
        let id = self.query.ids@[which];
        assert(archetype.consistent());
        assert(s.row_known(self.arch_idx as int, self.row - 1, -1));
        assert(holds(archetype.ids, id));
        assert(self.columns@[which] == place(archetype.ids, id));
        lemma_place(archetype.ids, id);
    }

    /// How many rows of the current archetype are still to be visited.
    fn left_here(&self) -> (left: usize)
        requires
            self.row <= self.current_len,
        ensures
            left == self.current_len - self.row,
    {
        self.current_len - self.row
    }
}

/// What is left of a query.
pub struct QueryIter<'w, V> {
    world: &'w World<V>,
    walk: Walk,
}

impl<'w, V> QueryIter<'w, V> {
    /// The world that is walked.
    pub closed spec fn world(&self) -> WorldState<V> {
        self.world@
    }

    /// The components that are wanted.
    pub closed spec fn ids(&self) -> Seq<ComponentId> {
        self.walk.query.ids@
    }

    /// The rows that are still to be visited.
    pub closed spec fn remaining(&self) -> Seq<(int, int)> {
        self.walk.remaining(self.world@)
    }

    /// The rows of the current archetype that are still to be visited.
    pub closed spec fn left_here(&self) -> int {
        self.walk.current_len - self.walk.row
    }

    /// The position is one on the way through the world.
    pub closed spec fn wf(&self) -> bool {
        &&& self.world.wf()
        &&& self.walk.sits(self.world@)
    }

    /// The next entity with its components, in the order they were asked for; `None` at the end.
    pub fn next(&mut self) -> (item: Option<(Entity, Vec<&'w V>)>)
        requires
            old(self).wf(),
        ensures
            final(self).wf(),
            final(self).world() == old(self).world(),
            final(self).ids() == old(self).ids(),
            match item {
                Some((entity, values)) => {
                    let (a, r) = old(self).remaining()[0];
                    let s = old(self).world();
                    &&& old(self).remaining().len() > 0
                    &&& final(self).remaining() == old(self).remaining().skip(1)
                    &&& entity == entity_at(s, (a, r))
                    &&& s.alive(entity)
                    &&& values@.len() == old(self).ids().len()
                    &&& forall|k: int|
                        0 <= k < values@.len() ==> s.value(entity, old(self).ids()[k]) == Some(
                            *(#[trigger] values@[k]),
                        )
                    &&& final(self).left_here() == s.archetypes[a].entities.len() - (r + 1)
                },
                None => {
                    &&& old(self).remaining().len() == 0
                    &&& final(self).remaining().len() == 0
                    &&& final(self).left_here() == 0
                },
            },
    {
        let row: usize = match self.walk.step(self.world) {
            Some(row) => row,
            None => return None,
        };
        proof {
            assert(self.world@.archetypes[self.walk.arch_idx as int].consistent());
            assert(self.world@.row_known(self.walk.arch_idx as int, row as int, -1));
        }
        let archetype = self.world.archetype(self.walk.arch_idx);
        let entity: Entity = archetype.entities()[row];
        let values = self.walk.query.fetch(archetype, &self.walk.columns, row);
        Some((entity, values))
    }

    /// At least as many rows are still to be visited, namely those of the current archetype.
    pub fn size_hint(&self) -> (lower: usize)
        requires
            self.wf(),
        ensures
            lower == self.left_here(),
            lower <= self.remaining().len(),
    {
        proof {
            if self.walk.current_len > 0 {
                assert(rows_of(
                    self.world@.archetypes,
                    self.walk.query.ids@,
                    self.walk.arch_idx as int,
                    self.walk.row as int,
                ).len() == self.walk.current_len - self.walk.row);
            }
        }
        self.walk.left_here()
    }
}

/// What is left of a query that writes. It visits one entity at a time, whose components can then be
/// read and written.
pub struct QueryMut<'w, V> {
    pub world: &'w mut World<V>,
    pub walk: Walk,
}

impl<'w, V> QueryMut<'w, V> {
    /// The world as it is now.
    pub open spec fn state(&self) -> WorldState<V> {
        (*self.world)@
    }

    /// The components that are wanted.
    pub closed spec fn ids(&self) -> Seq<ComponentId> {
        self.walk.query.ids@
    }

    /// The rows that are still to be visited.
    pub closed spec fn remaining(&self) -> Seq<(int, int)> {
        self.walk.remaining(self.state())
    }

    /// The row that is visited; none before the first and behind the last.
    pub closed spec fn current(&self) -> Option<(int, int)> {
        self.walk.current()
    }

    /// The entity that is visited.
    pub open spec fn entity(&self) -> Entity
        recommends
            self.current() is Some,
    {
        entity_at(self.state(), self.current()->0)
    }

    /// The position is one on the way through the world.
    pub closed spec fn placed(&self) -> bool {
        self.walk.sits(self.state())
    }

    /// The world is consistent, and the position is one on the way through it.
    pub open spec fn wf(&self) -> bool {
        &&& self.state().consistent()
        &&& self.placed()
    }

    /// Goes to the next entity and returns it; `None` at the end. The world stays as it is.
    pub fn next(&mut self) -> (entity: Option<Entity>)
        requires
            old(self).wf(),
        ensures
            final(self).wf(),
            *final(self).world == *old(self).world,
            *final(final(self).world) == *final(old(self).world),
            final(self).ids() == old(self).ids(),
            match entity {
                Some(entity) => {
                    &&& old(self).remaining().len() > 0
                    &&& final(self).remaining() == old(self).remaining().skip(1)
                    &&& final(self).current() == Some(old(self).remaining()[0])
                    &&& entity == final(self).entity()
                    &&& old(self).state().alive(entity)
                },
                None => {
                    &&& old(self).remaining().len() == 0
                    &&& final(self).remaining().len() == 0
                    &&& final(self).current() is None
                },
            },
    {
        let row: usize = match self.walk.step(&*self.world) {
            Some(row) => row,
            None => return None,
        };
        proof {
            assert(self.state().archetypes[self.walk.arch_idx as int].consistent());
            assert(self.state().row_known(self.walk.arch_idx as int, row as int, -1));
        }
        Some(self.world.archetype(self.walk.arch_idx).entities()[row])
    }

    /// The component asked for as number `which`, of the entity that is visited.
    pub fn get(&self, which: usize) -> (value: &V)
        requires
            self.wf(),
            self.current() is Some,
            which < self.ids().len(),
        ensures
            self.state().value(self.entity(), self.ids()[which as int]) == Some(*value),
    {
        let row: usize = self.walk.row - 1;
        proof {
            self.walk.lemma_current(self.state(), which as int);
        }
        self.world.archetype(self.walk.arch_idx).value(self.walk.columns[which], row)
    }

    /// The component asked for as number `which`, of the entity that is visited, to write to.
    /// Everything else stays, and the way goes on as before.
    pub fn get_mut(&mut self, which: usize) -> (value: &mut V)
        requires
            old(self).wf(),
            old(self).current() is Some,
            which < old(self).ids().len(),
        ensures
            final(self).wf(),
            old(self).state().value(old(self).entity(), old(self).ids()[which as int]) == Some(
                *value,
            ),
            final(self).state() == old(self).state().inserted(
                old(self).entity(),
                old(self).ids()[which as int],
                *final(value),
            ),
            *final(final(self).world) == *final(old(self).world),
            final(self).ids() == old(self).ids(),
            final(self).remaining() == old(self).remaining(),
            final(self).current() == old(self).current(),
    {
        let ghost before = self.state();
        let ghost entity = self.entity();
        let ghost id = self.ids()[which as int];
        let row: usize = self.walk.row - 1;
        proof {
            self.walk.lemma_current(self.state(), which as int);
        }
        let archetype = self.world.archetype_mut(self.walk.arch_idx);
        let value = self.walk.query.fetch_mut(archetype, &self.walk.columns, which, row);
        proof {
            let after = before.inserted(entity, id, *final(value));
            lemma_overwritten(before, entity.index as int, id, *final(value));
            lemma_same_rows(
                before.archetypes,
                after.archetypes,
                self.walk.query.ids@,
                self.walk.arch_idx as int,
                self.walk.row as int,
            );
        }
        value
    }
}

/// Which rows a query visits does not depend on the values.
proof fn lemma_same_rows<V>(
    before: Seq<ArchState<V>>,
    after: Seq<ArchState<V>>,
    ids: Seq<ComponentId>,
    a: int,
    r: int,
)
    requires
        0 <= a,
        before.len() == after.len(),
        forall|i: int|
            0 <= i < before.len() ==> (#[trigger] after[i]).ids == before[i].ids
                && after[i].entities == before[i].entities,
    ensures
        rows_from(after, ids, a, r) == rows_from(before, ids, a, r),
    decreases before.len() - a,
{
    if a < before.len() {
        assert(after[a].ids == before[a].ids);
        lemma_same_rows(before, after, ids, a + 1, 0);
        assert(rows_of(after, ids, a, r) =~= rows_of(before, ids, a, r));
    }
}

impl<V> World<V> {
    /// Walks the entities that have all these components.
    pub fn query(&self, query: WorldQuery) -> (iter: QueryIter<'_, V>)
        requires
            self.wf(),
        ensures
            iter.wf(),
            iter.world() == self@,
            iter.ids() == query.ids@,
            iter.remaining() == query_rows(self@, query.ids@),
    {
        QueryIter { world: self, walk: Walk::new(self, query) }
    }

    /// Walks the entities that have all these components, to write to them.
    pub fn query_mut(&mut self, query: WorldQuery) -> (iter: QueryMut<'_, V>)
        requires
            old(self).wf(),
        ensures
            iter.wf(),
            *iter.world == *old(self),
            *final(iter.world) == *final(self),
            iter.ids() == query.ids@,
            iter.remaining() == query_rows(old(self)@, query.ids@),
            iter.current() is None,
    {
        let walk = Walk::new(&*self, query);
        QueryMut { world: self, walk }
    }
}

/// The rows from a position on lie there, in archetypes that have all components, and none is
/// missing.
proof fn lemma_rows_from<V>(
    archetypes: Seq<ArchState<V>>,
    ids: Seq<ComponentId>,
    a: int,
    r: int,
)
    requires
        0 <= a,
        0 <= r,
        a < archetypes.len() ==> r <= archetypes[a].entities.len(),
    ensures
        forall|k: int|
            0 <= k < rows_from(archetypes, ids, a, r).len() ==> {
                let at = #[trigger] rows_from(archetypes, ids, a, r)[k];
                &&& a <= at.0 < archetypes.len()
                &&& (if at.0 == a {
                    r
                } else {
                    0
                }) <= at.1 < archetypes[at.0].entities.len()
                &&& has_all(archetypes[at.0].ids, ids)
            },
        forall|x: int, y: int|
            a <= x < archetypes.len() && (if x == a {
                r
            } else {
                0
            }) <= y < archetypes[x].entities.len() && has_all(archetypes[x].ids, ids)
                ==> rows_from(archetypes, ids, a, r).contains(#[trigger] pair(x, y)),
        forall|k: int, l: int|
            #![trigger rows_from(archetypes, ids, a, r)[k], rows_from(archetypes, ids, a, r)[l]]
            0 <= k < l < rows_from(archetypes, ids, a, r).len() ==> rows_from(
                archetypes,
                ids,
                a,
                r,
            )[k] != rows_from(archetypes, ids, a, r)[l],
    decreases archetypes.len() - a,
{
    if a < archetypes.len() {
        lemma_rows_from(archetypes, ids, a + 1, 0);
        let here = rows_of(archetypes, ids, a, r);
        let rest = rows_from(archetypes, ids, a + 1, 0);
        let all = rows_from(archetypes, ids, a, r);
        assert(all == here + rest);
        assert forall|k: int| 0 <= k < all.len() implies {
            let at = #[trigger] all[k];
            &&& a <= at.0 < archetypes.len()
            &&& (if at.0 == a {
                r
            } else {
                0
            }) <= at.1 < archetypes[at.0].entities.len()
            &&& has_all(archetypes[at.0].ids, ids)
        } by {
            if k >= here.len() {
                assert(all[k] == rest[k - here.len()]);
            }
        }
        assert forall|x: int, y: int|
            a <= x < archetypes.len() && (if x == a {
                r
            } else {
                0
            }) <= y < archetypes[x].entities.len() && has_all(archetypes[x].ids, ids) implies
            all.contains(#[trigger] pair(x, y)) by {
            if x == a {
                assert(all[y - r] == pair(x, y));
            } else {
                assert(rest.contains(pair(x, y)));
                let k = choose|k: int| 0 <= k < rest.len() && rest[k] == pair(x, y);
                assert(all[here.len() + k] == pair(x, y));
            }
        }
        assert forall|k: int, l: int|
            #![trigger all[k], all[l]]
            0 <= k < l < all.len() implies all[k] != all[l] by {
            if l < here.len() {
            } else if k < here.len() {
                assert(all[l] == rest[l - here.len()]);
            } else {
                assert(all[k] == rest[k - here.len()]);
                assert(all[l] == rest[l - here.len()]);
            }
        }
    }
}

/// An archetype and a row of it.
pub open spec fn pair(a: int, r: int) -> (int, int) {
    (a, r)
}

/// A query visits entities that are alive and have all components, and none of them twice.
pub proof fn law_query_visits_matching_entities<V>(
    s: WorldState<V>,
    ids: Seq<ComponentId>,
    k: int,
    l: int,
)
    requires
        s.consistent(),
        0 <= k < query_rows(s, ids).len(),
        0 <= l < query_rows(s, ids).len(),
    ensures
        s.alive(entity_at(s, query_rows(s, ids)[k])),
        forall|j: int|
            0 <= j < ids.len() ==> s.value(
                entity_at(s, query_rows(s, ids)[k]),
                #[trigger] ids[j],
            ) is Some,
        k != l ==> entity_at(s, query_rows(s, ids)[k]) != entity_at(s, query_rows(s, ids)[l]),
{
    lemma_rows_from(s.archetypes, ids, 0, 0);
    let rows = query_rows(s, ids);
    let (a, r) = rows[k];
    let (b, q) = rows[l];
    assert(s.row_known(a, r, -1));
    assert(s.row_known(b, q, -1));
    let entity = entity_at(s, rows[k]);
    assert(s.located(entity.index as int));
    assert forall|j: int| 0 <= j < ids.len() implies s.value(entity, #[trigger] ids[j]) is Some by {
        assert(holds(s.archetypes[a].ids, ids[j]));
    }
    if k != l {
        if k < l {
            assert(rows[k] != rows[l]);
        } else {
            assert(rows[l] != rows[k]);
        }
    }
}

/// A query misses no entity that is alive and has all components.
pub proof fn law_query_misses_nobody<V>(
    s: WorldState<V>,
    ids: Seq<ComponentId>,
    entity: Entity,
)
    requires
        s.consistent(),
        s.alive(entity),
        forall|j: int| 0 <= j < ids.len() ==> s.value(entity, #[trigger] ids[j]) is Some,
    ensures
        exists|k: int|
            0 <= k < query_rows(s, ids).len() && entity_at(s, #[trigger] query_rows(s, ids)[k])
                == entity,
{
    lemma_rows_from(s.archetypes, ids, 0, 0);
    let i = entity.index as int;
    assert(s.located(i));
    let slot = s.slots[i];
    let a = slot.archetype as int;
    let r = slot.row as int;
    assert(has_all(s.archetypes[a].ids, ids)) by {
        assert forall|j: int| 0 <= j < ids.len() implies holds(
            s.archetypes[a].ids,
            #[trigger] ids[j],
        ) by {
            assert(s.value(entity, ids[j]) is Some);
        }
    }
    let rows = query_rows(s, ids);
    assert(rows.contains(pair(a, r)));
    let k = choose|k: int| 0 <= k < rows.len() && rows[k] == pair(a, r);
    assert(entity_at(s, rows[k]) == entity);
}

/// Writing to a component an entity has changes neither which entities a query visits nor their
/// order, whatever it asks for.
pub proof fn law_writing_keeps_the_way<V>(
    s: WorldState<V>,
    ids: Seq<ComponentId>,
    entity: Entity,
    id: ComponentId,
    value: V,
)
    requires
        s.consistent(),
        s.value(entity, id) is Some,
    ensures
        query_rows(s.inserted(entity, id, value), ids) == query_rows(s, ids),
        forall|k: int|
            0 <= k < query_rows(s, ids).len() ==> entity_at(
                s.inserted(entity, id, value),
                #[trigger] query_rows(s, ids)[k],
            ) == entity_at(s, query_rows(s, ids)[k]),
{
    let after = s.inserted(entity, id, value);
    assert(s.located(entity.index as int));
    lemma_same_rows(s.archetypes, after.archetypes, ids, 0, 0);
    lemma_rows_from(s.archetypes, ids, 0, 0);
}

proof fn lemma_rows_ascend<V>(
    archetypes: Seq<ArchState<V>>,
    ids: Seq<ComponentId>,
    a: int,
    r: int,
    k: int,
    l: int,
)
    requires
        0 <= a,
        0 <= k <= l < rows_from(archetypes, ids, a, r).len(),
    ensures
        rows_from(archetypes, ids, a, r)[k].0 >= a,
        k < l ==> {
            let first = rows_from(archetypes, ids, a, r)[k];
            let second = rows_from(archetypes, ids, a, r)[l];
            first.0 < second.0 || (first.0 == second.0 && first.1 < second.1)
        },
    decreases archetypes.len() - a,
{
    if a < archetypes.len() {
        let here = rows_of(archetypes, ids, a, r);
        let rest = rows_from(archetypes, ids, a + 1, 0);
        let all = rows_from(archetypes, ids, a, r);
        if k >= here.len() {
            lemma_rows_ascend(archetypes, ids, a + 1, 0, k - here.len(), l - here.len());
            assert(all[k] == rest[k - here.len()]);
            assert(all[l] == rest[l - here.len()]);
        } else if l >= here.len() {
            lemma_rows_ascend(archetypes, ids, a + 1, 0, l - here.len(), l - here.len());
            assert(all[l] == rest[l - here.len()]);
        }
    }
}

/// A query goes through the archetypes in the order they came into being, and through the rows of each
/// in theirs.
pub proof fn law_query_goes_in_order<V>(
    s: WorldState<V>,
    ids: Seq<ComponentId>,
    k: int,
    l: int,
)
    requires
        0 <= k < l < query_rows(s, ids).len(),
    ensures
        ({
            let first = query_rows(s, ids)[k];
            let second = query_rows(s, ids)[l];
            first.0 < second.0 || (first.0 == second.0 && first.1 < second.1)
        }),
{
    lemma_rows_ascend(s.archetypes, ids, 0, 0, k, l);
}

} // verus!
