//! The entities that have the same component types, stored column by column.
use crate::entity::{ComponentId, Entity};
use vstd::prelude::*;

verus! {

/// The entities of an archetype in rows, and for each component type its values in the same order.
#[verifier::ext_equal]
pub struct ArchState<V> {
    /// In ascending order.
    pub ids: Seq<ComponentId>,
    pub entities: Seq<Entity>,
    pub columns: Seq<Seq<V>>,
}

/// The component types of one entity and its values.
#[verifier::ext_equal]
pub struct Row<V> {
    pub ids: Seq<ComponentId>,
    pub values: Seq<V>,
}

/// Strictly ascending.
pub open spec fn sorted(ids: Seq<ComponentId>) -> bool {
    forall|i: int, j: int|
        #![trigger ids[i], ids[j]]
        0 <= i < j < ids.len() ==> ids[i].0 < ids[j].0
}

/// How many of the ascending `ids` come before `id`.
pub open spec fn place(ids: Seq<ComponentId>, id: ComponentId) -> int
    decreases ids.len(),
{
    if ids.len() == 0 {
        0
    } else if ids.last().0 < id.0 {
        ids.len() as int
    } else {
        place(ids.drop_last(), id)
    }
}

/// Whether `id` is among the ascending `ids`.
pub open spec fn holds(ids: Seq<ComponentId>, id: ComponentId) -> bool {
    place(ids, id) < ids.len() && ids[place(ids, id)] == id
}

pub proof fn lemma_place(ids: Seq<ComponentId>, id: ComponentId)
    requires
        sorted(ids),
    ensures
        0 <= place(ids, id) <= ids.len(),
        forall|k: int| 0 <= k < place(ids, id) ==> (#[trigger] ids[k]).0 < id.0,
        forall|k: int| place(ids, id) <= k < ids.len() ==> (#[trigger] ids[k]).0 >= id.0,
        holds(ids, id) == ids.contains(id),
    decreases ids.len(),
{
    if ids.len() > 0 {
        if ids.last().0 < id.0 {
            assert forall|k: int| 0 <= k < ids.len() implies (#[trigger] ids[k]).0 < id.0 by {
                if k < ids.len() - 1 {
                    assert(ids[k].0 < ids[ids.len() - 1].0);
                }
            }
        } else {
            let front = ids.drop_last();
            assert(sorted(front)) by {
                assert forall|i: int, j: int|
                    #![trigger front[i], front[j]]
                    0 <= i < j < front.len() implies front[i].0 < front[j].0 by {
                    assert(ids[i].0 < ids[j].0);
                }
            }
            lemma_place(front, id);
            assert forall|k: int| 0 <= k < place(ids, id) implies (#[trigger] ids[k]).0 < id.0 by {
                assert(front[k].0 < id.0);
            }
            assert forall|k: int| place(ids, id) <= k < ids.len() implies (#[trigger] ids[k]).0
                >= id.0 by {
                if k < front.len() {
                    assert(front[k].0 >= id.0);
                }
            }
        }
    }
    if ids.contains(id) {
        let k = choose|k: int| 0 <= k < ids.len() && ids[k] == id;
        let p = place(ids, id);
        if p < k {
            assert(ids[p].0 < ids[k].0);
        }
    }
}

/// The place is the only position that splits the ids around `id`.
pub proof fn lemma_place_is(ids: Seq<ComponentId>, id: ComponentId, p: int)
    requires
        sorted(ids),
        0 <= p <= ids.len(),
        forall|k: int| 0 <= k < p ==> (#[trigger] ids[k]).0 < id.0,
        p < ids.len() ==> ids[p].0 >= id.0,
    ensures
        place(ids, id) == p,
{
    lemma_place(ids, id);
    let q = place(ids, id);
    if q < p {
        assert(ids[q].0 < id.0);
    } else if p < q {
        assert(ids[p].0 < id.0);
    }
}

impl<V> Row<V> {
    /// The ids ascend, and each has a value.
    pub open spec fn consistent(self) -> bool {
        &&& sorted(self.ids)
        &&& self.values.len() == self.ids.len()
    }

    /// No components.
    pub open spec fn empty() -> Row<V> {
        Row { ids: seq![], values: seq![] }
    }

    /// The value of a component, if the row has it.
    pub open spec fn value(self, id: ComponentId) -> Option<V> {
        if holds(self.ids, id) {
            Some(self.values[place(self.ids, id)])
        } else {
            None
        }
    }

    /// The row with a component set to `value`.
    pub open spec fn with(self, id: ComponentId, value: V) -> Row<V> {
        let p = place(self.ids, id);
        if holds(self.ids, id) {
            Row { values: self.values.update(p, value), ..self }
        } else {
            Row { ids: self.ids.insert(p, id), values: self.values.insert(p, value) }
        }
    }

    /// The row without a component.
    pub open spec fn without(self, id: ComponentId) -> Row<V> {
        let p = place(self.ids, id);
        if holds(self.ids, id) {
            Row { ids: self.ids.remove(p), values: self.values.remove(p) }
        } else {
            self
        }
    }
}

/// Setting a component changes the value of that one only.
pub proof fn lemma_with<V>(row: Row<V>, id: ComponentId, value: V)
    requires
        row.consistent(),
    ensures
        row.with(id, value).consistent(),
        row.with(id, value).value(id) == Some(value),
        forall|other: ComponentId|
            other != id ==> #[trigger] row.with(id, value).value(other) == row.value(other),
{
    let p = place(row.ids, id);
    let after = row.with(id, value);
    lemma_place(row.ids, id);
    assert(sorted(after.ids)) by {
        assert forall|i: int, j: int|
            #![trigger after.ids[i], after.ids[j]]
            0 <= i < j < after.ids.len() implies after.ids[i].0 < after.ids[j].0 by {
            if !holds(row.ids, id) {
                if i == p {
                    let k = row.ids[j - 1];
                    assert(k.0 >= id.0);
                    if k.0 == id.0 {
                        assert(k == id);
                        assert(row.ids.contains(id));
                    }
                } else if j == p {
                    assert(row.ids[i].0 < id.0);
                } else {
                    let a = if i < p {
                        i
                    } else {
                        i - 1
                    };
                    let b = if j < p {
                        j
                    } else {
                        j - 1
                    };
                    assert(row.ids[a].0 < row.ids[b].0);
                }
            }
        }
    }
    if !holds(row.ids, id) {
        assert forall|k: int| 0 <= k < p implies (#[trigger] after.ids[k]).0 < id.0 by {
            assert(row.ids[k].0 < id.0);
        }
        lemma_place_is(after.ids, id, p);
    }
    assert forall|other: ComponentId| other != id implies #[trigger] row.with(id, value).value(
        other,
    ) == row.value(other) by {
        lemma_place(row.ids, other);
        let q = place(row.ids, other);
        if !holds(row.ids, id) {
            let r = if id.0 < other.0 {
                q + 1
            } else {
                q
            };
            assert(other.0 != id.0);
            if id.0 < other.0 {
                if q < p {
                    assert(row.ids[q].0 < id.0);
                }
            } else {
                if p < q {
                    assert(row.ids[p].0 < other.0);
                }
            }
            assert forall|k: int| 0 <= k < r implies (#[trigger] after.ids[k]).0 < other.0 by {
                if k < p {
                    if k < q {
                        assert(row.ids[k].0 < other.0);
                    } else {
                        assert(row.ids[k].0 < id.0);
                    }
                } else if k > p {
                    assert(row.ids[k - 1].0 < other.0);
                }
            }
            if r < after.ids.len() {
                if r < p {
                    assert(after.ids[r] == row.ids[r]);
                } else if r > p {
                    assert(after.ids[r] == row.ids[r - 1]);
                }
            }
            lemma_place_is(after.ids, other, r);
        }
    }
}

/// Removing a component changes the value of that one only.
pub proof fn lemma_without<V>(row: Row<V>, id: ComponentId)
    requires
        row.consistent(),
    ensures
        row.without(id).consistent(),
        row.without(id).value(id) is None,
        forall|other: ComponentId|
            other != id ==> #[trigger] row.without(id).value(other) == row.value(other),
{
    let p = place(row.ids, id);
    let after = row.without(id);
    lemma_place(row.ids, id);
    if holds(row.ids, id) {
        assert(sorted(after.ids)) by {
            assert forall|i: int, j: int|
                #![trigger after.ids[i], after.ids[j]]
                0 <= i < j < after.ids.len() implies after.ids[i].0 < after.ids[j].0 by {
                let a = if i < p {
                    i
                } else {
                    i + 1
                };
                let b = if j < p {
                    j
                } else {
                    j + 1
                };
                assert(row.ids[a].0 < row.ids[b].0);
            }
        }
        lemma_place(after.ids, id);
        if after.ids.contains(id) {
            let k = choose|k: int| 0 <= k < after.ids.len() && after.ids[k] == id;
            let a = if k < p {
                k
            } else {
                k + 1
            };
            assert(row.ids[a] == id);
            if a < p {
                assert(row.ids[a].0 < row.ids[p].0);
            } else {
                assert(row.ids[p].0 < row.ids[a].0);
            }
        }
        assert forall|other: ComponentId| other != id implies #[trigger] row.without(id).value(
            other,
        ) == row.value(other) by {
            lemma_place(row.ids, other);
            let q = place(row.ids, other);
            let r = if id.0 < other.0 {
                q - 1
            } else {
                q
            };
            assert(other.0 != id.0);
            if id.0 < other.0 {
                if q <= p {
                    assert(row.ids[p].0 >= other.0);
                }
            } else if p < q {
                assert(row.ids[p].0 < other.0);
            }
            assert forall|k: int| 0 <= k < r implies (#[trigger] after.ids[k]).0 < other.0 by {
                let a = if k < p {
                    k
                } else {
                    k + 1
                };
                assert(row.ids[a].0 < other.0);
            }
            if r < after.ids.len() {
                let a = if r < p {
                    r
                } else {
                    r + 1
                };
                assert(row.ids[a].0 >= other.0);
            }
            lemma_place_is(after.ids, other, r);
        }
    }
}

/// The sequence with element `i` replaced by the last one, which is then gone from the end.
pub open spec fn swap_removed<T>(s: Seq<T>, i: int) -> Seq<T> {
    s.update(i, s.last()).drop_last()
}

impl<V> ArchState<V> {
    /// An archetype without entities.
    pub open spec fn empty(ids: Seq<ComponentId>) -> ArchState<V> {
        ArchState { ids, entities: seq![], columns: Seq::new(ids.len(), |k: int| Seq::<V>::empty()) }
    }

    /// Every component type has a column, and every entity has a value in each.
    pub open spec fn consistent(self) -> bool {
        &&& sorted(self.ids)
        &&& self.columns.len() == self.ids.len()
        &&& forall|k: int|
            0 <= k < self.columns.len() ==> (#[trigger] self.columns[k]).len()
                == self.entities.len()
    }

    /// The values of one row.
    pub open spec fn row(self, row: int) -> Row<V> {
        Row { ids: self.ids, values: Seq::new(self.columns.len(), |k: int| self.columns[k][row]) }
    }

    /// A row is added at the end.
    pub open spec fn with_row(self, entity: Entity, values: Seq<V>) -> ArchState<V> {
        ArchState {
            ids: self.ids,
            entities: self.entities.push(entity),
            columns: Seq::new(
                self.columns.len(),
                |k: int| self.columns[k].push(values[k]),
            ),
        }
    }

    /// A row is removed; the last row takes its place.
    pub open spec fn without_row(self, row: int) -> ArchState<V> {
        ArchState {
            ids: self.ids,
            entities: swap_removed(self.entities, row),
            columns: Seq::new(
                self.columns.len(),
                |k: int| swap_removed(self.columns[k], row),
            ),
        }
    }

    /// The value of a component in a row is replaced.
    pub open spec fn with_value(self, column: int, row: int, value: V) -> ArchState<V> {
        ArchState {
            columns: self.columns.update(column, self.columns[column].update(row, value)),
            ..self
        }
    }
}

/// The entities that have the same component types.
#[derive(Debug)]
pub struct Archetype<V> {
    ids: Vec<ComponentId>,
    entities: Vec<Entity>,
    columns: Vec<Vec<V>>,
}

spec fn column_views<V>(columns: Seq<Vec<V>>) -> Seq<Seq<V>> {
    Seq::new(columns.len(), |k: int| columns[k]@)
}

impl<V> View for Archetype<V> {
    type V = ArchState<V>;

    closed spec fn view(&self) -> ArchState<V> {
        ArchState {
            ids: self.ids@,
            entities: self.entities@,
            columns: column_views(self.columns@),
        }
    }
}

impl<V> Archetype<V> {
    /// An archetype without entities.
    pub fn new(ids: Vec<ComponentId>) -> (archetype: Self)
        ensures
            archetype@ == ArchState::<V>::empty(ids@),
    {
        let mut columns: Vec<Vec<V>> = Vec::new();
        let mut i: usize = 0;
        while i < ids.len()
            invariant
                i <= ids@.len(),
                columns@.len() == i,
                forall|k: int| 0 <= k < i ==> (#[trigger] columns@[k])@ == Seq::<V>::empty(),
            decreases ids@.len() - i,
        {
            columns.push(Vec::new());
            i = i + 1;
        }
        let archetype = Archetype { ids, entities: Vec::new(), columns };
        assert(archetype@.columns =~= ArchState::<V>::empty(ids@).columns);
        assert(archetype@.entities =~= seq![]);
        archetype
    }

    /// The component types, ascending.
    pub fn ids(&self) -> (ids: &Vec<ComponentId>)
        ensures
            ids@ == self@.ids,
    {
        &self.ids
    }

    /// The entities, row by row.
    pub fn entities(&self) -> (entities: &Vec<Entity>)
        ensures
            entities@ == self@.entities,
    {
        &self.entities
    }

    /// The column of a component type, if the archetype has it.
    pub fn column_of(&self, id: ComponentId) -> (column: Option<usize>)
        requires
            sorted(self@.ids),
        ensures
            match column {
                Some(k) => holds(self@.ids, id) && k == place(self@.ids, id),
                None => !holds(self@.ids, id),
            },
    {
        let p: usize = place_in(&self.ids, id);
        if p < self.ids.len() && self.ids[p] == id {
            Some(p)
        } else {
            None
        }
    }

    /// Whether the archetype has every one of these component types.
    pub fn has_columns(&self, ids: &[ComponentId]) -> (all: bool)
        requires
            sorted(self@.ids),
        ensures
            all == has_all(self@.ids, ids@),
    {
        let mut i: usize = 0;
        while i < ids.len()
            invariant
                i <= ids@.len(),
                sorted(self@.ids),
                forall|k: int| 0 <= k < i ==> holds(self@.ids, #[trigger] ids@[k]),
            decreases ids@.len() - i,
        {
            if self.column_of(ids[i]).is_none() {
                assert(!holds(self@.ids, ids@[i as int]));
                return false;
            }
            i = i + 1;
        }
        true
    }

    /// The value in a column's row.
    pub fn value(&self, column: usize, row: usize) -> (value: &V)
        requires
            self@.consistent(),
            column < self@.columns.len(),
            row < self@.entities.len(),
        ensures
            *value == self@.columns[column as int][row as int],
    {
        assert(self@.columns[column as int] == self.columns@[column as int]@);
        &self.columns[column][row]
    }

    /// The value in a column's row, to write to.
    pub fn value_mut(&mut self, column: usize, row: usize) -> (value: &mut V)
        requires
            old(self)@.consistent(),
            column < old(self)@.columns.len(),
            row < old(self)@.entities.len(),
        ensures
            *value == old(self)@.columns[column as int][row as int],
            final(self)@ == old(self)@.with_value(column as int, row as int, *final(value)),
    {
        let ghost before = self@;
        assert(self@.columns[column as int] == self.columns@[column as int]@);
        let value = &mut self.columns[column][row];
        assert(column_views(after_borrow(*self).columns@) =~= before.columns.update(
            column as int,
            before.columns[column as int].update(row as int, *final(value)),
        ));
        value
    }

    /// Adds a row.
    pub fn push_row(&mut self, entity: Entity, values: Vec<V>)
        requires
            old(self)@.consistent(),
            values@.len() == old(self)@.columns.len(),
        ensures
            final(self)@ == old(self)@.with_row(entity, values@),
    {
        let ghost before = self@;
        let ghost content = values@;
        let mut rest = values;
        let mut k: usize = self.columns.len();
        while k > 0
            invariant
                before == old(self)@,
                k <= self.columns@.len() == before.columns.len() == content.len(),
                rest@ == content.take(k as int),
                self.ids@ == before.ids,
                self.entities@ == before.entities,
                forall|j: int|
                    0 <= j < k ==> (#[trigger] self.columns@[j])@ == before.columns[j],
                forall|j: int|
                    k <= j < before.columns.len() ==> (#[trigger] self.columns@[j])@
                        == before.columns[j].push(content[j]),
            decreases k,
        {
            k = k - 1;
            match rest.pop() {
                Some(value) => {
                    self.columns[k].push(value);
                },
                None => {
                    assert(false);
                },
            }
            assert(rest@ =~= content.take(k as int));
        }
        self.entities.push(entity);
        assert(self@.columns =~= before.with_row(entity, content).columns);
    }

    /// Takes a row out; the last row takes its place.
    pub fn take_row(&mut self, row: usize) -> (values: Vec<V>)
        requires
            old(self)@.consistent(),
            row < old(self)@.entities.len(),
        ensures
            final(self)@ == old(self)@.without_row(row as int),
            values@ == old(self)@.row(row as int).values,
    {
        let ghost before = self@;
        let mut values: Vec<V> = Vec::new();
        let mut k: usize = 0;
        while k < self.columns.len()
            invariant
                before == old(self)@,
                before.consistent(),
                row < before.entities.len(),
                k <= self.columns@.len() == before.columns.len(),
                self.ids@ == before.ids,
                self.entities@ == before.entities,
                values@.len() == k,
                forall|j: int| 0 <= j < k ==> values@[j] == before.columns[j][row as int],
                forall|j: int|
                    0 <= j < k ==> (#[trigger] self.columns@[j])@ == swap_removed(
                        before.columns[j],
                        row as int,
                    ),
                forall|j: int|
                    k <= j < before.columns.len() ==> (#[trigger] self.columns@[j])@
                        == before.columns[j],
            decreases self.columns@.len() - k,
        {
            assert(before.columns[k as int].len() == before.entities.len());
            assert(self.columns@[k as int]@ == before.columns[k as int]);
            let value = self.columns[k].swap_remove(row);
            values.push(value);
            k = k + 1;
        }
        let _ = self.entities.swap_remove(row);
        assert(self@.columns =~= before.without_row(row as int).columns);
        assert(values@ =~= before.row(row as int).values);
        values
    }

    /// Makes room for more rows. What the archetype holds stays; the room is the allocator's and is
    /// no part of the view.
    pub fn reserve(&mut self, additional: usize)
        ensures
            final(self)@ == old(self)@,
    {
        let ghost before = self@;
        self.entities.reserve(additional);
        let mut k: usize = 0;
        while k < self.columns.len()
            invariant
                before == old(self)@,
                k <= self.columns@.len(),
                self@ == before,
            decreases self.columns@.len() - k,
        {
            self.columns[k].reserve(additional);
            k = k + 1;
            assert(self@.columns =~= before.columns);
        }
    }
}

/// All of `wanted` are among the ascending `ids`.
pub open spec fn has_all(ids: Seq<ComponentId>, wanted: Seq<ComponentId>) -> bool {
    forall|k: int| 0 <= k < wanted.len() ==> holds(ids, #[trigger] wanted[k])
}

/// How many of the ascending `ids` come before `id`.
pub fn place_in(ids: &Vec<ComponentId>, id: ComponentId) -> (p: usize)
    ensures
        p == place(ids@, id),
{
    let mut p: usize = ids.len();
    assert(ids@.take(p as int) =~= ids@);
    while p > 0 && ids[p - 1].0 >= id.0
        invariant
            p <= ids@.len(),
            place(ids@, id) == place(ids@.take(p as int), id),
        decreases p,
    {
        assert(ids@.take(p as int).drop_last() =~= ids@.take(p - 1));
        p = p - 1;
    }
    p
}

/// Whether both are the same list.
pub fn same_ids(a: &Vec<ComponentId>, b: &Vec<ComponentId>) -> (same: bool)
    ensures
        same == (a@ == b@),
{
    if a.len() != b.len() {
        return false;
    }
    let mut i: usize = 0;
    while i < a.len()
        invariant
            i <= a@.len() == b@.len(),
            forall|k: int| 0 <= k < i ==> a@[k] == b@[k],
        decreases a@.len() - i,
    {
        if a[i] != b[i] {
            assert(a@[i as int] != b@[i as int]);
            return false;
        }
        i = i + 1;
    }
    assert(a@ =~= b@);
    true
}

/// A copy of the list.
pub fn copy_ids(ids: &Vec<ComponentId>) -> (copy: Vec<ComponentId>)
    ensures
        copy@ == ids@,
{
    let mut copy: Vec<ComponentId> = Vec::new();
    let mut i: usize = 0;
    while i < ids.len()
        invariant
            i <= ids@.len(),
            copy@ == ids@.take(i as int),
        decreases ids@.len() - i,
    {
        copy.push(ids[i]);
        i = i + 1;
        assert(copy@ =~= ids@.take(i as int));
    }
    assert(copy@ =~= ids@);
    copy
}

} // verus!
