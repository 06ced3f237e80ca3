//! A journal of changes per component type, with independent readers.
//!
//! A journal records the changes to one component type in order. Each reader has a cursor of its own
//! and reads forward from it; reading takes nothing away from other readers. A type has a journal
//! only once a cursor was opened for it. A journal keeps a bounded number of changes: a reader that
//! falls further behind is told so, instead of being given a list with a gap, and has to look at
//! everything again.
use crate::entity::{ComponentId, Entity};
use ahash::AHashMap;
use std::collections::VecDeque;
use vstd::prelude::*;

verus! {

/// Changes that a journal keeps.
pub const DEFAULT_JOURNAL_CAPACITY: usize = 0x1_0000;

/// What happened to a component.
#[derive(Clone, Copy, Debug, PartialEq, Eq, Hash, Structural)]
pub enum ComponentChangeKind {
    /// It was inserted, or overwritten by an insertion.
    Inserted,
    /// It was written to.
    Mutated,
    /// It was removed, or its entity was despawned.
    Removed,
}

/// One recorded change.
#[derive(Clone, Copy, Debug, PartialEq, Eq, Structural)]
pub struct ComponentChange {
    pub entity: Entity,
    pub kind: ComponentChangeKind,
}

/// A reader's position in the journal of one component type.
#[derive(Clone, Copy, Debug, PartialEq, Eq, Structural)]
pub struct ChangeCursor {
    component: ComponentId,
    next: u64,
}

/// The component type a cursor reads, and the number of the next change.
pub struct Position {
    pub component: ComponentId,
    pub next: u64,
}

impl View for ChangeCursor {
    type V = Position;

    closed spec fn view(&self) -> Position {
        Position { component: self.component, next: self.next }
    }
}

impl ChangeCursor {
    /// The component type this cursor reads.
    pub fn component(&self) -> (component: ComponentId)
        ensures
            component == self@.component,
    {
        self.component
    }
}

/// What a read gave.
#[derive(Clone, Copy, Debug, PartialEq, Eq, Structural)]
#[must_use]
pub enum ChangeRead {
    /// Every change since the reader last looked.
    Complete,
    /// Nothing, because changes the reader has not seen are gone. It now stands at the end.
    Overflowed,
}

/// The changes a journal still has, and the number of the first of them.
pub struct JournalState {
    pub first: u64,
    pub entries: Seq<ComponentChange>,
    pub capacity: usize,
}

impl JournalState {
    /// A journal without changes.
    pub open spec fn empty() -> JournalState {
        JournalState { first: 0, entries: seq![], capacity: DEFAULT_JOURNAL_CAPACITY }
    }

    /// The number of the next change.
    pub open spec fn end(self) -> int {
        self.first + self.entries.len()
    }

    /// No more changes than the journal keeps, and all have numbers.
    pub open spec fn consistent(self) -> bool {
        &&& 0 < self.capacity
        &&& self.entries.len() <= self.capacity
        &&& self.end() <= u64::MAX
    }

    /// A change is recorded; the oldest one goes if the journal is full.
    pub open spec fn recorded(self, change: ComponentChange) -> JournalState {
        if self.entries.len() == self.capacity {
            JournalState {
                first: (self.first + 1) as u64,
                entries: self.entries.skip(1).push(change),
                ..self
            }
        } else {
            JournalState { entries: self.entries.push(change), ..self }
        }
    }

    /// Changes are recorded one after the other.
    pub open spec fn recorded_all(self, changes: Seq<ComponentChange>) -> JournalState
        decreases changes.len(),
    {
        if changes.len() == 0 {
            self
        } else {
            self.recorded_all(changes.drop_last()).recorded(changes.last())
        }
    }

    /// The reader that stands at `next` has missed nothing.
    pub open spec fn reaches(self, next: u64) -> bool {
        self.first <= next <= self.end()
    }
}

proof fn lemma_recorded(state: JournalState, change: ComponentChange)
    requires
        state.consistent(),
        state.end() < u64::MAX,
    ensures
        state.recorded(change).consistent(),
        state.recorded(change).end() == state.end() + 1,
        state.recorded(change).capacity == state.capacity,
        state.recorded(change).entries.len() == if state.entries.len() == state.capacity {
            state.entries.len()
        } else {
            state.entries.len() + 1
        },
        state.recorded(change).entries.last() == change,
{
}

/// Recording changes keeps the last of all changes, as many as the journal holds.
proof fn lemma_recorded_all(state: JournalState, changes: Seq<ComponentChange>)
    requires
        state.consistent(),
        state.end() + changes.len() <= u64::MAX,
    ensures
        state.recorded_all(changes).consistent(),
        state.recorded_all(changes).end() == state.end() + changes.len(),
        state.recorded_all(changes).capacity == state.capacity,
        state.recorded_all(changes).entries.len() == if state.entries.len() + changes.len()
            <= state.capacity {
            (state.entries.len() + changes.len()) as int
        } else {
            state.capacity as int
        },
        state.recorded_all(changes).entries == (state.entries + changes).skip(
            state.entries.len() + changes.len() - state.recorded_all(changes).entries.len(),
        ),
    decreases changes.len(),
{
    if changes.len() == 0 {
        assert(state.entries + changes =~= state.entries);
        assert((state.entries + changes).skip(0) =~= state.entries);
    } else {
        let front = changes.drop_last();
        lemma_recorded_all(state, front);
        let before = state.recorded_all(front);
        lemma_recorded(before, changes.last());
        let after = state.recorded_all(changes);
        assert(after.entries =~= (state.entries + changes).skip(
            state.entries.len() + changes.len() - after.entries.len(),
        ));
    }
}

/// A reader that keeps up is given exactly the changes made since it last looked, in order: from a
/// cursor at the end, after no more changes than the journal keeps, it reads just these.
pub proof fn law_reader_gets_what_happened_since(
    state: JournalState,
    changes: Seq<ComponentChange>,
)
    requires
        state.consistent(),
        state.end() + changes.len() <= u64::MAX,
        changes.len() <= state.capacity,
    ensures
        state.recorded_all(changes).reaches(state.end() as u64),
        state.recorded_all(changes).entries.skip(
            state.end() - state.recorded_all(changes).first,
        ) == changes,
{
    lemma_recorded_all(state, changes);
    let after = state.recorded_all(changes);
    assert(after.entries.skip(state.end() - after.first) =~= changes);
}

/// A reader that falls further behind than the journal keeps is told so.
pub proof fn law_lagging_reader_overflows(state: JournalState, changes: Seq<ComponentChange>)
    requires
        state.consistent(),
        state.end() + changes.len() <= u64::MAX,
        changes.len() > state.capacity,
    ensures
        !state.recorded_all(changes).reaches(state.end() as u64),
{
    lemma_recorded_all(state, changes);
}

struct Journal {
    first: u64,
    entries: VecDeque<ComponentChange>,
    capacity: usize,
}

impl View for Journal {
    type V = JournalState;

    closed spec fn view(&self) -> JournalState {
        JournalState { first: self.first, entries: self.entries@, capacity: self.capacity }
    }
}

impl Journal {
    fn end(&self) -> (end: u64)
        requires
            self@.consistent(),
        ensures
            end == self@.end(),
    {
        self.first + self.entries.len() as u64
    }

    fn push(&mut self, change: ComponentChange)
        requires
            old(self)@.consistent(),
            old(self)@.end() < u64::MAX,
        ensures
            final(self)@.consistent(),
            final(self)@ == old(self)@.recorded(change),
    {
        let ghost before = self@;
        if self.entries.len() == self.capacity {
            let _ = self.entries.pop_front();
            self.first = self.first + 1;
        }
        self.entries.push_back(change);
        assert(self@.entries =~= before.recorded(change).entries);
    }
}

/// `ahash::RandomState`, the hasher of a map. Nothing is claimed of it.
#[verifier::external_type_specification]
#[verifier::external_body]
pub struct ExRandomState(ahash::RandomState);

/// `ahash::AHashMap`. What a map holds has a name; how it is kept is not looked into.
#[verifier::external_type_specification]
#[verifier::external_body]
#[verifier::reject_recursive_types(K)]
#[verifier::reject_recursive_types(V)]
#[verifier::reject_recursive_types(S)]
pub struct ExAHashMap<K, V, S>(ahash::AHashMap<K, V, S>);

/// What a map holds.
pub uninterp spec fn places(map: AHashMap<u32, usize>) -> Map<u32, usize>;

/// `ahash::AHashMap::new`. The map holds nothing.
#[verifier::external_body]
fn new_places() -> (map: AHashMap<u32, usize>)
    ensures
        places(map).dom() == Set::<u32>::empty(),
{
    AHashMap::new()
}

/// `ahash::AHashMap::get`. The value of the key, if the map has one.
#[verifier::external_body]
fn place_of(map: &AHashMap<u32, usize>, key: u32) -> (place: Option<usize>)
    ensures
        place is Some == places(*map).dom().contains(key),
        place is Some ==> place == Some(places(*map)[key]),
{
    map.get(&key).copied()
}

/// `ahash::AHashMap::insert`. The key has the value from now on; the others keep theirs.
#[verifier::external_body]
fn set_place(map: &mut AHashMap<u32, usize>, key: u32, place: usize)
    ensures
        places(*final(map)) == places(*old(map)).insert(key, place),
{
    map.insert(key, place);
}

/// The journals, by component type.
pub struct ChangeJournals {
    places: AHashMap<u32, usize>,
    journals: Vec<Journal>,
}

impl View for ChangeJournals {
    type V = Map<ComponentId, JournalState>;

    closed spec fn view(&self) -> Map<ComponentId, JournalState> {
        Map::new(
            |c: ComponentId| places(self.places).dom().contains(c.0),
            |c: ComponentId| self.journals@[places(self.places)[c.0] as int]@,
        )
    }
}

/// The journals after a change of a component: types without a journal record nothing.
pub open spec fn change_recorded(
    journals: Map<ComponentId, JournalState>,
    entity: Entity,
    component: ComponentId,
    kind: ComponentChangeKind,
) -> Map<ComponentId, JournalState> {
    if journals.dom().contains(component) {
        journals.insert(
            component,
            journals[component].recorded(ComponentChange { entity, kind }),
        )
    } else {
        journals
    }
}

/// There is a number for one more change of this component type.
pub open spec fn can_record(
    journals: Map<ComponentId, JournalState>,
    component: ComponentId,
) -> bool {
    journals.dom().contains(component) ==> journals[component].end() < u64::MAX
}

impl ChangeJournals {
    /// Each component type has a journal of its own.
    pub closed spec fn wf(&self) -> bool {
        let at = places(self.places);
        &&& forall|c: u32| #[trigger] at.dom().contains(c) ==> at[c] < self.journals@.len()
        &&& forall|c: u32, d: u32|
            #![trigger at[c], at[d]]
            at.dom().contains(c) && at.dom().contains(d) && c != d ==> at[c] != at[d]
        &&& forall|i: int|
            0 <= i < self.journals@.len() ==> (#[trigger] self.journals@[i])@.consistent()
    }

    pub proof fn lemma_wf(&self)
        requires
            self.wf(),
        ensures
            forall|c: ComponentId| #[trigger]
                self@.dom().contains(c) ==> self@[c].consistent(),
    {
        assert forall|c: ComponentId| #[trigger] self@.dom().contains(c) implies
            self@[c].consistent() by {
            assert(places(self.places).dom().contains(c.0));
        }
    }

    /// No type has a journal.
    pub fn new() -> (journals: Self)
        ensures
            journals.wf(),
            journals@ == Map::<ComponentId, JournalState>::empty(),
    {
        let journals = ChangeJournals { places: new_places(), journals: Vec::new() };
        assert(journals@ =~= Map::<ComponentId, JournalState>::empty());
        journals
    }

    /// A cursor that sees the changes made from now on. The type has a journal from now on.
    pub fn open(&mut self, component: ComponentId) -> (cursor: ChangeCursor)
        requires
            old(self).wf(),
        ensures
            final(self).wf(),
            final(self)@ == if old(self)@.dom().contains(component) {
                old(self)@
            } else {
                old(self)@.insert(component, JournalState::empty())
            },
            cursor@.component == component,
            cursor@.next == final(self)@[component].end(),
    {
        let ghost before = self@;
        let ghost start = *self;
        let at: usize = match place_of(&self.places, component.0) {
            Some(at) => at,
            None => {
                let at: usize = self.journals.len();
                let journal = Journal {
                    first: 0,
                    entries: VecDeque::new(),
                    capacity: DEFAULT_JOURNAL_CAPACITY,
                };
                assert(journal@.entries =~= seq![]);
                self.journals.push(journal);
                set_place(&mut self.places, component.0, at);
                proof {
                    let was = places(start.places);
                    let now = places(self.places);
                    assert forall|c: u32, d: u32|
                        #![trigger now[c], now[d]]
                        now.dom().contains(c) && now.dom().contains(d) && c != d implies now[c]
                        != now[d] by {
                        if c != component.0 && d != component.0 {
                            assert(was[c] != was[d]);
                        } else if c == component.0 {
                            assert(was.dom().contains(d));
                        } else {
                            assert(was.dom().contains(c));
                        }
                    }
                    assert forall|c: ComponentId| #[trigger] self@.dom().contains(c) && c
                        != component implies self@[c] == before[c] by {
                        assert(was.dom().contains(c.0));
                    }
                    assert(self@ =~= before.insert(component, JournalState::empty()));
                }
                at
            },
        };
        proof {
            assert(places(self.places).dom().contains(component.0));
            assert(self@.dom().contains(component));
            assert(self@[component] == self.journals@[at as int]@);
        }
        ChangeCursor { component, next: self.journals[at].end() }
    }

    /// Sets how many changes the journal of a type keeps. Whether the type has a journal.
    pub fn set_capacity(&mut self, component: ComponentId, capacity: usize) -> (set: bool)
        requires
            old(self).wf(),
            old(self)@.dom().contains(component) ==> 0 < capacity
                && old(self)@[component].entries.len() <= capacity,
        ensures
            final(self).wf(),
            set == old(self)@.dom().contains(component),
            final(self)@ == if set {
                old(self)@.insert(
                    component,
                    JournalState { capacity, ..old(self)@[component] },
                )
            } else {
                old(self)@
            },
    {
        let ghost before = self@;
        let ghost start = *self;
        match place_of(&self.places, component.0) {
            Some(at) => {
                proof {
                    assert(places(self.places).dom().contains(component.0));
                    assert(before.dom().contains(component));
                    assert(self.journals@[at as int]@.consistent());
                }
                self.journals[at].capacity = capacity;
                proof {
                    self.lemma_one_changed(&start, component, at as int);
                }
                true
            },
            None => false,
        }
    }

    /// Only the journal of `component` changed.
    proof fn lemma_one_changed(&self, start: &ChangeJournals, component: ComponentId, at: int)
        requires
            start.wf(),
            self.places == start.places,
            places(start.places).dom().contains(component.0),
            places(start.places)[component.0] == at,
            self.journals@.len() == start.journals@.len(),
            forall|i: int|
                0 <= i < start.journals@.len() && i != at ==> self.journals@[i]
                    == start.journals@[i],
            0 <= at < start.journals@.len(),
            self.journals@[at]@.consistent(),
        ensures
            self.wf(),
            self@ == start@.insert(component, self.journals@[at]@),
    {
        let p = places(start.places);
        assert forall|i: int| 0 <= i < self.journals@.len() implies (
        #[trigger] self.journals@[i])@.consistent() by {
            if i != at {
                assert(start.journals@[i]@.consistent());
            }
        }
        assert forall|c: ComponentId| #[trigger] self@.dom().contains(c) && c != component implies
            self@[c] == start@[c] by {
            assert(p.dom().contains(c.0));
            assert(p[c.0] != p[component.0]);
        }
        assert(self@ =~= start@.insert(component, self.journals@[at]@));
    }

    /// Records a change, if the type has a journal.
    pub fn record(&mut self, entity: Entity, component: ComponentId, kind: ComponentChangeKind)
        requires
            old(self).wf(),
            can_record(old(self)@, component),
        ensures
            final(self).wf(),
            final(self)@ == change_recorded(old(self)@, entity, component, kind),
    {
        let ghost before = self@;
        let ghost start = *self;
        match place_of(&self.places, component.0) {
            Some(at) => {
                proof {
                    assert(places(self.places).dom().contains(component.0));
                    assert(before.dom().contains(component));
                    assert(self.journals@[at as int]@.consistent());
                    assert(before[component] == self.journals@[at as int]@);
                }
                self.journals[at].push(ComponentChange { entity, kind });
                proof {
                    self.lemma_one_changed(&start, component, at as int);
                }
            },
            None => {},
        }
    }

    /// Appends to `out` every change since the cursor's position, which moves to the end. If some of
    /// them are gone, or the type has no journal, nothing is appended.
    pub fn read(&self, cursor: &mut ChangeCursor, out: &mut Vec<ComponentChange>) -> (r: ChangeRead)
        requires
            self.wf(),
        ensures
            final(cursor)@.component == old(cursor)@.component,
            if !self@.dom().contains(old(cursor)@.component) {
                &&& r is Overflowed
                &&& final(cursor)@ == old(cursor)@
                &&& final(out)@ == old(out)@
            } else {
                let journal = self@[old(cursor)@.component];
                &&& final(cursor)@.next == journal.end()
                &&& if journal.reaches(old(cursor)@.next) {
                    &&& r is Complete
                    &&& final(out)@ == old(out)@ + journal.entries.skip(
                        old(cursor)@.next - journal.first,
                    )
                } else {
                    &&& r is Overflowed
                    &&& final(out)@ == old(out)@
                }
            },
    {
        let at: usize = match place_of(&self.places, cursor.component.0) {
            Some(at) => at,
            None => return ChangeRead::Overflowed,
        };
        let ghost component = cursor.component;
        proof {
            assert(places(self.places).dom().contains(component.0));
            assert(self@.dom().contains(component));
            assert(self.journals@[at as int]@.consistent());
            assert(self@[component] == self.journals@[at as int]@);
        }
        let journal = &self.journals[at];
        let end: u64 = journal.end();
        if cursor.next < journal.first || cursor.next > end {
            cursor.next = end;
            return ChangeRead::Overflowed;
        }
        let skip: usize = (cursor.next - journal.first) as usize;
        let ghost before = out@;
        let mut i: usize = skip;
        while i < journal.entries.len()
            invariant
                before == old(out)@,
                skip <= i <= journal.entries@.len(),
                out@ == before + journal.entries@.subrange(skip as int, i as int),
            decreases journal.entries@.len() - i,
        {
            out.push(journal.entries[i]);
            i = i + 1;
            assert(out@ =~= before + journal.entries@.subrange(skip as int, i as int));
        }
        assert(journal.entries@.subrange(skip as int, i as int) =~= journal.entries@.skip(
            skip as int,
        ));
        cursor.next = end;
        ChangeRead::Complete
    }
}

/// Types without a journal record nothing, and a change of one type leaves the journals of the
/// others.
pub proof fn law_journals_are_separate(
    journals: Map<ComponentId, JournalState>,
    entity: Entity,
    component: ComponentId,
    kind: ComponentChangeKind,
    other: ComponentId,
)
    requires
        other != component,
    ensures
        !journals.dom().contains(component) ==> change_recorded(journals, entity, component, kind)
            == journals,
        change_recorded(journals, entity, component, kind).dom() =~= journals.dom(),
        journals.dom().contains(other) ==> change_recorded(journals, entity, component, kind)[other]
            == journals[other],
{
}

} // verus!
