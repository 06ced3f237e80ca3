//! Row storage of one spatial cell: dense rows, slots with generations, and byte columns.
//!
//! A handle names a slot at a generation; the slot's row may move when holes are compacted. A row
//! to be retired is first dead and pinned, so that in-flight reads stay valid, and becomes a hole
//! when its retirement is committed.
use crate::entity::ComponentId;
use vstd::prelude::*;

verus! {

use crate::gpu::dirty_tracked_scene_buffer::spliced;

/// A slot at a generation.
#[derive(Clone, Copy, Debug, PartialEq, Eq, Hash, Structural)]
pub struct Handle {
    pub index: u32,
    pub generation: u32,
}

impl Handle {
    pub fn index(self) -> (index: u32)
        ensures
            index == self.index,
    {
        self.index
    }

    pub fn generation(self) -> (generation: u32)
        ensures
            generation == self.generation,
    {
        self.generation
    }
}

/// A retirement to be committed: the slot, its row, and the generation it gets.
#[derive(Clone, Copy, Debug, PartialEq, Eq, Structural)]
pub struct PendingRetire {
    pub slot: u32,
    pub row: u32,
    pub next_gen: u32,
}

/// One row: the slot it belongs to, whether it is alive, and whether its retirement is pending.
/// A row that is neither is a hole.
#[derive(Clone, Copy, Debug, PartialEq, Eq, Structural)]
pub struct RowEntry {
    pub slot: u32,
    pub live: bool,
    pub pinned: bool,
}

/// A column of equally sized elements, row after row.
#[derive(Debug)]
pub struct CellColumn {
    id: ComponentId,
    size: u32,
    bytes: Vec<u8>,
}

/// What a column holds.
#[verifier::ext_equal]
pub struct ColumnState {
    pub id: ComponentId,
    pub size: u32,
    pub bytes: Seq<u8>,
}

impl View for CellColumn {
    type V = ColumnState;

    closed spec fn view(&self) -> ColumnState {
        ColumnState { id: self.id, size: self.size, bytes: self.bytes@ }
    }
}

impl ColumnState {
    /// The element of `row`.
    pub open spec fn element(self, row: int) -> Seq<u8> {
        self.bytes.subrange(row * self.size, (row + 1) * self.size)
    }

    /// The column with one more element, zero.
    pub open spec fn extended(self) -> ColumnState {
        ColumnState { bytes: self.bytes + Seq::new(self.size as nat, |i: int| 0u8), ..self }
    }

    /// The column with `data` as the element of `row`.
    pub open spec fn written(self, row: int, data: Seq<u8>) -> ColumnState {
        ColumnState { bytes: spliced(self.bytes, row * self.size, data), ..self }
    }

    /// The column with only its first `n` elements.
    pub open spec fn cut(self, n: int) -> ColumnState {
        ColumnState { bytes: self.bytes.take(n * self.size), ..self }
    }

    /// The column after the last of its `n` elements has moved to `to`.
    pub open spec fn moved(self, n: int, to: int) -> ColumnState {
        self.written(to, self.element(n - 1)).cut(n - 1)
    }
}

/// What a cell holds.
#[verifier::ext_equal]
pub struct CellState {
    pub rows: Seq<RowEntry>,
    /// The current generation of each slot.
    pub generations: Seq<u32>,
    /// The row of each slot in use.
    pub placed: Seq<Option<u32>>,
    /// The slots not in use, the one to reuse next last.
    pub free_slots: Seq<u32>,
    pub columns: Seq<ColumnState>,
}

/// Columns cut to `n` elements.
pub open spec fn columns_cut(columns: Seq<ColumnState>, n: int) -> Seq<ColumnState> {
    Seq::new(columns.len(), |c: int| columns[c].cut(n))
}

/// Columns after the last of their `n` elements has moved to `to`.
pub open spec fn columns_moved(columns: Seq<ColumnState>, n: int, to: int) -> Seq<ColumnState> {
    Seq::new(columns.len(), |c: int| columns[c].moved(n, to))
}

impl CellState {
    pub open spec fn hole(self, row: int) -> bool {
        !self.rows[row].live && !self.rows[row].pinned
    }

    /// Slots and rows name each other, except that holes belong to no slot; free slots are exactly
    /// those without a row; every column has one element per row.
    pub open spec fn consistent(self) -> bool {
        &&& self.generations.len() == self.placed.len()
        &&& self.generations.len() <= u32::MAX
        &&& self.rows.len() <= u32::MAX
        &&& forall|r: int|
            0 <= r < self.rows.len() && !#[trigger] self.hole(r) ==> self.rows[r].slot
                < self.placed.len() && self.placed[self.rows[r].slot as int] == Some(r as u32)
        &&& forall|r: int|
            0 <= r < self.rows.len() ==> !((#[trigger] self.rows[r]).live && self.rows[r].pinned)
                && self.rows[r].slot < self.placed.len()
        &&& forall|s: int|
            0 <= s < self.placed.len() && #[trigger] self.placed[s] is Some ==> self.placed[s]->0
                < self.rows.len() && self.rows[self.placed[s]->0 as int].slot == s && !self.hole(
                self.placed[s]->0 as int,
            )
        &&& self.free_slots.no_duplicates()
        &&& forall|i: int|
            0 <= i < self.free_slots.len() ==> (#[trigger] self.free_slots[i]) < self.placed.len()
                && self.placed[self.free_slots[i] as int] is None
        &&& forall|s: int|
            0 <= s < self.placed.len() && #[trigger] self.placed[s] is None
                ==> self.free_slots.contains(s as u32)
        &&& forall|c: int|
            0 <= c < self.columns.len() ==> (#[trigger] self.columns[c]).size > 0
                && self.columns[c].bytes.len() == self.rows.len() * self.columns[c].size
        &&& forall|a: int, b: int|
            #![trigger self.columns[a], self.columns[b]]
            0 <= a < b < self.columns.len() ==> self.columns[a].id != self.columns[b].id
    }

    /// The row of `handle`, if it is current and placed.
    pub open spec fn row_of(self, handle: Handle) -> Option<u32> {
        if handle.index < self.placed.len() && self.generations[handle.index as int]
            == handle.generation {
            self.placed[handle.index as int]
        } else {
            None
        }
    }

    pub open spec fn has_column(self, id: ComponentId) -> bool {
        exists|c: int| 0 <= c < self.columns.len() && (#[trigger] self.columns[c]).id == id
    }

    pub open spec fn column_at(self, id: ComponentId) -> int {
        choose|c: int| 0 <= c < self.columns.len() && (#[trigger] self.columns[c]).id == id
    }

    /// The column of `id`.
    pub open spec fn column(self, id: ComponentId) -> ColumnState {
        self.columns[self.column_at(id)]
    }

    /// The handle a new row gets.
    pub open spec fn next_handle(self) -> Handle {
        if self.free_slots.len() > 0 {
            Handle {
                index: self.free_slots.last(),
                generation: self.generations[self.free_slots.last() as int],
            }
        } else {
            Handle { index: self.placed.len() as u32, generation: 1 }
        }
    }

    /// The cell after a row is made: live, at the end, its elements zero.
    pub open spec fn after_allocate(self) -> CellState {
        let row = self.rows.len() as u32;
        let slot = self.next_handle().index;
        CellState {
            rows: self.rows.push(RowEntry { slot, live: true, pinned: false }),
            generations: if self.free_slots.len() > 0 {
                self.generations
            } else {
                self.generations.push(1)
            },
            placed: if self.free_slots.len() > 0 {
                self.placed.update(slot as int, Some(row))
            } else {
                self.placed.push(Some(row))
            },
            free_slots: if self.free_slots.len() > 0 {
                self.free_slots.drop_last()
            } else {
                self.free_slots
            },
            columns: Seq::new(self.columns.len(), |c: int| self.columns[c].extended()),
        }
    }

    /// The cell after `data` is written as the element of `row` in the column of `id`.
    pub open spec fn after_write(self, id: ComponentId, row: int, data: Seq<u8>) -> CellState {
        CellState {
            columns: self.columns.update(self.column_at(id), self.column(id).written(row, data)),
            ..self
        }
    }

    /// Whether the row of `handle` can be retired: it is current and alive.
    pub open spec fn retirable(self, handle: Handle) -> bool {
        self.row_of(handle) matches Some(row) && self.rows[row as int].live
    }

    /// The retirement of `handle`.
    pub open spec fn pending_of(self, handle: Handle) -> PendingRetire {
        PendingRetire {
            slot: handle.index,
            row: self.row_of(handle)->0,
            next_gen: crate::gpu::slot_allocator::next_generation(handle.generation),
        }
    }

    /// The cell after the row of `handle` is dead and pinned.
    pub open spec fn after_mark(self, handle: Handle) -> CellState {
        let row = self.row_of(handle)->0 as int;
        CellState {
            rows: self.rows.update(
                row,
                RowEntry { slot: self.rows[row].slot, live: false, pinned: true },
            ),
            ..self
        }
    }

    /// `pending` names a pinned row of this cell.
    pub open spec fn awaits(self, pending: PendingRetire) -> bool {
        &&& pending.slot < self.placed.len()
        &&& self.placed[pending.slot as int] == Some(pending.row)
        &&& pending.row < self.rows.len()
        &&& self.rows[pending.row as int].pinned
    }

    /// The cell after a retirement is committed: the row is a hole, the slot free at its next
    /// generation.
    pub open spec fn after_commit(self, pending: PendingRetire) -> CellState {
        CellState {
            rows: self.rows.update(
                pending.row as int,
                RowEntry {
                    slot: self.rows[pending.row as int].slot,
                    live: false,
                    pinned: false,
                },
            ),
            generations: self.generations.update(pending.slot as int, pending.next_gen),
            placed: self.placed.update(pending.slot as int, None),
            free_slots: self.free_slots.push(pending.slot),
            ..self
        }
    }

    /// The cell without the holes at its end.
    pub open spec fn trimmed(self) -> CellState
        decreases self.rows.len(),
    {
        if self.rows.len() > 0 && self.hole(self.rows.len() - 1) {
            CellState {
                rows: self.rows.drop_last(),
                columns: columns_cut(self.columns, self.rows.len() - 1),
                ..self
            }.trimmed()
        } else {
            self
        }
    }

    /// The first hole at or after `from`.
    pub open spec fn first_hole(self, from: int) -> Option<int>
        decreases self.rows.len() - from,
    {
        if from < 0 || from >= self.rows.len() {
            None
        } else if self.hole(from) {
            Some(from)
        } else {
            self.first_hole(from + 1)
        }
    }

    /// The cell after its last row has moved into hole `to`.
    pub open spec fn after_move(self, to: int) -> CellState {
        let last = self.rows.last();
        CellState {
            rows: self.rows.update(to, last).drop_last(),
            placed: self.placed.update(last.slot as int, Some(to as u32)),
            columns: columns_moved(self.columns, self.rows.len() as int, to),
            ..self
        }
    }

    /// Whether a trimmed cell can move its last row into a hole: there is one, and the last row is
    /// not pinned.
    pub open spec fn can_move(self) -> bool {
        self.first_hole(0) is Some && self.rows.len() > 0 && !self.rows.last().pinned
    }

    /// The cell after compaction: holes at the end are cut, and live rows from the end fill the
    /// lowest holes until there is none or a pinned row is last.
    pub open spec fn compacted(self) -> CellState
        decreases self.rows.len(),
    {
        let t = self.trimmed();
        if t.can_move() {
            proof {
                lemma_trimmed(self);
                lemma_first_hole(t, 0);
            }
            t.after_move(t.first_hole(0)->0).compacted()
        } else {
            t
        }
    }

    /// The moves of that compaction in order, each as source and destination row.
    pub open spec fn moves(self) -> Seq<(u32, u32)>
        decreases self.rows.len(),
    {
        let t = self.trimmed();
        if t.can_move() {
            proof {
                lemma_trimmed(self);
                lemma_first_hole(t, 0);
            }
            seq![((t.rows.len() - 1) as u32, t.first_hole(0)->0 as u32)] + t.after_move(
                t.first_hole(0)->0,
            ).moves()
        } else {
            seq![]
        }
    }
}

/// Row storage of one cell.
#[derive(Debug)]
pub struct CellStorage {
    rows: Vec<RowEntry>,
    generations: Vec<u32>,
    placed: Vec<Option<u32>>,
    free_slots: Vec<u32>,
    columns: Vec<CellColumn>,
}

/// The views of the columns.
pub open spec fn column_views(columns: Seq<CellColumn>) -> Seq<ColumnState> {
    Seq::new(columns.len(), |c: int| columns[c]@)
}

impl View for CellStorage {
    type V = CellState;

    closed spec fn view(&self) -> CellState {
        CellState {
            rows: self.rows@,
            generations: self.generations@,
            placed: self.placed@,
            free_slots: self.free_slots@,
            columns: column_views(self.columns@),
        }
    }
}

pub(crate) proof fn lemma_element_range(rows: int, row: int, size: int)
    requires
        0 <= row < rows,
        size > 0,
    ensures
        0 <= row * size,
        row * size + size == (row + 1) * size,
        (row + 1) * size <= rows * size,
{
    assert(row * size + size == (row + 1) * size) by (nonlinear_arith);
    assert((row + 1) * size <= rows * size) by (nonlinear_arith)
        requires
            row + 1 <= rows,
            size > 0,
    ;
    assert(0 <= row * size) by (nonlinear_arith)
        requires
            row >= 0,
            size > 0,
    ;
}

impl CellColumn {
    /// Writes the element of `row`.
    fn write(&mut self, row: u32, data: &[u8], rows: Ghost<int>)
        requires
            old(self)@.size > 0,
            old(self)@.bytes.len() == rows@ * old(self)@.size,
            row < rows@,
            data@.len() == old(self)@.size,
        ensures
            final(self)@ == old(self)@.written(row as int, data@),
    {
        let ghost size = self.size as int;
        proof {
            lemma_element_range(rows@, row as int, size);
        }
        assert(self.bytes.len() <= usize::MAX);
        let at: usize = (row as usize) * (self.size as usize);
        let mut i: usize = 0;
        while i < data.len()
            invariant
                i <= data@.len(),
                data@.len() == size,
                at == row * size,
                at + size <= self.bytes@.len(),
                self.bytes@.len() == old(self).bytes@.len(),
                self.id == old(self).id,
                self.size == old(self).size,
                forall|k: int|
                    0 <= k < self.bytes@.len() ==> self.bytes@[k] == (if at <= k < at + i {
                        data@[k - at]
                    } else {
                        old(self).bytes@[k]
                    }),
            decreases data@.len() - i,
        {
            assert(self.bytes.len() <= usize::MAX);
            self.bytes.set(at + i, data[i]);
            i = i + 1;
        }
        assert(self@ =~= old(self)@.written(row as int, data@));
    }

    /// Appends a zero element.
    fn extend(&mut self)
        ensures
            final(self)@ == old(self)@.extended(),
    {
        let mut i: u32 = 0;
        while i < self.size
            invariant
                i <= self.size,
                self.id == old(self).id,
                self.size == old(self).size,
                self.bytes@ == old(self).bytes@ + Seq::new(i as nat, |k: int| 0u8),
            decreases self.size - i,
        {
            self.bytes.push(0);
            i = i + 1;
            assert(self.bytes@ =~= old(self).bytes@ + Seq::new(i as nat, |k: int| 0u8));
        }
        assert(self@ =~= old(self)@.extended());
    }

    /// Keeps the first `n` elements.
    fn cut(&mut self, n: u32, rows: Ghost<int>)
        requires
            old(self)@.size > 0,
            old(self)@.bytes.len() == rows@ * old(self)@.size,
            n < rows@,
        ensures
            final(self)@ == old(self)@.cut(n as int),
    {
        proof {
            lemma_element_range(rows@, n as int, self.size as int);
        }
        assert(self.bytes.len() <= usize::MAX);
        let keep: usize = (n as usize) * (self.size as usize);
        self.bytes.truncate(keep);
        assert(self@ =~= old(self)@.cut(n as int));
    }

    /// A copy of the element of `row`.
    fn element(&self, row: u32, rows: Ghost<int>) -> (data: Vec<u8>)
        requires
            self@.size > 0,
            self@.bytes.len() == rows@ * self@.size,
            row < rows@,
        ensures
            data@ == self@.element(row as int),
    {
        proof {
            lemma_element_range(rows@, row as int, self.size as int);
        }
        assert(self.bytes.len() <= usize::MAX);
        let from: usize = (row as usize) * (self.size as usize);
        let to: usize = from + self.size as usize;
        crate::gpu::dirty_tracked_scene_buffer::copy_range(&self.bytes, from, to)
    }
}

impl CellStorage {
    /// The invariant every operation keeps.
    pub open spec fn wf(&self) -> bool {
        self@.consistent()
    }

    /// An empty cell with the given columns: component ids, all different, and element sizes.
    pub fn new(columns: &[(ComponentId, u32)]) -> (cell: Self)
        requires
            forall|c: int| 0 <= c < columns@.len() ==> (#[trigger] columns@[c]).1 > 0,
            forall|a: int, b: int|
                #![trigger columns@[a], columns@[b]]
                0 <= a < b < columns@.len() ==> columns@[a].0 != columns@[b].0,
        ensures
            cell.wf(),
            cell@.rows.len() == 0,
            cell@.generations.len() == 0,
            cell@.columns == Seq::new(
                columns@.len(),
                |c: int|
                    ColumnState { id: columns@[c].0, size: columns@[c].1, bytes: seq![] },
            ),
    {
        let mut made: Vec<CellColumn> = Vec::new();
        let mut c: usize = 0;
        while c < columns.len()
            invariant
                c <= columns@.len(),
                made@.len() == c,
                forall|k: int|
                    0 <= k < c ==> (#[trigger] made@[k])@ == (ColumnState {
                        id: columns@[k].0,
                        size: columns@[k].1,
                        bytes: seq![],
                    }),
            decreases columns@.len() - c,
        {
            let column = CellColumn { id: columns[c].0, size: columns[c].1, bytes: Vec::new() };
            assert(column@ =~= ColumnState {
                id: columns@[c as int].0,
                size: columns@[c as int].1,
                bytes: seq![],
            });
            made.push(column);
            c = c + 1;
        }
        let cell = CellStorage {
            rows: Vec::new(),
            generations: Vec::new(),
            placed: Vec::new(),
            free_slots: Vec::new(),
            columns: made,
        };
        assert(cell@.columns =~= Seq::new(
            columns@.len(),
            |c: int| ColumnState { id: columns@[c].0, size: columns@[c].1, bytes: seq![] },
        ));
        cell
    }

    /// Rows in use, holes among them.
    pub fn rows_in_use(&self) -> (n: u32)
        requires
            self.wf(),
        ensures
            n == self@.rows.len(),
    {
        self.rows.len() as u32
    }

    /// The current generation of each slot.
    pub fn generations(&self) -> (generations: &Vec<u32>)
        ensures
            generations@ == self@.generations,
    {
        &self.generations
    }

    /// The slot written in `row`.
    pub fn slot_at(&self, row: u32) -> (slot: u32)
        requires
            row < self@.rows.len(),
        ensures
            slot == self@.rows[row as int].slot,
    {
        self.rows[row as usize].slot
    }

    /// Whether the retirement of `row` is pending.
    pub fn is_row_pinned(&self, row: u32) -> (pinned: bool)
        requires
            row < self@.rows.len(),
        ensures
            pinned == self@.rows[row as int].pinned,
    {
        self.rows[row as usize].pinned
    }

    /// The row of `handle`, if it is current and placed.
    pub fn row_of(&self, handle: Handle) -> (row: Option<u32>)
        requires
            self.wf(),
        ensures
            row == self@.row_of(handle),
            row matches Some(r) ==> r < self@.rows.len(),
    {
        let at: usize = handle.index as usize;
        if at < self.placed.len() && self.generations[at] == handle.generation {
            assert(self@.placed[at as int] is Some ==> self@.placed[at as int]->0
                < self@.rows.len());
            self.placed[at]
        } else {
            None
        }
    }

    fn find_column(&self, id: ComponentId) -> (at: Option<usize>)
        requires
            self.wf(),
        ensures
            match at {
                Some(c) => self@.has_column(id) && c == self@.column_at(id) && c
                    < self@.columns.len(),
                None => !self@.has_column(id),
            },
    {
        let mut c: usize = 0;
        while c < self.columns.len()
            invariant
                self.wf(),
                c <= self.columns@.len(),
                forall|k: int| 0 <= k < c ==> (#[trigger] self@.columns[k]).id != id,
            decreases self.columns@.len() - c,
        {
            assert(self@.columns[c as int] == self.columns@[c as int]@);
            if self.columns[c].id == id {
                proof {
                    let k = self@.column_at(id);
                    assert(self@.columns[k].id == id);
                }
                return Some(c);
            }
            c = c + 1;
        }
        None
    }

    /// The bytes of the column of `id`, if the cell carries it.
    pub fn column_raw_bytes(&self, id: ComponentId) -> (bytes: Option<&Vec<u8>>)
        requires
            self.wf(),
        ensures
            match bytes {
                Some(bytes) => self@.has_column(id) && bytes@ == self@.column(id).bytes,
                None => !self@.has_column(id),
            },
    {
        match self.find_column(id) {
            Some(c) => {
                assert(self@.columns[c as int] == self.columns@[c as int]@);
                Some(&self.columns[c].bytes)
            },
            None => None,
        }
    }

    /// Whether the cell carries the column of `id`, and its element size.
    pub fn column_size(&self, id: ComponentId) -> (size: Option<u32>)
        requires
            self.wf(),
        ensures
            match size {
                Some(size) => self@.has_column(id) && size == self@.column(id).size,
                None => !self@.has_column(id),
            },
    {
        match self.find_column(id) {
            Some(c) => {
                assert(self@.columns[c as int] == self.columns@[c as int]@);
                Some(self.columns[c].size)
            },
            None => None,
        }
    }

    /// Makes a row.
    pub fn allocate(&mut self) -> (handle: Handle)
        requires
            old(self).wf(),
            old(self)@.rows.len() < u32::MAX,
            old(self)@.free_slots.len() > 0 || old(self)@.generations.len() < u32::MAX,
        ensures
            final(self).wf(),
            handle == old(self)@.next_handle(),
            final(self)@ == old(self)@.after_allocate(),
            final(self)@.row_of(handle) == Some(old(self)@.rows.len() as u32),
    {
        let row: u32 = self.rows.len() as u32;
        let ghost start = self@;
        proof {
            lemma_allocate(start);
        }
        let handle = match self.free_slots.pop() {
            Some(slot) => {
                assert(slot == start.free_slots[start.free_slots.len() - 1]);
                let generation: u32 = self.generations[slot as usize];
                self.placed.set(slot as usize, Some(row));
                Handle { index: slot, generation }
            },
            None => {
                let slot: u32 = self.placed.len() as u32;
                self.generations.push(1);
                self.placed.push(Some(row));
                Handle { index: slot, generation: 1 }
            },
        };
        self.rows.push(RowEntry { slot: handle.index, live: true, pinned: false });
        let mut c: usize = 0;
        while c < self.columns.len()
            invariant
                c <= self.columns@.len(),
                self.columns@.len() == start.columns.len(),
                self.rows@ == start.after_allocate().rows,
                self.generations@ == start.after_allocate().generations,
                self.placed@ == start.after_allocate().placed,
                self.free_slots@ == start.after_allocate().free_slots,
                forall|k: int|
                    0 <= k < c ==> (#[trigger] self.columns@[k])@ == start.columns[k].extended(),
                forall|k: int|
                    c <= k < self.columns@.len() ==> (#[trigger] self.columns@[k])@
                        == start.columns[k],
            decreases self.columns@.len() - c,
        {
            self.columns[c].extend();
            c = c + 1;
        }
        assert(self@.columns =~= start.after_allocate().columns);
        assert(self@ =~= start.after_allocate());
        handle
    }

    /// Writes the element of `row` in the column of `id`.
    pub fn write_element(&mut self, id: ComponentId, row: u32, data: &[u8])
        requires
            old(self).wf(),
            old(self)@.has_column(id),
            row < old(self)@.rows.len(),
            data@.len() == old(self)@.column(id).size,
        ensures
            final(self).wf(),
            final(self)@ == old(self)@.after_write(id, row as int, data@),
    {
        let ghost start = self@;
        match self.find_column(id) {
            Some(c) => {
                assert(self@.columns[c as int] == self.columns@[c as int]@);
                self.columns[c].write(row, data, Ghost(start.rows.len() as int));
                proof {
                    assert(self@.columns =~= start.columns.update(
                        c as int,
                        start.column(id).written(row as int, data@),
                    ));
                    assert(self@ =~= start.after_write(id, row as int, data@));
                    lemma_same_rows(start, self@);
                }
            },
            None => {
                assert(false);
            },
        }
    }

    /// Makes the row of `handle` dead and pinned. `None` if the handle is stale or the row is not
    /// alive.
    pub fn mark_pending_retire(&mut self, handle: Handle) -> (pending: Option<PendingRetire>)
        requires
            old(self).wf(),
        ensures
            final(self).wf(),
            match pending {
                Some(p) => {
                    &&& old(self)@.retirable(handle)
                    &&& p == old(self)@.pending_of(handle)
                    &&& final(self)@ == old(self)@.after_mark(handle)
                    &&& final(self)@.awaits(p)
                },
                None => !old(self)@.retirable(handle) && final(self)@ == old(self)@,
            },
    {
        let ghost start = self@;
        let row: u32 = match self.row_of(handle) {
            Some(row) => row,
            None => return None,
        };
        let entry: RowEntry = self.rows[row as usize];
        if !entry.live {
            return None;
        }
        self.rows.set(
            row as usize,
            RowEntry { slot: entry.slot, live: false, pinned: true },
        );
        proof {
            assert(self@ =~= start.after_mark(handle));
            lemma_mark(start, handle);
        }
        Some(
            PendingRetire {
                slot: handle.index,
                row,
                next_gen: handle.generation.wrapping_add(1),
            },
        )
    }

    /// Commits a retirement: the row becomes a hole, and its slot is free at the next generation.
    pub fn commit_retire(&mut self, pending: PendingRetire)
        requires
            old(self).wf(),
            old(self)@.awaits(pending),
        ensures
            final(self).wf(),
            final(self)@ == old(self)@.after_commit(pending),
    {
        let ghost start = self@;
        let entry: RowEntry = self.rows[pending.row as usize];
        self.rows.set(
            pending.row as usize,
            RowEntry { slot: entry.slot, live: false, pinned: false },
        );
        self.generations.set(pending.slot as usize, pending.next_gen);
        self.placed.set(pending.slot as usize, None);
        self.free_slots.push(pending.slot);
        proof {
            assert(self@ =~= start.after_commit(pending));
            lemma_commit(start, pending);
        }
    }

    /// Cuts the last row off.
    fn pop_row(&mut self)
        requires
            old(self).wf(),
            old(self)@.rows.len() > 0,
            old(self)@.hole(old(self)@.rows.len() - 1),
        ensures
            final(self).wf(),
            final(self)@ == (CellState {
                rows: old(self)@.rows.drop_last(),
                columns: columns_cut(old(self)@.columns, old(self)@.rows.len() - 1),
                ..old(self)@
            }),
    {
        let ghost start = self@;
        let n: u32 = (self.rows.len() - 1) as u32;
        let mut c: usize = 0;
        while c < self.columns.len()
            invariant
                c <= self.columns@.len(),
                self.columns@.len() == start.columns.len(),
                start.consistent(),
                n + 1 == start.rows.len(),
                self.rows@ == start.rows,
                self.generations@ == start.generations,
                self.placed@ == start.placed,
                self.free_slots@ == start.free_slots,
                forall|k: int|
                    0 <= k < c ==> (#[trigger] self.columns@[k])@ == start.columns[k].cut(
                        n as int,
                    ),
                forall|k: int|
                    c <= k < self.columns@.len() ==> (#[trigger] self.columns@[k])@
                        == start.columns[k],
            decreases self.columns@.len() - c,
        {
            assert(start.columns[c as int].size > 0);
            self.columns[c].cut(n, Ghost(start.rows.len() as int));
            c = c + 1;
        }
        self.rows.pop();
        proof {
            assert(self@.columns =~= columns_cut(start.columns, n as int));
            assert(self@.rows =~= start.rows.drop_last());
            lemma_pop(start);
        }
    }

    /// Moves the last row into hole `to`.
    fn move_last(&mut self, to: u32)
        requires
            old(self).wf(),
            old(self)@.rows.len() > 0,
            to < old(self)@.rows.len() - 1,
            old(self)@.hole(to as int),
            old(self)@.rows.last().live,
        ensures
            final(self).wf(),
            final(self)@ == old(self)@.after_move(to as int),
    {
        let ghost start = self@;
        let n: u32 = (self.rows.len() - 1) as u32;
        let last: RowEntry = self.rows[n as usize];
        proof {
            assert(!start.hole(n as int));
        }
        let mut c: usize = 0;
        while c < self.columns.len()
            invariant
                c <= self.columns@.len(),
                self.columns@.len() == start.columns.len(),
                start.consistent(),
                n + 1 == start.rows.len(),
                to < n,
                self.rows@ == start.rows,
                self.generations@ == start.generations,
                self.placed@ == start.placed,
                self.free_slots@ == start.free_slots,
                forall|k: int|
                    0 <= k < c ==> (#[trigger] self.columns@[k])@ == start.columns[k].moved(
                        n + 1,
                        to as int,
                    ),
                forall|k: int|
                    c <= k < self.columns@.len() ==> (#[trigger] self.columns@[k])@
                        == start.columns[k],
            decreases self.columns@.len() - c,
        {
            assert(start.columns[c as int].size > 0);
            let rows: Ghost<int> = Ghost(start.rows.len() as int);
            proof {
                lemma_element_range(start.rows.len() as int, n as int, start.columns[c as int].size as int);
            }
            let data = self.columns[c].element(n, rows);
            assert(data@.len() == start.columns[c as int].size);
            self.columns[c].write(to, &data, rows);
            self.columns[c].cut(n, rows);
            c = c + 1;
        }
        self.rows.set(to as usize, last);
        self.rows.pop();
        self.placed.set(last.slot as usize, Some(to));
        proof {
            assert(self@.columns =~= columns_moved(start.columns, n + 1, to as int));
            assert(self@.rows =~= start.rows.update(to as int, last).drop_last());
            assert(self@ =~= start.after_move(to as int));
            lemma_move(start, to as int);
        }
    }

    /// Compacts: cuts the holes at the end and fills the others from the end, as far as no pinned
    /// row is last. Returns the moves in order, each as source and destination row.
    pub fn compact_report(&mut self) -> (moves: Vec<(u32, u32)>)
        requires
            old(self).wf(),
        ensures
            final(self).wf(),
            final(self)@ == old(self)@.compacted(),
            moves@ == old(self)@.moves(),
            forall|i: int|
                0 <= i < moves@.len() ==> (#[trigger] moves@[i]).1 < old(self)@.rows.len(),
    {
        let mut moves: Vec<(u32, u32)> = Vec::new();
        let ghost start = self@;
        loop
            invariant_except_break
                self@.compacted() == start.compacted(),
                moves@ + self@.moves() == start.moves(),
            invariant
                self.wf(),
                start.consistent(),
                self@.rows.len() <= start.rows.len(),
                forall|i: int|
                    0 <= i < moves@.len() ==> (#[trigger] moves@[i]).1 < start.rows.len(),
            ensures
                self@ == start.compacted(),
                moves@ == start.moves(),
            decreases self@.rows.len(),
        {
            let ghost here = self@;
            self.trim();
            let ghost t = self@;
            assert(t == here.trimmed());
            let hole: Option<u32> = self.find_hole();
            let to: u32 = match hole {
                Some(to) => to,
                None => {
                    proof {
                        assert(here.moves() =~= seq![]);
                        assert(moves@ + here.moves() =~= moves@);
                    }
                    break ;
                },
            };
            let last: RowEntry = self.rows[self.rows.len() - 1];
            if last.pinned {
                proof {
                    assert(here.moves() =~= seq![]);
                    assert(moves@ + here.moves() =~= moves@);
                }
                break ;
            }
            let from: u32 = (self.rows.len() - 1) as u32;
            proof {
                lemma_first_hole(t, 0);
                assert(!t.hole(from as int)) by {
                    lemma_trimmed(here);
                }
            }
            self.move_last(to);
            let ghost before = moves@;
            moves.push((from, to));
            proof {
                assert(here.moves() == seq![(from, to)] + self@.moves());
                assert(moves@ + self@.moves() =~= before + here.moves());
            }
        }
        moves
    }

    /// Cuts the holes at the end.
    fn trim(&mut self)
        requires
            old(self).wf(),
        ensures
            final(self).wf(),
            final(self)@ == old(self)@.trimmed(),
            final(self)@.rows.len() <= old(self)@.rows.len(),
    {
        let ghost start = self@;
        while self.rows.len() > 0 && !self.rows[self.rows.len() - 1].live
            && !self.rows[self.rows.len() - 1].pinned
            invariant
                self.wf(),
                self@.trimmed() == start.trimmed(),
                self@.rows.len() <= start.rows.len(),
            decreases self@.rows.len(),
        {
            self.pop_row();
        }
    }

    /// The lowest hole.
    fn find_hole(&self) -> (hole: Option<u32>)
        requires
            self.wf(),
        ensures
            match hole {
                Some(row) => self@.first_hole(0) == Some(row as int) && row < self@.rows.len(),
                None => self@.first_hole(0) is None,
            },
    {
        let mut row: u32 = 0;
        while (row as usize) < self.rows.len()
            invariant
                self.wf(),
                row <= self@.rows.len(),
                self@.first_hole(0) == self@.first_hole(row as int),
            decreases self@.rows.len() - row,
        {
            let entry: RowEntry = self.rows[row as usize];
            if !entry.live && !entry.pinned {
                return Some(row);
            }
            row = row + 1;
        }
        None
    }
}

/// The first hole is a hole at or after where the search starts.
pub proof fn lemma_first_hole(state: CellState, from: int)
    requires
        0 <= from,
    ensures
        state.first_hole(from) matches Some(h) ==> from <= h < state.rows.len() && state.hole(h),
    decreases state.rows.len() - from,
{
    if from < state.rows.len() && !state.hole(from) {
        lemma_first_hole(state, from + 1);
    }
}

/// A trimmed cell is no longer than before and does not end in a hole.
pub proof fn lemma_trimmed(state: CellState)
    ensures
        state.trimmed().rows.len() <= state.rows.len(),
        state.trimmed().rows.len() > 0 ==> !state.trimmed().hole(state.trimmed().rows.len() - 1),
    decreases state.rows.len(),
{
    if state.rows.len() > 0 && state.hole(state.rows.len() - 1) {
        lemma_trimmed(
            CellState {
                rows: state.rows.drop_last(),
                columns: columns_cut(state.columns, state.rows.len() - 1),
                ..state
            },
        );
    }
}

pub(crate) proof fn lemma_same_rows(a: CellState, b: CellState)
    requires
        a.consistent(),
        b == (CellState { columns: b.columns, ..a }),
        a.columns.len() == b.columns.len(),
        forall|c: int|
            0 <= c < a.columns.len() ==> (#[trigger] b.columns[c]).id == a.columns[c].id
                && b.columns[c].size == a.columns[c].size && b.columns[c].bytes.len()
                == a.columns[c].bytes.len(),
    ensures
        b.consistent(),
{
    assert forall|r: int| 0 <= r < b.rows.len() && !#[trigger] b.hole(r) implies b.rows[r].slot
        < b.placed.len() && b.placed[b.rows[r].slot as int] == Some(r as u32) by {
        assert(!a.hole(r));
    }
    assert forall|s: int| 0 <= s < b.placed.len() && #[trigger] b.placed[s] is Some implies b.placed[s]->0
        < b.rows.len() && b.rows[b.placed[s]->0 as int].slot == s && !b.hole(
        b.placed[s]->0 as int,
    ) by {
        assert(a.placed[s] is Some);
    }
    assert forall|c: int| 0 <= c < b.columns.len() implies (#[trigger] b.columns[c]).size > 0
        && b.columns[c].bytes.len() == b.rows.len() * b.columns[c].size by {
        assert(a.columns[c].size > 0);
    }
    assert forall|x: int, y: int|
        #![trigger b.columns[x], b.columns[y]]
        0 <= x < y < b.columns.len() implies b.columns[x].id != b.columns[y].id by {
        assert(a.columns[x].id != a.columns[y].id);
    }
}

pub(crate) proof fn lemma_allocate(state: CellState)
    requires
        state.consistent(),
        state.rows.len() < u32::MAX,
        state.free_slots.len() > 0 || state.generations.len() < u32::MAX,
    ensures
        state.after_allocate().consistent(),
        state.after_allocate().row_of(state.next_handle()) == Some(state.rows.len() as u32),
{
    let after = state.after_allocate();
    let n = state.rows.len() as int;
    let slot = state.next_handle().index;
    let reuse = state.free_slots.len() > 0;
    if reuse {
        let last = state.free_slots.len() - 1;
        assert(state.free_slots[last] == slot);
        assert(state.placed[slot as int] is None);
    }
    assert forall|r: int| 0 <= r < after.rows.len() && !#[trigger] after.hole(r) implies after.rows[r].slot
        < after.placed.len() && after.placed[after.rows[r].slot as int] == Some(r as u32) by {
        if r < n {
            assert(!state.hole(r));
            assert(state.placed[state.rows[r].slot as int] == Some(r as u32));
        }
    }
    assert forall|r: int| 0 <= r < after.rows.len() implies !((#[trigger] after.rows[r]).live
        && after.rows[r].pinned) by {
        if r < n {
            assert(state.rows[r] == after.rows[r]);
        }
    }
    assert forall|s: int| 0 <= s < after.placed.len() && #[trigger] after.placed[s] is Some implies after.placed[s]->0
        < after.rows.len() && after.rows[after.placed[s]->0 as int].slot == s && !after.hole(
        after.placed[s]->0 as int,
    ) by {
        if s != slot {
            assert(state.placed[s] == after.placed[s]);
            let r = state.placed[s]->0 as int;
            assert(!state.hole(r));
            assert(after.rows[r] == state.rows[r]);
        }
    }
    assert forall|i: int| 0 <= i < after.free_slots.len() implies (#[trigger] after.free_slots[i])
        < after.placed.len() && after.placed[after.free_slots[i] as int] is None by {
        assert(state.free_slots[i] == after.free_slots[i]);
        if reuse {
            assert(state.free_slots[i] != state.free_slots[state.free_slots.len() - 1]);
        }
    }
    assert forall|s: int| 0 <= s < after.placed.len() && #[trigger] after.placed[s] is None implies after.free_slots.contains(
        s as u32,
    ) by {
        assert(state.placed[s] is None);
        let k = choose|k: int| 0 <= k < state.free_slots.len() && state.free_slots[k] == s as u32;
        assert(after.free_slots[k] == s as u32);
    }
    assert forall|c: int| 0 <= c < after.columns.len() implies (#[trigger] after.columns[c]).size
        > 0 && after.columns[c].bytes.len() == after.rows.len() * after.columns[c].size by {
        let size = state.columns[c].size as int;
        assert(size > 0);
        assert(n * size + size == (n + 1) * size) by (nonlinear_arith);
    }
    assert forall|x: int, y: int|
        #![trigger after.columns[x], after.columns[y]]
        0 <= x < y < after.columns.len() implies after.columns[x].id != after.columns[y].id by {
        assert(state.columns[x].id != state.columns[y].id);
    }
}

/// Marking a row keeps the invariant, and the cell then awaits the retirement.
pub proof fn lemma_mark(state: CellState, handle: Handle)
    requires
        state.consistent(),
        state.retirable(handle),
    ensures
        state.after_mark(handle).consistent(),
        state.after_mark(handle).awaits(state.pending_of(handle)),
{
    let after = state.after_mark(handle);
    let row = state.row_of(handle)->0 as int;
    assert(state.placed[handle.index as int] is Some);
    assert forall|r: int| 0 <= r < after.rows.len() && !#[trigger] after.hole(r) implies after.rows[r].slot
        < after.placed.len() && after.placed[after.rows[r].slot as int] == Some(r as u32) by {
        assert(!state.hole(r));
    }
    assert forall|r: int| 0 <= r < after.rows.len() implies !((#[trigger] after.rows[r]).live
        && after.rows[r].pinned) by {
        if r != row {
            assert(state.rows[r] == after.rows[r]);
        }
    }
    assert forall|s: int| 0 <= s < after.placed.len() && #[trigger] after.placed[s] is Some implies after.placed[s]->0
        < after.rows.len() && after.rows[after.placed[s]->0 as int].slot == s && !after.hole(
        after.placed[s]->0 as int,
    ) by {
        assert(state.placed[s] is Some);
    }
    assert forall|c: int| 0 <= c < after.columns.len() implies (#[trigger] after.columns[c]).size
        > 0 && after.columns[c].bytes.len() == after.rows.len() * after.columns[c].size by {
        assert(state.columns[c].size > 0);
    }
}

/// Committing a retirement keeps the invariant.
pub proof fn lemma_commit(state: CellState, pending: PendingRetire)
    requires
        state.consistent(),
        state.awaits(pending),
    ensures
        state.after_commit(pending).consistent(),
{
    let after = state.after_commit(pending);
    let row = pending.row as int;
    let slot = pending.slot as int;
    assert(state.placed[slot] is Some);
    assert forall|r: int| 0 <= r < after.rows.len() && !#[trigger] after.hole(r) implies after.rows[r].slot
        < after.placed.len() && after.placed[after.rows[r].slot as int] == Some(r as u32) by {
        assert(r != row);
        assert(!state.hole(r));
        assert(state.placed[state.rows[r].slot as int] == Some(r as u32));
    }
    assert forall|r: int| 0 <= r < after.rows.len() implies !((#[trigger] after.rows[r]).live
        && after.rows[r].pinned) by {
        if r != row {
            assert(state.rows[r] == after.rows[r]);
        }
    }
    assert forall|s: int| 0 <= s < after.placed.len() && #[trigger] after.placed[s] is Some implies after.placed[s]->0
        < after.rows.len() && after.rows[after.placed[s]->0 as int].slot == s && !after.hole(
        after.placed[s]->0 as int,
    ) by {
        assert(s != slot);
        assert(state.placed[s] is Some);
        assert(state.placed[s]->0 != pending.row);
    }
    let n = state.free_slots.len();
    assert forall|i: int, j: int|
        0 <= i < after.free_slots.len() && 0 <= j < after.free_slots.len() && i
            != j implies after.free_slots[i] != after.free_slots[j] by {
        if i < n {
            assert(state.placed[state.free_slots[i] as int] is None);
        }
        if j < n {
            assert(state.placed[state.free_slots[j] as int] is None);
        }
    }
    assert forall|i: int| 0 <= i < after.free_slots.len() implies (#[trigger] after.free_slots[i])
        < after.placed.len() && after.placed[after.free_slots[i] as int] is None by {
        if i < n {
            assert(state.free_slots[i] == after.free_slots[i]);
        }
    }
    assert forall|s: int| 0 <= s < after.placed.len() && #[trigger] after.placed[s] is None implies after.free_slots.contains(
        s as u32,
    ) by {
        if s == slot {
            assert(after.free_slots[n as int] == s as u32);
        } else {
            assert(state.placed[s] is None);
            let k = choose|k: int| 0 <= k < n && state.free_slots[k] == s as u32;
            assert(after.free_slots[k] == s as u32);
        }
    }
    assert forall|c: int| 0 <= c < after.columns.len() implies (#[trigger] after.columns[c]).size
        > 0 && after.columns[c].bytes.len() == after.rows.len() * after.columns[c].size by {
        assert(state.columns[c].size > 0);
    }
}

proof fn lemma_pop(state: CellState)
    requires
        state.consistent(),
        state.rows.len() > 0,
        state.hole(state.rows.len() - 1),
    ensures
        (CellState {
            rows: state.rows.drop_last(),
            columns: columns_cut(state.columns, state.rows.len() - 1),
            ..state
        }).consistent(),
{
    let n = state.rows.len() - 1;
    let after = CellState {
        rows: state.rows.drop_last(),
        columns: columns_cut(state.columns, n),
        ..state
    };
    assert forall|r: int| 0 <= r < after.rows.len() && !#[trigger] after.hole(r) implies after.rows[r].slot
        < after.placed.len() && after.placed[after.rows[r].slot as int] == Some(r as u32) by {
        assert(!state.hole(r));
    }
    assert forall|r: int| 0 <= r < after.rows.len() implies !((#[trigger] after.rows[r]).live
        && after.rows[r].pinned) by {
        assert(state.rows[r] == after.rows[r]);
    }
    assert forall|s: int| 0 <= s < after.placed.len() && #[trigger] after.placed[s] is Some implies after.placed[s]->0
        < after.rows.len() && after.rows[after.placed[s]->0 as int].slot == s && !after.hole(
        after.placed[s]->0 as int,
    ) by {
        assert(state.placed[s] is Some);
        let r = state.placed[s]->0 as int;
        assert(!state.hole(r));
        assert(r != n);
        assert(after.rows[r] == state.rows[r]);
    }
    assert forall|c: int| 0 <= c < after.columns.len() implies (#[trigger] after.columns[c]).size
        > 0 && after.columns[c].bytes.len() == after.rows.len() * after.columns[c].size by {
        assert(state.columns[c].size > 0);
        lemma_element_range(state.rows.len() as int, n, state.columns[c].size as int);
    }
    assert forall|x: int, y: int|
        #![trigger after.columns[x], after.columns[y]]
        0 <= x < y < after.columns.len() implies after.columns[x].id != after.columns[y].id by {
        assert(state.columns[x].id != state.columns[y].id);
    }
}

pub(crate) proof fn lemma_move(state: CellState, to: int)
    requires
        state.consistent(),
        state.rows.len() > 0,
        0 <= to < state.rows.len() - 1,
        state.hole(to),
        state.rows.last().live,
    ensures
        state.after_move(to).consistent(),
{
    let n = state.rows.len() - 1;
    let last = state.rows[n];
    let after = state.after_move(to);
    assert(!state.hole(n));
    assert(state.placed[last.slot as int] == Some(n as u32));
    assert forall|r: int| 0 <= r < after.rows.len() && !#[trigger] after.hole(r) implies after.rows[r].slot
        < after.placed.len() && after.placed[after.rows[r].slot as int] == Some(r as u32) by {
        if r != to {
            assert(after.rows[r] == state.rows[r]);
            assert(!state.hole(r));
            assert(state.placed[state.rows[r].slot as int] == Some(r as u32));
        }
    }
    assert forall|r: int| 0 <= r < after.rows.len() implies !((#[trigger] after.rows[r]).live
        && after.rows[r].pinned) by {
        if r != to {
            assert(state.rows[r] == after.rows[r]);
        } else {
            assert(!(state.rows[n].live && state.rows[n].pinned));
        }
    }
    assert forall|s: int| 0 <= s < after.placed.len() && #[trigger] after.placed[s] is Some implies after.placed[s]->0
        < after.rows.len() && after.rows[after.placed[s]->0 as int].slot == s && !after.hole(
        after.placed[s]->0 as int,
    ) by {
        if s != last.slot {
            assert(state.placed[s] is Some);
            let r = state.placed[s]->0 as int;
            assert(!state.hole(r));
            assert(state.rows[r].slot == s);
            assert(r != n && r != to);
            assert(after.rows[r] == state.rows[r]);
        }
    }
    assert forall|i: int| 0 <= i < after.free_slots.len() implies (#[trigger] after.free_slots[i])
        < after.placed.len() && after.placed[after.free_slots[i] as int] is None by {
        assert(state.placed[state.free_slots[i] as int] is None);
    }
    assert forall|s: int| 0 <= s < after.placed.len() && #[trigger] after.placed[s] is None implies after.free_slots.contains(
        s as u32,
    ) by {
        assert(state.placed[s] is None);
    }
    assert forall|c: int| 0 <= c < after.columns.len() implies (#[trigger] after.columns[c]).size
        > 0 && after.columns[c].bytes.len() == after.rows.len() * after.columns[c].size by {
        assert(state.columns[c].size > 0);
        lemma_element_range(state.rows.len() as int, n, state.columns[c].size as int);
    }
    assert forall|x: int, y: int|
        #![trigger after.columns[x], after.columns[y]]
        0 <= x < y < after.columns.len() implies after.columns[x].id != after.columns[y].id by {
        assert(state.columns[x].id != state.columns[y].id);
    }
}

/// A move carries a row's elements along and keeps every handle valid at its generation.
pub proof fn law_move_keeps_handles(state: CellState, to: int, handle: Handle)
    requires
        state.consistent(),
        state.rows.len() > 0,
        0 <= to < state.rows.len() - 1,
        state.hole(to),
        state.rows.last().live,
        state.row_of(handle) is Some,
    ensures
        ({
            let after = state.after_move(to);
            let row = state.row_of(handle)->0 as int;
            let moved = if row == state.rows.len() - 1 {
                to
            } else {
                row
            };
            &&& after.row_of(handle) == Some(moved as u32)
            &&& after.rows[moved] == state.rows[row]
            &&& forall|c: int|
                0 <= c < state.columns.len() ==> (#[trigger] after.columns[c]).element(moved)
                    == state.columns[c].element(row)
        }),
{
    let after = state.after_move(to);
    let n = state.rows.len() - 1;
    let row = state.row_of(handle)->0 as int;
    let last = state.rows[n];
    assert(state.placed[handle.index as int] is Some);
    assert(!state.hole(row));
    assert(!state.hole(n));
    assert(row != to);
    let moved = if row == n {
        to
    } else {
        row
    };
    assert forall|c: int| 0 <= c < state.columns.len() implies (#[trigger] after.columns[c]).element(
        moved,
    ) == state.columns[c].element(row) by {
        let column = state.columns[c];
        let size = column.size as int;
        assert(size > 0);
        lemma_element_range(n + 1, n, size);
        lemma_element_range(n + 1, to, size);
        lemma_element_range(n + 1, row, size);
        lemma_element_range(n, moved, size);
        if row != n {
            assert((row + 1) * size <= to * size || (to + 1) * size <= row * size)
                by (nonlinear_arith)
                requires
                    row != to,
                    size > 0,
            ;
        }
        assert(after.columns[c].element(moved) =~= column.element(row));
    }
}

/// Writing an element leaves which columns there are, and how large their elements are.
pub proof fn lemma_write_keeps_columns(
    state: CellState,
    id: ComponentId,
    row: int,
    data: Seq<u8>,
    other: ComponentId,
)
    requires
        state.consistent(),
        state.has_column(id),
    ensures
        state.after_write(id, row, data).has_column(other) == state.has_column(other),
        state.has_column(other) ==> state.after_write(id, row, data).column(other).size
            == state.column(other).size,
{
    let after = state.after_write(id, row, data);
    assert(forall|c: int|
        0 <= c < state.columns.len() ==> (#[trigger] after.columns[c]).id == state.columns[c].id
            && after.columns[c].size == state.columns[c].size);
    if state.has_column(other) {
        let c = state.column_at(other);
        assert(after.columns[c].id == other);
        let d = after.column_at(other);
        assert(after.columns[d].id == other);
        assert(state.columns[d].id == other);
        if c < d {
            assert(state.columns[c].id != state.columns[d].id);
        } else if d < c {
            assert(state.columns[d].id != state.columns[c].id);
        }
    }
    if after.has_column(other) {
        let d = after.column_at(other);
        assert(state.columns[d].id == other);
    }
}

/// Committing one retirement leaves another pending.
pub proof fn lemma_commit_keeps_pending(state: CellState, p: PendingRetire, q: PendingRetire)
    requires
        state.consistent(),
        state.awaits(p),
        state.awaits(q),
        p.slot != q.slot,
    ensures
        state.after_commit(p).awaits(q),
{
    assert(state.placed[p.slot as int] is Some);
    assert(state.placed[q.slot as int] is Some);
}

/// Marking a row leaves a pending retirement pending, and it was of another slot.
pub proof fn lemma_mark_keeps_pending(state: CellState, handle: Handle, q: PendingRetire)
    requires
        state.consistent(),
        state.retirable(handle),
        state.awaits(q),
    ensures
        state.after_mark(handle).awaits(q),
        handle.index != q.slot,
{
    assert(state.placed[handle.index as int] is Some);
    let row = state.row_of(handle)->0 as int;
    assert(!(state.rows[row].live && state.rows[row].pinned));
}

proof fn lemma_trim_keeps_pending(state: CellState, q: PendingRetire)
    requires
        state.consistent(),
        state.awaits(q),
    ensures
        state.trimmed().consistent(),
        state.trimmed().awaits(q),
    decreases state.rows.len(),
{
    if state.rows.len() > 0 && state.hole(state.rows.len() - 1) {
        lemma_pop(state);
        lemma_trim_keeps_pending(
            CellState {
                rows: state.rows.drop_last(),
                columns: columns_cut(state.columns, state.rows.len() - 1),
                ..state
            },
            q,
        );
    }
}

/// Compaction neither moves nor drops a row whose retirement is pending.
pub proof fn law_compaction_keeps_pending(state: CellState, q: PendingRetire)
    requires
        state.consistent(),
        state.awaits(q),
    ensures
        state.compacted().awaits(q),
    decreases state.rows.len(),
{
    lemma_trim_keeps_pending(state, q);
    lemma_trimmed(state);
    let t = state.trimmed();
    if t.can_move() {
        lemma_first_hole(t, 0);
        let to = t.first_hole(0)->0;
        let n = t.rows.len() - 1;
        assert(!t.hole(n));
        assert(to != n);
        lemma_move(t, to);
        assert(t.placed[t.rows[n].slot as int] == Some(n as u32));
        assert(t.after_move(to).awaits(q));
        law_compaction_keeps_pending(t.after_move(to), q);
    }
}

pub(crate) proof fn lemma_trim_keeps_handle(state: CellState, handle: Handle)
    requires
        state.consistent(),
        state.row_of(handle) is Some,
    ensures
        ({
            let after = state.trimmed();
            let row = state.row_of(handle)->0 as int;
            &&& after.row_of(handle) == state.row_of(handle)
            &&& after.generations == state.generations
            &&& row < after.rows.len()
            &&& after.rows[row] == state.rows[row]
            &&& after.columns.len() == state.columns.len()
            &&& forall|c: int|
                0 <= c < state.columns.len() ==> (#[trigger] after.columns[c]).element(row)
                    == state.columns[c].element(row)
        }),
    decreases state.rows.len(),
{
    let row = state.row_of(handle)->0 as int;
    assert(state.placed[handle.index as int] is Some);
    assert(!state.hole(row));
    if state.rows.len() > 0 && state.hole(state.rows.len() - 1) {
        let n = state.rows.len() - 1;
        let cut = CellState {
            rows: state.rows.drop_last(),
            columns: columns_cut(state.columns, n),
            ..state
        };
        lemma_pop(state);
        assert(row < n);
        lemma_trim_keeps_handle(cut, handle);
        assert forall|c: int| 0 <= c < state.columns.len() implies (
        #[trigger] state.trimmed().columns[c]).element(row) == state.columns[c].element(row) by {
            let size = state.columns[c].size as int;
            assert(size > 0);
            lemma_element_range(n + 1, row, size);
            lemma_element_range(n, row, size);
            lemma_element_range(n + 1, n, size);
            assert(state.columns[c].bytes.len() == (n + 1) * size);
            assert(cut.columns[c] == state.columns[c].cut(n));
            assert(cut.columns[c].bytes.len() == n * size);
            assert(cut.columns[c].element(row) =~= state.columns[c].element(row));
        }
    }
}

/// Compaction keeps every handle: it leads to the same row entry with the same elements, wherever
/// the row went.
pub proof fn law_compaction_keeps_handles(state: CellState, handle: Handle)
    requires
        state.consistent(),
        state.row_of(handle) is Some,
    ensures
        ({
            let after = state.compacted();
            let row = state.row_of(handle)->0 as int;
            &&& after.row_of(handle) is Some
            &&& after.columns.len() == state.columns.len()
            &&& ({
                let moved = after.row_of(handle)->0 as int;
                &&& moved < after.rows.len()
                &&& after.rows[moved] == state.rows[row]
                &&& forall|c: int|
                    0 <= c < state.columns.len() ==> (#[trigger] after.columns[c]).element(moved)
                        == state.columns[c].element(row)
            })
        }),
    decreases state.rows.len(),
{
    lemma_trim_keeps_handle(state, handle);
    lemma_trim_keeps_slots(state);
    lemma_trimmed(state);
    let t = state.trimmed();
    let row = state.row_of(handle)->0 as int;
    if t.can_move() {
        lemma_first_hole(t, 0);
        let to = t.first_hole(0)->0;
        let n = t.rows.len() - 1;
        assert(!t.hole(n));
        assert(to != n);
        lemma_move(t, to);
        law_move_keeps_handles(t, to, handle);
        let next = t.after_move(to);
        law_compaction_keeps_handles(next, handle);
        let between = next.row_of(handle)->0 as int;
        let moved = state.compacted().row_of(handle)->0 as int;
        assert forall|c: int| 0 <= c < state.columns.len() implies (
        #[trigger] state.compacted().columns[c]).element(moved) == state.columns[c].element(
            row,
        ) by {
            assert(next.columns[c].element(between) == t.columns[c].element(row));
        }
    }
}

/// A handle that leads nowhere leads nowhere after compaction either.
pub proof fn law_compaction_revives_nothing(state: CellState, handle: Handle)
    requires
        state.consistent(),
        state.row_of(handle) is None,
    ensures
        state.compacted().row_of(handle) is None,
    decreases state.rows.len(),
{
    lemma_trim_keeps_slots(state);
    lemma_trimmed(state);
    let t = state.trimmed();
    if t.can_move() {
        lemma_first_hole(t, 0);
        let to = t.first_hole(0)->0;
        let n = t.rows.len() - 1;
        assert(!t.hole(n));
        assert(to != n);
        lemma_move(t, to);
        assert(t.placed[t.rows[n].slot as int] == Some(n as u32));
        law_compaction_revives_nothing(t.after_move(to), handle);
    }
}

pub(crate) proof fn lemma_trim_keeps_slots(state: CellState)
    requires
        state.consistent(),
    ensures
        state.trimmed().consistent(),
        state.trimmed().placed == state.placed,
        state.trimmed().generations == state.generations,
    decreases state.rows.len(),
{
    if state.rows.len() > 0 && state.hole(state.rows.len() - 1) {
        lemma_pop(state);
        lemma_trim_keeps_slots(
            CellState {
                rows: state.rows.drop_last(),
                columns: columns_cut(state.columns, state.rows.len() - 1),
                ..state
            },
        );
    }
}

} // verus!
