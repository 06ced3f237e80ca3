//! Mirrors the components of a world, keyed by an entity's index, to the columns of the store.
//!
//! Nothing is mirrored for an entity that never gets a component with mirrored fields: its row costs
//! nothing, neither when it is spawned nor when it is despawned.
use crate::entity::ComponentId;
use crate::gpu::buffer_registry::MirrorMode;
use crate::gpu::dirty_tracked_scene_buffer::{DirtyTrackedSceneBuffer, FlushPlan};
use crate::gpu::scene_store::SceneGpuStore;
use crate::gpu::shared_buffers::GrowingWrite;
use vstd::bytes::u32_to_le_bytes;
use vstd::prelude::*;
use vstd::slice::{slice_subrange, slice_to_vec};

verus! {

use crate::gpu::column_map::target_of;
use crate::gpu::dirty_tracked_scene_buffer::{uploads_runs, ShadowState};
use crate::gpu::dynamic_buffer::DynamicState;
use crate::gpu::runs::{are_runs, rows_in, Run};
use crate::gpu::scene_store::StoreState;
use crate::gpu::shared_buffers::{BuffersState, KindState, OwnerState};
use vstd::bytes::spec_u32_to_le_bytes;

/// Rows a mirrored column starts with when nobody chose.
pub const DEFAULT_AUTO_REGISTER_CAPACITY: u32 = 64;

/// For each row, whether its entity ever got a component with mirrored fields.
pub struct GpuMirroredRows {
    rows: Vec<bool>,
}

/// Whether `row` is marked; no row past the end is.
pub open spec fn is_marked(rows: Seq<bool>, row: int) -> bool {
    row < rows.len() && rows[row]
}

/// The flags with `row` marked, which they are extended to have.
pub open spec fn marked(rows: Seq<bool>, row: int) -> Seq<bool> {
    if row < rows.len() {
        rows.update(row, true)
    } else {
        (rows + Seq::new((row - rows.len()) as nat, |i: int| false)).push(true)
    }
}

/// The flags with `row` no longer marked.
pub open spec fn cleared(rows: Seq<bool>, row: int) -> Seq<bool> {
    if row < rows.len() {
        rows.update(row, false)
    } else {
        rows
    }
}

impl View for GpuMirroredRows {
    type V = Seq<bool>;

    closed spec fn view(&self) -> Seq<bool> {
        self.rows@
    }
}

impl GpuMirroredRows {
    /// No row is marked.
    pub fn new() -> (rows: Self)
        ensures
            rows@ == Seq::<bool>::empty(),
    {
        GpuMirroredRows { rows: Vec::new() }
    }

    /// Marks `row`. Whether it was not marked before.
    pub fn mark_first_time(&mut self, row: u32) -> (first: bool)
        requires
            row < usize::MAX,
        ensures
            final(self)@ == marked(old(self)@, row as int),
            first == !is_marked(old(self)@, row as int),
    {
        let ghost before = self@;
        let at: usize = row as usize;
        if at < self.rows.len() {
            let first: bool = !self.rows[at];
            self.rows.set(at, true);
            return first;
        }
        while self.rows.len() < at
            invariant
                before == old(self)@,
                before.len() <= self.rows@.len() <= at,
                self.rows@ == before + Seq::new(
                    (self.rows@.len() - before.len()) as nat,
                    |i: int| false,
                ),
            decreases at - self.rows@.len(),
        {
            let ghost was = self.rows@;
            self.rows.push(false);
            assert(self.rows@ =~= before + Seq::new(
                (self.rows@.len() - before.len()) as nat,
                |i: int| false,
            ));
        }
        self.rows.push(true);
        true
    }

    /// Unmarks `row`. Whether it was marked.
    pub fn clear(&mut self, row: u32) -> (was: bool)
        ensures
            final(self)@ == cleared(old(self)@, row as int),
            was == is_marked(old(self)@, row as int),
    {
        let at: usize = row as usize;
        if at >= self.rows.len() {
            return false;
        }
        let was: bool = self.rows[at];
        self.rows.set(at, false);
        was
    }
}

/// The mirrored generations: what the next flush uploads, and which rows are mirrored at all.
pub struct GenerationState {
    pub buf: ShadowState,
    pub rows: Seq<bool>,
}

impl GenerationState {
    /// `row` has mirrored data of an entity with this generation. Only the first time counts.
    pub open spec fn inserted(self, row: int, generation: u32) -> GenerationState {
        GenerationState {
            buf: if is_marked(self.rows, row) {
                self.buf
            } else {
                self.buf.recorded(row, spec_u32_to_le_bytes(generation))
            },
            rows: marked(self.rows, row),
        }
    }

    /// The entity of `row` is gone, and its row has a new generation. That counts only if there was
    /// mirrored data.
    pub open spec fn despawned(self, row: int, generation: u32) -> GenerationState {
        GenerationState {
            buf: if is_marked(self.rows, row) {
                self.buf.recorded(row, spec_u32_to_le_bytes(generation))
            } else {
                self.buf
            },
            rows: cleared(self.rows, row),
        }
    }

    /// Every marked row has been recorded.
    pub open spec fn marks_recorded(self) -> bool {
        forall|row: int|
            0 <= row && #[trigger] is_marked(self.rows, row) ==> row < self.buf.dirty.len()
    }

    /// There is room for row `row`.
    pub open spec fn has_room(self, row: int) -> bool {
        &&& row < usize::MAX
        &&& self.buf.rows_for(row) <= u32::MAX
        &&& self.buf.rows_for(row) * 4 <= usize::MAX
    }
}

/// What records a row keeps every marked row recorded.
proof fn lemma_marks_recorded(state: GenerationState, row: int, generation: u32)
    requires
        0 <= row < state.buf.rows_for(row),
        state.buf.dirty.len() <= state.buf.rows_for(row),
        state.marks_recorded(),
    ensures
        state.inserted(row, generation).marks_recorded(),
        state.despawned(row, generation).marks_recorded(),
{
    let inserted = state.inserted(row, generation);
    assert forall|r: int| 0 <= r && #[trigger] is_marked(inserted.rows, r) implies r
        < inserted.buf.dirty.len() by {
        assert(r != row ==> is_marked(state.rows, r));
        assert(is_marked(state.rows, row) ==> row < state.buf.dirty.len());
    }
    let despawned = state.despawned(row, generation);
    assert forall|r: int| 0 <= r && #[trigger] is_marked(despawned.rows, r) implies r
        < despawned.buf.dirty.len() by {
        assert(is_marked(state.rows, r));
    }
}

/// The generation of each row, for the device to tell stale references by. Changes are recorded and
/// uploaded together by a flush.
pub struct GenerationMirror {
    buf: DirtyTrackedSceneBuffer,
    rows: GpuMirroredRows,
}

impl View for GenerationMirror {
    type V = GenerationState;

    closed spec fn view(&self) -> GenerationState {
        GenerationState { buf: self.buf@, rows: self.rows@ }
    }
}

impl GenerationMirror {
    /// Every row takes four bytes, and the rows that are marked have theirs.
    pub closed spec fn wf(&self) -> bool {
        &&& self.buf.wf()
        &&& self.buf@.size() == 4
        &&& self@.marks_recorded()
    }

    pub proof fn lemma_wf(&self)
        requires
            self.wf(),
        ensures
            self@.buf.consistent(),
            self@.buf.size() == 4,
            self@.marks_recorded(),
    {
        self.buf.lemma_wf();
    }

    /// A mirror of no rows, on a device whose buffers hold at most `limit` of them.
    pub fn new(limit: u32) -> (mirror: Self)
        requires
            DEFAULT_AUTO_REGISTER_CAPACITY <= limit,
        ensures
            mirror.wf(),
            mirror@ == (GenerationState {
                buf: ShadowState {
                    buffer: DynamicState { elem_size: 4, capacity: 64, limit, epoch: 0 },
                    shadow: Seq::new(256, |i: int| 0u8),
                    dirty: Seq::new(64, |i: int| false),
                },
                rows: seq![],
            }),
    {
        let mirror = GenerationMirror {
            buf: DirtyTrackedSceneBuffer::new(4, DEFAULT_AUTO_REGISTER_CAPACITY, limit),
            rows: GpuMirroredRows::new(),
        };
        assert(mirror@.rows =~= seq![]);
        mirror
    }

    /// Notes that `row` got mirrored data. Its generation is recorded the first time only.
    pub fn note_gpu_bearing_insert(&mut self, row: u32, generation: u32)
        requires
            old(self).wf(),
            is_marked(old(self)@.rows, row as int) || old(self)@.has_room(row as int),
        ensures
            final(self).wf(),
            final(self)@ == old(self)@.inserted(row as int, generation),
    {
        let ghost before = self@;
        proof {
            self.buf.lemma_rows_for(row);
        }
        if self.rows.mark_first_time(row) {
            proof {
                vstd::bytes::lemma_auto_spec_u32_to_from_le_bytes();
            }
            let bytes = u32_to_le_bytes(generation);
            self.buf.mark_dirty(row, bytes.as_slice());
        }
        proof {
            lemma_marks_recorded(before, row as int, generation);
        }
    }

    /// Notes that the entity of `row` is gone. The new generation is recorded only if the row had
    /// mirrored data.
    pub fn note_despawn(&mut self, row: u32, new_generation: u32)
        requires
            old(self).wf(),
        ensures
            final(self).wf(),
            final(self)@ == old(self)@.despawned(row as int, new_generation),
    {
        let ghost before = self@;
        proof {
            self.buf.lemma_rows_for(row);
            assert(is_marked(before.rows, row as int) ==> row < before.buf.dirty.len());
        }
        if self.rows.clear(row) {
            proof {
                vstd::bytes::lemma_auto_spec_u32_to_from_le_bytes();
            }
            let bytes = u32_to_le_bytes(new_generation);
            self.buf.mark_dirty(row, bytes.as_slice());
        }
        proof {
            lemma_marks_recorded(before, row as int, new_generation);
        }
    }

    /// What to upload: every row recorded since the last flush, in runs.
    pub fn flush(&mut self) -> (plan: FlushPlan)
        requires
            old(self).wf(),
            old(self)@.buf.can_flush(),
        ensures
            final(self).wf(),
            final(self)@ == (GenerationState {
                buf: old(self)@.buf.flushed(),
                rows: old(self)@.rows,
            }),
            plan.grown_to == if old(self)@.buf.buffer.capacity < old(self)@.buf.dirty.len() {
                Some(final(self)@.buf.buffer.capacity)
            } else {
                None
            },
            exists|runs: Seq<Run>| #[trigger]
                are_runs(runs, old(self)@.buf.dirty) && uploads_runs(
                    plan.uploads@,
                    runs,
                    old(self)@.buf,
                ) && plan.stats.ranges == runs.len() && plan.stats.bytes == rows_in(runs)
                    * old(self)@.buf.size(),
            plan.stats.ranges == old(self)@.buf.pending_ranges(),
            plan.stats.bytes == old(self)@.buf.pending_bytes(),
    {
        self.buf.flush()
    }

    /// The epoch of the buffer.
    pub fn epoch(&self) -> (epoch: u64)
        ensures
            epoch == self@.buf.buffer.epoch,
    {
        self.buf.epoch()
    }
}

/// An entity that never gets mirrored data costs nothing: neither its despawn nor anything else
/// records a generation for its row.
pub proof fn law_rows_without_mirrored_data_cost_nothing(
    state: GenerationState,
    row: int,
    generation: u32,
)
    requires
        0 <= row,
        !is_marked(state.rows, row),
    ensures
        state.despawned(row, generation).buf == state.buf,
        !is_marked(state.despawned(row, generation).rows, row),
{
}

/// The generation is recorded once per entity, however many components with mirrored fields it
/// gets, and again when it is despawned; the next entity of the row starts afresh.
pub proof fn law_generation_is_recorded_once(
    state: GenerationState,
    row: int,
    generation: u32,
    again: u32,
    next: u32,
)
    requires
        0 <= row,
    ensures
        state.inserted(row, generation).inserted(row, again) == state.inserted(row, generation),
        state.inserted(row, generation).despawned(row, next).buf == state.inserted(
            row,
            generation,
        ).buf.recorded(row, spec_u32_to_le_bytes(next)),
        !is_marked(state.inserted(row, generation).despawned(row, next).rows, row),
{
    let once = state.inserted(row, generation);
    assert(is_marked(once.rows, row));
    assert(marked(once.rows, row) =~= once.rows);
}

/// Marking or clearing one row leaves the others.
pub proof fn law_rows_are_independent(rows: Seq<bool>, row: int, other: int)
    requires
        0 <= row,
        0 <= other,
        row != other,
    ensures
        is_marked(marked(rows, row), other) == is_marked(rows, other),
        is_marked(cleared(rows, row), other) == is_marked(rows, other),
{
}

/// A field to mirror: its column, when it is mirrored, and its bytes.
pub struct MirroredField {
    pub id: ComponentId,
    pub mode: MirrorMode,
    pub bytes: Vec<u8>,
}

/// Where a mirrored field lies in its component, and how it is mirrored.
#[derive(Debug)]
pub struct GpuColumnDesc<U> {
    /// The column.
    pub field: ComponentId,
    /// The field's first byte in the component.
    pub field_offset: usize,
    /// The field's bytes.
    pub field_size: usize,
    pub mode: MirrorMode,
    /// The buffer it is bound as.
    pub buffer_name: &'static str,
    /// For a field that only refers to what is mirrored: makes that from the field's bytes.
    pub upload: Option<U>,
}

/// The bytes of a field in the bytes of its component.
pub open spec fn own_bytes<U>(column: GpuColumnDesc<U>, data: Seq<u8>) -> Seq<u8> {
    data.subrange(column.field_offset as int, column.field_offset + column.field_size)
}

/// `bytes` is what `upload` makes of a field.
pub open spec fn made_by<U: Fn(&Vec<u8>) -> Vec<u8>>(
    upload: U,
    own: Seq<u8>,
    bytes: Vec<u8>,
) -> bool {
    exists|field: Vec<u8>| field@ == own && #[trigger] call_ensures(upload, (&field,), bytes)
}

/// `field` is what is mirrored of a component for a column: the field itself, or what is made of
/// it.
pub open spec fn read_from<U: Fn(&Vec<u8>) -> Vec<u8>>(
    column: GpuColumnDesc<U>,
    data: Seq<u8>,
    field: MirroredField,
) -> bool {
    &&& field.id == column.field
    &&& field.mode == column.mode
    &&& match column.upload {
        Some(upload) => made_by(upload, own_bytes(column, data), field.bytes),
        None => field.bytes@ == own_bytes(column, data),
    }
}

/// The fields lie in the component, and what they refer to can be made of their bytes.
pub open spec fn columns_lie_in<U: Fn(&Vec<u8>) -> Vec<u8>>(
    columns: Seq<GpuColumnDesc<U>>,
    data: Seq<u8>,
) -> bool {
    forall|i: int|
        0 <= i < columns.len() ==> {
            &&& (#[trigger] columns[i]).field_offset + columns[i].field_size <= data.len()
            &&& columns[i].upload matches Some(upload) ==> forall|field: Vec<u8>|
                field@ == own_bytes(columns[i], data) ==> #[trigger] call_requires(
                    upload,
                    (&field,),
                )
        }
}

/// Reads the mirrored fields from the bytes of a component.
pub fn mirrored_fields<U: Fn(&Vec<u8>) -> Vec<u8>>(
    columns: &Vec<GpuColumnDesc<U>>,
    data: &[u8],
) -> (fields: Vec<MirroredField>)
    requires
        columns_lie_in(columns@, data@),
    ensures
        fields@.len() == columns@.len(),
        forall|i: int|
            0 <= i < fields@.len() ==> read_from(columns@[i], data@, #[trigger] fields@[i]),
{
    let len: usize = data.len();
    let mut fields: Vec<MirroredField> = Vec::new();
    let mut i: usize = 0;
    while i < columns.len()
        invariant
            len == data@.len(),
            columns_lie_in(columns@, data@),
            i <= columns@.len(),
            fields@.len() == i,
            forall|j: int|
                0 <= j < i ==> read_from(columns@[j], data@, #[trigger] fields@[j]),
        decreases columns@.len() - i,
    {
        let column = &columns[i];
        assert(columns@[i as int].field_offset + columns@[i as int].field_size <= data@.len());
        let own = slice_to_vec(
            slice_subrange(data, column.field_offset, column.field_offset + column.field_size),
        );
        assert(own@ =~= own_bytes(*column, data@));
        let bytes: Vec<u8> = match &column.upload {
            Some(upload) => upload(&own),
            None => own,
        };
        fields.push(MirroredField { id: column.field, mode: column.mode, bytes });
        i = i + 1;
    }
    fields
}

/// A write to the device.
pub struct FieldUpload {
    pub owner: usize,
    pub offset: int,
    pub bytes: Seq<u8>,
    pub grown_to: Option<u32>,
}

/// What `write` does.
pub open spec fn upload_of(write: GrowingWrite) -> FieldUpload {
    FieldUpload {
        owner: write.write.owner,
        offset: write.write.offset as int,
        bytes: write.write.bytes@,
        grown_to: write.grown_to,
    }
}

/// The buffers after one field was mirrored to `row`. A field that is uploaded once is passed over
/// unless the component is new. A column that records changes does so; any other is written, grown
/// first if need be; a field without a column is passed over.
pub open spec fn field_mirrored<B>(
    state: BuffersState<B>,
    field: MirroredField,
    row: int,
    is_new: bool,
) -> BuffersState<B> {
    if field.mode == MirrorMode::Once && !is_new {
        state
    } else {
        match target_of(state.mirrored, field.id) {
            Some(at) => BuffersState {
                owners: state.owners.update(
                    at as int,
                    OwnerState {
                        kind: KindState::DirtyTracked(
                            state.owners[at as int].kind->DirtyTracked_0.recorded(
                                row,
                                field.bytes@,
                            ),
                        ),
                        ..state.owners[at as int]
                    },
                ),
                ..state
            },
            None => if target_of(state.fixed, field.id) is Some {
                state
            } else {
                match target_of(state.growable, field.id) {
                    Some(at) => BuffersState {
                        owners: state.owners.update(
                            at as int,
                            OwnerState {
                                kind: KindState::Growable(
                                    state.owners[at as int].kind->Growable_0.grown(row + 1),
                                ),
                                ..state.owners[at as int]
                            },
                        ),
                        ..state
                    },
                    None => state,
                }
            },
        }
    }
}

/// The write one field causes, if any.
pub open spec fn field_upload<B>(
    state: BuffersState<B>,
    field: MirroredField,
    row: int,
    is_new: bool,
) -> Option<FieldUpload> {
    if field.mode == MirrorMode::Once && !is_new {
        None
    } else if target_of(state.mirrored, field.id) is Some {
        None
    } else {
        match target_of(state.fixed, field.id) {
            Some(at) => Some(
                FieldUpload {
                    owner: at,
                    offset: row * state.owners[at as int].element.size,
                    bytes: field.bytes@,
                    grown_to: None,
                },
            ),
            None => match target_of(state.growable, field.id) {
                Some(at) => {
                    let buf = state.owners[at as int].kind->Growable_0;
                    Some(
                        FieldUpload {
                            owner: at,
                            offset: row * state.owners[at as int].element.size,
                            bytes: field.bytes@,
                            grown_to: if row + 1 > buf.capacity {
                                Some(buf.grown(row + 1).capacity)
                            } else {
                                None
                            },
                        },
                    )
                },
                None => None,
            },
        }
    }
}

/// The field can be mirrored: its bytes are those of its column's element, the host can hold the
/// row, and a buffer with a ceiling is not asked to grow beyond it.
pub open spec fn field_fits<B>(
    state: BuffersState<B>,
    field: MirroredField,
    row: int,
    is_new: bool,
) -> bool {
    field.mode == MirrorMode::Once && !is_new || match target_of(state.mirrored, field.id) {
        Some(at) => {
            let buf = state.owners[at as int].kind->DirtyTracked_0;
            &&& field.bytes@.len() == buf.size()
            &&& buf.rows_for(row) <= u32::MAX
            &&& buf.rows_for(row) * buf.size() <= usize::MAX
        },
        None => target_of(state.fixed, field.id) is Some || (match target_of(
            state.growable,
            field.id,
        ) {
            Some(at) => row + 1 <= state.owners[at as int].kind->Growable_0.limit,
            None => true,
        }),
    }
}

/// The buffers after all fields were mirrored, one after the other.
pub open spec fn fields_mirrored<B>(
    state: BuffersState<B>,
    fields: Seq<MirroredField>,
    row: int,
    is_new: bool,
) -> BuffersState<B>
    decreases fields.len(),
{
    if fields.len() == 0 {
        state
    } else {
        field_mirrored(
            fields_mirrored(state, fields.drop_last(), row, is_new),
            fields.last(),
            row,
            is_new,
        )
    }
}

/// The writes of all fields, one after the other.
pub open spec fn field_uploads<B>(
    state: BuffersState<B>,
    fields: Seq<MirroredField>,
    row: int,
    is_new: bool,
) -> Seq<FieldUpload>
    decreases fields.len(),
{
    if fields.len() == 0 {
        seq![]
    } else {
        let front = fields.drop_last();
        let before = field_uploads(state, front, row, is_new);
        match field_upload(
            fields_mirrored(state, front, row, is_new),
            fields.last(),
            row,
            is_new,
        ) {
            Some(upload) => before.push(upload),
            None => before,
        }
    }
}

/// All fields can be mirrored, one after the other.
pub open spec fn fields_fit<B>(
    state: BuffersState<B>,
    fields: Seq<MirroredField>,
    row: int,
    is_new: bool,
) -> bool
    decreases fields.len(),
{
    fields.len() == 0 || fields_fit(state, fields.drop_last(), row, is_new) && field_fits(
        fields_mirrored(state, fields.drop_last(), row, is_new),
        fields.last(),
        row,
        is_new,
    )
}

proof fn lemma_front_fits<B>(
    state: BuffersState<B>,
    fields: Seq<MirroredField>,
    row: int,
    is_new: bool,
    i: int,
)
    requires
        0 <= i <= fields.len(),
        fields_fit(state, fields, row, is_new),
    ensures
        fields_fit(state, fields.take(i), row, is_new),
    decreases fields.len(),
{
    if i == fields.len() {
        assert(fields.take(i) =~= fields);
    } else {
        assert(fields.drop_last().take(i) =~= fields.take(i));
        lemma_front_fits(state, fields.drop_last(), row, is_new, i);
    }
}

/// Mirrors the fields of a component to `row`. Returns the writes for the device, in order.
pub fn write_gpu_columns_at_row<B: Clone>(
    store: &mut SceneGpuStore<B>,
    row: u32,
    fields: &Vec<MirroredField>,
    is_new_insert: bool,
) -> (writes: Vec<GrowingWrite>)
    requires
        old(store).wf(),
        fields_fit(old(store)@.buffers, fields@, row as int, is_new_insert),
    ensures
        final(store).wf(),
        final(store)@ == (StoreState {
            buffers: fields_mirrored(old(store)@.buffers, fields@, row as int, is_new_insert),
            ..old(store)@
        }),
        writes@.map_values(|w: GrowingWrite| upload_of(w)) == field_uploads(
            old(store)@.buffers,
            fields@,
            row as int,
            is_new_insert,
        ),
{
    let ghost before = store@;
    let mut writes: Vec<GrowingWrite> = Vec::new();
    let mut i: usize = 0;
    assert(writes@.map_values(|w: GrowingWrite| upload_of(w)) =~= seq![]);
    while i < fields.len()
        invariant
            before == old(store)@,
            i <= fields@.len(),
            store.wf(),
            fields_fit(before.buffers, fields@, row as int, is_new_insert),
            store@ == (StoreState {
                buffers: fields_mirrored(
                    before.buffers,
                    fields@.take(i as int),
                    row as int,
                    is_new_insert,
                ),
                ..before
            }),
            writes@.map_values(|w: GrowingWrite| upload_of(w)) == field_uploads(
                before.buffers,
                fields@.take(i as int),
                row as int,
                is_new_insert,
            ),
        decreases fields@.len() - i,
    {
        let field = &fields[i];
        let ghost state = store@.buffers;
        let ghost was = writes@;
        let ghost more = fields@.take(i + 1);
        proof {
            lemma_front_fits(before.buffers, fields@, row as int, is_new_insert, i + 1);
            assert(more.drop_last() =~= fields@.take(i as int));
            assert(more.last() == *field);
        }
        let once: bool = match field.mode {
            MirrorMode::Once => true,
            MirrorMode::DirtyTracked => false,
        };
        if !once || is_new_insert {
            if !store.mark_gpu_row_dirty(field.id, row, field.bytes.as_slice()) {
                match store.write_row_bytes(field.id, field.bytes.as_slice(), row) {
                    Some(write) => {
                        let out = GrowingWrite { grown_to: None, write };
                        writes.push(out);
                        assert(upload_of(out) == field_upload(
                            state,
                            *field,
                            row as int,
                            is_new_insert,
                        )->0);
                    },
                    None => {
                        match store.write_row_bytes_growing(
                            field.id,
                            field.bytes.as_slice(),
                            row,
                        ) {
                            Some(Ok(out)) => {
                                writes.push(out);
                                assert(upload_of(out) == field_upload(
                                    state,
                                    *field,
                                    row as int,
                                    is_new_insert,
                                )->0);
                            },
                            Some(Err(_)) => {
                                assert(false);
                            },
                            None => {},
                        }
                    },
                }
            }
        }
        i = i + 1;
        proof {
            match field_upload(state, *field, row as int, is_new_insert) {
                Some(upload) => {
                    assert(writes@.map_values(|w: GrowingWrite| upload_of(w)) =~= was.map_values(
                        |w: GrowingWrite| upload_of(w),
                    ).push(upload));
                },
                None => {
                    assert(writes@ == was);
                },
            }
        }
    }
    assert(fields@.take(i as int) =~= fields@);
    writes
}

/// A component of which nothing is new writes none of the fields that are uploaded once.
pub proof fn law_fields_uploaded_once_stay<B>(
    state: BuffersState<B>,
    fields: Seq<MirroredField>,
    row: int,
)
    requires
        forall|i: int| 0 <= i < fields.len() ==> (#[trigger] fields[i]).mode == MirrorMode::Once,
    ensures
        fields_mirrored(state, fields, row, false) == state,
        field_uploads(state, fields, row, false).len() == 0,
    decreases fields.len(),
{
    if fields.len() > 0 {
        let front = fields.drop_last();
        assert forall|i: int| 0 <= i < front.len() implies (#[trigger] front[i]).mode
            == MirrorMode::Once by {
            assert(fields[i].mode == MirrorMode::Once);
        }
        law_fields_uploaded_once_stay(state, front, row);
        assert(fields[fields.len() - 1].mode == MirrorMode::Once);
    }
}

/// A component type with mirrored fields, and what mirrors them.
#[derive(Debug)]
pub struct GpuMirrorRegistration<D> {
    pub component_id: ComponentId,
    pub dispatch: D,
}

/// The component types that have mirrored fields.
pub struct MirrorRegistrations<D> {
    entries: Vec<GpuMirrorRegistration<D>>,
}

/// What is registered for `id`: the last registration counts.
pub open spec fn registered_for<D>(
    entries: Seq<GpuMirrorRegistration<D>>,
    id: ComponentId,
) -> Option<D>
    decreases entries.len(),
{
    if entries.len() == 0 {
        None
    } else if entries.last().component_id == id {
        Some(entries.last().dispatch)
    } else {
        registered_for(entries.drop_last(), id)
    }
}

impl<D> View for MirrorRegistrations<D> {
    type V = Seq<GpuMirrorRegistration<D>>;

    closed spec fn view(&self) -> Seq<GpuMirrorRegistration<D>> {
        self.entries@
    }
}

impl<D> MirrorRegistrations<D> {
    /// No component type has mirrored fields.
    pub fn new() -> (registrations: Self)
        ensures
            registrations@ == Seq::<GpuMirrorRegistration<D>>::empty(),
    {
        MirrorRegistrations { entries: Vec::new() }
    }

    /// Registers a component type.
    pub fn submit(&mut self, registration: GpuMirrorRegistration<D>)
        ensures
            final(self)@ == old(self)@.push(registration),
    {
        self.entries.push(registration);
    }

    /// What is registered for `id`, if anything.
    pub fn dispatch_for(&self, id: ComponentId) -> (dispatch: Option<&D>)
        ensures
            match dispatch {
                Some(dispatch) => registered_for(self@, id) == Some(*dispatch),
                None => registered_for(self@, id) is None,
            },
    {
        let mut i: usize = self.entries.len();
        assert(self@.take(i as int) =~= self@);
        while i > 0
            invariant
                i <= self.entries@.len(),
                self@ == self.entries@,
                registered_for(self@, id) == registered_for(self@.take(i as int), id),
            decreases i,
        {
            i = i - 1;
            assert(self@.take(i + 1).drop_last() =~= self@.take(i as int));
            if self.entries[i].component_id == id {
                return Some(&self.entries[i].dispatch);
            }
        }
        assert(self@.take(0).len() == 0);
        None
    }
}

/// The first component with mirrored fields that an entity gets records its generation, and so does
/// the entity's end: the row then holds the generation's four bytes, the low one first, and awaits a
/// flush; no other row does that did not before.
pub proof fn law_generation_reaches_its_row(
    state: GenerationState,
    row: int,
    generation: u32,
    other: int,
)
    requires
        state.buf.consistent(),
        state.buf.size() == 4,
        0 <= row,
        state.buf.rows_for(row) <= u32::MAX,
        0 <= other < state.buf.dirty.len(),
        other != row,
    ensures
        ({
            let inserted = state.inserted(row, generation);
            let despawned = state.despawned(row, generation);
            let bytes = spec_u32_to_le_bytes(generation);
            &&& is_marked(inserted.rows, row)
            &&& !is_marked(despawned.rows, row)
            &&& !is_marked(state.rows, row) ==> {
                &&& inserted.buf.row(row) == bytes
                &&& inserted.buf.dirty[row]
                &&& despawned.buf == state.buf
            }
            &&& is_marked(state.rows, row) ==> {
                &&& despawned.buf.row(row) == bytes
                &&& despawned.buf.dirty[row]
                &&& inserted.buf == state.buf
            }
            &&& inserted.buf.row(other) == state.buf.row(other)
            &&& inserted.buf.dirty[other] == state.buf.dirty[other]
            &&& despawned.buf.row(other) == state.buf.row(other)
            &&& despawned.buf.dirty[other] == state.buf.dirty[other]
        }),
{
    vstd::bytes::lemma_auto_spec_u32_to_from_le_bytes();
    crate::gpu::dirty_tracked_scene_buffer::law_recording_marks_one_row(
        state.buf,
        row,
        spec_u32_to_le_bytes(generation),
    );
}

/// Of the registrations of a component type the last counts, and it is nobody else's.
pub proof fn law_last_registration_counts<D>(
    entries: Seq<GpuMirrorRegistration<D>>,
    more: GpuMirrorRegistration<D>,
    other: ComponentId,
)
    ensures
        registered_for(entries.push(more), more.component_id) == Some(more.dispatch),
        other != more.component_id ==> registered_for(entries.push(more), other) == registered_for(
            entries,
            other,
        ),
        registered_for(Seq::<GpuMirrorRegistration<D>>::empty(), other) is None,
{
    assert(entries.push(more).drop_last() =~= entries);
}

/// What is mirrored of a field is the bytes it takes in its component, in their order, under its
/// column's name and mode, unless it only refers to what is mirrored; then it is what is made of them.
pub proof fn law_mirrored_field_is_its_bytes<U: Fn(&Vec<u8>) -> Vec<u8>>(
    column: GpuColumnDesc<U>,
    data: Seq<u8>,
    field: MirroredField,
    i: int,
)
    requires
        read_from(column, data, field),
        column.field_offset + column.field_size <= data.len(),
    ensures
        field.id == column.field,
        field.mode == column.mode,
        own_bytes(column, data).len() == column.field_size,
        0 <= i < column.field_size ==> own_bytes(column, data)[i] == data[column.field_offset + i],
        column.upload is None ==> field.bytes@ == own_bytes(column, data),
        column.upload matches Some(upload) ==> exists|own: Vec<u8>|
            own@ == own_bytes(column, data) && #[trigger] call_ensures(
                upload,
                (&own,),
                field.bytes,
            ),
{
}

} // verus!
