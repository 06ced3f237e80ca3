//! What mirroring the fields of a component does, field by field.
use crate::gpu::buffer_registry::MirrorMode;
use crate::gpu::world_mirror::{FieldUpload, MirroredField};
use vstd::prelude::*;

verus! {

use crate::gpu::column_map::{binding_at, is_bound, target_of};
use crate::gpu::dirty_tracked_scene_buffer::law_recording_marks_one_row;
use crate::gpu::shared_buffers::{BuffersState, KindState, OwnerState};
use crate::gpu::world_mirror::{
    field_fits, field_mirrored, field_upload, field_uploads, fields_fit, fields_mirrored,
};

/// The field is to be mirrored: it always is when its component is new, and else unless it is
/// uploaded only once.
pub open spec fn is_due(field: MirroredField, is_new: bool) -> bool {
    is_new || field.mode == MirrorMode::DirtyTracked
}

/// The column of the field records its changes in buffer `at`.
pub open spec fn records<B>(state: BuffersState<B>, field: MirroredField, at: int) -> bool {
    exists|i: int|
        0 <= i < state.mirrored.len() && #[trigger] state.mirrored[i] == (field.id, at as usize)
            && 0 <= at <= usize::MAX
}

/// The column of the field records no changes and is of buffer `at`, which has a fixed size.
pub open spec fn writes_fixed<B>(state: BuffersState<B>, field: MirroredField, at: int) -> bool {
    &&& !is_bound(state.mirrored, field.id)
    &&& exists|i: int|
        0 <= i < state.fixed.len() && #[trigger] state.fixed[i] == (field.id, at as usize) && 0
            <= at <= usize::MAX
}

/// The column of the field records no changes and is of buffer `at`, which grows.
pub open spec fn writes_growable<B>(
    state: BuffersState<B>,
    field: MirroredField,
    at: int,
) -> bool {
    &&& !is_bound(state.mirrored, field.id)
    &&& !is_bound(state.fixed, field.id)
    &&& exists|i: int|
        0 <= i < state.growable.len() && #[trigger] state.growable[i] == (field.id, at as usize)
            && 0 <= at <= usize::MAX
}

/// What every dirty-tracked buffer holds is consistent.
pub open spec fn shadows_consistent<B>(state: BuffersState<B>) -> bool {
    forall|i: int|
        0 <= i < state.owners.len() ==> match (#[trigger] state.owners[i]).kind {
            KindState::DirtyTracked(buf) => buf.consistent(),
            _ => true,
        }
}

/// The bindings and the buffers are as in `state`, but for what the buffers hold.
pub open spec fn same_columns<B>(state: BuffersState<B>, after: BuffersState<B>) -> bool {
    &&& after.columns == state.columns
    &&& after.fixed == state.fixed
    &&& after.growable == state.growable
    &&& after.mirrored == state.mirrored
    &&& after.registry == state.registry
    &&& after.owners.len() == state.owners.len()
    &&& forall|i: int|
        0 <= i < state.owners.len() ==> #[trigger] after.owners[i] == (OwnerState {
            kind: after.owners[i].kind,
            ..state.owners[i]
        }) && after.owners[i].kind.tag() == state.owners[i].kind.tag()
}

proof fn lemma_target<B>(state: BuffersState<B>, field: MirroredField, at: int)
    requires
        state.consistent(),
    ensures
        records(state, field, at) <==> target_of(state.mirrored, field.id) == Some(at as usize)
            && 0 <= at <= usize::MAX,
        writes_fixed(state, field, at) <==> target_of(state.mirrored, field.id) is None
            && target_of(state.fixed, field.id) == Some(at as usize) && 0 <= at <= usize::MAX,
        writes_growable(state, field, at) <==> target_of(state.mirrored, field.id) is None
            && target_of(state.fixed, field.id) is None && target_of(state.growable, field.id)
            == Some(at as usize) && 0 <= at <= usize::MAX,
        records(state, field, at) ==> at < state.owners.len()
            && state.owners[at].kind is DirtyTracked,
        writes_fixed(state, field, at) ==> at < state.owners.len()
            && state.owners[at].kind is Fixed,
        writes_growable(state, field, at) ==> at < state.owners.len()
            && state.owners[at].kind is Growable,
{
    lemma_bound(state.mirrored, field.id, at as usize);
    lemma_bound(state.fixed, field.id, at as usize);
    lemma_bound(state.growable, field.id, at as usize);
}

proof fn lemma_bound(
    bindings: Seq<crate::gpu::column_map::Binding>,
    id: crate::entity::ComponentId,
    at: usize,
)
    requires
        crate::gpu::column_map::ids_distinct(bindings),
    ensures
        (exists|i: int| 0 <= i < bindings.len() && #[trigger] bindings[i] == (id, at))
            <==> target_of(bindings, id) == Some(at),
{
    if exists|i: int| 0 <= i < bindings.len() && #[trigger] bindings[i] == (id, at) {
        let i = choose|i: int| 0 <= i < bindings.len() && #[trigger] bindings[i] == (id, at);
        assert(bindings[i].0 == id);
        let j = binding_at(bindings, id);
        if i < j {
            assert(bindings[i].0 != bindings[j].0);
        } else if j < i {
            assert(bindings[j].0 != bindings[i].0);
        }
    }
    if target_of(bindings, id) == Some(at) {
        let j = binding_at(bindings, id);
        assert(bindings[j] == (id, at));
    }
}

/// One step keeps everything but what buffers hold.
proof fn lemma_step<B>(state: BuffersState<B>, field: MirroredField, row: int, is_new: bool)
    requires
        state.consistent(),
        shadows_consistent(state),
        field_fits(state, field, row, is_new),
        0 <= row,
    ensures
        same_columns(state, field_mirrored(state, field, row, is_new)),
        field_mirrored(state, field, row, is_new).consistent(),
        shadows_consistent(field_mirrored(state, field, row, is_new)),
{
    let after = field_mirrored(state, field, row, is_new);
    if target_of(state.mirrored, field.id) is Some {
        let at = target_of(state.mirrored, field.id)->0;
        lemma_target(state, field, at as int);
        if is_due(field, is_new) {
            law_recording_marks_one_row(
                state.owners[at as int].kind->DirtyTracked_0,
                row,
                field.bytes@,
            );
        }
    } else if target_of(state.fixed, field.id) is None && target_of(
        state.growable,
        field.id,
    ) is Some {
        let at = target_of(state.growable, field.id)->0;
        lemma_target(state, field, at as int);
    }
    assert(same_columns(state, after));
    assert forall|i: int, j: int|
        #![trigger after.owners[i], after.owners[j]]
        0 <= i < j < after.owners.len() implies after.owners[i].key@ != after.owners[j].key@ by {
        assert(state.owners[i].key@ != state.owners[j].key@);
    }
    assert forall|i: int| 0 <= i < after.owners.len() implies (
    #[trigger] after.owners[i]).sized() && crate::gpu::shared_buffers::listed(
        after.registry,
        after.owners[i],
    ) by {
        assert(state.owners[i].sized());
    }
}

proof fn lemma_steps<B>(
    state: BuffersState<B>,
    fields: Seq<MirroredField>,
    row: int,
    is_new: bool,
)
    requires
        state.consistent(),
        shadows_consistent(state),
        fields_fit(state, fields, row, is_new),
        0 <= row,
    ensures
        same_columns(state, fields_mirrored(state, fields, row, is_new)),
        fields_mirrored(state, fields, row, is_new).consistent(),
        shadows_consistent(fields_mirrored(state, fields, row, is_new)),
    decreases fields.len(),
{
    if fields.len() > 0 {
        lemma_steps(state, fields.drop_last(), row, is_new);
        lemma_step(
            fields_mirrored(state, fields.drop_last(), row, is_new),
            fields.last(),
            row,
            is_new,
        );
    }
}

/// Mirroring the fields of a component changes nothing but what its columns' buffers hold. Where a
/// due field's column records changes, the row of its buffer then awaits a flush, and it holds the
/// bytes of the last due field of that buffer.
pub proof fn law_due_fields_are_recorded<B>(
    state: BuffersState<B>,
    fields: Seq<MirroredField>,
    row: int,
    is_new: bool,
    k: int,
    at: int,
)
    requires
        state.consistent(),
        shadows_consistent(state),
        fields_fit(state, fields, row, is_new),
        0 <= row,
        0 <= k < fields.len(),
        is_due(fields[k], is_new),
        records(state, fields[k], at),
    ensures
        ({
            let after = fields_mirrored(state, fields, row, is_new);
            &&& same_columns(state, after)
            &&& after.owners[at].kind matches KindState::DirtyTracked(buf) && {
                &&& row < buf.dirty.len()
                &&& buf.dirty[row]
                &&& (forall|j: int|
                    k < j < fields.len() && #[trigger] is_due(fields[j], is_new) ==> !records(
                        state,
                        fields[j],
                        at,
                    )) ==> buf.row(row) == fields[k].bytes@
            }
        }),
    decreases fields.len(),
{
    let front = fields.drop_last();
    let most = fields_mirrored(state, front, row, is_new);
    lemma_steps(state, fields, row, is_new);
    lemma_steps(state, front, row, is_new);
    lemma_target(state, fields[k], at);
    lemma_target(state, fields.last(), at);
    if k < front.len() {
        assert(front[k] == fields[k]);
        law_due_fields_are_recorded(state, front, row, is_new, k, at);
        let last = fields.last();
        assert(fields[fields.len() - 1] == last);
        if is_due(last, is_new) && records(state, last, at) {
            law_recording_marks_one_row(
                most.owners[at].kind->DirtyTracked_0,
                row,
                last.bytes@,
            );
        } else {
            if target_of(state.growable, last.id) is Some && target_of(state.mirrored, last.id) is None
                && target_of(state.fixed, last.id) is None {
                lemma_target(state, last, target_of(state.growable, last.id)->0 as int);
            }
            let after = fields_mirrored(state, fields, row, is_new);
            assert(after.owners[at] == most.owners[at]);
        }
        assert(forall|j: int| 0 <= j < front.len() ==> front[j] == fields[j]);
    } else {
        law_recording_marks_one_row(
            most.owners[at].kind->DirtyTracked_0,
            row,
            fields[k].bytes@,
        );
    }
}

/// A buffer that no due field's column records in or grows is left as it was, and a buffer that
/// records changes keeps the bytes and the marks of all its other rows.
pub proof fn law_other_rows_are_left<B>(
    state: BuffersState<B>,
    fields: Seq<MirroredField>,
    row: int,
    is_new: bool,
    at: int,
    other: int,
)
    requires
        state.consistent(),
        shadows_consistent(state),
        fields_fit(state, fields, row, is_new),
        0 <= row,
        0 <= at < state.owners.len(),
    ensures
        ({
            let after = fields_mirrored(state, fields, row, is_new);
            &&& (forall|j: int|
                0 <= j < fields.len() && #[trigger] is_due(fields[j], is_new) ==> !records(
                    state,
                    fields[j],
                    at,
                ) && !writes_growable(state, fields[j], at)) ==> after.owners[at]
                == state.owners[at]
            &&& state.owners[at].kind matches KindState::DirtyTracked(buf) ==> (0 <= other
                < buf.dirty.len() && other != row ==> {
                &&& after.owners[at].kind matches KindState::DirtyTracked(now)
                &&& other < now.dirty.len()
                &&& now.dirty[other] == buf.dirty[other]
                &&& now.row(other) == buf.row(other)
            })
        }),
    decreases fields.len(),
{
    if fields.len() > 0 {
        let front = fields.drop_last();
        let last = fields.last();
        let most = fields_mirrored(state, front, row, is_new);
        lemma_steps(state, front, row, is_new);
        lemma_steps(state, fields, row, is_new);
        law_other_rows_are_left(state, front, row, is_new, at, other);
        lemma_target(state, last, at);
        assert(fields[fields.len() - 1] == last);
        assert(forall|j: int| 0 <= j < front.len() ==> front[j] == fields[j]);
        let after = fields_mirrored(state, fields, row, is_new);
        if is_due(last, is_new) && records(state, last, at) {
            law_recording_marks_one_row(
                most.owners[at].kind->DirtyTracked_0,
                row,
                last.bytes@,
            );
            assert(is_due(fields[fields.len() - 1], is_new));
        } else if is_due(last, is_new) && writes_growable(state, last, at) {
            assert(is_due(fields[fields.len() - 1], is_new));
            assert(state.owners[at].kind is Growable);
        } else {
            assert(after.owners[at] == most.owners[at]);
        }
        if forall|j: int|
            0 <= j < fields.len() && #[trigger] is_due(fields[j], is_new) ==> !records(
                state,
                fields[j],
                at,
            ) && !writes_growable(state, fields[j], at) {
            assert forall|j: int| 0 <= j < front.len() && #[trigger] is_due(front[j], is_new) implies
            !records(state, front[j], at) && !writes_growable(state, front[j], at) by {
                assert(is_due(fields[j], is_new));
            }
        }
    }
}

/// The field causes this write: it is due, its column records no changes, and the bytes go to its row
/// of its buffer.
pub open spec fn writes_field<B>(
    state: BuffersState<B>,
    field: MirroredField,
    row: int,
    is_new: bool,
    upload: FieldUpload,
) -> bool {
    &&& is_due(field, is_new)
    &&& writes_fixed(state, field, upload.owner as int) || writes_growable(
        state,
        field,
        upload.owner as int,
    )
    &&& upload.offset == row * state.owners[upload.owner as int].element.size
    &&& upload.bytes == field.bytes@
}

/// The field causes a write.
pub open spec fn is_written<B>(state: BuffersState<B>, field: MirroredField, is_new: bool) -> bool {
    is_due(field, is_new) && exists|at: int| #[trigger]
        writes_fixed(state, field, at) || writes_growable(state, field, at)
}

/// The fields that cause a write, by their place.
pub open spec fn written_set<B>(
    state: BuffersState<B>,
    fields: Seq<MirroredField>,
    is_new: bool,
) -> Set<int> {
    Set::new(|k: int| 0 <= k < fields.len() && is_written(state, fields[k], is_new))
}

proof fn lemma_upload<B>(
    state: BuffersState<B>,
    most: BuffersState<B>,
    field: MirroredField,
    row: int,
    is_new: bool,
)
    requires
        state.consistent(),
        same_columns(state, most),
    ensures
        match field_upload(most, field, row, is_new) {
            Some(upload) => writes_field(state, field, row, is_new, upload),
            None => !is_written(state, field, is_new),
        },
        field_upload(most, field, row, is_new) is Some ==> is_written(state, field, is_new),
{
    match field_upload(most, field, row, is_new) {
        Some(upload) => {
            lemma_target(state, field, upload.owner as int);
            assert(writes_fixed(state, field, upload.owner as int) || writes_growable(
                state,
                field,
                upload.owner as int,
            ));
        },
        None => {
            assert forall|at: int| is_due(field, is_new) implies !(#[trigger] writes_fixed(
                state,
                field,
                at,
            )) && !writes_growable(state, field, at) by {
                lemma_target(state, field, at);
            }
        },
    }
}

/// The writes are those of the due fields whose columns record no changes: each such field has its
/// write, of its bytes to its row of its buffer, every write is such a field's, and there are no more
/// writes than such fields.
pub proof fn law_due_fields_are_written<B>(
    state: BuffersState<B>,
    fields: Seq<MirroredField>,
    row: int,
    is_new: bool,
)
    requires
        state.consistent(),
        shadows_consistent(state),
        fields_fit(state, fields, row, is_new),
        0 <= row,
    ensures
        ({
            let uploads = field_uploads(state, fields, row, is_new);
            &&& written_set(state, fields, is_new).finite()
            &&& uploads.len() == written_set(state, fields, is_new).len()
            &&& forall|k: int|
                #[trigger] written_set(state, fields, is_new).contains(k) ==> exists|i: int|
                    0 <= i < uploads.len() && writes_field(
                        state,
                        fields[k],
                        row,
                        is_new,
                        #[trigger] uploads[i],
                    )
            &&& forall|i: int|
                0 <= i < uploads.len() ==> exists|k: int|
                    0 <= k < fields.len() && writes_field(
                        state,
                        #[trigger] fields[k],
                        row,
                        is_new,
                        #[trigger] uploads[i],
                    )
        }),
    decreases fields.len(),
{
    let uploads = field_uploads(state, fields, row, is_new);
    let all = written_set(state, fields, is_new);
    if fields.len() > 0 {
        let front = fields.drop_last();
        let last = fields.last();
        let n = front.len() as int;
        let most = fields_mirrored(state, front, row, is_new);
        let before = field_uploads(state, front, row, is_new);
        let some = written_set(state, front, is_new);
        law_due_fields_are_written(state, front, row, is_new);
        lemma_steps(state, front, row, is_new);
        lemma_upload(state, most, last, row, is_new);
        assert(fields[n] == last);
        assert(forall|k: int| 0 <= k < n ==> front[k] == fields[k]);
        match field_upload(most, last, row, is_new) {
            Some(upload) => {
                assert(all =~= some.insert(n));
                assert(uploads[before.len() as int] == upload);
            },
            None => {
                assert(all =~= some);
            },
        }
        assert forall|k: int| #[trigger] all.contains(k) implies exists|i: int|
            0 <= i < uploads.len() && writes_field(
                state,
                fields[k],
                row,
                is_new,
                #[trigger] uploads[i],
            ) by {
            if k < n {
                assert(front[k] == fields[k]);
                assert(some.contains(k));
                let i = choose|i: int|
                    0 <= i < before.len() && writes_field(
                        state,
                        front[k],
                        row,
                        is_new,
                        #[trigger] before[i],
                    );
                assert(uploads[i] == before[i]);
            } else {
                assert(writes_field(
                    state,
                    fields[k],
                    row,
                    is_new,
                    uploads[before.len() as int],
                ));
            }
        }
        assert forall|i: int| 0 <= i < uploads.len() implies exists|k: int|
            0 <= k < fields.len() && writes_field(
                state,
                #[trigger] fields[k],
                row,
                is_new,
                #[trigger] uploads[i],
            ) by {
            if i < before.len() {
                assert(uploads[i] == before[i]);
                let k = choose|k: int|
                    0 <= k < front.len() && writes_field(
                        state,
                        #[trigger] front[k],
                        row,
                        is_new,
                        before[i],
                    );
                assert(fields[k] == front[k]);
            } else {
                assert(writes_field(state, fields[n], row, is_new, uploads[i]));
            }
        }
    } else {
        assert(all =~= Set::empty());
    }
}

/// A buffer that grows has room for the row once a due field is written to it, and still has what room
/// it had.
pub proof fn law_due_fields_make_room<B>(
    state: BuffersState<B>,
    fields: Seq<MirroredField>,
    row: int,
    is_new: bool,
    k: int,
    at: int,
)
    requires
        state.consistent(),
        shadows_consistent(state),
        forall|i: int|
            0 <= i < state.owners.len() ==> match (#[trigger] state.owners[i]).kind {
                KindState::Growable(buf) => buf.capacity <= buf.limit,
                _ => true,
            },
        fields_fit(state, fields, row, is_new),
        0 <= row,
        0 <= at < state.owners.len(),
        state.owners[at].kind is Growable,
    ensures
        ({
            let before = state.owners[at].kind->Growable_0;
            let after = fields_mirrored(state, fields, row, is_new);
            &&& after.owners[at].kind matches KindState::Growable(now) && {
                &&& now.limit == before.limit
                &&& before.capacity <= now.capacity <= now.limit
                &&& 0 <= k < fields.len() && is_due(fields[k], is_new) && writes_growable(
                    state,
                    fields[k],
                    at,
                ) ==> now.capacity > row
            }
        }),
    decreases fields.len(),
{
    if fields.len() > 0 {
        let front = fields.drop_last();
        let last = fields.last();
        lemma_steps(state, front, row, is_new);
        lemma_steps(state, fields, row, is_new);
        law_due_fields_make_room(state, front, row, is_new, k, at);
        lemma_target(state, last, at);
        if 0 <= k < front.len() {
            assert(front[k] == fields[k]);
        }
    }
}

/// Fields are written in their order: what the first ones write comes first, and is what they alone
/// would have written.
pub proof fn law_fields_are_written_in_order<B>(
    state: BuffersState<B>,
    fields: Seq<MirroredField>,
    row: int,
    is_new: bool,
    n: int,
    i: int,
)
    requires
        0 <= n <= fields.len(),
    ensures
        ({
            let first = field_uploads(state, fields.take(n), row, is_new);
            let all = field_uploads(state, fields, row, is_new);
            &&& first.len() <= all.len() <= first.len() + (fields.len() - n)
            &&& 0 <= i < first.len() ==> all[i] == first[i]
        }),
    decreases fields.len(),
{
    if n == fields.len() {
        assert(fields.take(n) =~= fields);
    } else {
        let front = fields.drop_last();
        law_fields_are_written_in_order(state, front, row, is_new, n, i);
        assert(front.take(n) =~= fields.take(n));
        let first = field_uploads(state, fields.take(n), row, is_new);
        let most = field_uploads(state, front, row, is_new);
        if 0 <= i < first.len() {
            assert(most[i] == first[i]);
        }
    }
}

} // verus!
