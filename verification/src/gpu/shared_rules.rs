//! What registering, reserving, shrinking and flushing do to each shared buffer and column.
use crate::entity::ComponentId;
use crate::gpu::buffer_registry::{BufferAccess, BufferKey, MirrorMode};
use crate::gpu::dirty_tracked_scene_buffer::FlushPlan;
use crate::gpu::shared_buffers::{ElementDesc, SharedKindTag};
use vstd::prelude::*;

verus! {

use crate::gpu::column_map::{law_binding_moves_one_column, target_of};
use crate::gpu::dirty_tracked_scene_buffer::{
    applied, law_cut_keeps_the_front, law_flush_makes_device_match, law_room_keeps_the_rows,
    uploads_runs, ShadowState,
};
use crate::gpu::runs::{are_runs, Run};
use crate::gpu::shared_buffers::{
    column_accepted, column_registered, first_refusal, flush_plans_of, flushes, has_owner, owner_at,
    refusal_on, reserved_until, total_bytes, total_ranges, BuffersState, KindState, OwnerState,
};

/// A later declaration of a key is accepted if and only if it is the first one over again: the same
/// path, element type, element size, access and mode, and, for a fixed buffer, capacity. Else what is
/// reported is the first of these on which they differ.
pub proof fn law_declarers_of_a_key_agree<B>(
    owner: OwnerState<B>,
    element: ElementDesc,
    capacity: u32,
    access: BufferAccess,
    mode: MirrorMode,
    tag: SharedKindTag,
)
    ensures
        ({
            let conflict = owner.conflict(element, capacity, access, mode, tag);
            let path = match owner.kind {
                KindState::Fixed => tag == SharedKindTag::Fixed,
                KindState::Growable(_) => tag == SharedKindTag::Growable,
                KindState::DirtyTracked(_) => tag == SharedKindTag::DirtyTracked,
            };
            let typed = owner.element.element == element.element;
            let sized = owner.element.size == element.size;
            let accessed = owner.access == access;
            let moded = owner.mode == mode;
            let held = owner.kind is Fixed ==> owner.capacity == capacity;
            &&& conflict is None <==> path && typed && sized && accessed && moded && held
            &&& conflict is Some && conflict->0 is Path <==> !path
            &&& conflict is Some && conflict->0 is ElementType <==> path && !typed
            &&& conflict is Some && conflict->0 is ElementSize <==> path && typed && !sized
            &&& conflict is Some && conflict->0 is Access <==> path && typed && sized && !accessed
            &&& conflict is Some && conflict->0 is Mode <==> path && typed && sized && accessed
                && !moded
            &&& conflict is Some && conflict->0 is Capacity <==> path && typed && sized && accessed
                && moded && !held
        }),
{
}

/// Reserving makes room for as many elements as are asked for, where the buffer can grow that far, and
/// keeps every row. A fixed buffer stays as it is; one that grows on write and cannot grow that far
/// does too, and one that records changes then has the rows for it all the same.
pub proof fn law_reserving_keeps_the_rows<B>(owner: OwnerState<B>, n: u32, r: int)
    requires
        owner.kind matches KindState::DirtyTracked(buf) ==> buf.consistent(),
        owner.kind matches KindState::Growable(buf) ==> buf.capacity <= buf.limit,
        owner.kind matches KindState::DirtyTracked(buf) ==> buf.buffer.capacity <= buf.buffer.limit,
        0 <= r,
    ensures
        ({
            let after = owner.reserved(n);
            &&& after == (OwnerState { kind: after.kind, ..owner })
            &&& match owner.kind {
                KindState::Fixed => after.kind is Fixed,
                KindState::Growable(buf) => {
                    &&& after.kind matches KindState::Growable(now)
                    &&& n > buf.limit ==> now == buf
                    &&& n <= buf.limit ==> now.capacity >= n && now.capacity >= buf.capacity
                    &&& n <= buf.capacity ==> now == buf
                },
                KindState::DirtyTracked(buf) => {
                    &&& after.kind matches KindState::DirtyTracked(now)
                    &&& now.dirty.len() >= n && now.dirty.len() >= buf.dirty.len()
                    &&& r < buf.dirty.len() ==> now.row(r) == buf.row(r) && now.dirty[r]
                        == buf.dirty[r]
                    &&& buf.dirty.len() <= r < now.dirty.len() ==> !now.dirty[r]
                    &&& n <= buf.buffer.limit ==> now.buffer.capacity >= n
                    &&& n > buf.buffer.limit ==> now.buffer == buf.buffer
                },
            }
        }),
{
    if owner.kind is DirtyTracked {
        let buf = owner.kind->DirtyTracked_0;
        law_room_keeps_the_rows(buf, n as int, r);
        let now = owner.reserved(n).kind->DirtyTracked_0;
        let grown = buf.grown(n as int);
        assert(now.row(r) == grown.row(r));
    }
}

/// Shrinking leaves no more elements than are asked for, and keeps the rows before that; a buffer that
/// has no more, and a fixed one, stay as they are.
pub proof fn law_shrinking_keeps_the_front<B>(owner: OwnerState<B>, target: u32, r: int)
    requires
        owner.kind matches KindState::DirtyTracked(buf) ==> buf.consistent(),
        0 <= r < target,
    ensures
        ({
            let after = owner.shrunk(target);
            &&& after == (OwnerState { kind: after.kind, ..owner })
            &&& match owner.kind {
                KindState::Fixed => after.kind is Fixed,
                KindState::Growable(buf) => {
                    &&& after.kind matches KindState::Growable(now)
                    &&& target >= buf.capacity ==> now == buf
                    &&& target < buf.capacity ==> now.capacity == target
                },
                KindState::DirtyTracked(buf) => {
                    &&& after.kind matches KindState::DirtyTracked(now)
                    &&& target >= buf.dirty.len() ==> now == buf
                    &&& target < buf.dirty.len() ==> now.dirty.len() == target && now.row(r)
                        == buf.row(r) && now.dirty[r] == buf.dirty[r] && now.buffer.capacity
                        <= target
                },
            }
        }),
{
    if owner.kind is DirtyTracked {
        let buf = owner.kind->DirtyTracked_0;
        if target < buf.dirty.len() {
            law_cut_keeps_the_front(buf, target as int, r);
        }
    }
}

/// A flush plans for every buffer that records changes, in their order, and for no other; each plan
/// is of its own buffer, and there is one for each.
pub proof fn law_every_recording_buffer_is_flushed<B>(
    plans: Seq<(usize, FlushPlan)>,
    owners: Seq<OwnerState<B>>,
    n: int,
)
    requires
        0 <= n <= owners.len(),
        flush_plans_of(plans, owners, n),
    ensures
        forall|k: int|
            0 <= k < plans.len() ==> (#[trigger] plans[k]).0 < n
                && owners[plans[k].0 as int].kind is DirtyTracked && flushes(
                plans[k].1,
                owners[plans[k].0 as int].kind->DirtyTracked_0,
            ),
        forall|k: int, l: int|
            #![trigger plans[k], plans[l]]
            0 <= k < l < plans.len() ==> plans[k].0 < plans[l].0,
        forall|i: int|
            0 <= i < n && (#[trigger] owners[i]).kind is DirtyTracked ==> exists|k: int|
                0 <= k < plans.len() && (#[trigger] plans[k]).0 == i,
    decreases n,
{
    if n > 0 {
        if owners[n - 1].kind is DirtyTracked {
            let front = plans.drop_last();
            law_every_recording_buffer_is_flushed(front, owners, n - 1);
            assert(forall|k: int| 0 <= k < front.len() ==> front[k] == plans[k]);
            assert forall|i: int|
                0 <= i < n && (#[trigger] owners[i]).kind is DirtyTracked implies exists|k: int|
                0 <= k < plans.len() && (#[trigger] plans[k]).0 == i by {
                if i < n - 1 {
                    let k = choose|k: int| 0 <= k < front.len() && (#[trigger] front[k]).0 == i;
                    assert(plans[k].0 == i);
                } else {
                    assert(plans[plans.len() - 1].0 == i);
                }
            }
            assert forall|k: int| 0 <= k < plans.len() implies (#[trigger] plans[k]).0 < n
                && owners[plans[k].0 as int].kind is DirtyTracked && flushes(
                plans[k].1,
                owners[plans[k].0 as int].kind->DirtyTracked_0,
            ) by {
                if k < front.len() {
                    assert(front[k].0 < n - 1);
                }
            }
            assert forall|k: int, l: int|
                #![trigger plans[k], plans[l]]
                0 <= k < l < plans.len() implies plans[k].0 < plans[l].0 by {
                assert(front[k].0 < n - 1);
                if l < front.len() {
                    assert(front[k].0 < front[l].0);
                }
            }
        } else {
            law_every_recording_buffer_is_flushed(plans, owners, n - 1);
        }
    }
}

/// What several plans write adds up, and what one writes is its own.
pub proof fn law_flushed_amounts_add_up(
    a: Seq<(usize, FlushPlan)>,
    b: Seq<(usize, FlushPlan)>,
)
    ensures
        total_ranges(a + b) == total_ranges(a) + total_ranges(b),
        total_bytes(a + b) == total_bytes(a) + total_bytes(b),
        a.len() == 0 ==> total_ranges(a) == 0 && total_bytes(a) == 0,
        a.len() == 1 ==> total_ranges(a) == a[0].1.stats.ranges && total_bytes(a)
            == a[0].1.stats.bytes,
    decreases b.len(),
{
    reveal_with_fuel(total_ranges, 2);
    reveal_with_fuel(total_bytes, 2);
    if b.len() > 0 {
        law_flushed_amounts_add_up(a, b.drop_last());
        assert((a + b).drop_last() =~= a + b.drop_last());
    } else {
        assert(a + b =~= a);
    }
}

proof fn lemma_owner_at<B>(owners: Seq<OwnerState<B>>, key: Seq<char>, at: int)
    requires
        0 <= at < owners.len(),
        owners[at].key@ == key,
        forall|i: int, j: int|
            #![trigger owners[i], owners[j]]
            0 <= i < j < owners.len() ==> owners[i].key@ != owners[j].key@,
    ensures
        has_owner(owners, key),
        owner_at(owners, key) == at,
{
    let k = owner_at(owners, key);
    assert(owners[k].key@ == key);
    if k < at {
        assert(owners[k].key@ != owners[at].key@);
    } else if at < k {
        assert(owners[at].key@ != owners[k].key@);
    }
}

/// A column that is registered is bound to the buffer of its key, through its path; every other column
/// is bound as it was, and every buffer there was stays as it was. A key without a buffer gets one as
/// declared, empty, and behind all others.
pub proof fn law_registered_column_has_the_buffer_of_its_key<B: Clone, F: FnOnce() -> B>(
    before: BuffersState<B>,
    after: BuffersState<B>,
    id: ComponentId,
    element: ElementDesc,
    capacity: u32,
    limit: u32,
    key: BufferKey,
    mode: MirrorMode,
    tag: SharedKindTag,
    create: F,
    other: ComponentId,
    i: int,
)
    requires
        before.consistent(),
        column_accepted(before, id, element, capacity, limit, key, mode, tag, create),
        column_registered(
            before,
            after,
            id,
            element,
            capacity,
            limit,
            key,
            mode,
            tag,
            create,
        ),
        before.owners.len() < usize::MAX,
        other != id,
    ensures
        ({
            let at = owner_at(after.owners, key@);
            let owner = after.owners[at];
            &&& has_owner(after.owners, key@)
            &&& owner.key@ == key@
            &&& owner.element == element
            &&& owner.mode == mode
            &&& owner.kind.tag() == tag
            &&& target_of(after.columns, id) == Some(at as usize)
            &&& tag == SharedKindTag::Fixed ==> target_of(after.fixed, id) == Some(at as usize)
            &&& tag == SharedKindTag::Growable ==> target_of(after.growable, id) == Some(
                at as usize,
            )
            &&& tag == SharedKindTag::DirtyTracked ==> target_of(after.mirrored, id) == Some(
                at as usize,
            )
            &&& target_of(after.columns, other) == target_of(before.columns, other)
            &&& target_of(after.fixed, other) == target_of(before.fixed, other)
            &&& target_of(after.growable, other) == target_of(before.growable, other)
            &&& target_of(after.mirrored, other) == target_of(before.mirrored, other)
            &&& 0 <= i < before.owners.len() ==> after.owners[i] == before.owners[i]
            &&& has_owner(before.owners, key@) ==> after.owners == before.owners
            &&& !has_owner(before.owners, key@) ==> {
                &&& at == before.owners.len()
                &&& after.owners.len() == before.owners.len() + 1
                &&& owner.capacity == capacity
                &&& owner.access == BufferAccess::ReadOnly
                &&& owner.element_count() == capacity
                &&& owner.epoch() == 0
                &&& owner.kind matches KindState::DirtyTracked(buf) ==> {
                    &&& buf.dirty.len() == capacity
                    &&& forall|r: int| 0 <= r < capacity ==> !#[trigger] buf.dirty[r]
                    &&& forall|b: int| 0 <= b < buf.shadow.len() ==> #[trigger] buf.shadow[b] == 0
                }
            }
        }),
{
    let at = if has_owner(before.owners, key@) {
        owner_at(before.owners, key@)
    } else {
        before.owners.len() as int
    };
    if has_owner(before.owners, key@) {
        assert(before.owners[at].key@ == key@);
    } else {
        let (buffer, listed_buffer) = choose|buffer: B, listed_buffer: B|
            create.ensures((), buffer) && cloned(buffer, listed_buffer) && after
                == #[trigger] before.with_new_owner(
                id,
                key,
                element,
                capacity,
                limit,
                mode,
                tag,
                buffer,
                listed_buffer,
            );
    }
    assert(after.owners[at].key@ == key@);
    assert forall|a: int, b: int|
        #![trigger after.owners[a], after.owners[b]]
        0 <= a < b < after.owners.len() implies after.owners[a].key@ != after.owners[b].key@ by {
        if b < before.owners.len() {
            assert(before.owners[a].key@ != before.owners[b].key@);
        } else {
            assert(before.owners[a].key@ != key@);
        }
    }
    lemma_owner_at(after.owners, key@, at);
    law_binding_moves_one_column(before.columns, id, at as usize, other);
    law_binding_moves_one_column(before.fixed, id, at as usize, other);
    law_binding_moves_one_column(before.growable, id, at as usize, other);
    law_binding_moves_one_column(before.mirrored, id, at as usize, other);
}

/// A declaration can be registered, as far as sharing goes, if and only if its key has no buffer yet,
/// or one that was declared alike, for reading only.
pub proof fn law_sharing_is_refused_only_over_a_difference<B>(
    state: BuffersState<B>,
    key: BufferKey,
    element: ElementDesc,
    capacity: u32,
    mode: MirrorMode,
    tag: SharedKindTag,
    at: int,
)
    requires
        state.consistent(),
        0 <= at < state.owners.len(),
    ensures
        ({
            let refused = state.share_conflict(key, element, capacity, mode, tag);
            let owner = state.owners[at];
            &&& owner.key@ == key@ ==> (refused is None <==> owner.kind.tag() == tag && owner.element
                == element && owner.access == BufferAccess::ReadOnly && owner.mode == mode && (tag
                == SharedKindTag::Fixed ==> owner.capacity == capacity))
            &&& (forall|i: int|
                0 <= i < state.owners.len() ==> (#[trigger] state.owners[i]).key@ != key@)
                ==> refused is None
        }),
{
    let owner = state.owners[at];
    if owner.key@ == key@ {
        lemma_owner_at(state.owners, key@, at);
        law_declarers_of_a_key_agree(
            owner,
            element,
            capacity,
            BufferAccess::ReadOnly,
            mode,
            tag,
        );
    }
}

/// The buffers can be flushed if and only if none that records changes has more rows than its device
/// buffer can ever hold.
pub proof fn law_flush_fails_only_beyond_the_limit<B>(state: BuffersState<B>)
    ensures
        state.can_flush() <==> forall|i: int|
            0 <= i < state.owners.len() ==> match (#[trigger] state.owners[i]).kind {
                KindState::DirtyTracked(buf) => buf.dirty.len() <= buf.buffer.limit,
                _ => true,
            },
{
}

/// The plan of a buffer makes its device buffer hold every row: if it held every row that was not
/// marked, it holds all of them once what is planned is written.
pub proof fn law_planned_flush_makes_device_match(
    plan: FlushPlan,
    buf: ShadowState,
    device: Seq<u8>,
)
    requires
        flushes(plan, buf),
        buf.consistent(),
        device.len() == buf.shadow.len(),
        forall|x: int|
            0 <= x < device.len() && !buf.dirty[x / buf.size()] ==> #[trigger] device[x]
                == buf.shadow[x],
    ensures
        applied(device, plan.uploads@, plan.uploads@.len()) == buf.shadow,
        plan.stats.ranges == plan.uploads@.len(),
        plan.grown_to is Some <==> buf.buffer.capacity < buf.dirty.len(),
{
    let runs = choose|runs: Seq<Run>| #[trigger]
        are_runs(runs, buf.dirty) && uploads_runs(plan.uploads@, runs, buf) && plan.stats.ranges
            == runs.len() && plan.stats.bytes == crate::gpu::runs::rows_in(runs) * buf.size();
    law_flush_makes_device_match(device, buf, plan.uploads@, runs);
}

/// A reservation comes to buffer `a` before it comes to buffer `b`: growable ones come first, and those
/// of one path come in the order of their registration.
pub open spec fn turn_before<B>(owners: Seq<OwnerState<B>>, a: int, b: int) -> bool {
    ||| owners[a].kind is Growable && owners[b].kind is DirtyTracked
    ||| owners[a].kind is Growable && owners[b].kind is Growable && a < b
    ||| owners[a].kind is DirtyTracked && owners[b].kind is DirtyTracked && a < b
}

/// A reservation stops at the first buffer, in the order of turns, whose limit is below what is asked
/// for. All that had their turn before may hold as much and were given room, all that come after are
/// as they were, and so is every fixed buffer. There is one such buffer.
pub proof fn law_reservation_stops_at_the_first_refusal<B>(
    owners: Seq<OwnerState<B>>,
    n: u32,
    tag: SharedKindTag,
    at: int,
    other_tag: SharedKindTag,
    other: int,
    k: int,
)
    requires
        first_refusal(owners, n, tag, at),
        first_refusal(owners, n, other_tag, other),
        0 <= k < owners.len(),
    ensures
        0 <= at < owners.len(),
        at == other && tag == other_tag,
        n > owners[at].limit() && !(owners[at].kind is Fixed),
        turn_before(owners, k, at) ==> n <= owners[k].limit(),
        turn_before(owners, k, at) || k == at ==> reserved_until(owners, n, tag, at)[k]
            == owners[k].reserved(n),
        turn_before(owners, at, k) || owners[k].kind is Fixed ==> reserved_until(owners, n, tag, at)[k]
            == owners[k],
        reserved_until(owners, n, tag, at).len() == owners.len(),
{
    assert(refusal_on(owners, n, tag, at));
    assert(refusal_on(owners, n, other_tag, other));
    if turn_before(owners, k, at) {
        assert(!refusal_on(owners, n, owners[k].kind.tag(), k));
    }
    if tag == other_tag {
        if at < other {
            assert(!refusal_on(owners, n, other_tag, at));
        } else if other < at {
            assert(!refusal_on(owners, n, tag, other));
        }
    }
}
} // verus!
