//! The buffers behind mirrored columns: which column is bound to which buffer, what the declarers
//! of one key must agree on, and the writes of columns that are not tied to a cell.
//!
//! The first declaration of a key makes its buffer; every later one adopts it, provided it agrees
//! on the registration path, element type, element size, access and mirror mode.
use crate::entity::ComponentId;
use crate::gpu::buffer_registry::{
    BufferAccess, BufferHandle, BufferKey, BufferRegistrationError, GpuBufferRegistry, MirrorMode,
    TypeKey,
};
use crate::gpu::column_map::ColumnMap;
use crate::gpu::dirty_tracked_scene_buffer::{DirtyTrackedSceneBuffer, FlushPlan, SyncStats};
use crate::gpu::dynamic_buffer::{CapacityError, DynamicGpuBuffer};
use vstd::prelude::*;

verus! {

use crate::gpu::buffer_registry::{
    entry_of, insert_error, inserted, keys_distinct, position, registered, EntryKind,
    RegistryEntry,
};
use crate::gpu::column_map::{binding_at, bound, ids_distinct, is_bound, target_of, Binding};
use crate::gpu::dirty_tracked_scene_buffer::{uploads_runs, ShadowState};
use crate::gpu::dynamic_buffer::DynamicState;
use crate::gpu::runs::{are_runs, Run};

/// The path a shared buffer was registered through.
#[derive(Clone, Copy, Debug, PartialEq, Eq, Structural)]
pub enum SharedKindTag {
    /// One fixed capacity, rows tied to cells.
    Fixed,
    /// Grows on write.
    Growable,
    /// Grows on write and uploads on flush.
    DirtyTracked,
}

/// What a column's elements are.
#[derive(Clone, Copy, Debug, PartialEq, Eq, Structural)]
pub struct ElementDesc {
    pub element: TypeKey,
    /// Bytes per element.
    pub size: u32,
}

/// What two declarers of one key disagree on.
#[derive(Clone, Copy, Debug, PartialEq, Eq, Structural)]
pub enum ShareConflict {
    /// The registration paths.
    Path { existing: SharedKindTag, incoming: SharedKindTag },
    /// The element types.
    ElementType { existing: TypeKey, incoming: TypeKey },
    /// The element sizes.
    ElementSize { existing: u32, incoming: u32 },
    /// The accesses.
    Access { existing: BufferAccess, incoming: BufferAccess },
    /// The mirror modes.
    Mode { existing: MirrorMode, incoming: MirrorMode },
    /// The capacities of a fixed buffer.
    Capacity { existing: u32, incoming: u32 },
}

/// The state behind a shared buffer.
enum SharedKind {
    Fixed,
    Growable(DynamicGpuBuffer),
    DirtyTracked(DirtyTrackedSceneBuffer),
}

/// What is known of the state behind a shared buffer.
pub enum KindState {
    Fixed,
    Growable(DynamicState),
    DirtyTracked(ShadowState),
}

/// One shared buffer.
struct SharedOwner<B> {
    key: BufferKey,
    element: ElementDesc,
    capacity: u32,
    access: BufferAccess,
    mode: MirrorMode,
    kind: SharedKind,
    buffer: B,
}

/// What is known of one shared buffer.
pub struct OwnerState<B> {
    pub key: BufferKey,
    pub element: ElementDesc,
    /// The capacity at registration.
    pub capacity: u32,
    pub access: BufferAccess,
    pub mode: MirrorMode,
    pub kind: KindState,
    pub buffer: B,
}

impl SharedKind {
    spec fn state(self) -> KindState {
        match self {
            SharedKind::Fixed => KindState::Fixed,
            SharedKind::Growable(buf) => KindState::Growable(buf@),
            SharedKind::DirtyTracked(buf) => KindState::DirtyTracked(buf@),
        }
    }

    spec fn wf(self, size: u32) -> bool {
        match self {
            SharedKind::Fixed => true,
            SharedKind::Growable(buf) => buf.wf() && buf@.elem_size == size,
            SharedKind::DirtyTracked(buf) => buf.wf() && buf@.buffer.elem_size == size,
        }
    }

    fn tag(&self) -> (tag: SharedKindTag)
        ensures
            tag == self.state().tag(),
    {
        match self {
            SharedKind::Fixed => SharedKindTag::Fixed,
            SharedKind::Growable(_) => SharedKindTag::Growable,
            SharedKind::DirtyTracked(_) => SharedKindTag::DirtyTracked,
        }
    }
}

impl KindState {
    pub open spec fn tag(self) -> SharedKindTag {
        match self {
            KindState::Fixed => SharedKindTag::Fixed,
            KindState::Growable(_) => SharedKindTag::Growable,
            KindState::DirtyTracked(_) => SharedKindTag::DirtyTracked,
        }
    }

    /// A kind of buffer as it is when first registered.
    pub open spec fn fresh(tag: SharedKindTag, size: u32, capacity: u32, limit: u32) -> KindState {
        let buffer = DynamicState { elem_size: size, capacity, limit, epoch: 0 };
        match tag {
            SharedKindTag::Fixed => KindState::Fixed,
            SharedKindTag::Growable => KindState::Growable(buffer),
            SharedKindTag::DirtyTracked => KindState::DirtyTracked(
                ShadowState {
                    buffer,
                    shadow: Seq::new((capacity * size) as nat, |i: int| 0u8),
                    dirty: Seq::new(capacity as nat, |i: int| false),
                },
            ),
        }
    }
}

impl<B> SharedOwner<B> {
    spec fn state(self) -> OwnerState<B> {
        OwnerState {
            key: self.key,
            element: self.element,
            capacity: self.capacity,
            access: self.access,
            mode: self.mode,
            kind: self.kind.state(),
            buffer: self.buffer,
        }
    }

    spec fn wf(self) -> bool {
        self.kind.wf(self.element.size)
    }
}

impl<B> OwnerState<B> {
    /// A buffer that grows has elements with bytes.
    pub open spec fn sized(self) -> bool {
        self.kind is Fixed || self.element.size > 0
    }

    /// Elements the device buffer holds.
    pub open spec fn element_count(self) -> u32 {
        match self.kind {
            KindState::Fixed => self.capacity,
            KindState::Growable(buf) => buf.capacity,
            KindState::DirtyTracked(buf) => buf.buffer.capacity,
        }
    }

    /// The allocation epoch; a fixed buffer is never replaced.
    pub open spec fn epoch(self) -> u64 {
        match self.kind {
            KindState::Fixed => 0,
            KindState::Growable(buf) => buf.epoch,
            KindState::DirtyTracked(buf) => buf.buffer.epoch,
        }
    }

    /// Elements the device can ever hold of it.
    pub open spec fn limit(self) -> u32 {
        match self.kind {
            KindState::Fixed => self.capacity,
            KindState::Growable(buf) => buf.limit,
            KindState::DirtyTracked(buf) => buf.buffer.limit,
        }
    }

    /// The device can hold the rows that a flush uploads.
    pub open spec fn can_flush(self) -> bool {
        self.kind matches KindState::DirtyTracked(buf) ==> buf.can_flush()
    }

    /// The first thing an incoming declaration disagrees on with this buffer.
    pub open spec fn conflict(
        self,
        element: ElementDesc,
        capacity: u32,
        access: BufferAccess,
        mode: MirrorMode,
        tag: SharedKindTag,
    ) -> Option<ShareConflict> {
        if self.kind.tag() != tag {
            Some(ShareConflict::Path { existing: self.kind.tag(), incoming: tag })
        } else if self.element.element != element.element {
            Some(
                ShareConflict::ElementType {
                    existing: self.element.element,
                    incoming: element.element,
                },
            )
        } else if self.element.size != element.size {
            Some(ShareConflict::ElementSize { existing: self.element.size, incoming: element.size })
        } else if self.access != access {
            Some(ShareConflict::Access { existing: self.access, incoming: access })
        } else if self.mode != mode {
            Some(ShareConflict::Mode { existing: self.mode, incoming: mode })
        } else if tag == SharedKindTag::Fixed && self.capacity != capacity {
            Some(ShareConflict::Capacity { existing: self.capacity, incoming: capacity })
        } else {
            None
        }
    }

    /// The buffer after making room for `n` elements, where it can grow at all.
    pub open spec fn reserved(self, n: u32) -> OwnerState<B> {
        match self.kind {
            KindState::Fixed => self,
            KindState::Growable(buf) => OwnerState {
                kind: KindState::Growable(
                    if n <= buf.limit {
                        buf.grown(n as int)
                    } else {
                        buf
                    },
                ),
                ..self
            },
            KindState::DirtyTracked(buf) => {
                let grown = buf.grown(n as int);
                OwnerState {
                    kind: KindState::DirtyTracked(
                        ShadowState {
                            buffer: if n <= buf.buffer.limit {
                                grown.buffer.grown(n as int)
                            } else {
                                grown.buffer
                            },
                            ..grown
                        },
                    ),
                    ..self
                }
            },
        }
    }

    /// The buffer cut to `target` elements, where it can shrink at all.
    pub open spec fn shrunk(self, target: u32) -> OwnerState<B> {
        match self.kind {
            KindState::Fixed => self,
            KindState::Growable(buf) => OwnerState {
                kind: KindState::Growable(buf.shrunk(target as int)),
                ..self
            },
            KindState::DirtyTracked(buf) => OwnerState {
                kind: KindState::DirtyTracked(
                    if target < buf.dirty.len() {
                        buf.truncated(target as int)
                    } else {
                        buf
                    },
                ),
                ..self
            },
        }
    }

    /// The buffer after a flush.
    pub open spec fn flushed(self) -> OwnerState<B> {
        match self.kind {
            KindState::DirtyTracked(buf) => OwnerState {
                kind: KindState::DirtyTracked(buf.flushed()),
                ..self
            },
            _ => self,
        }
    }
}

/// What the buffers hold: the buffers in the order of their registration, the bindings of every
/// column, those of each path, and the keyed registry.
pub struct BuffersState<B> {
    pub owners: Seq<OwnerState<B>>,
    pub columns: Seq<Binding>,
    pub fixed: Seq<Binding>,
    pub growable: Seq<Binding>,
    pub mirrored: Seq<Binding>,
    pub registry: Seq<RegistryEntry<B>>,
}

/// Whether `key` has a buffer.
pub open spec fn has_owner<B>(owners: Seq<OwnerState<B>>, key: Seq<char>) -> bool {
    exists|i: int| 0 <= i < owners.len() && (#[trigger] owners[i]).key@ == key
}

/// The buffer of `key`.
pub open spec fn owner_at<B>(owners: Seq<OwnerState<B>>, key: Seq<char>) -> int {
    choose|i: int| 0 <= i < owners.len() && (#[trigger] owners[i]).key@ == key
}

/// Every binding names a buffer of the given path.
pub open spec fn bindings_ok<B>(
    bindings: Seq<Binding>,
    owners: Seq<OwnerState<B>>,
    tag: Option<SharedKindTag>,
) -> bool {
    forall|i: int|
        0 <= i < bindings.len() ==> (#[trigger] bindings[i]).1 < owners.len() && (tag matches Some(
            tag,
        ) ==> owners[bindings[i].1 as int].kind.tag() == tag)
}

/// The registry lists an owner's key as it was declared.
pub open spec fn listed<B>(registry: Seq<RegistryEntry<B>>, owner: OwnerState<B>) -> bool {
    &&& registered(registry, owner.key@)
    &&& entry_of(registry, owner.key@).kind == (EntryKind::Row {
        element: owner.element.element,
        mode: owner.mode,
    })
    &&& entry_of(registry, owner.key@).element_size == owner.element.size
    &&& entry_of(registry, owner.key@).access == owner.access
    &&& entry_of(registry, owner.key@).buffer is Some
}

impl<B> BuffersState<B> {
    pub open spec fn consistent(self) -> bool {
        &&& keys_distinct(self.registry)
        &&& forall|i: int, j: int|
            #![trigger self.owners[i], self.owners[j]]
            0 <= i < j < self.owners.len() ==> self.owners[i].key@ != self.owners[j].key@
        &&& forall|i: int|
            0 <= i < self.owners.len() ==> (#[trigger] self.owners[i]).sized() && listed(
                self.registry,
                self.owners[i],
            )
        &&& ids_distinct(self.columns)
        &&& ids_distinct(self.fixed)
        &&& ids_distinct(self.growable)
        &&& ids_distinct(self.mirrored)
        &&& bindings_ok(self.columns, self.owners, None)
        &&& bindings_ok(self.fixed, self.owners, Some(SharedKindTag::Fixed))
        &&& bindings_ok(self.growable, self.owners, Some(SharedKindTag::Growable))
        &&& bindings_ok(self.mirrored, self.owners, Some(SharedKindTag::DirtyTracked))
        &&& forall|i: int|
            0 <= i < self.fixed.len() ==> target_of(self.columns, (#[trigger] self.fixed[i]).0)
                == Some(self.fixed[i].1)
    }

    /// The state with column `id` bound to buffer `at` through path `tag`.
    pub open spec fn with_binding(self, id: ComponentId, at: usize, tag: SharedKindTag) -> Self {
        BuffersState {
            columns: bound(self.columns, id, at),
            fixed: if tag == SharedKindTag::Fixed {
                bound(self.fixed, id, at)
            } else {
                self.fixed
            },
            growable: if tag == SharedKindTag::Growable {
                bound(self.growable, id, at)
            } else {
                self.growable
            },
            mirrored: if tag == SharedKindTag::DirtyTracked {
                bound(self.mirrored, id, at)
            } else {
                self.mirrored
            },
            ..self
        }
    }

    /// The device can hold the rows of every dirty-tracked buffer.
    pub open spec fn can_flush(self) -> bool {
        forall|i: int| 0 <= i < self.owners.len() ==> (#[trigger] self.owners[i]).can_flush()
    }

    /// Memory can hold `n` rows of every dirty-tracked buffer.
    pub open spec fn can_shadow(self, n: u32) -> bool {
        forall|i: int|
            0 <= i < self.owners.len() && (#[trigger] self.owners[i]).kind is DirtyTracked ==> n
                * self.owners[i].element.size <= usize::MAX
    }

    /// What keeps a declaration from being registered, if anything: a disagreement with the buffer
    /// of its key.
    pub open spec fn share_conflict(
        self,
        key: BufferKey,
        element: ElementDesc,
        capacity: u32,
        mode: MirrorMode,
        tag: SharedKindTag,
    ) -> Option<ShareConflict> {
        if has_owner(self.owners, key@) {
            self.owners[owner_at(self.owners, key@)].conflict(
                element,
                capacity,
                BufferAccess::ReadOnly,
                mode,
                tag,
            )
        } else {
            None
        }
    }

    /// What the keyed registry has against a new buffer of `key`, if anything.
    pub open spec fn registry_conflict(
        self,
        key: BufferKey,
        element: ElementDesc,
        mode: MirrorMode,
    ) -> Option<BufferRegistrationError> {
        insert_error(
            self.registry,
            key,
            EntryKind::Row { element: element.element, mode },
            element.size as usize,
            BufferAccess::ReadOnly,
        )
    }

    /// The column `id` may move to path `tag`: it is not bound through the fixed path to something
    /// that another declaration would take it from.
    pub open spec fn may_bind(self, id: ComponentId, tag: SharedKindTag) -> bool {
        tag == SharedKindTag::Fixed || !is_bound(self.fixed, id)
    }

    /// The state after a new buffer is registered: `buffer` behind it, `listed_buffer` in the
    /// registry.
    pub open spec fn with_new_owner(
        self,
        id: ComponentId,
        key: BufferKey,
        element: ElementDesc,
        capacity: u32,
        limit: u32,
        mode: MirrorMode,
        tag: SharedKindTag,
        buffer: B,
        listed_buffer: B,
    ) -> Self {
        BuffersState {
            owners: self.owners.push(
                OwnerState {
                    key,
                    element,
                    capacity,
                    access: BufferAccess::ReadOnly,
                    mode,
                    kind: KindState::fresh(tag, element.size, capacity, limit),
                    buffer,
                },
            ),
            registry: inserted(
                self.registry,
                key,
                EntryKind::Row { element: element.element, mode },
                element.size as usize,
                BufferAccess::ReadOnly,
                Some(listed_buffer),
            ),
            ..self
        }.with_binding(id, self.owners.len() as usize, tag)
    }
}

/// A declaration that can be registered: it agrees with the buffer its key has, or the key has none
/// and `create` can make one.
pub open spec fn column_accepted<B, F: FnOnce() -> B>(
    state: BuffersState<B>,
    id: ComponentId,
    element: ElementDesc,
    capacity: u32,
    limit: u32,
    key: BufferKey,
    mode: MirrorMode,
    tag: SharedKindTag,
    create: F,
) -> bool {
    &&& tag == SharedKindTag::Fixed || element.size > 0
    &&& state.may_bind(id, tag)
    &&& state.share_conflict(key, element, capacity, mode, tag) is None
    &&& !has_owner(state.owners, key@) ==> {
        &&& state.registry_conflict(key, element, mode) is None
        &&& create.requires(())
        &&& capacity <= limit
        &&& capacity * element.size <= usize::MAX
        &&& state.owners.len() < usize::MAX
    }
}

/// What registering a declaration does: the column adopts the buffer its key has, or gets the one
/// `create` made, which the registry lists.
pub open spec fn column_registered<B: Clone, F: FnOnce() -> B>(
    before: BuffersState<B>,
    after: BuffersState<B>,
    id: ComponentId,
    element: ElementDesc,
    capacity: u32,
    limit: u32,
    key: BufferKey,
    mode: MirrorMode,
    tag: SharedKindTag,
    create: F,
) -> bool {
    if has_owner(before.owners, key@) {
        after == before.with_binding(id, owner_at(before.owners, key@) as usize, tag)
    } else {
        exists|buffer: B, listed_buffer: B|
            create.ensures((), buffer) && cloned(buffer, listed_buffer) && after
                == #[trigger] before.with_new_owner(
                id,
                key,
                element,
                capacity,
                limit,
                mode,
                tag,
                buffer,
                listed_buffer,
            )
    }
}

/// The buffers behind mirrored columns.
pub struct SharedBuffers<B> {
    owners: Vec<SharedOwner<B>>,
    columns: ColumnMap,
    fixed: ColumnMap,
    growable: ColumnMap,
    mirrored: ColumnMap,
    registry: GpuBufferRegistry<B>,
}

impl<B> View for SharedBuffers<B> {
    type V = BuffersState<B>;

    closed spec fn view(&self) -> BuffersState<B> {
        BuffersState {
            owners: Seq::new(self.owners@.len(), |i: int| self.owners@[i].state()),
            columns: self.columns@,
            fixed: self.fixed@,
            growable: self.growable@,
            mirrored: self.mirrored@,
            registry: self.registry@,
        }
    }
}

/// A write of a column's rows: to which buffer, from which byte on.
#[derive(Debug)]
pub struct ColumnWrite {
    pub owner: usize,
    pub offset: u64,
    pub bytes: Vec<u8>,
}

/// A write that may need a larger buffer first.
#[derive(Debug)]
pub struct GrowingWrite {
    /// The new capacity, if the buffer must be replaced by a larger one that keeps its contents.
    pub grown_to: Option<u32>,
    pub write: ColumnWrite,
}

impl<B: Clone> SharedBuffers<B> {
    /// The invariant every operation keeps.
    pub closed spec fn wf(&self) -> bool {
        &&& self@.consistent()
        &&& self.registry.wf()
        &&& self.columns.wf()
        &&& self.fixed.wf()
        &&& self.growable.wf()
        &&& self.mirrored.wf()
        &&& forall|i: int| 0 <= i < self.owners@.len() ==> (#[trigger] self.owners@[i]).wf()
    }

    /// The invariant gives a consistent state.
    pub proof fn lemma_wf(&self)
        requires
            self.wf(),
        ensures
            self@.consistent(),
    {
    }

    /// Nothing registered yet.
    pub fn new() -> (buffers: Self)
        ensures
            buffers.wf(),
            buffers@.owners.len() == 0,
            buffers@.columns.len() == 0,
            buffers@.fixed.len() == 0,
            buffers@.growable.len() == 0,
            buffers@.mirrored.len() == 0,
            buffers@.registry.len() == 0,
    {
        SharedBuffers {
            owners: Vec::new(),
            columns: ColumnMap::new(),
            fixed: ColumnMap::new(),
            growable: ColumnMap::new(),
            mirrored: ColumnMap::new(),
            registry: GpuBufferRegistry::new(),
        }
    }

    fn find_owner(&self, key: BufferKey) -> (at: Option<usize>)
        requires
            self.wf(),
        ensures
            match at {
                Some(i) => has_owner(self@.owners, key@) && i == owner_at(self@.owners, key@) && i
                    < self@.owners.len(),
                None => !has_owner(self@.owners, key@),
            },
    {
        let mut i: usize = 0;
        while i < self.owners.len()
            invariant
                self.wf(),
                i <= self.owners@.len(),
                forall|k: int| 0 <= k < i ==> (#[trigger] self@.owners[k]).key@ != key@,
            decreases self.owners@.len() - i,
        {
            assert(self@.owners[i as int] == self.owners@[i as int].state());
            if self.owners[i].key.same(key) {
                proof {
                    let k = owner_at(self@.owners, key@);
                    assert(self@.owners[k].key@ == key@);
                }
                return Some(i);
            }
            i = i + 1;
        }
        None
    }

    /// What the keyed registry has against a new buffer of `key`, if anything.
    pub fn registry_conflict(&self, key: BufferKey, element: ElementDesc, mode: MirrorMode) -> (
    conflict: Option<BufferRegistrationError>)
        requires
            self.wf(),
        ensures
            conflict == self@.registry_conflict(key, element, mode),
    {
        self.registry.conflict_with(
            key,
            EntryKind::Row { element: element.element, mode },
            element.size as usize,
            BufferAccess::ReadOnly,
        )
    }

    /// What an incoming declaration disagrees on with the buffer of its key, if anything.
    pub fn share_conflict(
        &self,
        key: BufferKey,
        element: ElementDesc,
        capacity: u32,
        mode: MirrorMode,
        tag: SharedKindTag,
    ) -> (conflict: Option<ShareConflict>)
        requires
            self.wf(),
        ensures
            conflict == self@.share_conflict(key, element, capacity, mode, tag),
    {
        let at: usize = match self.find_owner(key) {
            Some(at) => at,
            None => return None,
        };
        assert(self@.owners[at as int] == self.owners@[at as int].state());
        let owner = &self.owners[at];
        let existing: SharedKindTag = owner.kind.tag();
        if existing != tag {
            return Some(ShareConflict::Path { existing, incoming: tag });
        }
        if owner.element.element != element.element {
            return Some(
                ShareConflict::ElementType {
                    existing: owner.element.element,
                    incoming: element.element,
                },
            );
        }
        if owner.element.size != element.size {
            return Some(
                ShareConflict::ElementSize { existing: owner.element.size, incoming: element.size },
            );
        }
        if owner.access != BufferAccess::ReadOnly {
            return Some(
                ShareConflict::Access {
                    existing: owner.access,
                    incoming: BufferAccess::ReadOnly,
                },
            );
        }
        if owner.mode != mode {
            return Some(ShareConflict::Mode { existing: owner.mode, incoming: mode });
        }
        if tag == SharedKindTag::Fixed && owner.capacity != capacity {
            return Some(
                ShareConflict::Capacity { existing: owner.capacity, incoming: capacity },
            );
        }
        None
    }

    fn bind(&mut self, id: ComponentId, at: usize, tag: SharedKindTag)
        requires
            old(self).wf(),
            at < old(self)@.owners.len(),
            old(self)@.owners[at as int].kind.tag() == tag,
            old(self)@.may_bind(id, tag),
        ensures
            final(self).wf(),
            final(self)@ == old(self)@.with_binding(id, at, tag),
    {
        let ghost before = self@;
        proof {
            lemma_binding(before, id, at, tag);
        }
        match tag {
            SharedKindTag::Fixed => self.fixed.bind(id, at),
            SharedKindTag::Growable => self.growable.bind(id, at),
            SharedKindTag::DirtyTracked => self.mirrored.bind(id, at),
        }
        self.columns.bind(id, at);
        assert(self@.owners =~= before.owners);
    }

    /// Registers a column under a key that has no buffer yet, with `buffer` behind it.
    pub fn register_new(
        &mut self,
        id: ComponentId,
        element: ElementDesc,
        capacity: u32,
        limit: u32,
        key: BufferKey,
        mode: MirrorMode,
        tag: SharedKindTag,
        buffer: B,
    )
        requires
            old(self).wf(),
            tag == SharedKindTag::Fixed || element.size > 0,
            old(self)@.may_bind(id, tag),
            !has_owner(old(self)@.owners, key@),
            old(self)@.registry_conflict(key, element, mode) is None,
            capacity <= limit,
            capacity * element.size <= usize::MAX,
            old(self)@.owners.len() < usize::MAX,
        ensures
            final(self).wf(),
            exists|listed_buffer: B| #[trigger]
                cloned(buffer, listed_buffer) && final(self)@ == old(self)@.with_new_owner(
                    id,
                    key,
                    element,
                    capacity,
                    limit,
                    mode,
                    tag,
                    buffer,
                    listed_buffer,
                ),
    {
        let ghost before = self@;
        let listed_buffer: B = buffer.clone();
        let ghost shown = listed_buffer;
        let ghost made = buffer;
        proof {
            lemma_new_owner(
                before,
                id,
                key,
                element,
                capacity,
                limit,
                mode,
                tag,
                made,
                shown,
            );
        }
        match self.registry.register_row(
            key,
            element.element,
            element.size as usize,
            listed_buffer,
            BufferAccess::ReadOnly,
            mode,
        ) {
            Ok(()) => {},
            Err(_) => {
                assert(false);
            },
        }
        let kind: SharedKind = match tag {
            SharedKindTag::Fixed => SharedKind::Fixed,
            SharedKindTag::Growable => SharedKind::Growable(
                DynamicGpuBuffer::new(element.size, capacity, limit),
            ),
            SharedKindTag::DirtyTracked => SharedKind::DirtyTracked(
                DirtyTrackedSceneBuffer::new(element.size, capacity, limit),
            ),
        };
        assert(kind.state() == KindState::fresh(tag, element.size, capacity, limit));
        let at: usize = self.owners.len();
        self.owners.push(
            SharedOwner {
                key,
                element,
                capacity,
                access: BufferAccess::ReadOnly,
                mode,
                kind,
                buffer,
            },
        );
        proof {
            assert(self@.owners =~= before.owners.push(
                OwnerState {
                    key,
                    element,
                    capacity,
                    access: BufferAccess::ReadOnly,
                    mode,
                    kind: KindState::fresh(tag, element.size, capacity, limit),
                    buffer: made,
                },
            ));
            assert forall|i: int| 0 <= i < self.owners@.len() implies (
            #[trigger] self.owners@[i]).wf() by {
                if i < at {
                    assert(old(self).owners@[i].wf());
                }
            }
        }
        self.bind(id, at, tag);
        assert(self@ == before.with_new_owner(
            id,
            key,
            element,
            capacity,
            limit,
            mode,
            tag,
            made,
            shown,
        ));
        assert(cloned(made, shown));
    }

    /// Registers a column under `key`. If the key has no buffer yet, `create` makes it; otherwise
    /// the column adopts the buffer the key has, which must agree with the declaration.
    pub fn register<F: FnOnce() -> B>(
        &mut self,
        id: ComponentId,
        element: ElementDesc,
        capacity: u32,
        limit: u32,
        key: BufferKey,
        mode: MirrorMode,
        tag: SharedKindTag,
        create: F,
    )
        requires
            old(self).wf(),
            column_accepted(old(self)@, id, element, capacity, limit, key, mode, tag, create),
        ensures
            final(self).wf(),
            column_registered(
                old(self)@,
                final(self)@,
                id,
                element,
                capacity,
                limit,
                key,
                mode,
                tag,
                create,
            ),
    {
        match self.find_owner(key) {
            Some(at) => {
                self.bind(id, at, tag);
            },
            None => {
                let buffer: B = create();
                self.register_new(id, element, capacity, limit, key, mode, tag, buffer);
            },
        }
    }

    /// The buffer of `key` and how many elements it holds.
    pub fn resolve_buffer(&self, key: BufferKey) -> (found: Option<(B, u64)>)
        requires
            self.wf(),
            has_owner(self@.owners, key@) ==> self@.owners[owner_at(
                self@.owners,
                key@,
            )].element.size > 0,
        ensures
            match found {
                Some((buffer, count)) => {
                    &&& has_owner(self@.owners, key@)
                    &&& cloned(self@.owners[owner_at(self@.owners, key@)].buffer, buffer)
                    &&& count == self@.owners[owner_at(self@.owners, key@)].element_count()
                },
                None => !has_owner(self@.owners, key@),
            },
    {
        match self.find_owner(key) {
            Some(at) => {
                assert(self@.owners[at as int] == self.owners@[at as int].state());
                let owner = &self.owners[at];
                let count: u32 = match &owner.kind {
                    SharedKind::Fixed => owner.capacity,
                    SharedKind::Growable(buf) => buf.capacity(),
                    SharedKind::DirtyTracked(buf) => buf.capacity(),
                };
                Some((owner.buffer.clone(), count as u64))
            },
            None => None,
        }
    }

    /// The buffer of `key` with its current allocation epoch. The registry is brought up to date
    /// and answers.
    pub fn resolve_buffer_handle(&mut self, key: BufferKey) -> (handle: Option<BufferHandle<B>>)
        requires
            old(self).wf(),
        ensures
            final(self).wf(),
            final(self)@.owners == old(self)@.owners,
            final(self)@.columns == old(self)@.columns,
            final(self)@.fixed == old(self)@.fixed,
            final(self)@.growable == old(self)@.growable,
            final(self)@.mirrored == old(self)@.mirrored,
            match handle {
                Some(h) => {
                    let owner = old(self)@.owners[owner_at(old(self)@.owners, key@)];
                    &&& has_owner(old(self)@.owners, key@)
                    &&& h.epoch == owner.epoch()
                    &&& exists|b: B| #[trigger]
                        cloned(owner.buffer, b) && cloned(b, h.buffer) && final(self)@.registry
                            == old(self)@.registry.update(
                            position(old(self)@.registry, key@),
                            RegistryEntry {
                                buffer: Some(b),
                                epoch: owner.epoch(),
                                ..entry_of(old(self)@.registry, key@)
                            },
                        )
                },
                None => !has_owner(old(self)@.owners, key@) && final(self)@.registry
                    == old(self)@.registry,
            },
    {
        let at: usize = match self.find_owner(key) {
            Some(at) => at,
            None => return None,
        };
        let ghost before = self@;
        assert(self@.owners[at as int] == self.owners@[at as int].state());
        let owner = &self.owners[at];
        let epoch: u64 = match &owner.kind {
            SharedKind::Fixed => 0,
            SharedKind::Growable(buf) => buf.epoch(),
            SharedKind::DirtyTracked(buf) => buf.epoch(),
        };
        let buffer: B = owner.buffer.clone();
        let ghost b = buffer;
        proof {
            assert(listed(before.registry, before.owners[at as int]));
            lemma_synced(before, key, b, epoch);
        }
        self.registry.sync(key, buffer, epoch);
        assert(self@.owners =~= before.owners);
        let handle = self.registry.resolve(key);
        assert(cloned(before.owners[at as int].buffer, b));
        handle
    }

    /// The key of the buffer a column is bound to.
    pub fn buffer_key_for(&self, id: ComponentId) -> (key: Option<BufferKey>)
        requires
            self.wf(),
        ensures
            key == match target_of(self@.columns, id) {
                Some(at) => Some(self@.owners[at as int].key),
                None => None,
            },
    {
        match self.columns.get(id) {
            Some(at) => {
                proof {
                    let i = binding_at(self@.columns, id);
                    assert(self@.columns[i].1 < self@.owners.len());
                    assert(self@.owners[at as int] == self.owners@[at as int].state());
                }
                Some(self.owners[at].key)
            },
            None => None,
        }
    }

    /// The columns bound through the fixed path, each with its buffer and element size.
    pub fn fixed_columns(&self) -> (columns: Vec<(ComponentId, usize, u32)>)
        requires
            self.wf(),
        ensures
            columns@ == fixed_columns_of(self@),
    {
        let mut columns: Vec<(ComponentId, usize, u32)> = Vec::new();
        let mut i: usize = 0;
        while i < self.fixed.len()
            invariant
                self.wf(),
                i <= self@.fixed.len(),
                columns@ == fixed_columns_of(self@).take(i as int),
            decreases self@.fixed.len() - i,
        {
            let (id, at) = self.fixed.at(i);
            proof {
                assert(self@.fixed[i as int] == (id, at));
                assert(self@.fixed[i as int].1 < self@.owners.len());
                assert(self@.owners[at as int] == self.owners@[at as int].state());
            }
            columns.push((id, at, self.owners[at].element.size));
            i = i + 1;
            assert(columns@ =~= fixed_columns_of(self@).take(i as int));
        }
        assert(columns@ =~= fixed_columns_of(self@));
        columns
    }

    /// The buffer of a column bound through the fixed path.
    pub fn buffer_for_id(&self, id: ComponentId) -> (buffer: Option<B>)
        requires
            self.wf(),
        ensures
            match buffer {
                Some(buffer) => target_of(self@.fixed, id) is Some && cloned(
                    self@.owners[target_of(self@.fixed, id)->0 as int].buffer,
                    buffer,
                ),
                None => target_of(self@.fixed, id) is None,
            },
    {
        match self.fixed.get(id) {
            Some(at) => {
                proof {
                    let i = binding_at(self@.fixed, id);
                    assert(self@.fixed[i].1 < self@.owners.len());
                    assert(self@.owners[at as int] == self.owners@[at as int].state());
                }
                Some(self.owners[at].buffer.clone())
            },
            None => None,
        }
    }

    /// How many buffers there are.
    pub fn owner_count(&self) -> (n: usize)
        ensures
            n == self@.owners.len(),
    {
        self.owners.len()
    }

    /// The buffer of owner `at`, and the bytes it has to hold.
    pub fn owner_allocation(&self, at: usize) -> (allocation: (B, u64))
        requires
            self.wf(),
            at < self@.owners.len(),
        ensures
            cloned(self@.owners[at as int].buffer, allocation.0),
            allocation.1 == self@.owners[at as int].element_count()
                * self@.owners[at as int].element.size,
    {
        assert(self@.owners[at as int] == self.owners@[at as int].state());
        let owner = &self.owners[at];
        let count: u32 = match &owner.kind {
            SharedKind::Fixed => owner.capacity,
            SharedKind::Growable(buf) => buf.capacity(),
            SharedKind::DirtyTracked(buf) => buf.capacity(),
        };
        let size: u32 = owner.element.size;
        assert(count * size <= u32::MAX * u32::MAX) by (nonlinear_arith)
            requires
                count <= u32::MAX,
                size <= u32::MAX,
        ;
        (owner.buffer.clone(), count as u64 * size as u64)
    }

    /// Records that the device replaced the buffer of owner `at`.
    pub fn replace_buffer(&mut self, at: usize, buffer: B)
        requires
            old(self).wf(),
            at < old(self)@.owners.len(),
        ensures
            final(self).wf(),
            final(self)@ == (BuffersState {
                owners: old(self)@.owners.update(
                    at as int,
                    OwnerState { buffer, ..old(self)@.owners[at as int] },
                ),
                ..old(self)@
            }),
    {
        let ghost before = self@;
        assert(self@.owners[at as int] == self.owners@[at as int].state());
        self.owners[at].buffer = buffer;
        proof {
            assert(self@.owners =~= before.owners.update(
                at as int,
                OwnerState { buffer, ..before.owners[at as int] },
            ));
            lemma_same_owners(before, self@);
            assert forall|i: int| 0 <= i < self.owners@.len() implies (
            #[trigger] self.owners@[i]).wf() by {
                assert(old(self).owners@[i].wf());
            }
        }
    }

    /// An unconditional write of `data` from `row` on, for a column of the fixed path. `None`, and
    /// no write, for any other column.
    pub fn write_row_bytes(&self, id: ComponentId, data: &[u8], row: u32) -> (write: Option<
        ColumnWrite,
    >)
        requires
            self.wf(),
        ensures
            match write {
                Some(w) => {
                    let at = target_of(self@.fixed, id);
                    &&& at == Some(w.owner)
                    &&& w.offset == row * self@.owners[w.owner as int].element.size
                    &&& w.bytes@ == data@
                },
                None => target_of(self@.fixed, id) is None,
            },
    {
        match self.fixed.get(id) {
            Some(at) => {
                proof {
                    let i = binding_at(self@.fixed, id);
                    assert(self@.fixed[i].1 < self@.owners.len());
                    assert(self@.owners[at as int] == self.owners@[at as int].state());
                }
                let size: u32 = self.owners[at].element.size;
                Some(column_write(at, row, size, data))
            },
            None => None,
        }
    }

    /// A write of `data` as `row`, for a growable column, growing its buffer first if need be.
    /// `None`, and no write, for any other column. Refused if and only if the device cannot hold
    /// the row.
    pub fn write_row_bytes_growing(
        &mut self,
        id: ComponentId,
        data: &[u8],
        row: u32,
    ) -> (r: Option<Result<GrowingWrite, CapacityError>>)
        requires
            old(self).wf(),
        ensures
            final(self).wf(),
            match target_of(old(self)@.growable, id) {
                None => r is None && final(self)@ == old(self)@,
                Some(at) => {
                    let owner = old(self)@.owners[at as int];
                    let buf = owner.kind->Growable_0;
                    match r {
                        Some(Ok(w)) => {
                            &&& row + 1 <= buf.limit
                            &&& final(self)@ == (BuffersState {
                                owners: old(self)@.owners.update(
                                    at as int,
                                    OwnerState {
                                        kind: KindState::Growable(buf.grown(row + 1)),
                                        ..owner
                                    },
                                ),
                                ..old(self)@
                            })
                            &&& w.grown_to == if row + 1 > buf.capacity {
                                Some(buf.grown(row + 1).capacity)
                            } else {
                                None
                            }
                            &&& w.write.owner == at
                            &&& w.write.offset == row * owner.element.size
                            &&& w.write.bytes@ == data@
                        },
                        Some(Err(e)) => {
                            &&& row + 1 > buf.limit
                            &&& final(self)@ == old(self)@
                            &&& e == (CapacityError {
                                requested: (row + 1) as u64,
                                limit: buf.limit,
                            })
                        },
                        None => false,
                    }
                },
            },
    {
        let at: usize = match self.growable.get(id) {
            Some(at) => at,
            None => return None,
        };
        let ghost before = self@;
        proof {
            let i = binding_at(self@.growable, id);
            assert(self@.growable[i].1 < self@.owners.len());
            assert(self@.owners[at as int] == self.owners@[at as int].state());
            assert(self.owners@[at as int].wf());
        }
        let size: u32 = self.owners[at].element.size;
        let outcome: Result<Option<u32>, CapacityError> = match &mut self.owners[at].kind {
            SharedKind::Growable(buf) => {
                let old_capacity: u32 = buf.capacity();
                match buf.ensure_capacity(row as u64 + 1) {
                    Ok(()) => Ok(
                        if row as u64 + 1 > old_capacity as u64 {
                            Some(buf.capacity())
                        } else {
                            None
                        },
                    ),
                    Err(e) => Err(e),
                }
            },
            _ => {
                assert(false);
                Ok(None)
            },
        };
        proof {
            assert forall|i: int| 0 <= i < self.owners@.len() implies (
            #[trigger] self.owners@[i]).wf() by {
                assert(old(self).owners@[i].wf());
            }
            let buf = before.owners[at as int].kind->Growable_0;
            if outcome is Ok {
                assert(self@.owners =~= before.owners.update(
                    at as int,
                    OwnerState {
                        kind: KindState::Growable(buf.grown(row + 1)),
                        ..before.owners[at as int]
                    },
                ));
            } else {
                assert(self@.owners =~= before.owners);
            }
            lemma_same_owners(before, self@);
        }
        match outcome {
            Ok(grown_to) => Some(
                Ok(GrowingWrite { grown_to, write: column_write(at, row, size, data) }),
            ),
            Err(e) => Some(Err(e)),
        }
    }

    /// The epoch of a growable column's buffer.
    pub fn growable_epoch_for_id(&self, id: ComponentId) -> (epoch: Option<u64>)
        requires
            self.wf(),
        ensures
            epoch == match target_of(self@.growable, id) {
                Some(at) => Some(self@.owners[at as int].epoch()),
                None => None,
            },
    {
        match self.growable.get(id) {
            Some(at) => {
                proof {
                    let i = binding_at(self@.growable, id);
                    assert(self@.growable[i].1 < self@.owners.len());
                    assert(self@.owners[at as int] == self.owners@[at as int].state());
                }
                match &self.owners[at].kind {
                    SharedKind::Growable(buf) => Some(buf.epoch()),
                    _ => {
                        assert(false);
                        None
                    },
                }
            },
            None => None,
        }
    }

    /// The capacity of a growable column's buffer.
    pub fn growable_capacity_for_id(&self, id: ComponentId) -> (capacity: Option<u32>)
        requires
            self.wf(),
        ensures
            capacity == match target_of(self@.growable, id) {
                Some(at) => Some(self@.owners[at as int].element_count()),
                None => None,
            },
    {
        match self.growable.get(id) {
            Some(at) => {
                proof {
                    let i = binding_at(self@.growable, id);
                    assert(self@.growable[i].1 < self@.owners.len());
                    assert(self@.owners[at as int] == self.owners@[at as int].state());
                }
                match &self.owners[at].kind {
                    SharedKind::Growable(buf) => Some(buf.capacity()),
                    _ => {
                        assert(false);
                        None
                    },
                }
            },
            None => None,
        }
    }

    /// The epoch of a dirty-tracked column's buffer.
    pub fn dirty_tracked_epoch_for_id(&self, id: ComponentId) -> (epoch: Option<u64>)
        requires
            self.wf(),
        ensures
            epoch == match target_of(self@.mirrored, id) {
                Some(at) => Some(self@.owners[at as int].epoch()),
                None => None,
            },
    {
        match self.mirrored.get(id) {
            Some(at) => {
                proof {
                    let i = binding_at(self@.mirrored, id);
                    assert(self@.mirrored[i].1 < self@.owners.len());
                    assert(self@.owners[at as int] == self.owners@[at as int].state());
                }
                match &self.owners[at].kind {
                    SharedKind::DirtyTracked(buf) => Some(buf.epoch()),
                    _ => {
                        assert(false);
                        None
                    },
                }
            },
            None => None,
        }
    }

    /// Records `data` as `row` of a dirty-tracked column; the upload waits for a flush. False, and
    /// no change, for any other column.
    pub fn mark_gpu_row_dirty(&mut self, id: ComponentId, row: u32, data: &[u8]) -> (marked: bool)
        requires
            old(self).wf(),
            target_of(old(self)@.mirrored, id) matches Some(at) ==> {
                let buf = old(self)@.owners[at as int].kind->DirtyTracked_0;
                &&& data@.len() == buf.size()
                &&& buf.rows_for(row as int) <= u32::MAX
                &&& buf.rows_for(row as int) * buf.size() <= usize::MAX
            },
        ensures
            final(self).wf(),
            match target_of(old(self)@.mirrored, id) {
                Some(at) => marked && final(self)@ == (BuffersState {
                    owners: old(self)@.owners.update(
                        at as int,
                        OwnerState {
                            kind: KindState::DirtyTracked(
                                old(self)@.owners[at as int].kind->DirtyTracked_0.recorded(
                                    row as int,
                                    data@,
                                ),
                            ),
                            ..old(self)@.owners[at as int]
                        },
                    ),
                    ..old(self)@
                }),
                None => !marked && final(self)@ == old(self)@,
            },
    {
        let at: usize = match self.mirrored.get(id) {
            Some(at) => at,
            None => return false,
        };
        let ghost before = self@;
        proof {
            let i = binding_at(self@.mirrored, id);
            assert(self@.mirrored[i].1 < self@.owners.len());
            assert(self@.owners[at as int] == self.owners@[at as int].state());
            assert(self.owners@[at as int].wf());
        }
        match &mut self.owners[at].kind {
            SharedKind::DirtyTracked(buf) => {
                buf.mark_dirty(row, data);
            },
            _ => {
                assert(false);
            },
        }
        proof {
            let buf = before.owners[at as int].kind->DirtyTracked_0;
            assert(buf.recorded(row as int, data@).buffer == buf.buffer);
            assert forall|i: int| 0 <= i < self.owners@.len() implies (
            #[trigger] self.owners@[i]).wf() by {
                assert(old(self).owners@[i].wf());
            }
            assert(self@.owners =~= before.owners.update(
                at as int,
                OwnerState {
                    kind: KindState::DirtyTracked(buf.recorded(row as int, data@)),
                    ..before.owners[at as int]
                },
            ));
            lemma_same_owners(before, self@);
        }
        true
    }

    /// What was recorded for `row` of a dirty-tracked column: `None` for any other column, and for
    /// a row beyond what was ever recorded.
    pub fn read_dirty_tracked_row_bytes(&self, id: ComponentId, row: u32) -> (bytes: Option<
        Vec<u8>,
    >)
        requires
            self.wf(),
        ensures
            match target_of(self@.mirrored, id) {
                Some(at) => {
                    let buf = self@.owners[at as int].kind->DirtyTracked_0;
                    match bytes {
                        Some(bytes) => row < buf.dirty.len() && bytes@ == buf.row(row as int),
                        None => row >= buf.dirty.len(),
                    }
                },
                None => bytes is None,
            },
    {
        match self.mirrored.get(id) {
            Some(at) => {
                proof {
                    let i = binding_at(self@.mirrored, id);
                    assert(self@.mirrored[i].1 < self@.owners.len());
                    assert(self@.owners[at as int] == self.owners@[at as int].state());
                    assert(self.owners@[at as int].wf());
                }
                match &self.owners[at].kind {
                    SharedKind::DirtyTracked(buf) => buf.read_row_bytes(row),
                    _ => {
                        assert(false);
                        None
                    },
                }
            },
            None => None,
        }
    }

    /// Whether the device can hold the rows of every dirty-tracked buffer.
    pub fn can_flush(&self) -> (can: bool)
        requires
            self.wf(),
        ensures
            can == self@.can_flush(),
    {
        let mut i: usize = 0;
        while i < self.owners.len()
            invariant
                self.wf(),
                i <= self.owners@.len(),
                forall|k: int| 0 <= k < i ==> (#[trigger] self@.owners[k]).can_flush(),
            decreases self.owners@.len() - i,
        {
            assert(self.owners@[i as int].wf());
            assert(self@.owners[i as int] == self.owners@[i as int].state());
            match &self.owners[i].kind {
                SharedKind::DirtyTracked(buf) => {
                    if !buf.can_flush() {
                        assert(!self@.owners[i as int].can_flush());
                        return false;
                    }
                },
                _ => {},
            }
            i = i + 1;
        }
        true
    }

    /// Asks the device for every marked row of every dirty-tracked buffer. Returns each buffer's
    /// plan with its index, and how much they write together.
    pub fn flush_gpu_mirror(&mut self) -> (r: (Vec<(usize, FlushPlan)>, SyncStats))
        requires
            old(self).wf(),
            old(self)@.can_flush(),
        ensures
            final(self).wf(),
            final(self)@ == (BuffersState {
                owners: Seq::new(
                    old(self)@.owners.len(),
                    |i: int| old(self)@.owners[i].flushed(),
                ),
                ..old(self)@
            }),
            flush_plans_of(r.0@, old(self)@.owners, old(self)@.owners.len() as int),
            r.1.ranges == capped(total_ranges(r.0@)),
            r.1.bytes == capped(total_bytes(r.0@)),
    {
        let ghost before = self@;
        let mut plans: Vec<(usize, FlushPlan)> = Vec::new();
        let mut ranges: u64 = 0;
        let mut bytes: u64 = 0;
        let mut i: usize = 0;
        while i < self.owners.len()
            invariant
                i <= self.owners@.len(),
                self.owners@.len() == before.owners.len(),
                before.consistent(),
                self.registry.wf(),
                self.columns.wf(),
                self.fixed.wf(),
                self.growable.wf(),
                self.mirrored.wf(),
                self.registry@ == before.registry,
                self.columns@ == before.columns,
                self.fixed@ == before.fixed,
                self.growable@ == before.growable,
                self.mirrored@ == before.mirrored,
                forall|k: int|
                    0 <= k < self.owners@.len() ==> (#[trigger] self.owners@[k]).wf()
                        && self.owners@[k].state() == (if k < i {
                        before.owners[k].flushed()
                    } else {
                        before.owners[k]
                    }),
                forall|k: int|
                    0 <= k < before.owners.len() && (
                    #[trigger] before.owners[k]).kind is DirtyTracked
                        ==> before.owners[k].kind->DirtyTracked_0.dirty.len()
                        <= before.owners[k].limit(),
                flush_plans_of(plans@, before.owners, i as int),
                ranges == capped(total_ranges(plans@)),
                bytes == capped(total_bytes(plans@)),
            decreases self.owners@.len() - i,
        {
            assert(self.owners@[i as int].wf());
            assert(self.owners@[i as int].state() == before.owners[i as int]);
            let ghost earlier = self.owners@;
            let ghost done = plans@;
            match &mut self.owners[i].kind {
                SharedKind::DirtyTracked(buf) => {
                    let plan = buf.flush();
                    let stats: SyncStats = plan.stats;
                    ranges = ranges.saturating_add(stats.ranges);
                    bytes = bytes.saturating_add(stats.bytes);
                    plans.push((i, plan));
                    proof {
                        assert(plans@.drop_last() =~= done);
                        lemma_plan_added(done, plans@.last(), before.owners, i as int);
                    }
                },
                _ => {
                    proof {
                        lemma_plan_skipped(done, before.owners, i as int);
                    }
                },
            }
            assert forall|k: int| 0 <= k < self.owners@.len() implies (
            #[trigger] self.owners@[k]).wf() && self.owners@[k].state() == (if k < i + 1 {
                before.owners[k].flushed()
            } else {
                before.owners[k]
            }) by {
                assert(earlier[k].wf());
                if k != i {
                    assert(self.owners@[k] == earlier[k]);
                }
            }
            i = i + 1;
        }
        proof {
            assert(self@.owners =~= Seq::new(
                before.owners.len(),
                |k: int| before.owners[k].flushed(),
            ));
            lemma_same_owners(before, self@);
        }
        (plans, SyncStats { ranges, bytes })
    }

    /// Makes room for `n` rows in every buffer that grows, the growable ones first. Stops at the
    /// first that the device cannot hold; those before it keep what they were given.
    pub fn reserve_world_mirror_capacity(&mut self, n: u32) -> (r: Result<(), CapacityError>)
        requires
            old(self).wf(),
            old(self)@.can_shadow(n),
        ensures
            final(self).wf(),
            match r {
                Ok(()) => {
                    &&& forall|i: int|
                        0 <= i < old(self)@.owners.len() ==> !refuses_reserve(
                            #[trigger] old(self)@.owners[i],
                            n,
                        )
                    &&& final(self)@ == (BuffersState {
                        owners: Seq::new(
                            old(self)@.owners.len(),
                            |i: int| old(self)@.owners[i].reserved(n),
                        ),
                        ..old(self)@
                    })
                },
                Err(e) => exists|tag: SharedKindTag, i: int| #[trigger]
                    first_refusal(old(self)@.owners, n, tag, i) && final(self)@ == (BuffersState {
                        owners: reserved_until(old(self)@.owners, n, tag, i),
                        ..old(self)@
                    }) && e == (CapacityError {
                        requested: n as u64,
                        limit: old(self)@.owners[i].limit(),
                    }),
            },
    {
        let ghost before = self@;
        match self.reserve_path(n, SharedKindTag::Growable) {
            Ok(()) => {},
            Err(e) => {
                proof {
                    let i = choose|i: int| #[trigger]
                        stopped_at(before, self@, n, SharedKindTag::Growable, i, e);
                    assert(first_refusal(before.owners, n, SharedKindTag::Growable, i));
                    assert(self@.owners =~= reserved_until(
                        before.owners,
                        n,
                        SharedKindTag::Growable,
                        i,
                    ));
                }
                return Err(e);
            },
        }
        let ghost mid = self@;
        proof {
            lemma_path_done(before.owners, n);
        }
        match self.reserve_path(n, SharedKindTag::DirtyTracked) {
            Ok(()) => {
                proof {
                    assert(self@.owners =~= Seq::new(
                        before.owners.len(),
                        |i: int| before.owners[i].reserved(n),
                    ));
                    assert forall|i: int| 0 <= i < before.owners.len() implies !refuses_reserve(
                        #[trigger] before.owners[i],
                        n,
                    ) by {
                        assert(mid.owners[i].kind.tag() == before.owners[i].kind.tag());
                        assert(!refusal_on(mid.owners, n, SharedKindTag::DirtyTracked, i));
                        assert(!refusal_on(before.owners, n, SharedKindTag::Growable, i));
                    }
                }
                Ok(())
            },
            Err(e) => {
                proof {
                    let i = choose|i: int| #[trigger]
                        stopped_at(mid, self@, n, SharedKindTag::DirtyTracked, i, e);
                    assert(mid.owners[i] == before.owners[i]);
                    assert forall|k: int| 0 <= k < before.owners.len() implies !refusal_on(
                        before.owners,
                        n,
                        SharedKindTag::Growable,
                        k,
                    ) by {}
                    assert forall|k: int| 0 <= k < i implies !refusal_on(
                        before.owners,
                        n,
                        SharedKindTag::DirtyTracked,
                        k,
                    ) by {
                        if before.owners[k].kind is DirtyTracked {
                            assert(mid.owners[k] == before.owners[k]);
                            assert(!refusal_on(mid.owners, n, SharedKindTag::DirtyTracked, k));
                        }
                    }
                    assert(first_refusal(before.owners, n, SharedKindTag::DirtyTracked, i));
                    assert(self@.owners =~= reserved_until(
                        before.owners,
                        n,
                        SharedKindTag::DirtyTracked,
                        i,
                    ));
                }
                Err(e)
            },
        }
    }

    /// Makes room for `n` rows in every buffer of one path, in order.
    fn reserve_path(&mut self, n: u32, tag: SharedKindTag) -> (r: Result<(), CapacityError>)
        requires
            old(self).wf(),
            old(self)@.can_shadow(n),
        ensures
            final(self).wf(),
            match r {
                Ok(()) => {
                    &&& forall|i: int| !#[trigger] refusal_on(old(self)@.owners, n, tag, i)
                    &&& final(self)@ == (BuffersState {
                        owners: reserved_on(
                            old(self)@.owners,
                            n,
                            tag,
                            old(self)@.owners.len() as int,
                        ),
                        ..old(self)@
                    })
                },
                Err(e) => exists|i: int| #[trigger]
                    stopped_at(old(self)@, final(self)@, n, tag, i, e),
            },
    {
        let ghost before = self@;
        let mut i: usize = 0;
        while i < self.owners.len()
            invariant
                i <= self.owners@.len(),
                before == old(self)@,
                self.owners@.len() == before.owners.len(),
                before.consistent(),
                self.registry.wf(),
                self.columns.wf(),
                self.fixed.wf(),
                self.growable.wf(),
                self.mirrored.wf(),
                self.registry@ == before.registry,
                self.columns@ == before.columns,
                self.fixed@ == before.fixed,
                self.growable@ == before.growable,
                self.mirrored@ == before.mirrored,
                before.can_shadow(n),
                forall|k: int|
                    0 <= k < self.owners@.len() ==> (#[trigger] self.owners@[k]).wf()
                        && self.owners@[k].state() == reserved_on(
                        before.owners,
                        n,
                        tag,
                        i as int,
                    )[k],
                forall|k: int| 0 <= k < i ==> !#[trigger] refusal_on(before.owners, n, tag, k),
            decreases self.owners@.len() - i,
        {
            assert(self.owners@[i as int].wf());
            assert(self.owners@[i as int].state() == before.owners[i as int]);
            let ghost earlier = self.owners@;
            let mine: bool = self.owners[i].kind.tag() == tag;
            let outcome: Result<(), CapacityError> = if !mine {
                Ok(())
            } else {
                match &mut self.owners[i].kind {
                    SharedKind::Fixed => Ok(()),
                    SharedKind::Growable(buf) => buf.ensure_capacity(n as u64),
                    SharedKind::DirtyTracked(buf) => match buf.reserve(n) {
                        Ok(_) => Ok(()),
                        Err(e) => Err(e),
                    },
                }
            };
            proof {
                let owner = before.owners[i as int];
                assert(mine ==> self.owners@[i as int].state().kind == owner.reserved(n).kind);
                assert forall|k: int| 0 <= k < self.owners@.len() implies (
                #[trigger] self.owners@[k]).wf() && self.owners@[k].state() == reserved_on(
                    before.owners,
                    n,
                    tag,
                    i + 1,
                )[k] by {
                    assert(earlier[k].wf());
                    if k != i {
                        assert(self.owners@[k] == earlier[k]);
                    }
                }
            }
            match outcome {
                Ok(()) => {},
                Err(e) => {
                    proof {
                        assert(self@.owners =~= reserved_on(before.owners, n, tag, i + 1));
                        lemma_same_owners(before, self@);
                        assert(stopped_at(before, self@, n, tag, i as int, e));
                    }
                    return Err(e);
                },
            }
            i = i + 1;
        }
        proof {
            assert(self@.owners =~= reserved_on(
                before.owners,
                n,
                tag,
                before.owners.len() as int,
            ));
            lemma_same_owners(before, self@);
        }
        Ok(())
    }

    /// Cuts every buffer that grows to `target` rows.
    pub fn shrink_world_mirror_to_fit(&mut self, target: u32)
        requires
            old(self).wf(),
        ensures
            final(self).wf(),
            final(self)@ == (BuffersState {
                owners: Seq::new(
                    old(self)@.owners.len(),
                    |i: int| old(self)@.owners[i].shrunk(target),
                ),
                ..old(self)@
            }),
    {
        let ghost before = self@;
        let mut i: usize = 0;
        while i < self.owners.len()
            invariant
                i <= self.owners@.len(),
                self.owners@.len() == before.owners.len(),
                before.consistent(),
                self.registry.wf(),
                self.columns.wf(),
                self.fixed.wf(),
                self.growable.wf(),
                self.mirrored.wf(),
                self.registry@ == before.registry,
                self.columns@ == before.columns,
                self.fixed@ == before.fixed,
                self.growable@ == before.growable,
                self.mirrored@ == before.mirrored,
                forall|k: int|
                    0 <= k < self.owners@.len() ==> (#[trigger] self.owners@[k]).wf()
                        && self.owners@[k].state() == (if k < i {
                        before.owners[k].shrunk(target)
                    } else {
                        before.owners[k]
                    }),
            decreases self.owners@.len() - i,
        {
            assert(self.owners@[i as int].wf());
            assert(self.owners@[i as int].state() == before.owners[i as int]);
            let ghost earlier = self.owners@;
            match &mut self.owners[i].kind {
                SharedKind::Fixed => {},
                SharedKind::Growable(buf) => {
                    buf.shrink_to(target);
                },
                SharedKind::DirtyTracked(buf) => {
                    buf.shrink_to_fit(target);
                },
            }
            assert forall|k: int| 0 <= k < self.owners@.len() implies (
            #[trigger] self.owners@[k]).wf() && self.owners@[k].state() == (if k < i + 1 {
                before.owners[k].shrunk(target)
            } else {
                before.owners[k]
            }) by {
                assert(earlier[k].wf());
                if k != i {
                    assert(self.owners@[k] == earlier[k]);
                }
            }
            i = i + 1;
        }
        proof {
            assert(self@.owners =~= Seq::new(
                before.owners.len(),
                |k: int| before.owners[k].shrunk(target),
            ));
            lemma_same_owners(before, self@);
        }
    }

    /// The keyed registry.
    pub fn registry(&self) -> (registry: &GpuBufferRegistry<B>)
        requires
            self.wf(),
        ensures
            registry@ == self@.registry,
            registry.wf(),
    {
        &self.registry
    }

    /// Registers a buffer that backs no column in the keyed registry.
    pub fn register_builtin(
        &mut self,
        key: BufferKey,
        element: ElementDesc,
        buffer: B,
        mode: MirrorMode,
    ) -> (r: Result<(), BufferRegistrationError>)
        requires
            old(self).wf(),
        ensures
            final(self).wf(),
            final(self)@ == (BuffersState {
                registry: inserted(
                    old(self)@.registry,
                    key,
                    EntryKind::Row { element: element.element, mode },
                    element.size as usize,
                    BufferAccess::ReadOnly,
                    Some(buffer),
                ),
                ..old(self)@
            }),
            match r {
                Ok(()) => old(self)@.registry_conflict(key, element, mode) is None,
                Err(e) => old(self)@.registry_conflict(key, element, mode) == Some(e),
            },
    {
        let ghost before = self@;
        let r = self.registry.register_row(
            key,
            element.element,
            element.size as usize,
            buffer,
            BufferAccess::ReadOnly,
            mode,
        );
        proof {
            assert(self@.owners =~= before.owners);
            lemma_registry_inserted(
                before,
                key,
                EntryKind::Row { element: element.element, mode },
                element.size as usize,
                Some(buffer),
            );
        }
        r
    }
}

/// The fixed columns with their buffers and element sizes.
pub open spec fn fixed_columns_of<B>(state: BuffersState<B>) -> Seq<(ComponentId, usize, u32)> {
    Seq::new(
        state.fixed.len(),
        |i: int|
            (
                state.fixed[i].0,
                state.fixed[i].1,
                state.owners[state.fixed[i].1 as int].element.size,
            ),
    )
}

/// Whether `owner` cannot be given `n` elements.
pub open spec fn refuses_reserve<B>(owner: OwnerState<B>, n: u32) -> bool {
    !(owner.kind is Fixed) && n > owner.limit()
}

/// Whether buffer `i` is of path `tag` and refuses.
pub open spec fn refusal_on<B>(
    owners: Seq<OwnerState<B>>,
    n: u32,
    tag: SharedKindTag,
    i: int,
) -> bool {
    0 <= i < owners.len() && owners[i].kind.tag() == tag && refuses_reserve(owners[i], n)
}

/// The buffers after those of path `tag` among the first `k` were given room.
pub open spec fn reserved_on<B>(
    owners: Seq<OwnerState<B>>,
    n: u32,
    tag: SharedKindTag,
    k: int,
) -> Seq<OwnerState<B>> {
    Seq::new(
        owners.len(),
        |i: int|
            if i < k && owners[i].kind.tag() == tag {
                owners[i].reserved(n)
            } else {
                owners[i]
            },
    )
}

/// The reservation on path `tag` stopped with error `e` at buffer `i`, the first to refuse.
spec fn stopped_at<B>(
    before: BuffersState<B>,
    after: BuffersState<B>,
    n: u32,
    tag: SharedKindTag,
    i: int,
    e: CapacityError,
) -> bool {
    &&& refusal_on(before.owners, n, tag, i)
    &&& forall|k: int| 0 <= k < i ==> !#[trigger] refusal_on(before.owners, n, tag, k)
    &&& after == (BuffersState { owners: reserved_on(before.owners, n, tag, i + 1), ..before })
    &&& e == (CapacityError { requested: n as u64, limit: before.owners[i].limit() })
}

/// Buffer `i` is the first to refuse, in the order growable before dirty-tracked.
pub open spec fn first_refusal<B>(
    owners: Seq<OwnerState<B>>,
    n: u32,
    tag: SharedKindTag,
    i: int,
) -> bool {
    &&& tag != SharedKindTag::Fixed
    &&& refusal_on(owners, n, tag, i)
    &&& forall|k: int| 0 <= k < i ==> !#[trigger] refusal_on(owners, n, tag, k)
    &&& tag == SharedKindTag::DirtyTracked ==> forall|k: int|
        0 <= k < owners.len() ==> !#[trigger] refusal_on(owners, n, SharedKindTag::Growable, k)
}

/// The buffers when the reservation stopped at buffer `i` of path `tag`.
pub open spec fn reserved_until<B>(
    owners: Seq<OwnerState<B>>,
    n: u32,
    tag: SharedKindTag,
    i: int,
) -> Seq<OwnerState<B>> {
    Seq::new(
        owners.len(),
        |k: int|
            if owners[k].kind.tag() == SharedKindTag::Fixed {
                owners[k]
            } else if tag == SharedKindTag::Growable {
                if k <= i && owners[k].kind.tag() == tag {
                    owners[k].reserved(n)
                } else {
                    owners[k]
                }
            } else if owners[k].kind.tag() == SharedKindTag::Growable || k <= i {
                owners[k].reserved(n)
            } else {
                owners[k]
            },
    )
}

/// The larger values a counter cannot show are shown as its maximum.
pub open spec fn capped(n: int) -> int {
    if n > u64::MAX {
        u64::MAX as int
    } else {
        n
    }
}

/// Device writes of all plans.
pub open spec fn total_ranges(plans: Seq<(usize, FlushPlan)>) -> int
    decreases plans.len(),
{
    if plans.len() == 0 {
        0
    } else {
        total_ranges(plans.drop_last()) + plans.last().1.stats.ranges
    }
}

/// Bytes written by all plans.
pub open spec fn total_bytes(plans: Seq<(usize, FlushPlan)>) -> int
    decreases plans.len(),
{
    if plans.len() == 0 {
        0
    } else {
        total_bytes(plans.drop_last()) + plans.last().1.stats.bytes
    }
}

/// `plan` is what a flush of `buf` asks of the device.
pub open spec fn flushes(plan: FlushPlan, buf: ShadowState) -> bool {
    &&& plan.grown_to == if buf.buffer.capacity < buf.dirty.len() {
        Some(buf.flushed().buffer.capacity)
    } else {
        None
    }
    &&& exists|runs: Seq<Run>| #[trigger]
        are_runs(runs, buf.dirty) && uploads_runs(plan.uploads@, runs, buf) && plan.stats.ranges
            == runs.len() && plan.stats.bytes == crate::gpu::runs::rows_in(runs) * buf.size()
    &&& plan.stats.ranges == buf.pending_ranges()
    &&& plan.stats.bytes == buf.pending_bytes()
}

/// `plans` has the plan of each dirty-tracked buffer among the first `n`, in order.
pub open spec fn flush_plans_of<B>(
    plans: Seq<(usize, FlushPlan)>,
    owners: Seq<OwnerState<B>>,
    n: int,
) -> bool
    decreases n,
{
    if n <= 0 {
        plans.len() == 0
    } else if owners[n - 1].kind is DirtyTracked {
        &&& plans.len() > 0
        &&& plans.last().0 == n - 1
        &&& flushes(plans.last().1, owners[n - 1].kind->DirtyTracked_0)
        &&& flush_plans_of(plans.drop_last(), owners, n - 1)
    } else {
        flush_plans_of(plans, owners, n - 1)
    }
}

proof fn lemma_plan_added<B>(
    plans: Seq<(usize, FlushPlan)>,
    plan: (usize, FlushPlan),
    owners: Seq<OwnerState<B>>,
    i: int,
)
    requires
        0 <= i < owners.len(),
        flush_plans_of(plans, owners, i),
        owners[i].kind is DirtyTracked,
        plan.0 == i,
        flushes(plan.1, owners[i].kind->DirtyTracked_0),
    ensures
        flush_plans_of(plans.push(plan), owners, i + 1),
{
    assert(plans.push(plan).drop_last() =~= plans);
}

proof fn lemma_plan_skipped<B>(
    plans: Seq<(usize, FlushPlan)>,
    owners: Seq<OwnerState<B>>,
    i: int,
)
    requires
        0 <= i < owners.len(),
        flush_plans_of(plans, owners, i),
        !(owners[i].kind is DirtyTracked),
    ensures
        flush_plans_of(plans, owners, i + 1),
{
}

/// A write of `data` from `row` on.
fn column_write(owner: usize, row: u32, size: u32, data: &[u8]) -> (w: ColumnWrite)
    ensures
        w.owner == owner,
        w.offset == row * size,
        w.bytes@ == data@,
{
    assert(0 <= row * size <= u32::MAX * u32::MAX) by (nonlinear_arith)
        requires
            0 <= row <= u32::MAX,
            0 <= size <= u32::MAX,
    ;
    let mut bytes: Vec<u8> = Vec::new();
    bytes.extend_from_slice(data);
    assert(bytes@ =~= data@);
    ColumnWrite { owner, offset: (row as u64) * (size as u64), bytes }
}

/// Growing the growable buffers leaves the dirty-tracked ones alone, and the other way round.
proof fn lemma_path_done<B>(owners: Seq<OwnerState<B>>, n: u32)
    ensures
        ({
            let mid = reserved_on(owners, n, SharedKindTag::Growable, owners.len() as int);
            forall|i: int|
                0 <= i < owners.len() ==> (#[trigger] mid[i]).kind.tag() == owners[i].kind.tag()
                    && mid[i].element == owners[i].element && (!(owners[i].kind is Growable)
                    ==> mid[i] == owners[i])
        }),
{
}

proof fn lemma_binding<B>(
    state: BuffersState<B>,
    id: ComponentId,
    at: usize,
    tag: SharedKindTag,
)
    requires
        state.consistent(),
        at < state.owners.len(),
        state.owners[at as int].kind.tag() == tag,
        state.may_bind(id, tag),
    ensures
        state.with_binding(id, at, tag).consistent(),
{
    let after = state.with_binding(id, at, tag);
    crate::gpu::column_map::lemma_bound(state.columns, id, at);
    crate::gpu::column_map::lemma_bound(state.fixed, id, at);
    crate::gpu::column_map::lemma_bound(state.growable, id, at);
    crate::gpu::column_map::lemma_bound(state.mirrored, id, at);
    assert forall|i: int| 0 <= i < after.fixed.len() implies target_of(
        after.columns,
        (#[trigger] after.fixed[i]).0,
    ) == Some(after.fixed[i].1) by {
        let other = after.fixed[i].0;
        if other == id {
            if tag == SharedKindTag::Fixed {
                let k = binding_at(after.fixed, id);
                assert(after.fixed[k].0 == id);
                assert(target_of(after.fixed, id) == Some(at));
                assert(k == i) by {
                    if k < i {
                        assert(after.fixed[k].0 != after.fixed[i].0);
                    } else if i < k {
                        assert(after.fixed[i].0 != after.fixed[k].0);
                    }
                }
            } else {
                assert(is_bound(state.fixed, id));
            }
        } else {
            if tag == SharedKindTag::Fixed {
                assert(i < state.fixed.len() && after.fixed[i] == state.fixed[i]) by {
                    if is_bound(state.fixed, id) {
                        let b = binding_at(state.fixed, id);
                        assert(state.fixed[b].0 == id);
                    }
                }
            }
            assert(target_of(state.columns, state.fixed[i].0) == Some(state.fixed[i].1));
        }
    }
}

proof fn lemma_same_owners<B>(a: BuffersState<B>, b: BuffersState<B>)
    requires
        a.consistent(),
        b == (BuffersState { owners: b.owners, ..a }),
        a.owners.len() == b.owners.len(),
        forall|i: int|
            0 <= i < a.owners.len() ==> {
                &&& (#[trigger] b.owners[i]).key == a.owners[i].key
                &&& b.owners[i].element == a.owners[i].element
                &&& b.owners[i].access == a.owners[i].access
                &&& b.owners[i].mode == a.owners[i].mode
                &&& b.owners[i].kind.tag() == a.owners[i].kind.tag()
            },
    ensures
        b.consistent(),
{
    assert forall|i: int, j: int|
        #![trigger b.owners[i], b.owners[j]]
        0 <= i < j < b.owners.len() implies b.owners[i].key@ != b.owners[j].key@ by {
        assert(a.owners[i].key@ != a.owners[j].key@);
    }
    assert forall|i: int| 0 <= i < b.owners.len() implies (#[trigger] b.owners[i]).sized()
        && listed(b.registry, b.owners[i]) by {
        assert(listed(a.registry, a.owners[i]));
    }
    assert forall|i: int| 0 <= i < b.fixed.len() implies (#[trigger] b.fixed[i]).1
        < b.owners.len() && b.owners[b.fixed[i].1 as int].kind.tag() == SharedKindTag::Fixed by {
        assert(a.owners[a.fixed[i].1 as int].kind.tag() == SharedKindTag::Fixed);
    }
    assert forall|i: int| 0 <= i < b.growable.len() implies (#[trigger] b.growable[i]).1
        < b.owners.len() && b.owners[b.growable[i].1 as int].kind.tag()
        == SharedKindTag::Growable by {
        assert(a.owners[a.growable[i].1 as int].kind.tag() == SharedKindTag::Growable);
    }
    assert forall|i: int| 0 <= i < b.mirrored.len() implies (#[trigger] b.mirrored[i]).1
        < b.owners.len() && b.owners[b.mirrored[i].1 as int].kind.tag()
        == SharedKindTag::DirtyTracked by {
        assert(a.owners[a.mirrored[i].1 as int].kind.tag() == SharedKindTag::DirtyTracked);
    }
}

/// An accepted registration keeps every other listing, and a compatible one its own.
proof fn lemma_registry_inserted<B>(
    state: BuffersState<B>,
    key: BufferKey,
    kind: EntryKind,
    element_size: usize,
    buffer: Option<B>,
)
    requires
        state.consistent(),
        buffer is Some,
    ensures
        ({
            let after = BuffersState {
                registry: inserted(
                    state.registry,
                    key,
                    kind,
                    element_size,
                    BufferAccess::ReadOnly,
                    buffer,
                ),
                ..state
            };
            after.consistent()
        }),
{
    let registry = inserted(
        state.registry,
        key,
        kind,
        element_size,
        BufferAccess::ReadOnly,
        buffer,
    );
    let after = BuffersState { registry, ..state };
    assert(keys_distinct(registry)) by {
        if !registered(state.registry, key@) {
            assert forall|i: int, j: int|
                #![trigger registry[i], registry[j]]
                0 <= i < j < registry.len() implies registry[i].key@ != registry[j].key@ by {
                if j == state.registry.len() {
                    assert(state.registry[i].key@ != key@);
                }
            }
        }
    }
    assert forall|i: int| 0 <= i < after.owners.len() implies (#[trigger] after.owners[i]).sized()
        && listed(registry, after.owners[i]) by {
        let owner = state.owners[i];
        assert(listed(state.registry, owner));
        if owner.key@ != key@ {
            crate::gpu::buffer_registry::law_registration_disturbs_no_other_key(
                state.registry,
                key,
                kind,
                element_size,
                BufferAccess::ReadOnly,
                buffer,
                owner.key@,
            );
        } else {
            let p = position(state.registry, key@);
            assert(state.registry[p].key@ == key@);
            assert(registry[p].key@ == key@);
            let q = position(registry, key@);
            assert(registry[q].key@ == key@);
            assert(q == p) by {
                if q != p {
                    if q < p {
                        assert(registry[q].key@ != registry[p].key@);
                    } else {
                        assert(registry[p].key@ != registry[q].key@);
                    }
                }
            }
        }
    }
}

proof fn lemma_new_owner<B>(
    state: BuffersState<B>,
    id: ComponentId,
    key: BufferKey,
    element: ElementDesc,
    capacity: u32,
    limit: u32,
    mode: MirrorMode,
    tag: SharedKindTag,
    buffer: B,
    listed_buffer: B,
)
    requires
        state.consistent(),
        tag == SharedKindTag::Fixed || element.size > 0,
        state.owners.len() < usize::MAX,
        !has_owner(state.owners, key@),
        state.may_bind(id, tag),
        state.registry_conflict(key, element, mode) is None,
    ensures
        ({
            let after = BuffersState {
                owners: state.owners.push(
                    OwnerState {
                        key,
                        element,
                        capacity,
                        access: BufferAccess::ReadOnly,
                        mode,
                        kind: KindState::fresh(tag, element.size, capacity, limit),
                        buffer,
                    },
                ),
                registry: inserted(
                    state.registry,
                    key,
                    EntryKind::Row { element: element.element, mode },
                    element.size as usize,
                    BufferAccess::ReadOnly,
                    Some(listed_buffer),
                ),
                ..state
            };
            &&& after.consistent()
            &&& after.may_bind(id, tag)
        }),
{
    let kind = EntryKind::Row { element: element.element, mode };
    let owner = OwnerState {
        key,
        element,
        capacity,
        access: BufferAccess::ReadOnly,
        mode,
        kind: KindState::fresh(tag, element.size, capacity, limit),
        buffer,
    };
    let registry = inserted(
        state.registry,
        key,
        kind,
        element.size as usize,
        BufferAccess::ReadOnly,
        Some(listed_buffer),
    );
    let mid = BuffersState { registry, ..state };
    lemma_registry_inserted(state, key, kind, element.size as usize, Some(listed_buffer));
    let after = BuffersState { owners: state.owners.push(owner), registry, ..state };
    let n = state.owners.len() as int;
    assert forall|i: int, j: int|
        #![trigger after.owners[i], after.owners[j]]
        0 <= i < j < after.owners.len() implies after.owners[i].key@ != after.owners[j].key@ by {
        if j == n {
            assert(state.owners[i].key@ != key@);
        } else {
            assert(state.owners[i].key@ != state.owners[j].key@);
        }
    }
    assert forall|i: int| 0 <= i < after.owners.len() implies (#[trigger] after.owners[i]).sized()
        && listed(registry, after.owners[i]) by {
        if i < n {
            assert(mid.owners[i] == after.owners[i]);
        } else {
            let p = if registered(state.registry, key@) {
                position(state.registry, key@)
            } else {
                state.registry.len() as int
            };
            assert(registry[p].key@ == key@);
            let q = position(registry, key@);
            assert(registry[q].key@ == key@);
            assert(q == p) by {
                if q < p {
                    assert(registry[q].key@ != registry[p].key@);
                } else if p < q {
                    assert(registry[p].key@ != registry[q].key@);
                }
            }
        }
    }
    assert forall|i: int| 0 <= i < after.fixed.len() implies (#[trigger] after.fixed[i]).1
        < after.owners.len() && after.owners[after.fixed[i].1 as int].kind.tag()
        == SharedKindTag::Fixed by {
        assert(state.owners[state.fixed[i].1 as int].kind.tag() == SharedKindTag::Fixed);
    }
    assert forall|i: int| 0 <= i < after.growable.len() implies (#[trigger] after.growable[i]).1
        < after.owners.len() && after.owners[after.growable[i].1 as int].kind.tag()
        == SharedKindTag::Growable by {
        assert(state.owners[state.growable[i].1 as int].kind.tag() == SharedKindTag::Growable);
    }
    assert forall|i: int| 0 <= i < after.mirrored.len() implies (#[trigger] after.mirrored[i]).1
        < after.owners.len() && after.owners[after.mirrored[i].1 as int].kind.tag()
        == SharedKindTag::DirtyTracked by {
        assert(state.owners[state.mirrored[i].1 as int].kind.tag() == SharedKindTag::DirtyTracked);
    }
}

proof fn lemma_synced<B>(state: BuffersState<B>, key: BufferKey, buffer: B, epoch: u64)
    requires
        state.consistent(),
        registered(state.registry, key@),
    ensures
        ({
            let registry = state.registry.update(
                position(state.registry, key@),
                RegistryEntry { buffer: Some(buffer), epoch, ..entry_of(state.registry, key@) },
            );
            &&& (BuffersState { registry, ..state }).consistent()
            &&& registered(registry, key@)
            &&& entry_of(registry, key@).buffer == Some(buffer)
            &&& entry_of(registry, key@).epoch == epoch
        }),
{
    let p = position(state.registry, key@);
    assert(state.registry[p].key@ == key@);
    let registry = state.registry.update(
        p,
        RegistryEntry { buffer: Some(buffer), epoch, ..state.registry[p] },
    );
    let after = BuffersState { registry, ..state };
    assert(forall|i: int|
        0 <= i < registry.len() ==> (#[trigger] registry[i]).key@ == state.registry[i].key@);
    assert(keys_distinct(registry)) by {
        assert forall|i: int, j: int|
            #![trigger registry[i], registry[j]]
            0 <= i < j < registry.len() implies registry[i].key@ != registry[j].key@ by {
            assert(state.registry[i].key@ != state.registry[j].key@);
        }
    }
    assert(registry[p].key@ == key@);
    let q0 = position(registry, key@);
    assert(registry[q0].key@ == key@);
    assert(q0 == p) by {
        if q0 < p {
            assert(registry[q0].key@ != registry[p].key@);
        } else if p < q0 {
            assert(registry[p].key@ != registry[q0].key@);
        }
    }
    assert forall|i: int| 0 <= i < after.owners.len() implies (#[trigger] after.owners[i]).sized()
        && listed(registry, after.owners[i]) by {
        let owner = state.owners[i];
        assert(listed(state.registry, owner));
        let a = position(state.registry, owner.key@);
        assert(state.registry[a].key@ == owner.key@);
        assert(registry[a].key@ == owner.key@);
        let b = position(registry, owner.key@);
        assert(registry[b].key@ == owner.key@);
        assert(a == b) by {
            if a < b {
                assert(registry[a].key@ != registry[b].key@);
            } else if b < a {
                assert(registry[b].key@ != registry[a].key@);
            }
        }
    }
}

} // verus!
