//! The keyed buffer registry: one namespace that maps a declared [`BufferKey`] to its current
//! buffer and the epoch of its allocation.
//!
//! `B` is the owned, cheaply cloned handle of a device buffer. Resolving hands out an owned clone
//! with its epoch, so that a growth can only outdate the epoch a consumer cached, never the buffer
//! it holds. Two declarations share one key only when they agree on element type, stride, access
//! and mirror mode; anything else is an error and changes nothing.
use crate::text::{push_decimal, quoted, same_text};
use vstd::prelude::*;
use vstd::string::*;

verus! {

use crate::gpu::dynamic_buffer::next_epoch;
use crate::text::{decimal, quoted_text};

/// The name of a buffer.
#[derive(Copy, Clone, Debug, PartialEq, Eq, Hash, PartialOrd, Ord)]
pub struct BufferKey(&'static str);

impl View for BufferKey {
    type V = Seq<char>;

    closed spec fn view(&self) -> Seq<char> {
        self.0@
    }
}

impl BufferKey {
    /// The key named `key`, which must not be empty.
    pub fn of(key: &'static str) -> (k: Self)
        requires
            key@.len() > 0,
        ensures
            k@ == key@,
    {
        BufferKey(key)
    }

    /// The name.
    pub fn as_str(self) -> (key: &'static str)
        ensures
            key@ == self@,
    {
        self.0
    }

    /// The name as it is displayed.
    pub fn display(self) -> (text: String)
        ensures
            text@ == self@,
    {
        self.0.to_owned()
    }

    /// The name in quotes, as it appears in messages.
    pub fn debug(self) -> (text: String)
        ensures
            text@ == quoted_text(self@),
    {
        quoted(self.0)
    }

    /// Whether two keys have the same name.
    pub fn same(self, other: BufferKey) -> (same: bool)
        ensures
            same == (self@ == other@),
    {
        same_text(self.0, other.0)
    }
}

/// Identity of an element type.
#[derive(Copy, Clone, Debug, PartialEq, Eq, Hash, Structural)]
pub struct TypeKey(pub u64);

/// Declared access on a keyed buffer.
#[derive(Copy, Clone, Debug, PartialEq, Eq, Structural)]
pub enum BufferAccess {
    /// Only ever bound read-only.
    ReadOnly,
    /// May be written or bound read-write.
    ReadWrite,
}

/// How a mirrored field reaches its buffer.
#[derive(Copy, Clone, Debug, PartialEq, Eq, Structural)]
pub enum MirrorMode {
    /// Delta-synced by dirty tracking.
    DirtyTracked,
    /// Uploaded once.
    Once,
}

/// What a key names.
#[derive(Copy, Clone, Debug, PartialEq, Eq, Structural)]
pub enum EntryKind {
    /// Rows of one element type, mirrored in one mode.
    Row { element: TypeKey, mode: MirrorMode },
    /// A byte range that something else suballocates.
    Resource,
    /// A bindless array of textures.
    TextureArray,
}

/// A resolved buffer and the epoch it was captured at.
#[derive(Clone, Debug)]
pub struct BufferHandle<B> {
    pub buffer: B,
    pub epoch: u64,
}

/// Why a registration was rejected. The registry never aliases two different buffers onto one key.
#[derive(Clone, Debug, PartialEq, Eq)]
pub enum BufferRegistrationError {
    /// A row buffer of another element type holds the key.
    ElementTypeMismatch { key: BufferKey, existing: Option<TypeKey>, incoming: Option<TypeKey> },
    /// The element sizes differ.
    ElementSizeMismatch { key: BufferKey, existing: usize, incoming: usize },
    /// The declared accesses differ.
    AccessMismatch { key: BufferKey, existing: BufferAccess, incoming: BufferAccess },
    /// The mirror modes differ.
    MirrorModeMismatch {
        key: BufferKey,
        existing: Option<MirrorMode>,
        incoming: Option<MirrorMode>,
    },
    /// The key names a row buffer and was registered as something else, or the other way round.
    RowResourceCollision { key: BufferKey },
}

/// How an element type appears in a message.
pub open spec fn type_text(element: Option<TypeKey>) -> Seq<char> {
    match element {
        Some(element) => "Some("@ + decimal(element.0 as nat) + ")"@,
        None => "None"@,
    }
}

/// How an access appears in a message.
pub open spec fn access_text(access: BufferAccess) -> Seq<char> {
    match access {
        BufferAccess::ReadOnly => "ReadOnly"@,
        BufferAccess::ReadWrite => "ReadWrite"@,
    }
}

/// How a mirror mode appears in a message.
pub open spec fn mode_text(mode: Option<MirrorMode>) -> Seq<char> {
    match mode {
        Some(MirrorMode::DirtyTracked) => "Some(DirtyTracked)"@,
        Some(MirrorMode::Once) => "Some(Once)"@,
        None => "None"@,
    }
}

/// Appends an element type to a message.
pub(crate) fn push_type(out: &mut String, element: Option<TypeKey>)
    ensures
        final(out)@ == old(out)@ + type_text(element),
{
    match element {
        Some(element) => {
            out.append("Some(");
            push_decimal(out, element.0);
            out.append(")");
            assert(out@ =~= old(out)@ + type_text(Some(element)));
        },
        None => {
            out.append("None");
        },
    }
}

fn push_access(out: &mut String, access: BufferAccess)
    ensures
        final(out)@ == old(out)@ + access_text(access),
{
    match access {
        BufferAccess::ReadOnly => out.append("ReadOnly"),
        BufferAccess::ReadWrite => out.append("ReadWrite"),
    }
}

fn push_mode(out: &mut String, mode: Option<MirrorMode>)
    ensures
        final(out)@ == old(out)@ + mode_text(mode),
{
    match mode {
        Some(MirrorMode::DirtyTracked) => out.append("Some(DirtyTracked)"),
        Some(MirrorMode::Once) => out.append("Some(Once)"),
        None => out.append("None"),
    }
}

impl BufferRegistrationError {
    /// The error in words.
    pub open spec fn message(self) -> Seq<char> {
        match self {
            BufferRegistrationError::ElementTypeMismatch { key, existing, incoming } => "buffer "@
                + quoted_text(key@) + " already registered for element "@ + type_text(existing)
                + ", can't also hold "@ + type_text(incoming),
            BufferRegistrationError::ElementSizeMismatch { key, existing, incoming } => "buffer "@
                + quoted_text(key@) + " has element stride "@ + decimal(existing as nat)
                + " bytes; incoming element is "@ + decimal(incoming as nat)
                + " bytes — shared buffers require identical element type and stride"@,
            BufferRegistrationError::AccessMismatch { key, existing, incoming } => "buffer "@
                + quoted_text(key@) + " already registered "@ + access_text(existing)
                + "; incoming declares "@ + access_text(incoming),
            BufferRegistrationError::MirrorModeMismatch { key, existing, incoming } => "buffer "@
                + quoted_text(key@) + " already registered as "@ + mode_text(existing)
                + "; incoming declares "@ + mode_text(incoming)
                + " — Once fields share only with Once, DirtyTracked only with DirtyTracked"@,
            BufferRegistrationError::RowResourceCollision { key } => "buffer "@ + quoted_text(key@)
                + " is registered both as a row buffer and as a resource entry"@,
        }
    }

    /// The error in words.
    pub fn describe(&self) -> (text: String)
        ensures
            text@ == self.message(),
    {
        let mut out: String = "buffer ".to_owned();
        match self {
            BufferRegistrationError::ElementTypeMismatch { key, existing, incoming } => {
                out.append(key.debug().as_str());
                out.append(" already registered for element ");
                push_type(&mut out, *existing);
                out.append(", can't also hold ");
                push_type(&mut out, *incoming);
            },
            BufferRegistrationError::ElementSizeMismatch { key, existing, incoming } => {
                out.append(key.debug().as_str());
                out.append(" has element stride ");
                push_decimal(&mut out, *existing as u64);
                out.append(" bytes; incoming element is ");
                push_decimal(&mut out, *incoming as u64);
                out.append(" bytes — shared buffers require identical element type and stride");
            },
            BufferRegistrationError::AccessMismatch { key, existing, incoming } => {
                out.append(key.debug().as_str());
                out.append(" already registered ");
                push_access(&mut out, *existing);
                out.append("; incoming declares ");
                push_access(&mut out, *incoming);
            },
            BufferRegistrationError::MirrorModeMismatch { key, existing, incoming } => {
                out.append(key.debug().as_str());
                out.append(" already registered as ");
                push_mode(&mut out, *existing);
                out.append("; incoming declares ");
                push_mode(&mut out, *incoming);
                out.append(
                    " — Once fields share only with Once, DirtyTracked only with DirtyTracked",
                );
            },
            BufferRegistrationError::RowResourceCollision { key } => {
                out.append(key.debug().as_str());
                out.append(" is registered both as a row buffer and as a resource entry");
            },
        }
        out
    }
}

/// One registration. A texture array has no buffer.
#[derive(Debug)]
pub struct RegistryEntry<B> {
    pub key: BufferKey,
    pub kind: EntryKind,
    /// The element stride, the resource's size in bytes, or the number of texture slots.
    pub element_size: usize,
    pub access: BufferAccess,
    pub buffer: Option<B>,
    pub epoch: u64,
}

impl EntryKind {
    pub open spec fn element_spec(self) -> Option<TypeKey> {
        match self {
            EntryKind::Row { element, .. } => Some(element),
            _ => None,
        }
    }

    pub open spec fn mode_spec(self) -> Option<MirrorMode> {
        match self {
            EntryKind::Row { mode, .. } => Some(mode),
            _ => None,
        }
    }

    /// Whether two kinds are of one class, whatever their element type and mode.
    pub open spec fn same_class(self, other: EntryKind) -> bool {
        ||| self is Row && other is Row
        ||| self is Resource && other is Resource
        ||| self is TextureArray && other is TextureArray
    }

    /// The element type of a row buffer.
    pub fn element(self) -> (element: Option<TypeKey>)
        ensures
            element == self.element_spec(),
    {
        match self {
            EntryKind::Row { element, .. } => Some(element),
            _ => None,
        }
    }

    /// The mirror mode of a row buffer.
    pub fn mode(self) -> (mode: Option<MirrorMode>)
        ensures
            mode == self.mode_spec(),
    {
        match self {
            EntryKind::Row { mode, .. } => Some(mode),
            _ => None,
        }
    }

    fn is_same_class(self, other: EntryKind) -> (same: bool)
        ensures
            same == self.same_class(other),
    {
        match (self, other) {
            (EntryKind::Row { .. }, EntryKind::Row { .. }) => true,
            (EntryKind::Resource, EntryKind::Resource) => true,
            (EntryKind::TextureArray, EntryKind::TextureArray) => true,
            _ => false,
        }
    }
}

/// Whether `key` is registered.
pub open spec fn registered<B>(entries: Seq<RegistryEntry<B>>, key: Seq<char>) -> bool {
    exists|i: int| 0 <= i < entries.len() && (#[trigger] entries[i]).key@ == key
}

/// Where `key` is registered.
pub open spec fn position<B>(entries: Seq<RegistryEntry<B>>, key: Seq<char>) -> int {
    choose|i: int| 0 <= i < entries.len() && (#[trigger] entries[i]).key@ == key
}

/// The registration of `key`.
pub open spec fn entry_of<B>(entries: Seq<RegistryEntry<B>>, key: Seq<char>) -> RegistryEntry<B> {
    entries[position(entries, key)]
}

/// Each key is registered once.
pub open spec fn keys_distinct<B>(entries: Seq<RegistryEntry<B>>) -> bool {
    forall|i: int, j: int|
        #![trigger entries[i], entries[j]]
        0 <= i < j < entries.len() ==> entries[i].key@ != entries[j].key@
}

/// Why an incoming declaration cannot share `existing`, if so: the first disagreement on class,
/// element type, stride, access and mirror mode.
pub open spec fn conflict<B>(
    existing: RegistryEntry<B>,
    key: BufferKey,
    kind: EntryKind,
    element_size: usize,
    access: BufferAccess,
) -> Option<BufferRegistrationError> {
    if !existing.kind.same_class(kind) {
        Some(BufferRegistrationError::RowResourceCollision { key })
    } else if existing.kind.element_spec() != kind.element_spec() {
        Some(
            BufferRegistrationError::ElementTypeMismatch {
                key,
                existing: existing.kind.element_spec(),
                incoming: kind.element_spec(),
            },
        )
    } else if existing.element_size != element_size {
        Some(
            BufferRegistrationError::ElementSizeMismatch {
                key,
                existing: existing.element_size,
                incoming: element_size,
            },
        )
    } else if existing.access != access {
        Some(
            BufferRegistrationError::AccessMismatch {
                key,
                existing: existing.access,
                incoming: access,
            },
        )
    } else if existing.kind.mode_spec() != kind.mode_spec() {
        Some(
            BufferRegistrationError::MirrorModeMismatch {
                key,
                existing: existing.kind.mode_spec(),
                incoming: kind.mode_spec(),
            },
        )
    } else {
        None
    }
}

/// The registrations after an incoming declaration: a new entry at epoch zero, or the existing one
/// with the new buffer at the next epoch, or no change on a conflict.
pub open spec fn inserted<B>(
    entries: Seq<RegistryEntry<B>>,
    key: BufferKey,
    kind: EntryKind,
    element_size: usize,
    access: BufferAccess,
    buffer: Option<B>,
) -> Seq<RegistryEntry<B>> {
    if !registered(entries, key@) {
        entries.push(RegistryEntry { key, kind, element_size, access, buffer, epoch: 0 })
    } else if conflict(entry_of(entries, key@), key, kind, element_size, access) is None {
        entries.update(
            position(entries, key@),
            RegistryEntry {
                buffer,
                epoch: next_epoch(entry_of(entries, key@).epoch),
                ..entry_of(entries, key@)
            },
        )
    } else {
        entries
    }
}

/// The error an incoming declaration gets, if any.
pub open spec fn insert_error<B>(
    entries: Seq<RegistryEntry<B>>,
    key: BufferKey,
    kind: EntryKind,
    element_size: usize,
    access: BufferAccess,
) -> Option<BufferRegistrationError> {
    if registered(entries, key@) {
        conflict(entry_of(entries, key@), key, kind, element_size, access)
    } else {
        None
    }
}

/// The keyed buffer registry.
#[derive(Debug)]
pub struct GpuBufferRegistry<B> {
    entries: Vec<RegistryEntry<B>>,
}

impl<B> View for GpuBufferRegistry<B> {
    type V = Seq<RegistryEntry<B>>;

    closed spec fn view(&self) -> Seq<RegistryEntry<B>> {
        self.entries@
    }
}

impl<B> Default for GpuBufferRegistry<B> {
    fn default() -> (registry: Self)
        ensures
            registry.wf(),
            registry@.len() == 0,
    {
        GpuBufferRegistry { entries: Vec::new() }
    }
}

impl<B> GpuBufferRegistry<B> {
    /// Each key is registered once.
    pub open spec fn wf(&self) -> bool {
        keys_distinct(self@)
    }

    /// A fresh, empty registry.
    pub fn new() -> (registry: Self)
        ensures
            registry.wf(),
            registry@.len() == 0,
    {
        GpuBufferRegistry { entries: Vec::new() }
    }

    fn find(&self, key: BufferKey) -> (at: Option<usize>)
        requires
            self.wf(),
        ensures
            match at {
                Some(i) => registered(self@, key@) && position(self@, key@) == i && i
                    < self@.len(),
                None => !registered(self@, key@),
            },
    {
        let mut i: usize = 0;
        while i < self.entries.len()
            invariant
                self.wf(),
                i <= self@.len(),
                forall|j: int| 0 <= j < i ==> (#[trigger] self@[j]).key@ != key@,
            decreases self@.len() - i,
        {
            if self.entries[i].key.same(key) {
                proof {
                    assert(self@[i as int].key@ == key@);
                    let k = position(self@, key@);
                    assert(self@[k].key@ == key@);
                }
                return Some(i);
            }
            i = i + 1;
        }
        None
    }

    /// Registers a row buffer of `element`s of `element_size` bytes, or adopts `buffer` as the new
    /// buffer of a compatible registration, bumping its epoch.
    pub fn register_row(
        &mut self,
        key: BufferKey,
        element: TypeKey,
        element_size: usize,
        buffer: B,
        access: BufferAccess,
        mode: MirrorMode,
    ) -> (r: Result<(), BufferRegistrationError>)
        requires
            old(self).wf(),
        ensures
            final(self).wf(),
            final(self)@ == inserted(
                old(self)@,
                key,
                EntryKind::Row { element, mode },
                element_size,
                access,
                Some(buffer),
            ),
            match r {
                Ok(()) => insert_error(
                    old(self)@,
                    key,
                    EntryKind::Row { element, mode },
                    element_size,
                    access,
                ) is None,
                Err(e) => insert_error(
                    old(self)@,
                    key,
                    EntryKind::Row { element, mode },
                    element_size,
                    access,
                ) == Some(e),
            },
    {
        self.insert(key, EntryKind::Row { element, mode }, element_size, access, Some(buffer))
    }

    /// Registers a byte-range resource of `size` bytes.
    pub fn register_resource(
        &mut self,
        key: BufferKey,
        size: usize,
        buffer: B,
        access: BufferAccess,
    ) -> (r: Result<(), BufferRegistrationError>)
        requires
            old(self).wf(),
        ensures
            final(self).wf(),
            final(self)@ == inserted(
                old(self)@,
                key,
                EntryKind::Resource,
                size,
                access,
                Some(buffer),
            ),
            match r {
                Ok(()) => insert_error(old(self)@, key, EntryKind::Resource, size, access) is None,
                Err(e) => insert_error(old(self)@, key, EntryKind::Resource, size, access) == Some(
                    e,
                ),
            },
    {
        self.insert(key, EntryKind::Resource, size, access, Some(buffer))
    }

    /// Registers a texture array of `slots` slots. It has no buffer to resolve.
    pub fn register_texture_array(
        &mut self,
        key: BufferKey,
        slots: usize,
        access: BufferAccess,
    ) -> (r: Result<(), BufferRegistrationError>)
        requires
            old(self).wf(),
        ensures
            final(self).wf(),
            final(self)@ == inserted(old(self)@, key, EntryKind::TextureArray, slots, access, None),
            match r {
                Ok(()) => insert_error(
                    old(self)@,
                    key,
                    EntryKind::TextureArray,
                    slots,
                    access,
                ) is None,
                Err(e) => insert_error(
                    old(self)@,
                    key,
                    EntryKind::TextureArray,
                    slots,
                    access,
                ) == Some(e),
            },
    {
        self.insert(key, EntryKind::TextureArray, slots, access, None)
    }

    /// The error an incoming declaration would get, if any.
    pub fn conflict_with(
        &self,
        key: BufferKey,
        kind: EntryKind,
        element_size: usize,
        access: BufferAccess,
    ) -> (error: Option<BufferRegistrationError>)
        requires
            self.wf(),
        ensures
            error == insert_error(self@, key, kind, element_size, access),
    {
        let at: usize = match self.find(key) {
            Some(at) => at,
            None => return None,
        };
        let existing: EntryKind = self.entries[at].kind;
        let existing_size: usize = self.entries[at].element_size;
        let existing_access: BufferAccess = self.entries[at].access;
        if !existing.is_same_class(kind) {
            Some(BufferRegistrationError::RowResourceCollision { key })
        } else if existing.element() != kind.element() {
            Some(
                BufferRegistrationError::ElementTypeMismatch {
                    key,
                    existing: existing.element(),
                    incoming: kind.element(),
                },
            )
        } else if existing_size != element_size {
            Some(
                BufferRegistrationError::ElementSizeMismatch {
                    key,
                    existing: existing_size,
                    incoming: element_size,
                },
            )
        } else if existing_access != access {
            Some(
                BufferRegistrationError::AccessMismatch {
                    key,
                    existing: existing_access,
                    incoming: access,
                },
            )
        } else if existing.mode() != kind.mode() {
            Some(
                BufferRegistrationError::MirrorModeMismatch {
                    key,
                    existing: existing.mode(),
                    incoming: kind.mode(),
                },
            )
        } else {
            None
        }
    }

    fn insert(
        &mut self,
        key: BufferKey,
        kind: EntryKind,
        element_size: usize,
        access: BufferAccess,
        buffer: Option<B>,
    ) -> (r: Result<(), BufferRegistrationError>)
        requires
            old(self).wf(),
        ensures
            final(self).wf(),
            final(self)@ == inserted(old(self)@, key, kind, element_size, access, buffer),
            match r {
                Ok(()) => insert_error(old(self)@, key, kind, element_size, access) is None,
                Err(e) => insert_error(old(self)@, key, kind, element_size, access) == Some(e),
            },
    {
        match self.conflict_with(key, kind, element_size, access) {
            Some(e) => return Err(e),
            None => {},
        }
        match self.find(key) {
            Some(i) => {
                let existing: EntryKind = self.entries[i].kind;
                let existing_size: usize = self.entries[i].element_size;
                let existing_access: BufferAccess = self.entries[i].access;
                let epoch: u64 = self.entries[i].epoch.wrapping_add(1);
                let key_there: BufferKey = self.entries[i].key;
                self.entries.set(
                    i,
                    RegistryEntry {
                        key: key_there,
                        kind: existing,
                        element_size: existing_size,
                        access: existing_access,
                        buffer,
                        epoch,
                    },
                );
                assert(self@ =~= inserted(old(self)@, key, kind, element_size, access, buffer));
                Ok(())
            },
            None => {
                self.entries.push(
                    RegistryEntry { key, kind, element_size, access, buffer, epoch: 0 },
                );
                Ok(())
            },
        }
    }

    /// Sets the current buffer and epoch of `key`, as its owner knows them. A key that was never
    /// registered is left alone.
    pub fn sync(&mut self, key: BufferKey, buffer: B, epoch: u64)
        requires
            old(self).wf(),
        ensures
            final(self).wf(),
            final(self)@ == if registered(old(self)@, key@) {
                old(self)@.update(
                    position(old(self)@, key@),
                    RegistryEntry { buffer: Some(buffer), epoch, ..entry_of(old(self)@, key@) },
                )
            } else {
                old(self)@
            },
    {
        match self.find(key) {
            Some(i) => {
                let key_there: BufferKey = self.entries[i].key;
                let kind: EntryKind = self.entries[i].kind;
                let element_size: usize = self.entries[i].element_size;
                let access: BufferAccess = self.entries[i].access;
                self.entries.set(
                    i,
                    RegistryEntry {
                        key: key_there,
                        kind,
                        element_size,
                        access,
                        buffer: Some(buffer),
                        epoch,
                    },
                );
            },
            None => {},
        }
    }

    /// The current epoch of `key`, if it is registered.
    pub fn epoch(&self, key: BufferKey) -> (epoch: Option<u64>)
        requires
            self.wf(),
        ensures
            epoch == if registered(self@, key@) {
                Some(entry_of(self@, key@).epoch)
            } else {
                None
            },
    {
        match self.find(key) {
            Some(i) => Some(self.entries[i].epoch),
            None => None,
        }
    }

    /// Whether `key` is registered.
    pub fn contains_key(&self, key: BufferKey) -> (found: bool)
        requires
            self.wf(),
        ensures
            found == registered(self@, key@),
    {
        match self.find(key) {
            Some(_) => true,
            None => false,
        }
    }

    /// Every registered key, in the order of registration.
    pub fn keys(&self) -> (keys: Vec<BufferKey>)
        ensures
            keys@ == Seq::new(self@.len(), |i: int| self@[i].key),
    {
        let mut keys: Vec<BufferKey> = Vec::new();
        let mut i: usize = 0;
        while i < self.entries.len()
            invariant
                i <= self@.len(),
                keys@ == Seq::new(i as nat, |j: int| self@[j].key),
            decreases self@.len() - i,
        {
            keys.push(self.entries[i].key);
            i = i + 1;
            assert(keys@ =~= Seq::new(i as nat, |j: int| self@[j].key));
        }
        keys
    }

    /// Number of registered keys.
    pub fn len(&self) -> (n: usize)
        ensures
            n == self@.len(),
    {
        self.entries.len()
    }

    /// Whether nothing is registered.
    pub fn is_empty(&self) -> (empty: bool)
        ensures
            empty == (self@.len() == 0),
    {
        self.entries.len() == 0
    }

    /// The element type of `key`: `None` if it is not registered, `Some(None)` if it is no row
    /// buffer.
    pub fn element_type(&self, key: BufferKey) -> (element: Option<Option<TypeKey>>)
        requires
            self.wf(),
        ensures
            element == if registered(self@, key@) {
                Some(entry_of(self@, key@).kind.element_spec())
            } else {
                None
            },
    {
        match self.find(key) {
            Some(i) => Some(self.entries[i].kind.element()),
            None => None,
        }
    }

    /// The declared access of `key`.
    pub fn access(&self, key: BufferKey) -> (access: Option<BufferAccess>)
        requires
            self.wf(),
        ensures
            access == if registered(self@, key@) {
                Some(entry_of(self@, key@).access)
            } else {
                None
            },
    {
        match self.find(key) {
            Some(i) => Some(self.entries[i].access),
            None => None,
        }
    }
}

impl<B: Clone> GpuBufferRegistry<B> {
    /// The current buffer and epoch of `key`: `None` if it is not registered or has no buffer.
    pub fn resolve(&self, key: BufferKey) -> (handle: Option<BufferHandle<B>>)
        requires
            self.wf(),
        ensures
            match handle {
                Some(h) => {
                    &&& registered(self@, key@)
                    &&& entry_of(self@, key@).buffer is Some
                    &&& cloned(entry_of(self@, key@).buffer->0, h.buffer)
                    &&& h.epoch == entry_of(self@, key@).epoch
                },
                None => !registered(self@, key@) || entry_of(self@, key@).buffer is None,
            },
    {
        match self.find(key) {
            Some(i) => {
                let entry = &self.entries[i];
                match &entry.buffer {
                    Some(buffer) => Some(
                        BufferHandle { buffer: buffer.clone(), epoch: entry.epoch },
                    ),
                    None => None,
                }
            },
            None => None,
        }
    }
}

/// A rejected registration changes nothing, and a compatible one is seen by every consumer: the
/// key stays one entry and its epoch moves.
pub proof fn law_reregistration_moves_the_epoch<B>(
    entries: Seq<RegistryEntry<B>>,
    key: BufferKey,
    kind: EntryKind,
    element_size: usize,
    access: BufferAccess,
    buffer: Option<B>,
)
    requires
        keys_distinct(entries),
        registered(entries, key@),
    ensures
        ({
            let after = inserted(entries, key, kind, element_size, access, buffer);
            &&& after.len() == entries.len()
            &&& insert_error(entries, key, kind, element_size, access) is Some ==> after == entries
            &&& insert_error(entries, key, kind, element_size, access) is None ==> {
                &&& registered(after, key@)
                &&& entry_of(after, key@).epoch != entry_of(entries, key@).epoch
                &&& entry_of(after, key@).buffer == buffer
            }
        }),
{
    let after = inserted(entries, key, kind, element_size, access, buffer);
    let i = position(entries, key@);
    if insert_error(entries, key, kind, element_size, access) is None {
        assert(after[i].key@ == key@);
        let k = position(after, key@);
        assert(after[k].key@ == key@);
        if k != i {
            assert(entries[k].key@ == key@);
        }
    }
}

/// Registering one key leaves every other key's registration alone.
pub proof fn law_registration_disturbs_no_other_key<B>(
    entries: Seq<RegistryEntry<B>>,
    key: BufferKey,
    kind: EntryKind,
    element_size: usize,
    access: BufferAccess,
    buffer: Option<B>,
    other: Seq<char>,
)
    requires
        keys_distinct(entries),
        other != key@,
    ensures
        ({
            let after = inserted(entries, key, kind, element_size, access, buffer);
            &&& registered(after, other) == registered(entries, other)
            &&& registered(entries, other) ==> entry_of(after, other) == entry_of(entries, other)
        }),
{
    let after = inserted(entries, key, kind, element_size, access, buffer);
    if registered(entries, key@) {
        let p = position(entries, key@);
        assert(entries[p].key@ == key@);
    }
    assert(forall|i: int|
        0 <= i < entries.len() && (#[trigger] after[i]).key@ == other ==> entries[i] == after[i]);
    if registered(entries, other) {
        let i = position(entries, other);
        assert(entries[i].key@ == other);
        assert(after[i].key@ == other);
        let k = position(after, other);
        assert(after[k].key@ == other);
        assert(k == i);
    }
    if registered(after, other) {
        let k = position(after, other);
        assert(after[k].key@ == other);
        assert(k < entries.len());
        assert(entries[k].key@ == other);
    }
}

/// A key is registered again if and only if everything declared of it is the same: what it holds, the
/// stride and the access. Else the error names the first of these that differs: the class, the element
/// type, the stride, the access, the mode.
pub proof fn law_only_the_same_declaration_is_accepted<B>(
    entries: Seq<RegistryEntry<B>>,
    key: BufferKey,
    kind: EntryKind,
    element_size: usize,
    access: BufferAccess,
)
    requires
        registered(entries, key@),
    ensures
        ({
            let existing = entry_of(entries, key@);
            let error = insert_error(entries, key, kind, element_size, access);
            let rows = existing.kind is Row && kind is Row;
            let same_class = rows || (existing.kind !is Row && existing.kind == kind);
            let same_element = rows ==> existing.kind->element == kind->element;
            let same_mode = rows ==> existing.kind->mode == kind->mode;
            let same_size = existing.element_size == element_size;
            let same_access = existing.access == access;
            &&& error is None <==> existing.kind == kind && same_size && same_access
            &&& error is Some && error->0 is RowResourceCollision <==> !same_class
            &&& error is Some && error->0 is ElementTypeMismatch <==> same_class && !same_element
            &&& error is Some && error->0 is ElementSizeMismatch <==> same_class && same_element
                && !same_size
            &&& error is Some && error->0 is AccessMismatch <==> same_class && same_element
                && same_size && !same_access
            &&& error is Some && error->0 is MirrorModeMismatch <==> same_class && same_element
                && same_size && same_access && !same_mode
        }),
{
}

/// A new key is listed last, as it was declared, at epoch 0. One that is registered again keeps its
/// place and its declaration; it gets the new buffer and the next epoch.
pub proof fn law_registered_key_is_as_declared<B>(
    entries: Seq<RegistryEntry<B>>,
    key: BufferKey,
    kind: EntryKind,
    element_size: usize,
    access: BufferAccess,
    buffer: Option<B>,
)
    requires
        keys_distinct(entries),
        insert_error(entries, key, kind, element_size, access) is None,
    ensures
        ({
            let after = inserted(entries, key, kind, element_size, access, buffer);
            let entry = entry_of(after, key@);
            &&& keys_distinct(after)
            &&& registered(after, key@)
            &&& entry.kind == kind
            &&& entry.element_size == element_size
            &&& entry.access == access
            &&& entry.buffer == buffer
            &&& !registered(entries, key@) ==> entry.epoch == 0 && after.len() == entries.len() + 1
                && position(after, key@) == entries.len()
            &&& registered(entries, key@) ==> {
                &&& entry.epoch == (entry_of(entries, key@).epoch + 1) % 0x1_0000_0000_0000_0000
                &&& after.len() == entries.len()
                &&& position(after, key@) == position(entries, key@)
            }
        }),
{
    let after = inserted(entries, key, kind, element_size, access, buffer);
    let at = if registered(entries, key@) {
        position(entries, key@)
    } else {
        entries.len() as int
    };
    assert(after[at].key@ == key@);
    assert forall|i: int, j: int|
        #![trigger after[i], after[j]]
        0 <= i < j < after.len() implies after[i].key@ != after[j].key@ by {
        if j < entries.len() {
            assert(entries[i].key@ != entries[j].key@);
        } else {
            assert(entries[i].key@ != key@);
        }
    }
    let k = position(after, key@);
    assert(after[k].key@ == key@);
    if k < at {
        assert(after[k].key@ != after[at].key@);
    } else if at < k {
        assert(after[at].key@ != after[k].key@);
    }
}

} // verus!
