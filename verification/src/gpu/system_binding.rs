//! Declarative buffer handoff: a system names the buffers it consumes, with their element type and
//! whether it writes, and gets the buffer or a setup-time error.
use crate::gpu::buffer_registry::{
    push_type, BufferAccess, BufferHandle, BufferKey, GpuBufferRegistry, TypeKey,
};
use vstd::prelude::*;
use vstd::string::*;

verus! {

use crate::gpu::buffer_registry::{entry_of, registered, type_text, RegistryEntry};
use crate::text::quoted_text;

/// Why a key could not be bound.
#[derive(Clone, Debug, PartialEq, Eq)]
pub enum BufferResolveError {
    /// Nothing is registered under the key.
    Missing { key: BufferKey },
    /// The key names no row buffer.
    NotARowBuffer { key: BufferKey },
    /// The key names a row buffer of another element type.
    ElementTypeMismatch { key: BufferKey, expected: TypeKey, found: Option<TypeKey> },
    /// Write access was requested on a buffer registered read-only.
    WriteToReadOnly { key: BufferKey },
}

impl BufferResolveError {
    /// The error in words.
    pub open spec fn message(self) -> Seq<char> {
        match self {
            BufferResolveError::Missing { key } => "no buffer registered under key "@ + quoted_text(
                key@,
            ),
            BufferResolveError::NotARowBuffer { key } => "key "@ + quoted_text(key@)
                + " is not a row buffer (texture array or byte-range resource)"@,
            BufferResolveError::ElementTypeMismatch { key, expected, found } => "key "@
                + quoted_text(key@) + ": bind declared element type "@ + type_text(Some(expected))
                + ", registry has "@ + type_text(found),
            BufferResolveError::WriteToReadOnly { key } => "key "@ + quoted_text(key@)
                + ": write access requested on a read-only buffer"@,
        }
    }

    /// The error in words.
    pub fn describe(&self) -> (text: String)
        ensures
            text@ == self.message(),
    {
        match self {
            BufferResolveError::Missing { key } => {
                let mut out: String = "no buffer registered under key ".to_owned();
                out.append(key.debug().as_str());
                out
            },
            BufferResolveError::NotARowBuffer { key } => {
                let mut out: String = "key ".to_owned();
                out.append(key.debug().as_str());
                out.append(" is not a row buffer (texture array or byte-range resource)");
                out
            },
            BufferResolveError::ElementTypeMismatch { key, expected, found } => {
                let mut out: String = "key ".to_owned();
                out.append(key.debug().as_str());
                out.append(": bind declared element type ");
                push_type(&mut out, Some(*expected));
                out.append(", registry has ");
                push_type(&mut out, *found);
                out
            },
            BufferResolveError::WriteToReadOnly { key } => {
                let mut out: String = "key ".to_owned();
                out.append(key.debug().as_str());
                out.append(": write access requested on a read-only buffer");
                out
            },
        }
    }
}

/// Why `key` cannot be bound as rows of `element`, if so: the first failing check.
pub open spec fn bind_error<B>(
    entries: Seq<RegistryEntry<B>>,
    key: BufferKey,
    element: TypeKey,
    write: bool,
) -> Option<BufferResolveError> {
    if !registered(entries, key@) {
        Some(BufferResolveError::Missing { key })
    } else if entry_of(entries, key@).kind.element_spec() is None {
        Some(BufferResolveError::NotARowBuffer { key })
    } else if entry_of(entries, key@).kind.element_spec() != Some(element) {
        Some(
            BufferResolveError::ElementTypeMismatch {
                key,
                expected: element,
                found: entry_of(entries, key@).kind.element_spec(),
            },
        )
    } else if entry_of(entries, key@).buffer is None {
        Some(BufferResolveError::Missing { key })
    } else if write && entry_of(entries, key@).access == BufferAccess::ReadOnly {
        Some(BufferResolveError::WriteToReadOnly { key })
    } else {
        None
    }
}

/// A checked handoff of one buffer.
#[derive(Clone, Debug)]
pub struct BufferBinding<B> {
    pub handle: BufferHandle<B>,
    pub element: TypeKey,
}

impl<B> BufferBinding<B> {
    /// The buffer.
    pub fn buffer(&self) -> (buffer: &B)
        ensures
            *buffer == self.handle.buffer,
    {
        &self.handle.buffer
    }

    /// The allocation epoch at bind time.
    pub fn epoch(&self) -> (epoch: u64)
        ensures
            epoch == self.handle.epoch,
    {
        self.handle.epoch
    }
}

/// The setup-time resolver a system takes as an ordinary argument.
pub struct GpuSystemContext<'a, B> {
    registry: &'a GpuBufferRegistry<B>,
}

impl<'a, B: Clone> GpuSystemContext<'a, B> {
    /// The registry behind this context.
    pub closed spec fn entries(&self) -> Seq<RegistryEntry<B>> {
        self.registry@
    }

    /// The registry is well formed.
    pub closed spec fn wf(&self) -> bool {
        self.registry.wf()
    }

    /// A context over `registry`.
    pub fn new(registry: &'a GpuBufferRegistry<B>) -> (ctx: Self)
        requires
            registry.wf(),
        ensures
            ctx.wf(),
            ctx.entries() == registry@,
    {
        GpuSystemContext { registry }
    }

    /// Resolves `key` as rows of `element`, for writing if `write`.
    pub fn bind(&self, key: BufferKey, element: TypeKey, write: bool) -> (r: Result<
        BufferBinding<B>,
        BufferResolveError,
    >)
        requires
            self.wf(),
        ensures
            match r {
                Ok(binding) => {
                    &&& bind_error(self.entries(), key, element, write) is None
                    &&& cloned(entry_of(self.entries(), key@).buffer->0, binding.handle.buffer)
                    &&& binding.handle.epoch == entry_of(self.entries(), key@).epoch
                    &&& binding.element == element
                },
                Err(e) => bind_error(self.entries(), key, element, write) == Some(e),
            },
    {
        let found: TypeKey = match self.registry.element_type(key) {
            None => return Err(BufferResolveError::Missing { key }),
            Some(None) => return Err(BufferResolveError::NotARowBuffer { key }),
            Some(Some(found)) => found,
        };
        if found != element {
            return Err(
                BufferResolveError::ElementTypeMismatch {
                    key,
                    expected: element,
                    found: Some(found),
                },
            );
        }
        let handle = match self.registry.resolve(key) {
            None => return Err(BufferResolveError::Missing { key }),
            Some(handle) => handle,
        };
        if write && self.access_of(key) == Some(BufferAccess::ReadOnly) {
            return Err(BufferResolveError::WriteToReadOnly { key });
        }
        Ok(BufferBinding { handle, element })
    }

    /// Whether `bind` would succeed.
    pub fn can_bind(&self, key: BufferKey, element: TypeKey, write: bool) -> (can: bool)
        requires
            self.wf(),
        ensures
            can == (bind_error(self.entries(), key, element, write) is None),
    {
        match self.bind(key, element, write) {
            Ok(_) => true,
            Err(_) => false,
        }
    }

    fn access_of(&self, key: BufferKey) -> (access: Option<BufferAccess>)
        requires
            self.wf(),
        ensures
            access == if registered(self.entries(), key@) {
                Some(entry_of(self.entries(), key@).access)
            } else {
                None
            },
    {
        self.registry.access(key)
    }
}

/// A bind succeeds if and only if the key has a row buffer of that element type, present, and
/// writable if it is to be written. Else the error says why: nothing there, no rows, other elements,
/// no writing.
pub proof fn law_bind_fails_for_a_reason<B>(
    entries: Seq<RegistryEntry<B>>,
    key: BufferKey,
    element: TypeKey,
    write: bool,
)
    ensures
        ({
            let there = registered(entries, key@);
            let entry = entry_of(entries, key@);
            let rows = entry.kind is Row;
            let typed = entry.kind->element == element;
            let present = entry.buffer is Some;
            let allowed = write ==> entry.access == BufferAccess::ReadWrite;
            let error = bind_error(entries, key, element, write);
            &&& error is None <==> there && rows && typed && present && allowed
            &&& error == Some(BufferResolveError::Missing { key }) <==> !there || (rows && typed
                && !present)
            &&& error == Some(BufferResolveError::NotARowBuffer { key }) <==> there && !rows
            &&& error is Some && error->0 is ElementTypeMismatch <==> there && rows && !typed
            &&& error == Some(BufferResolveError::WriteToReadOnly { key }) <==> there && rows
                && typed && present && !allowed
        }),
{
}

} // verus!
