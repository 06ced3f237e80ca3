use pulsar_scenedb::gpu::buffer_registry::{
    BufferAccess, BufferKey, BufferRegistrationError, GpuBufferRegistry, MirrorMode, TypeKey,
};
use pulsar_scenedb::gpu::system_binding::{BufferResolveError, GpuSystemContext};

/// Stands for a device buffer.
#[derive(Clone, Debug)]
struct Buffer {
    size: u64,
}

fn make_buffer(size: u64) -> Buffer {
    Buffer { size }
}

const U32: TypeKey = TypeKey(32);
const U64: TypeKey = TypeKey(64);
const F32: TypeKey = TypeKey(132);

#[test]
fn buffer_key_is_const_constructible_and_displayed_as_its_string() {
    let k = BufferKey::of("builtin_material");
    assert_eq!(k.as_str(), "builtin_material");
    assert_eq!(k.display(), "builtin_material");
    assert_eq!(k.debug(), "\"builtin_material\"");
}

#[test]
fn a_quote_in_a_key_is_escaped_in_its_debug_text() {
    let k = BufferKey::of("a\"b\n");
    assert_eq!(k.display(), "a\"b\n");
    assert_eq!(k.debug(), "\"a\\\"b\\n\"");
}

#[test]
fn two_equal_keys_are_one_registry_entry() {
    let mut registry = GpuBufferRegistry::new();
    registry
        .register_row(
            BufferKey::of("builtin_material"),
            U32,
            4,
            make_buffer(64),
            BufferAccess::ReadOnly,
            MirrorMode::DirtyTracked,
        )
        .expect("first registration");
    registry
        .register_row(
            BufferKey::of("builtin_material"),
            U32,
            4,
            make_buffer(64),
            BufferAccess::ReadOnly,
            MirrorMode::DirtyTracked,
        )
        .expect("compatible re-registration must succeed (same element/access/mode)");
    assert_eq!(registry.len(), 1);
}

#[test]
fn resolve_returns_an_owned_buffer_and_epoch_and_re_registration_bumps_the_epoch() {
    let mut registry = GpuBufferRegistry::new();
    registry
        .register_row(
            BufferKey::of("k"),
            U32,
            4,
            make_buffer(64),
            BufferAccess::ReadWrite,
            MirrorMode::DirtyTracked,
        )
        .expect("register");
    let h0 = registry.resolve(BufferKey::of("k")).expect("registered");
    assert_eq!(h0.epoch, 0);
    assert_eq!(h0.buffer.size, 64, "resolve returns the first buffer");
    registry
        .register_row(
            BufferKey::of("k"),
            U32,
            4,
            make_buffer(128),
            BufferAccess::ReadWrite,
            MirrorMode::DirtyTracked,
        )
        .expect("compatible re-registration");
    let h1 = registry.resolve(BufferKey::of("k")).expect("still registered");
    assert_eq!(h1.epoch, 1);
    assert_eq!(h1.buffer.size, 128, "resolve returns the re-registered (grown) buffer");
    assert_eq!(h0.buffer.size, 64, "what was resolved before is still held");
    assert!(registry.resolve(BufferKey::of("missing")).is_none());
}

#[test]
fn mismatched_element_type_is_rejected_not_silently_aliased() {
    let mut registry = GpuBufferRegistry::new();
    registry
        .register_row(
            BufferKey::of("k"),
            U32,
            4,
            make_buffer(64),
            BufferAccess::ReadOnly,
            MirrorMode::DirtyTracked,
        )
        .expect("first registration");
    let err = registry
        .register_row(
            BufferKey::of("k"),
            F32,
            4,
            make_buffer(64),
            BufferAccess::ReadOnly,
            MirrorMode::DirtyTracked,
        )
        .expect_err("a f32 row can't share a u32 buffer");
    match err {
        BufferRegistrationError::ElementTypeMismatch { key, .. } => {
            assert_eq!(key, BufferKey::of("k"))
        }
        other => panic!("expected ElementTypeMismatch, got {other:?}"),
    }
}

#[test]
fn mismatched_stride_is_rejected_even_for_the_same_type_identity() {
    let mut registry = GpuBufferRegistry::new();
    registry
        .register_row(
            BufferKey::of("k"),
            U64,
            8,
            make_buffer(64),
            BufferAccess::ReadOnly,
            MirrorMode::Once,
        )
        .expect("first registration");
    let err = registry.register_row(
        BufferKey::of("k"),
        U32,
        4,
        make_buffer(64),
        BufferAccess::ReadOnly,
        MirrorMode::Once,
    );
    assert!(err.is_err(), "8-byte and 4-byte elements must not share a row buffer");
}

#[test]
fn a_stride_of_its_own_for_the_same_type_is_a_size_mismatch() {
    let mut registry = GpuBufferRegistry::new();
    registry
        .register_row(
            BufferKey::of("k"),
            U64,
            8,
            make_buffer(64),
            BufferAccess::ReadOnly,
            MirrorMode::Once,
        )
        .expect("first registration");
    let err = registry
        .register_row(
            BufferKey::of("k"),
            U64,
            4,
            make_buffer(64),
            BufferAccess::ReadOnly,
            MirrorMode::Once,
        )
        .unwrap_err();
    assert_eq!(
        err,
        BufferRegistrationError::ElementSizeMismatch {
            key: BufferKey::of("k"),
            existing: 8,
            incoming: 4,
        }
    );
    assert_eq!(registry.epoch(BufferKey::of("k")), Some(0), "a refusal changes nothing");
}

#[test]
fn mismatched_access_is_rejected() {
    let mut registry = GpuBufferRegistry::new();
    registry
        .register_row(
            BufferKey::of("k"),
            U32,
            4,
            make_buffer(64),
            BufferAccess::ReadOnly,
            MirrorMode::DirtyTracked,
        )
        .expect("first registration");
    let err = registry
        .register_row(
            BufferKey::of("k"),
            U32,
            4,
            make_buffer(64),
            BufferAccess::ReadWrite,
            MirrorMode::DirtyTracked,
        )
        .expect_err("access is part of the shared-key compatibility contract");
    assert_eq!(
        err,
        BufferRegistrationError::AccessMismatch {
            key: BufferKey::of("k"),
            existing: BufferAccess::ReadOnly,
            incoming: BufferAccess::ReadWrite,
        }
    );
}

#[test]
fn once_fields_share_only_with_once_fields_same_element() {
    let mut registry = GpuBufferRegistry::new();
    registry
        .register_row(
            BufferKey::of("k"),
            U32,
            4,
            make_buffer(64),
            BufferAccess::ReadOnly,
            MirrorMode::Once,
        )
        .expect("first registration");
    let err = registry
        .register_row(
            BufferKey::of("k"),
            U32,
            4,
            make_buffer(64),
            BufferAccess::ReadOnly,
            MirrorMode::DirtyTracked,
        )
        .expect_err("a DirtyTracked field must not be able to share an Once buffer");
    assert_eq!(
        err,
        BufferRegistrationError::MirrorModeMismatch {
            key: BufferKey::of("k"),
            existing: Some(MirrorMode::Once),
            incoming: Some(MirrorMode::DirtyTracked),
        }
    );
    assert!(err.describe().contains("\"k\""), "the message quotes the key: {}", err.describe());
}

#[test]
fn resource_entries_register_and_resolve_but_cannot_collide_with_row_buffers() {
    let mut registry = GpuBufferRegistry::new();
    registry
        .register_resource(
            BufferKey::of("builtin_mesh_vertex"),
            4096,
            make_buffer(4096),
            BufferAccess::ReadOnly,
        )
        .expect("resource registration");
    assert_eq!(registry.element_type(BufferKey::of("builtin_mesh_vertex")), Some(None));
    let h = registry.resolve(BufferKey::of("builtin_mesh_vertex")).expect("resolvable");
    assert_eq!(h.buffer.size, 4096);
    let err = registry
        .register_row(
            BufferKey::of("builtin_mesh_vertex"),
            U32,
            4,
            make_buffer(64),
            BufferAccess::ReadOnly,
            MirrorMode::Once,
        )
        .expect_err("a row buffer must not be able to squat on a resource key");
    assert_eq!(
        err,
        BufferRegistrationError::RowResourceCollision { key: BufferKey::of("builtin_mesh_vertex") }
    );
}

#[test]
fn bind_resolves_a_correctly_typed_registered_key() {
    let mut registry = GpuBufferRegistry::new();
    registry
        .register_row(
            BufferKey::of("k"),
            U32,
            4,
            make_buffer(64),
            BufferAccess::ReadOnly,
            MirrorMode::DirtyTracked,
        )
        .unwrap();
    let ctx = GpuSystemContext::new(&registry);
    let binding = ctx.bind(BufferKey::of("k"), U32, false).expect("should resolve");
    assert_eq!(binding.epoch(), 0);
    assert_eq!(binding.buffer().size, 64);
}

#[test]
fn bind_reports_missing_for_an_unregistered_key() {
    let registry: GpuBufferRegistry<Buffer> = GpuBufferRegistry::new();
    let ctx = GpuSystemContext::new(&registry);
    let err = ctx.bind(BufferKey::of("nope"), U32, false).unwrap_err();
    assert_eq!(err, BufferResolveError::Missing { key: BufferKey::of("nope") });
}

#[test]
fn bind_reports_element_type_mismatch_instead_of_returning_the_wrong_buffer() {
    let mut registry = GpuBufferRegistry::new();
    registry
        .register_row(
            BufferKey::of("k"),
            U32,
            4,
            make_buffer(64),
            BufferAccess::ReadOnly,
            MirrorMode::DirtyTracked,
        )
        .unwrap();
    let ctx = GpuSystemContext::new(&registry);
    let err = ctx.bind(BufferKey::of("k"), F32, false).unwrap_err();
    match err {
        BufferResolveError::ElementTypeMismatch { key, .. } => assert_eq!(key, BufferKey::of("k")),
        other => panic!("expected ElementTypeMismatch, got {other:?}"),
    }
}

#[test]
fn bind_reports_not_a_row_buffer_for_a_resource_key() {
    let mut registry = GpuBufferRegistry::new();
    registry
        .register_resource(BufferKey::of("res"), 1024, make_buffer(1024), BufferAccess::ReadOnly)
        .unwrap();
    let ctx = GpuSystemContext::new(&registry);
    let err = ctx.bind(BufferKey::of("res"), U32, false).unwrap_err();
    assert_eq!(err, BufferResolveError::NotARowBuffer { key: BufferKey::of("res") });
}

#[test]
fn bind_reports_not_a_row_buffer_for_a_texture_array_key() {
    let mut registry: GpuBufferRegistry<Buffer> = GpuBufferRegistry::new();
    registry.register_texture_array(BufferKey::of("tex"), 16, BufferAccess::ReadOnly).unwrap();
    let ctx = GpuSystemContext::new(&registry);
    let err = ctx.bind(BufferKey::of("tex"), U32, false).unwrap_err();
    assert_eq!(err, BufferResolveError::NotARowBuffer { key: BufferKey::of("tex") });
}

#[test]
fn bind_refuses_to_write_a_read_only_buffer() {
    let mut registry = GpuBufferRegistry::new();
    registry
        .register_row(
            BufferKey::of("k"),
            U32,
            4,
            make_buffer(64),
            BufferAccess::ReadOnly,
            MirrorMode::DirtyTracked,
        )
        .unwrap();
    let ctx = GpuSystemContext::new(&registry);
    let err = ctx.bind(BufferKey::of("k"), U32, true).unwrap_err();
    assert_eq!(err, BufferResolveError::WriteToReadOnly { key: BufferKey::of("k") });
}

#[test]
fn can_bind_mirrors_bind_without_needing_to_match_on_the_error() {
    let mut registry = GpuBufferRegistry::new();
    registry
        .register_row(
            BufferKey::of("k"),
            U32,
            4,
            make_buffer(64),
            BufferAccess::ReadOnly,
            MirrorMode::DirtyTracked,
        )
        .unwrap();
    let ctx = GpuSystemContext::new(&registry);
    assert!(ctx.can_bind(BufferKey::of("k"), U32, false));
    assert!(!ctx.can_bind(BufferKey::of("k"), F32, false));
    assert!(!ctx.can_bind(BufferKey::of("missing"), U32, false));
}

#[test]
fn bind_tracks_epoch_bumps_across_a_compatible_re_registration() {
    let mut registry = GpuBufferRegistry::new();
    registry
        .register_row(
            BufferKey::of("k"),
            U32,
            4,
            make_buffer(64),
            BufferAccess::ReadOnly,
            MirrorMode::DirtyTracked,
        )
        .unwrap();
    let first = GpuSystemContext::new(&registry).bind(BufferKey::of("k"), U32, false).unwrap();
    assert_eq!(first.epoch(), 0);
    registry
        .register_row(
            BufferKey::of("k"),
            U32,
            4,
            make_buffer(128),
            BufferAccess::ReadOnly,
            MirrorMode::DirtyTracked,
        )
        .unwrap();
    let second = GpuSystemContext::new(&registry).bind(BufferKey::of("k"), U32, false).unwrap();
    assert_eq!(second.epoch(), 1, "epoch bumped, signaling a rebind is needed");
    assert_eq!(second.buffer().size, 128);
}
