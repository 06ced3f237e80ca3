use pulsar_scenedb::gpu::dirty_tracked_scene_buffer::{DirtyTrackedSceneBuffer, FlushPlan};
use pulsar_scenedb::gpu::dynamic_buffer::{elem_align, pad_for_copy, CapacityError, Upload};
use pulsar_scenedb::gpu::interned_pool::InternedVarLenPool;
use pulsar_scenedb::gpu::var_len_pool::{padded_alloc_len, VarLenGpuPool, VarLenHandle};
use pulsar_scenedb::handle_ledger::HandleId;

const LIMIT: u32 = 1 << 20;

/// Device memory, as the writes leave it.
struct Device {
    bytes: Vec<u8>,
}

impl Device {
    fn new(len: usize) -> Device {
        Device { bytes: vec![0; len.next_multiple_of(4)] }
    }

    fn grow(&mut self, len: usize) {
        self.bytes.resize(len.next_multiple_of(4), 0);
    }

    fn apply(&mut self, upload: &Upload) {
        assert_eq!(upload.offset % 4, 0, "copies start on four bytes");
        assert_eq!(upload.bytes.len() % 4, 0, "copies are multiples of four bytes");
        let start = upload.offset as usize;
        self.bytes[start..start + upload.bytes.len()].copy_from_slice(&upload.bytes);
    }

    fn flush(&mut self, plan: &FlushPlan, size: usize) {
        if let Some(rows) = plan.grown_to {
            self.grow(rows as usize * size);
        }
        for upload in &plan.uploads {
            self.apply(upload);
        }
    }

    fn word(&self, at: usize) -> u32 {
        u32::from_ne_bytes(self.bytes[at * 4..at * 4 + 4].try_into().unwrap())
    }
}

fn words(data: &[u32]) -> Vec<u8> {
    data.iter().flat_map(|w| w.to_ne_bytes()).collect()
}

fn write(
    pool: &mut VarLenGpuPool,
    device: &mut Device,
    prev: VarLenHandle,
    data: &[u8],
) -> VarLenHandle {
    let w = pool.write_var_row(prev, data).unwrap();
    if let Some(capacity) = w.grown_to {
        device.grow(capacity as usize * pool.elem_size() as usize);
    }
    if let Some(upload) = &w.upload {
        device.apply(upload);
    }
    w.handle
}

#[test]
fn marking_dirty_does_not_touch_the_gpu_until_flush() {
    let mut buf = DirtyTrackedSceneBuffer::new(4, 8, LIMIT);
    let mut device = Device::new(8 * 4);
    buf.mark_dirty(0, &111u32.to_ne_bytes());
    buf.mark_dirty(1, &222u32.to_ne_bytes());
    buf.mark_dirty(5, &555u32.to_ne_bytes());
    assert!(device.bytes.iter().all(|&b| b == 0), "no GPU write must have happened before flush");

    let plan = buf.flush();
    assert_eq!(
        plan.stats.ranges,
        2,
        "row 0-1 coalesce into one run, row 5 is a separate run (gap at 2,3,4)"
    );
    device.flush(&plan, 4);
    assert_eq!(device.word(0), 111);
    assert_eq!(device.word(1), 222);
    assert_eq!(device.word(2), 0, "never marked -- must stay zero");
    assert_eq!(device.word(5), 555);

    let plan2 = buf.flush();
    assert_eq!(plan2.stats.ranges, 0);
    assert_eq!(plan2.stats.bytes, 0);
}

#[test]
fn mark_dirty_past_capacity_grows_the_shadow_and_the_flush_still_lands_correctly() {
    let mut buf = DirtyTrackedSceneBuffer::new(4, 2, LIMIT);
    let mut device = Device::new(2 * 4);
    buf.mark_dirty(0, &1u32.to_ne_bytes());
    buf.mark_dirty(50, &999u32.to_ne_bytes());
    let plan = buf.flush();
    assert_eq!(plan.stats.ranges, 2);
    device.flush(&plan, 4);
    assert_eq!(device.word(0), 1);
    assert_eq!(device.word(50), 999);
    assert_eq!(buf.rows(), 64, "two, doubled until row 50 is within");
}

#[test]
fn reserve_grows_both_shadow_and_gpu_buffer_so_flush_needs_no_further_growth() {
    let mut buf = DirtyTrackedSceneBuffer::new(4, 2, LIMIT);
    let mut device = Device::new(2 * 4);
    let grown = buf.reserve(500).expect("reserve");
    if let Some(rows) = grown {
        device.grow(rows as usize * 4);
    }
    for row in 0..500u32 {
        buf.mark_dirty(row, &(row * 2).to_ne_bytes());
    }
    let plan = buf.flush();
    assert_eq!(plan.stats.ranges, 1, "500 contiguous dirty rows must coalesce into one range");
    assert_eq!(plan.grown_to, None);
    device.flush(&plan, 4);
    assert_eq!(device.word(0), 0);
    assert_eq!(device.word(249), 498);
}

#[test]
fn shrink_to_fit_reclaims_both_shadow_and_gpu_buffer() {
    let mut buf = DirtyTrackedSceneBuffer::new(4, 2, LIMIT);
    let mut device = Device::new(2 * 4);
    buf.mark_dirty(999, &42u32.to_ne_bytes());
    let plan = buf.flush();
    device.flush(&plan, 4);
    let shrank = buf.shrink_to_fit(1000);
    assert!(shrank);
    device.grow(buf.capacity() as usize * 4);
    assert_eq!(device.bytes.len(), 4000, "buffer must have actually shrunk to exactly 1000 rows");
    assert_eq!(device.word(999), 42);

    buf.mark_dirty(500, &777u32.to_ne_bytes());
    let plan = buf.flush();
    device.flush(&plan, 4);
    assert_eq!(device.word(500), 777);
    assert_eq!(buf.read_row_bytes(500), Some(777u32.to_ne_bytes().to_vec()));
}

#[test]
fn reserving_beyond_the_device_is_refused() {
    let mut buf = DirtyTrackedSceneBuffer::new(4, 2, 16);
    assert_eq!(buf.reserve(17), Err(CapacityError { requested: 17, limit: 16 }));
    assert_eq!(buf.capacity(), 2);
}

#[test]
fn write_then_readback_round_trips() {
    let mut pool = VarLenGpuPool::new(4, 8, LIMIT);
    let mut device = Device::new(8 * 4);
    let handle = write(&mut pool, &mut device, VarLenHandle::default(), &words(&[1, 2, 3]));
    assert_eq!(handle, VarLenHandle { offset: 0, count: 3 });
    let got: Vec<u32> = (0..3).map(|i| device.word(i)).collect();
    assert_eq!(got, vec![1, 2, 3]);
}

#[test]
fn re_write_with_a_different_length_frees_the_old_slot_and_reuses_it() {
    let mut pool = VarLenGpuPool::new(4, 16, LIMIT);
    let h1 = pool.write_var_row(VarLenHandle::default(), &words(&[1, 2, 3, 4])).unwrap().handle;
    assert_eq!(h1.offset, 0);
    let h2 = pool.write_var_row(h1, &words(&[9, 9])).unwrap().handle;
    assert_eq!(
        h2,
        VarLenHandle { offset: 0, count: 2 },
        "reuses the freed slot from the same offset"
    );
    let h3 = pool.write_var_row(VarLenHandle::default(), &words(&[7, 7])).unwrap().handle;
    assert_eq!(h3, VarLenHandle { offset: 2, count: 2 });
}

#[test]
fn exhaustion_grows_the_backing_buffer_transparently() {
    let mut pool = VarLenGpuPool::new(4, 2, LIMIT);
    let mut device = Device::new(2 * 4);
    assert_eq!(pool.capacity(), 2);
    let data: Vec<u32> = (0..10).collect();
    let handle = write(&mut pool, &mut device, VarLenHandle::default(), &words(&data));
    assert_eq!(handle, VarLenHandle { offset: 0, count: 10 });
    assert!(pool.capacity() >= 10);
    let got: Vec<u32> = (0..10).map(|i| device.word(i)).collect();
    assert_eq!(got, (0..10).collect::<Vec<u32>>());
}

#[test]
fn a_pool_that_cannot_grow_refuses() {
    let mut pool = VarLenGpuPool::new(4, 2, 4);
    let err = pool.write_var_row(VarLenHandle::default(), &words(&[0; 10])).unwrap_err();
    assert_eq!(err.limit, 4);
    assert_eq!(pool.capacity(), 2);
}

#[test]
fn writing_an_empty_slice_frees_the_previous_allocation_and_allocates_nothing() {
    let mut pool = VarLenGpuPool::new(4, 8, LIMIT);
    let h1 = pool.write_var_row(VarLenHandle::default(), &words(&[1, 2, 3])).unwrap().handle;
    let w2 = pool.write_var_row(h1, &[]).unwrap();
    assert_eq!(
        w2.handle,
        VarLenHandle::default(),
        "empty write yields the no-allocation sentinel"
    );
    assert!(w2.upload.is_none());
    let h3 = pool.write_var_row(VarLenHandle::default(), &words(&[5, 5, 5])).unwrap().handle;
    assert_eq!(h3.offset, 0);
}

#[test]
fn free_handle_reclaims_space_with_no_replacement_write() {
    let mut pool = VarLenGpuPool::new(4, 8, LIMIT);
    let h1 = pool.write_var_row(VarLenHandle::default(), &words(&[1, 2, 3, 4])).unwrap().handle;
    pool.free_handle(h1);
    let h2 = pool.write_var_row(VarLenHandle::default(), &words(&[9, 9, 9, 9])).unwrap().handle;
    assert_eq!(h2.offset, 0, "the space freed by free_handle must be reusable");
}

#[test]
fn write_at_offset_overwrites_in_place_without_touching_the_freelist() {
    let mut pool = VarLenGpuPool::new(4, 8, LIMIT);
    let mut device = Device::new(8 * 4);
    let h1 = write(&mut pool, &mut device, VarLenHandle::default(), &words(&[1, 2, 3, 4]));
    let h2 = write(&mut pool, &mut device, VarLenHandle::default(), &words(&[100, 200]));
    assert_eq!(h2.offset, 4, "second alloc lands right after the first");
    let upload = pool.write_at_offset(h1.offset, &words(&[9, 9, 9, 9]));
    device.apply(&upload);
    let got: Vec<u32> = (0..6).map(|i| device.word(i)).collect();
    assert_eq!(&got[0..4], &[9, 9, 9, 9], "h1's slot must be overwritten in place, same offset");
    assert_eq!(
        &got[4..6],
        &[100, 200],
        "h2's data, right after h1, must be completely untouched"
    );
    let h3 = write(&mut pool, &mut device, VarLenHandle::default(), &words(&[7]));
    assert_eq!(
        h3.offset,
        6,
        "h1's range was never freed, so h3 must append past both live allocations"
    );
}

#[test]
fn one_byte_elements_survive_every_count_from_zero_through_nine() {
    let mut pool = VarLenGpuPool::new(1, 4, LIMIT);
    let mut device = Device::new(4);
    let mut prev = VarLenHandle::default();
    for count in 0..=9u8 {
        let data: Vec<u8> = (0..count).collect();
        prev = write(&mut pool, &mut device, prev, &data);
        assert_eq!(prev.count, count as u32);
        if count > 0 {
            let got = &device.bytes[prev.offset as usize..(prev.offset + prev.count) as usize];
            let expected: Vec<u8> = (0..count).collect();
            assert_eq!(got, expected.as_slice(), "count {count} round-tripped the wrong bytes");
        }
    }
}

#[test]
fn three_byte_elements_never_corrupt_a_neighboring_allocation() {
    let mut pool = VarLenGpuPool::new(3, 4, LIMIT);
    let mut device = Device::new(4 * 3);
    let row = |tag: u8, count: u8| -> Vec<u8> {
        (0..count).flat_map(|i| [tag, i, tag.wrapping_add(i)]).collect()
    };
    let mut a = write(&mut pool, &mut device, VarLenHandle::default(), &row(0xAA, 3));
    let mut b = write(&mut pool, &mut device, VarLenHandle::default(), &row(0xBB, 1));
    for round in 0..12u8 {
        let a_count = 1 + (round * 7) % 5;
        let b_count = 1 + (round * 3) % 4;
        a = write(&mut pool, &mut device, a, &row(0xAA, a_count));
        b = write(&mut pool, &mut device, b, &row(0xBB, b_count));
        let a_bytes =
            &device.bytes[a.offset as usize * 3..(a.offset as usize + a.count as usize) * 3];
        assert_eq!(
            a_bytes,
            row(0xAA, a_count).as_slice(),
            "round {round}: entity A's live bytes got clobbered"
        );
        let b_bytes =
            &device.bytes[b.offset as usize * 3..(b.offset as usize + b.count as usize) * 3];
        assert_eq!(
            b_bytes,
            row(0xBB, b_count).as_slice(),
            "round {round}: entity B's live bytes got clobbered"
        );
    }
}

#[test]
fn fixed_size_2d_blocks_per_row_stand_in_for_jagged_nested_data() {
    let mut pool = VarLenGpuPool::new(6, 4, LIMIT);
    let mut device = Device::new(4 * 6);
    let blocks: Vec<[u16; 3]> = vec![[1, 2, 3], [4, 5, 6], [7, 8, 9]];
    let bytes: Vec<u8> =
        blocks.iter().flat_map(|b| b.iter().flat_map(|w| w.to_ne_bytes())).collect();
    let handle = write(&mut pool, &mut device, VarLenHandle::default(), &bytes);
    assert_eq!(handle.count, 3);
    let region = &device.bytes[handle.offset as usize * 6..(handle.offset as usize + 3) * 6];
    let got: Vec<[u16; 3]> = region
        .chunks_exact(6)
        .map(|c| {
            [
                u16::from_ne_bytes([c[0], c[1]]),
                u16::from_ne_bytes([c[2], c[3]]),
                u16::from_ne_bytes([c[4], c[5]]),
            ]
        })
        .collect();
    assert_eq!(got, blocks);
    let more: Vec<u8> = [10u16, 11, 12].iter().flat_map(|w| w.to_ne_bytes()).collect();
    let h2 = write(&mut pool, &mut device, VarLenHandle::default(), &more);
    assert!(
        h2.offset >= handle.offset + handle.count,
        "second allocation must not overlap the first"
    );
}

#[test]
fn alignments_and_padding_have_their_values() {
    assert_eq!(elem_align(1), 4);
    assert_eq!(elem_align(2), 2);
    assert_eq!(elem_align(3), 4);
    assert_eq!(elem_align(4), 1);
    assert_eq!(elem_align(6), 2);
    assert_eq!(padded_alloc_len(5, 4), 8);
    assert_eq!(padded_alloc_len(8, 4), 8);
    assert_eq!(pad_for_copy(&[1, 2, 3]), vec![1, 2, 3, 0]);
    assert_eq!(pad_for_copy(&[1, 2, 3, 4]), vec![1, 2, 3, 4]);
}

fn interned() -> InternedVarLenPool {
    InternedVarLenPool::new(VarLenGpuPool::new(4, 8, LIMIT))
}

#[test]
fn two_rows_same_id_share_one_allocation() {
    let mut p = interned();
    let id = HandleId(1);
    let h1 = p.upsert_row(0, id, &words(&[1, 2, 3])).handle;
    let w2 = p.upsert_row(1, id, &words(&[1, 2, 3]));
    assert_eq!(h1, w2.handle, "same content id must resolve to the SAME shared range");
    assert!(!w2.collision);
    assert!(w2.upload.is_none(), "shared bytes are not uploaded again");
    assert_eq!(p.audit(), vec![(id, 2, 3 * 4)]);
}

#[test]
fn last_reference_dropping_frees_the_range() {
    let mut p = interned();
    let id = HandleId(1);
    p.upsert_row(0, id, &words(&[1, 2, 3]));
    p.upsert_row(1, id, &words(&[1, 2, 3]));
    p.release_row(0);
    assert_eq!(p.audit(), vec![(id, 1, 12)], "one reference still live");
    p.release_row(1);
    assert!(p.audit().is_empty(), "last reference released -- fully torn down");
    assert_eq!(p.resolve(id), None, "resolve after free must be None, never stale data");
}

#[test]
fn the_audit_lists_what_rows_were_last_written_under() {
    let mut p = interned();
    let (a, b) = (HandleId(1), HandleId(2));
    p.upsert_row(0, a, &words(&[1]));
    p.upsert_row(1, b, &words(&[2, 2]));
    p.upsert_row(2, a, &words(&[1]));
    p.upsert_row(0, b, &words(&[2, 2]));
    p.upsert_row(3, HandleId::zero(), &words(&[9]));
    p.release_row(1);
    p.upsert_row(1, a, &words(&[1]));
    p.upsert_row(4, b, &words(&[2, 2]));
    p.release_row(4);
    let mut list = p.audit();
    list.sort_by_key(|entry| entry.0 .0);
    assert_eq!(list, vec![(a, 2, 4), (b, 1, 8)]);
    assert!(p.resolve(a).is_some() && p.resolve(b).is_some());
    assert_eq!(p.resolve(HandleId::zero()), None);
    p.release_row(0);
    assert_eq!(p.resolve(b), None);
}

#[test]
fn every_row_was_returned_what_its_identity_resolves_to() {
    let mut p = interned();
    let (a, b) = (HandleId(1), HandleId(2));
    let mut returned = vec![None; 4];
    let calls = [(0u32, a), (1, b), (2, a), (0, b), (3, a), (1, a), (2, b), (1, a)];
    for (row, id) in calls {
        let payload: Vec<u32> = if id == a { vec![1] } else { vec![2, 2, 2] };
        returned[row as usize] = Some((id, p.upsert_row(row, id, &words(&payload)).handle));
    }
    for entry in returned {
        let (id, handle) = entry.unwrap();
        assert_eq!(p.resolve(id), Some((handle.offset, handle.count)));
    }
}

#[test]
fn a_flush_writes_each_marked_row_as_it_was_marked_last() {
    let mut buf = DirtyTrackedSceneBuffer::new(4, 8, LIMIT);
    for (row, value) in [(2u32, 1u8), (3, 2), (2, 3), (6, 4), (20, 5), (6, 6)] {
        buf.mark_dirty(row, &[value; 4]);
    }
    let plan = buf.flush();
    let uploads: Vec<_> = plan.uploads.iter().map(|u| (u.offset, u.bytes.clone())).collect();
    let two = [[3u8; 4], [2; 4]].concat();
    assert_eq!(uploads, vec![(8, two), (24, vec![6; 4]), (80, vec![5; 4])]);
    assert_eq!((plan.stats.ranges, plan.stats.bytes), (3, 16));
}

#[test]
fn a_flush_counts_marked_rows_and_their_runs() {
    let mut buf = DirtyTrackedSceneBuffer::new(8, 16, LIMIT);
    for row in [0u32, 1, 2, 5, 7, 8] {
        buf.mark_dirty(row, &[row as u8; 8]);
    }
    let plan = buf.flush();
    assert_eq!((plan.stats.ranges, plan.stats.bytes), (3, 6 * 8));
    let again = buf.flush();
    assert_eq!((again.stats.ranges, again.stats.bytes), (0, 0));
}

#[test]
fn equal_id_rewrite_is_a_true_no_op() {
    let mut p = interned();
    let id = HandleId(7);
    let h1 = p.upsert_row(0, id, &words(&[9, 9])).handle;
    let h2 = p.upsert_row(0, id, &words(&[9, 9])).handle;
    assert_eq!(h1, h2);
    assert_eq!(
        p.audit(),
        vec![(id, 1, 8)],
        "refcount must not double-count a same-id rewrite of the SAME row"
    );
}

#[test]
fn switching_a_row_to_a_new_id_decrefs_the_old_one() {
    let mut p = interned();
    let a = HandleId(1);
    let b = HandleId(2);
    p.upsert_row(0, a, &words(&[1]));
    p.upsert_row(0, b, &words(&[2]));
    assert_eq!(p.resolve(a), None, "old id fully released once its only row moved away");
    assert!(p.resolve(b).is_some());
}

#[test]
fn same_id_different_bytes_is_first_writer_wins() {
    let mut p = interned();
    let id = HandleId(5);
    let h1 = p.upsert_row(0, id, &words(&[1, 2, 3])).handle;
    let w2 = p.upsert_row(1, id, &words(&[9, 9, 9, 9]));
    assert_eq!(h1, w2.handle, "first writer's range wins; second writer shares it unchanged");
    assert!(w2.collision, "fingerprints tell the bytes apart");
    assert_eq!(
        p.audit(),
        vec![(id, 2, 12)],
        "byte size reflects the FIRST writer's 3 elements, not the second's 4"
    );
    assert!(!p.upsert_row(2, id, &words(&[9, 9, 9, 9])).collision, "an id is reported once");
}

#[test]
fn a_given_fingerprint_decides_what_collides() {
    let mut p = interned();
    let id = HandleId(5);
    p.upsert_row_with(0, id, &words(&[1]), 77);
    assert!(!p.upsert_row_with(1, id, &words(&[2]), 77).collision);
    assert!(p.upsert_row_with(2, id, &words(&[1]), 78).collision);
}

#[test]
fn zero_id_still_writes_data_privately_just_never_shared() {
    let mut p = interned();
    let h = p.upsert_row(0, HandleId::zero(), &words(&[1, 2])).handle;
    assert_eq!(
        h,
        VarLenHandle { offset: 0, count: 2 },
        "zero id still allocates and writes, just privately"
    );
    assert!(
        p.audit().is_empty(),
        "a private allocation is never interned/shared, so it's invisible to audit"
    );
    let h2 = p.upsert_row(1, HandleId::zero(), &words(&[9, 9, 9])).handle;
    assert_ne!(h, h2);
    p.release_row(0);
    let h3 = p.upsert_row(2, HandleId::zero(), &words(&[5, 5])).handle;
    assert_eq!(h3.offset, h.offset, "freed private space is reusable");
}

#[test]
fn zero_id_with_truly_empty_data_allocates_nothing() {
    let mut p = interned();
    let h = p.upsert_row(0, HandleId::zero(), &[]).handle;
    assert_eq!(h, VarLenHandle::default());
}

#[test]
fn switching_from_private_to_interned_frees_the_private_allocation() {
    let mut p = interned();
    p.upsert_row(0, HandleId::zero(), &words(&[1, 2, 3]));
    let id = HandleId(1);
    let shared = p.upsert_row(0, id, &words(&[9, 9])).handle;
    assert_eq!(p.audit(), vec![(id, 1, 8)]);
    assert_eq!(
        shared.offset,
        0,
        "the freed private space at offset 0 was reused for the new interned entry"
    );
}

#[test]
fn release_of_a_never_written_row_is_a_harmless_no_op() {
    let mut p = interned();
    p.release_row(999);
    assert!(p.audit().is_empty());
}
