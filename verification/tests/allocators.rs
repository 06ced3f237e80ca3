use pulsar_scenedb::gpu::dirty::DirtyMask;
use pulsar_scenedb::gpu::freelist::RangeList;
use pulsar_scenedb::gpu::runs::coalesce;
use pulsar_scenedb::gpu::slot_allocator::{SlotAllocator, SlotHandle};
use std::collections::HashSet;

#[test]
fn mask_marks_and_clears() {
    let mut m = DirtyMask::new(130);
    m.mark(0);
    m.mark(129);
    assert!(m.is_marked(0) && m.is_marked(129) && !m.is_marked(64));
    m.clear_all();
    assert!(!m.is_marked(0) && !m.is_marked(129));
    m.mark_range(65);
    assert!(m.is_marked(64) && !m.is_marked(65));
}

#[test]
fn for_each_marked_visits_exactly_the_marked_rows_in_ascending_order() {
    let mut m = DirtyMask::new(200);
    m.mark(0);
    m.mark(63);
    m.mark(64);
    m.mark(150);
    assert_eq!(m.for_each_marked(), vec![0, 63, 64, 150]);
    m.clear_all();
    assert!(
        m.for_each_marked().is_empty(),
        "an all-zero mask must visit nothing, not even word 0"
    );
}

#[test]
fn marked_rows_coalesce_into_maximal_runs() {
    let mut m = DirtyMask::new(200);
    for row in [0, 1, 2, 63, 64, 150] {
        m.mark(row);
    }
    assert_eq!(coalesce(&m, 200), vec![(0, 3), (63, 65), (150, 151)]);
    assert_eq!(coalesce(&m, 64), vec![(0, 3), (63, 64)]);
}

#[test]
fn alloc_and_free_round_trips() {
    let mut rl = RangeList::new(100);
    let a = rl.allocate(10, 1).unwrap();
    let b = rl.allocate(20, 1).unwrap();
    assert_eq!(a, 0);
    assert_eq!(b, 10);
    rl.free(a, 10);
    let c = rl.allocate(10, 1).unwrap();
    assert_eq!(c, 0);
}

#[test]
fn exhaustion_returns_none_not_a_panic() {
    let mut rl = RangeList::new(10);
    assert!(rl.allocate(11, 1).is_none());
    assert!(rl.allocate(10, 1).is_some());
    assert!(rl.allocate(1, 1).is_none());
}

#[test]
fn extend_total_coalesces_with_the_trailing_free_span() {
    let mut rl = RangeList::new(10);
    let _ = rl.allocate(10, 1).unwrap();
    rl.extend_total(10, 20);
    let a = rl.allocate(10, 1).unwrap();
    assert_eq!(a, 10);
}

#[test]
fn extend_total_after_a_free_hole_still_finds_the_new_space() {
    let mut rl = RangeList::new(10);
    let a = rl.allocate(5, 1).unwrap();
    let _b = rl.allocate(5, 1).unwrap();
    rl.free(a, 5);
    rl.extend_total(10, 20);
    let c = rl.allocate(5, 1).unwrap();
    assert_eq!(c, 0, "reuses the freed hole first (first-fit)");
    let d = rl.allocate(10, 1).unwrap();
    assert_eq!(d, 10, "then the newly-extended tail");
}

#[test]
fn aligned_allocations_start_on_their_alignment() {
    let mut rl = RangeList::new(100);
    assert_eq!(rl.allocate(3, 4), Some(0));
    assert_eq!(rl.allocate(4, 4), Some(4));
    assert_eq!(rl.allocate(1, 1), Some(3), "the gap that alignment left is still usable");
}

#[test]
fn freed_neighbours_merge_into_one_span() {
    let mut rl = RangeList::new(30);
    let a = rl.allocate(10, 1).unwrap();
    let b = rl.allocate(10, 1).unwrap();
    let c = rl.allocate(10, 1).unwrap();
    rl.free(a, 10);
    rl.free(c, 10);
    rl.free(b, 10);
    assert_eq!(rl.allocate(30, 1), Some(0));
}

#[test]
fn the_live_count_is_allocations_less_releases() {
    let mut slots = SlotAllocator::new();
    let a = slots.allocate();
    let b = slots.allocate();
    let c = slots.allocate();
    assert!(slots.free(b));
    assert!(!slots.free(b), "freed before");
    assert!(!slots.free(SlotHandle { index: 9, generation: 0 }), "never issued");
    let d = slots.allocate();
    assert_eq!((d.index, d.generation), (b.index, b.generation + 1));
    assert!(!slots.free(b), "stale");
    assert!(slots.free(a));
    assert_eq!(slots.live_count(), 2);
    assert_eq!(slots.capacity(), 3);
    assert!(slots.is_valid(c) && slots.is_valid(d) && !slots.is_valid(a));
}

#[test]
fn fresh_allocator_issues_dense_zero_based_indices() {
    let mut slots = SlotAllocator::new();
    let a = slots.allocate();
    let b = slots.allocate();
    let c = slots.allocate();
    assert_eq!((a.index, b.index, c.index), (0, 1, 2));
    assert_eq!(a.generation, 0);
    assert_eq!(slots.capacity(), 3);
    assert_eq!(slots.live_count(), 3);
}

#[test]
fn free_then_alloc_reuses_the_index_lifo_with_a_bumped_generation() {
    let mut slots = SlotAllocator::new();
    let a = slots.allocate();
    let b = slots.allocate();
    assert!(slots.free(b), "free b");
    assert_eq!(slots.live_count(), 1);
    let c = slots.allocate();
    assert_eq!(c.index, b.index, "LIFO reuse: freed index b comes back first");
    assert_ne!(c.generation, b.generation, "generation bumped on free");
    assert_eq!(slots.capacity(), 2, "reuse never extends capacity");
    assert!(slots.is_valid(a));
    assert!(slots.is_valid(c));
    assert!(!slots.is_valid(b), "b's old handle is stale now that c reused its index");
}

#[test]
fn double_free_is_a_safe_no_op_not_a_corruption() {
    let mut slots = SlotAllocator::new();
    let a = slots.allocate();
    assert!(slots.free(a));
    assert!(!slots.free(a), "second free of the same handle must fail cleanly");
    assert_eq!(slots.live_count(), 0);
    let b = slots.allocate();
    let c = slots.allocate();
    assert_ne!(b.index, c.index, "no duplicate index from the double-free");
}

#[test]
fn is_valid_is_false_for_an_index_never_issued() {
    let mut slots = SlotAllocator::new();
    assert!(!slots.is_valid(SlotHandle { index: 0, generation: 0 }));
    slots.allocate();
    assert!(!slots.is_valid(SlotHandle { index: 1, generation: 0 }), "index 1 never issued");
}

#[test]
fn stale_handle_from_before_a_free_is_rejected_even_with_a_matching_index() {
    let mut slots = SlotAllocator::new();
    let a = slots.allocate();
    assert!(slots.free(a));
    let b = slots.allocate();
    assert_eq!(a.index, b.index);
    assert!(!slots.is_valid(a), "a is stale");
    assert!(slots.is_valid(b), "b is the live claim on this index now");
    assert!(!slots.free(a), "freeing with a's stale generation must not free b's live slot");
    assert!(slots.is_valid(b), "b must still be live after the rejected stale free");
}

#[test]
fn many_alloc_free_cycles_never_produce_two_live_handles_for_one_index() {
    let mut slots = SlotAllocator::new();
    let mut live: Vec<SlotHandle> = Vec::new();
    for i in 0..500u32 {
        live.push(slots.allocate());
        if i % 3 == 0 && !live.is_empty() {
            let h = live.remove(0);
            assert!(slots.free(h));
        }
    }
    let mut seen = HashSet::new();
    for h in &live {
        assert!(slots.is_valid(*h));
        assert!(seen.insert(h.index), "duplicate live index {}", h.index);
    }
    assert_eq!(slots.live_count() as usize, live.len());
}

#[test]
fn default_matches_new() {
    let slots = SlotAllocator::default();
    assert_eq!(slots.capacity(), 0);
    assert_eq!(slots.live_count(), 0);
}
