use pulsar_scenedb::entity::ComponentId;
use pulsar_scenedb::gpu::buffer_registry::{BufferKey, TypeKey};
use pulsar_scenedb::gpu::byte_arena::ByteArena;
use pulsar_scenedb::gpu::tier::{
    fold_kinds, DemoteExtent, PendingTransition, Tier, TierConfig, TierError, TierSelector,
    TierStats, TransitionKind,
};
use pulsar_scenedb::gpu::tier_engine::{
    texel_row_bytes, MaterializationSpec, RowTierTable, TierEngine, NO_SLOT,
};
use pulsar_scenedb::gpu::tier_layout::{
    plan_from_segments, register_segment_layout, register_segment_layout_for_type, LayoutError,
    Segment, SegmentLayouts,
};
use pulsar_scenedb::gpu::var_len_pool::VarLenHandle;
use pulsar_scenedb::handle_ledger::HandleId;

#[test]
fn tier_ladder_orders_disk_ram_vram() {
    assert!(Tier::Disk < Tier::Ram && Tier::Ram < Tier::Vram);
    assert_eq!(Tier::Vram.lower(), Some(Tier::Ram));
    assert_eq!(Tier::Ram.lower(), Some(Tier::Disk));
    assert_eq!(Tier::Disk.lower(), None);
    assert_eq!(Tier::from_u8(Tier::Vram.as_u8()), Some(Tier::Vram));
    assert_eq!(Tier::from_u8(9), None);
}

#[test]
fn arenas_put_take_recycle_slots_and_account_bytes() {
    let mut arena = ByteArena::new();
    let a = arena.put(vec![1u8; 100]);
    let b = arena.put(vec![2u8; 50]);
    assert_eq!(arena.used(), 150);
    let got = arena.take(a).unwrap();
    assert_eq!(arena.used(), 50);
    let c = arena.put(vec![3u8; 100]);
    assert_eq!(c, a, "recycled slot index");
    assert_eq!(got.len(), 100);
    assert!(arena.take(b).is_some());
    assert_eq!(arena.used(), 100, "only c's bytes remain");
    assert!(arena.take(c).is_some());
    assert_eq!(arena.used(), 0);
    assert!(arena.take(c).is_none());
    assert_eq!(arena.discard(7), None);
}

#[test]
fn fetch_completion_is_exactly_once() {
    let mut engine: TierEngine<u32> = TierEngine::new();
    let sel = TierSelector::Row { column: ComponentId(7), row: 3 };
    let f = engine.open_fetch(sel);
    assert_eq!(engine.claim_fetch(&f), Err(TierError::NotYetReady), "queued is not ready");
    engine.mark_fetches_ready(&sel);
    let other_sel = TierSelector::Row { column: ComponentId(7), row: 4 };
    let f_other = engine.open_fetch(other_sel);
    engine.mark_fetches_ready(&other_sel);
    assert!(engine.claim_fetch(&f).is_ok(), "matching selector becomes completable");
    assert_eq!(
        engine.claim_fetch(&f),
        Err(TierError::AlreadyCompleted),
        "double completion impossible"
    );
    assert!(
        engine.claim_fetch(&f_other).is_ok(),
        "second fetch unaffected by the first's consumption"
    );
    let f2 = engine.open_fetch(sel);
    assert_eq!(engine.claim_fetch(&f2), Err(TierError::NotYetReady));
}

#[test]
fn transitions_shard_deterministically_and_drain_in_shard_order() {
    let mut engine: TierEngine<u32> = TierEngine::new();
    let mk = |row| PendingTransition {
        target: TierSelector::Row { column: ComponentId(1), row },
        kind: TransitionKind::Demote(DemoteExtent::All),
        seq: 0,
    };
    engine.queue_transition(mk(1));
    engine.queue_transition(mk(2));
    engine.queue_transition(mk(3));
    let mut rows: Vec<u32> = Vec::new();
    for batch in engine.take_shard_batches() {
        for t in batch {
            match t.target {
                TierSelector::Row { row, .. } => rows.push(row),
                _ => unreachable!(),
            }
        }
    }
    rows.sort_unstable();
    assert_eq!(rows, vec![1, 2, 3]);
    assert!(engine.take_shard_batches().is_empty(), "batch walk empties every shard");
}

#[test]
fn requests_of_one_target_stay_in_order_in_one_batch() {
    let mut engine: TierEngine<u32> = TierEngine::new();
    let target = TierSelector::Interned { pool: BufferKey::of("mesh"), id: HandleId(5) };
    for seq in 0..10 {
        engine.queue_transition(PendingTransition { target, kind: TransitionKind::Spill, seq });
    }
    let batches = engine.take_shard_batches();
    assert_eq!(batches.len(), 1);
    assert_eq!(batches[0].iter().map(|t| t.seq).collect::<Vec<_>>(), (0..10).collect::<Vec<_>>());
}

fn mixed(seed: u64) -> usize {
    let mut h = seed;
    h ^= h << 13;
    h ^= h >> 7;
    h ^= h << 17;
    (h % 64) as usize
}

fn fnv(s: &str) -> u64 {
    let mut h = 0xcbf29ce484222325u64;
    for b in s.as_bytes() {
        h ^= *b as u64;
        h = h.wrapping_mul(0x100000001b3);
    }
    h
}

#[test]
fn shards_are_those_of_the_mixed_words() {
    for row in 0..200u32 {
        let sel = TierSelector::Row { column: ComponentId(9), row };
        let seed = 0x4000 ^ (9u64.wrapping_mul(0x94D049BB133111EB) ^ row as u64);
        assert_eq!(TierEngine::<u32>::shard_index(&sel), mixed(seed));
    }
    let id = HandleId(0x1234_5678_9abc_def0_0fed_cba9_8765_4321);
    let sel = TierSelector::Interned { pool: BufferKey::of("pool"), id };
    let seed = 0x1000 ^ (fnv("pool") ^ (id.0 as u64).wrapping_mul(0x9E3779B97F4A7C15));
    assert_eq!(TierEngine::<u32>::shard_index(&sel), mixed(seed));
    let handle = VarLenHandle { offset: 77, count: 3 };
    let sel = TierSelector::PoolSlot { pool: BufferKey::of("pool"), handle };
    let seed = 0x2000 ^ (fnv("pool") ^ 77u64.wrapping_mul(0xBF58476D1CE4E5B9));
    assert_eq!(TierEngine::<u32>::shard_index(&sel), mixed(seed));
}

#[test]
fn vram_reservation_is_cas_exact_and_releases_cleanly() {
    let mut engine: TierEngine<u32> = TierEngine::new();
    engine.configure(TierConfig { vram_budget_bytes: 100, ram_budget_bytes: 100 });
    engine.try_reserve_vram(60).unwrap();
    assert!(matches!(
        engine.try_reserve_vram(41),
        Err(TierError::BudgetExhausted { needed: 41, budget: 100 })
    ));
    engine.try_reserve_vram(40).unwrap();
    engine.release_vram(100);
    assert_eq!(engine.vram_used(), 0);
}

#[test]
fn nothing_is_reserved_before_the_budgets_are_set() {
    let mut engine: TierEngine<u32> = TierEngine::new();
    assert_eq!(engine.configured(), None);
    assert_eq!(engine.try_reserve_vram(0), Err(TierError::NotConfigured));
}

#[test]
fn spill_moves_boxes_between_arenas_without_growing_total_memory_twice() {
    let mut engine: TierEngine<u32> = TierEngine::new();
    let slot = engine.stage_ram(vec![9u8; 32]);
    assert_eq!(engine.ram_used(), 32);
    let (disk_slot, len) = engine.spill_ram_to_disk(slot);
    assert_eq!(len, 32);
    assert_eq!(engine.ram_used(), 0, "spill MOVES ownership, RAM account drops");
    let (back, len2) = engine.unspill_disk_to_ram(disk_slot);
    assert_eq!(len2, 32);
    let mut out = vec![0u8; 32];
    assert!(engine.copy_ram_window(back, 0, &mut out));
    assert!(out.iter().all(|&b| b == 9));
}

#[test]
fn restaging_reuses_a_slot_that_is_large_enough() {
    let mut engine: TierEngine<u32> = TierEngine::new();
    let slot = engine.restage_ram(None, &[1, 2, 3, 4]);
    assert_eq!(engine.restage_ram(Some(slot), &[9, 9]), slot);
    let mut out = vec![0u8; 4];
    assert!(engine.copy_ram_window(slot, 0, &mut out));
    assert_eq!(out, vec![9, 9, 3, 4]);
    assert_eq!(engine.ram_used(), 4);
    let larger = engine.restage_ram(Some(slot), &[7; 8]);
    assert_eq!(larger, slot, "the slot freed last is the one used next");
    assert_eq!(engine.ram_used(), 8);
    let mut window = vec![0u8; 3];
    assert!(engine.copy_ram_window(larger, 5, &mut window));
    assert!(!engine.copy_ram_window(larger, 6, &mut window), "beyond the payload");
    assert!(!engine.copy_disk_window(0, 0, &mut window), "nothing was spilled");
}

#[test]
fn row_tables_grow_with_untouched_rows() {
    let mut table = RowTierTable::new();
    table.grow_to(2);
    assert_eq!(table.rows.len(), 3);
    assert_eq!(table.rows[2].tier, Tier::Ram);
    assert_eq!(table.rows[2].disk_slot, NO_SLOT);
    table.grow_to(0);
    assert_eq!(table.rows.len(), 3);

    let mut engine: TierEngine<u32> = TierEngine::new();
    engine.row_table(ComponentId(4)).grow_to(0);
    engine.row_table(ComponentId(4)).rows[0].generation = 5;
    engine.row_table(ComponentId(6)).grow_to(1);
    assert_eq!(engine.row_tables().len(), 2);
    assert_eq!(engine.row_table(ComponentId(4)).rows[0].generation, 5);
}

#[test]
fn the_clock_counts_from_one() {
    let mut engine: TierEngine<u32> = TierEngine::new();
    assert_eq!(engine.stamp(), 1);
    assert_eq!(engine.tick(), 2);
    assert_eq!(engine.stamp(), 3);
}

#[test]
fn a_row_snapshot_is_kept_until_it_is_dropped() {
    let mut engine: TierEngine<u32> = TierEngine::new();
    let (slot, len) = engine.export_row_snapshot(vec![1, 2, 3]);
    assert_eq!(len, 3);
    let mut out = vec![0u8; 3];
    assert!(engine.copy_disk_window(slot, 0, &mut out));
    assert_eq!(out, vec![1, 2, 3]);
    engine.drop_row_export(slot);
    assert!(!engine.copy_disk_window(slot, 0, &mut out));
}

#[test]
fn textures_are_bound_where_the_geometry_allows() {
    let mut engine: TierEngine<(u32, u32)> = TierEngine::new();
    let spec = |format, width, height| MaterializationSpec {
        source_pool: BufferKey::of("pixels"),
        format,
        width,
        height,
    };
    let make = |_format: wgpu::TextureFormat, w: u32, h: u32| (w, h);
    let rgba = wgpu::TextureFormat::Rgba8Unorm;
    assert_eq!(engine.bind_texture(&spec(rgba, 64, 16), Some(64 * 16 * 4), make), Ok(()));
    let binding = engine.texture_binding(&BufferKey::of("pixels")).unwrap();
    assert_eq!(binding.texture, (64, 16));
    assert_eq!(binding.bytes_per_texel_row, 256);
    assert!(engine.texture_binding(&BufferKey::of("other")).is_none());
    assert_eq!(
        engine.bind_texture(&spec(rgba, 65, 16), None, make),
        Err(TierError::LengthMismatch { expected: 512, provided: 260 })
    );
    assert_eq!(
        engine.bind_texture(&spec(rgba, 64, 16), Some(1), make),
        Err(TierError::ReadUnsupported)
    );
    assert_eq!(
        engine.bind_texture(&spec(wgpu::TextureFormat::Bc1RgbaUnorm, 64, 16), None, make),
        Err(TierError::ReadUnsupported),
        "blocks larger than a texel"
    );
    assert_eq!(
        engine.bind_texture(&spec(wgpu::TextureFormat::Depth24Plus, 64, 16), None, make),
        Err(TierError::ReadUnsupported),
        "no size of its own"
    );
    let wide = wgpu::TextureFormat::Rgba32Float;
    assert_eq!(engine.bind_texture(&spec(wide, 16, 2), None, make), Ok(()));
    assert_eq!(engine.texture_binding(&BufferKey::of("pixels")).unwrap().texture, (16, 2));
}

#[test]
fn texel_rows_follow_from_the_format() {
    assert_eq!(texel_row_bytes((1, 1), Some(4), 64, 1, None), Ok(256));
    assert_eq!(texel_row_bytes((4, 4), Some(8), 64, 1, None), Err(TierError::ReadUnsupported));
    assert_eq!(texel_row_bytes((1, 1), None, 64, 1, None), Err(TierError::ReadUnsupported));
    assert_eq!(
        texel_row_bytes((1, 1), Some(1), 1, 1, None),
        Err(TierError::LengthMismatch { expected: 256, provided: 1 })
    );
    assert_eq!(texel_row_bytes((1, 1), Some(4), 64, 3, Some(768)), Ok(256));
}

#[test]
fn absolute_requests_fold_to_the_last_and_relative_ones_stay() {
    let up = TransitionKind::SetTo { tier: Tier::Vram, through_rank: 3 };
    let down = TransitionKind::SetTo { tier: Tier::Disk, through_rank: 0 };
    assert_eq!(fold_kinds(&[]), vec![]);
    assert_eq!(fold_kinds(&[up, down]), vec![down]);
    let mixed = [up, TransitionKind::Demote(DemoteExtent::AboveRank(1)), down];
    assert_eq!(fold_kinds(&mixed), mixed.to_vec());
}

#[test]
fn stats_add_up() {
    let mut a = TierStats::default();
    let b = TierStats { promoted: 2, spilled: 3, pressure_spilled: 1, ..TierStats::default() };
    a.accumulate(b);
    a.accumulate(b);
    assert_eq!(a.promoted, 4);
    assert_eq!(a.spilled, 6);
    assert_eq!(a.pressure_spilled, 2);
    assert_eq!(a.demoted, 0);
}

#[test]
fn tier_errors_say_what_is_wrong() {
    assert_eq!(
        TierError::StaleGeneration { expected: 3, current: 12 }.describe(),
        "stale resolve: expected generation 3, current is 12"
    );
    assert_eq!(
        TierError::LengthMismatch { expected: 8, provided: 4 }.describe(),
        "tier_read output window is 4 bytes; payload is 8"
    );
    assert_eq!(
        TierError::BudgetExhausted { needed: 41, budget: 100 }.describe(),
        "budget exhausted: need 41 bytes against budget 100 with nothing evictable left"
    );
    assert_eq!(TierError::UnknownResource.describe(), "selector names no live tiered resource");
}

#[test]
fn unregistered_type_plans_one_atomic_unit() {
    let layouts = SegmentLayouts::new();
    let plan = layouts.execution_plan(TypeKey(1), 512);
    assert_eq!(plan.len(), 1);
    assert_eq!(plan[0].rank, 0);
    assert_eq!(plan[0].bytes, 512);
    assert_eq!(plan[0].slices, vec![(0, 512)]);
    assert!(layouts.execution_plan(TypeKey(1), 0).is_empty());
}

#[test]
fn registered_layout_plans_units_in_rank_order_and_clamps() {
    let mut layouts = SegmentLayouts::new();
    let ty = TypeKey(2);
    register_segment_layout(
        &mut layouts,
        ty,
        &vec![Segment::new(384, 128, 7), Segment::new(0, 128, 0), Segment::new(128, 256, 2)],
    )
    .expect("valid layout");
    let plan = layouts.execution_plan(ty, 512);
    assert_eq!(
        plan.iter().map(|u| u.rank).collect::<Vec<_>>(),
        vec![0, 2, 7],
        "ascending rank order"
    );
    assert_eq!(plan.iter().map(|u| u.bytes).collect::<Vec<_>>(), vec![128, 256, 128]);

    let short = layouts.execution_plan(ty, 200);
    assert_eq!(short.len(), 2, "rank 7 clamps to empty and vanishes");
    assert_eq!(short[0].rank, 0);
    assert_eq!(short[0].slices, vec![(0, 128)], "rank 0's slice survives intact");
    assert_eq!(short[1].rank, 2);
    assert_eq!(short[1].slices, vec![(128, 72)], "truncated to what fits");

    let mid = layouts.execution_plan(ty, 320);
    assert_eq!(mid.len(), 2);
    assert_eq!(mid[1].bytes, 192);
}

#[test]
fn duplicate_ranks_form_one_admission_unit() {
    let mut layouts = SegmentLayouts::new();
    let ty = TypeKey(3);
    register_segment_layout(
        &mut layouts,
        ty,
        &vec![Segment::new(0, 100, 0), Segment::new(100, 50, 1), Segment::new(150, 50, 1)],
    )
    .expect("valid layout");
    let plan = layouts.execution_plan(ty, 200);
    assert_eq!(plan.len(), 2);
    assert_eq!(plan[1].rank, 1);
    assert_eq!(plan[1].bytes, 100, "both same-rank segments admitted together");
    assert_eq!(plan[1].slices, vec![(100, 50), (150, 50)]);
}

#[test]
fn invalid_layouts_are_rejected_loudly() {
    let mut layouts = SegmentLayouts::new();
    let (bad, overlap, adjacent) = (TypeKey(4), TypeKey(5), TypeKey(6));
    assert_eq!(
        register_segment_layout(&mut layouts, bad, &vec![Segment::new(0, 0, 0)]),
        Err(LayoutError::ZeroLengthSegment)
    );
    assert_eq!(
        register_segment_layout(
            &mut layouts,
            overlap,
            &vec![Segment::new(0, 16, 0), Segment::new(8, 16, 1)]
        ),
        Err(LayoutError::OverlappingSegments)
    );
    let fine = vec![Segment::new(0, 8, 0), Segment::new(8, 8, 1)];
    assert_eq!(register_segment_layout(&mut layouts, adjacent, &fine), Ok(()));
    assert_eq!(register_segment_layout(&mut layouts, adjacent, &fine), Ok(()));
    assert_eq!(
        register_segment_layout(
            &mut layouts,
            adjacent,
            &vec![Segment::new(0, 4, 0), Segment::new(8, 8, 1)]
        ),
        Err(LayoutError::ConflictingLayout)
    );
    assert_eq!(layouts.layout_for(adjacent), Some(&fine), "the first layout stays");
    assert_eq!(layouts.layout_for(bad), None);
}

#[test]
fn a_layout_is_kept_in_order_of_rank() {
    let mut layouts = SegmentLayouts::new();
    let (two, three) = (TypeKey(8), TypeKey(9));
    let declared = vec![Segment::new(8, 8, 1), Segment::new(0, 8, 0)];
    let ranked = vec![Segment::new(0, 8, 0), Segment::new(8, 8, 1)];
    assert_eq!(register_segment_layout(&mut layouts, two, &declared), Ok(()));
    assert_eq!(layouts.layout_for(two), Some(&ranked));
    assert_eq!(
        register_segment_layout(&mut layouts, two, &ranked),
        Err(LayoutError::ConflictingLayout),
        "the same segments, declared in another order"
    );
    assert_eq!(
        register_segment_layout_for_type(&mut layouts, two, &ranked),
        Err(LayoutError::ConflictingLayout)
    );
    assert_eq!(layouts.layout_for(two), Some(&ranked));
    assert_eq!(register_segment_layout(&mut layouts, two, &declared), Ok(()));

    let declared =
        vec![Segment::new(16, 8, 1), Segment::new(24, 8, 0), Segment::new(0, 8, 1)];
    let ranked = vec![Segment::new(24, 8, 0), Segment::new(16, 8, 1), Segment::new(0, 8, 1)];
    assert_eq!(register_segment_layout(&mut layouts, three, &declared), Ok(()));
    assert_eq!(layouts.layout_for(three), Some(&ranked), "one rank stays as declared");
}

#[test]
fn a_completed_fetch_stays_completed() {
    let mut engine: TierEngine<u32> = TierEngine::new();
    let sel = TierSelector::Row { column: ComponentId(1), row: 1 };
    let f = engine.open_fetch(sel);
    engine.mark_fetches_ready(&sel);
    assert!(engine.claim_fetch(&f).is_ok());
    for _ in 0..3 {
        let later = engine.open_fetch(sel);
        engine.mark_fetches_ready(&sel);
        assert_eq!(engine.claim_fetch(&f), Err(TierError::AlreadyCompleted));
        assert!(engine.claim_fetch(&later).is_ok());
    }
}

#[test]
fn segments_at_the_end_of_the_number_range_do_not_overflow() {
    let mut layouts = SegmentLayouts::new();
    let ty = TypeKey(7);
    let segments = vec![Segment::new(u64::MAX - 1, u64::MAX, 1), Segment::new(0, 4, 0)];
    assert_eq!(register_segment_layout_for_type(&mut layouts, ty, &segments), Ok(()));
    let plan = plan_from_segments(&segments, 10);
    assert_eq!(plan.len(), 1);
    assert_eq!(plan[0].slices, vec![(0, 4)]);
    assert_eq!(
        LayoutError::ConflictingLayout.describe(),
        "segment layout conflicts with an already-registered layout for this type"
    );
}
