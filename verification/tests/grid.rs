use pulsar_scenedb::gpu::grid::{
    BudgetError, CellCoord, CellZones, Domain, GridConfig, StreamingBudget, StreamingGrid,
    Transition, WarmTierConfig,
};
use pulsar_scenedb::gpu::scene_store::RegionClassConfig;
use pulsar_scenedb::gpu::single::{aabb_intersect, any_intersect, Aabb, Single};

fn single(x: f32) -> Single {
    Single { bits: x.to_bits() }
}

fn float(x: Single) -> f32 {
    f32::from_bits(x.bits)
}

fn cfg() -> GridConfig {
    GridConfig {
        cell_width: single(100.0),
        margin_radius: single(150.0),
        pad_fraction: single(0.10),
        hysteresis: single(20.0),
        warm: None,
    }
}

fn warm_cfg() -> GridConfig {
    GridConfig {
        warm: Some(WarmTierConfig {
            radius: single(300.0),
            pad_fraction: single(0.10),
            hysteresis: single(40.0),
        }),
        ..cfg()
    }
}

fn budget() -> StreamingBudget {
    StreamingBudget {
        vram_hlod_budget: u64::MAX,
        vram_geometry_budget: u64::MAX,
        max_materialized_cells: 1024,
        proxy_mesh_bytes: 1024,
        mean_cell_geometry_bytes: 1 << 20,
        ram_budget: u64::MAX,
        max_ram_cached_cells: 1024,
    }
}

fn aabb(min: [f32; 3], max: [f32; 3]) -> Aabb {
    Aabb { min: min.map(single), max: max.map(single) }
}

fn observer_at(x: f32) -> Aabb {
    aabb([x - 10.0, -10.0, -10.0], [x + 10.0, 10.0, 10.0])
}

/// The zones around a cell.
fn zones(cfg: &GridConfig, coord: CellCoord) -> CellZones {
    let width = float(cfg.cell_width);
    let (x0, z0) = (coord.x as f32 * width, coord.z as f32 * width);
    let grown = |r: f32| {
        aabb(
            [x0 - r, f32::NEG_INFINITY - r, z0 - r],
            [x0 + width + r, f32::INFINITY + r, z0 + width + r],
        )
    };
    let pad = float(cfg.pad_fraction) * width;
    let hyst = float(cfg.hysteresis);
    let mr = float(cfg.margin_radius);
    let (warm, warm_hold) = match cfg.warm {
        Some(w) => {
            let r = float(w.radius) + float(w.pad_fraction) * width;
            (r, r + float(w.hysteresis))
        }
        None => (0.0, 0.0),
    };
    CellZones {
        inner_promote: grown(pad),
        inner_demote: grown(pad + hyst),
        margin_promote: grown(mr + pad),
        margin_demote: grown(mr + pad + hyst),
        warm_promote: grown(warm),
        warm_demote: grown(warm_hold),
    }
}

fn classify(g: &mut StreamingGrid, cfg: &GridConfig, observers: &[Aabb]) {
    let all: Vec<CellZones> = (0..g.cell_count() as u32)
        .map(|id| zones(cfg, g.coord_of(id).unwrap()))
        .collect();
    g.classify(&all, &observers.to_vec());
}

fn advance(g: &mut StreamingGrid, distance: f32, fade_distance: f32) {
    let step = distance / fade_distance;
    let fades = g.fades();
    let raised = fades.iter().map(|(a, _)| single(float(*a) + step)).collect();
    let lowered = fades.iter().map(|(a, _)| single(float(*a) - step)).collect();
    g.advance_crossfade(&raised, &lowered);
}

fn grid(cfg: GridConfig) -> StreamingGrid {
    match StreamingGrid::new(cfg, budget(), &vec![]) {
        Ok(g) => g,
        Err(e) => panic!("{e:?}"),
    }
}

fn refusal(cfg: GridConfig, b: StreamingBudget, classes: Vec<RegionClassConfig>) -> BudgetError {
    match StreamingGrid::new(cfg, b, &classes) {
        Ok(_) => panic!("accepted"),
        Err(e) => e,
    }
}

#[test]
fn resident_geometry_is_summed_without_wrapping() {
    let class = RegionClassConfig { capacity: 1, max_resident_cells: u32::MAX };
    let sum = 3 * u32::MAX as u64;
    let b = |mean: u64, geometry: u64| StreamingBudget {
        mean_cell_geometry_bytes: mean,
        vram_geometry_budget: geometry,
        max_ram_cached_cells: 0,
        ..budget()
    };
    let accepted =
        |b: StreamingBudget| StreamingGrid::new(cfg(), b, &vec![class, class, class]).is_ok();
    assert!(accepted(b(7, 7 * sum)));
    assert!(accepted(b(7, 7 * sum + 1)));
    assert!(accepted(b(0, 0)));
    let over = |b: StreamingBudget| refusal(cfg(), b, vec![class, class, class]);
    assert_eq!(over(b(7, 7 * sum - 1)), BudgetError::GeometryOverBudget);
    assert_eq!(over(b(u64::MAX, u64::MAX)), BudgetError::GeometryOverBudget);
}

#[test]
fn test11_pad_advances_promotion_band_holds_and_hysteresis_delays_demotion() {
    let mut g = grid(cfg());
    let far = CellCoord { x: 5, z: 0 };
    g.materialize(far);

    classify(&mut g, &cfg(), &[observer_at(329.0)]);
    assert!(g.take_transitions().is_empty(), "329 < padded threshold 330: no promotion");
    assert_eq!(g.domain(far), Some(Domain::Outer));

    classify(&mut g, &cfg(), &[observer_at(331.0)]);
    let ts = g.take_transitions();
    assert_eq!(ts.len(), 1, "exactly one transition at the padded boundary");
    assert_eq!(ts[0], Transition { coord: far, from: Domain::Outer, to: Domain::Margin });
    g.commit_transition(ts[0]);

    for i in 0..200 {
        let center = 320.0 + ((i % 9) as f32 - 4.0) * 2.0;
        classify(&mut g, &cfg(), &[observer_at(center)]);
        assert!(
            g.take_transitions().is_empty(),
            "band frame {i} (center {center}) caused a transition"
        );
    }
    assert_eq!(g.domain(far), Some(Domain::Margin), "held Margin through the band");

    classify(&mut g, &cfg(), &[observer_at(305.0)]);
    let ts = g.take_transitions();
    assert_eq!(ts.len(), 1);
    assert_eq!(ts[0], Transition { coord: far, from: Domain::Margin, to: Domain::Outer });
}

#[test]
fn test11_decisive_crossing_promotes_exactly_once_and_demotion_lags_by_hysteresis() {
    let mut g = grid(cfg());
    let far = CellCoord { x: 5, z: 0 };
    g.materialize(far);
    classify(&mut g, &cfg(), &[observer_at(0.0)]);
    assert!(g.take_transitions().is_empty());
    assert_eq!(g.domain(far), Some(Domain::Outer));
    classify(&mut g, &cfg(), &[observer_at(480.0)]);
    let ts = g.take_transitions();
    assert_eq!(ts.len(), 1, "exactly one transition, single step, no skip past Margin");
    assert_eq!(ts[0], Transition { coord: far, from: Domain::Outer, to: Domain::Margin });
    g.commit_transition(ts[0]);
    classify(&mut g, &cfg(), &[observer_at(480.0 - float(cfg().hysteresis) + 1.0)]);
    assert!(g.take_transitions().is_empty(), "inside hysteresis band: no demotion");
    classify(&mut g, &cfg(), &[observer_at(300.0)]);
    let ts = g.take_transitions();
    assert_eq!(ts.len(), 1);
    assert_eq!(ts[0].to, Domain::Outer);
}

#[test]
fn cascade_promotes_one_step_per_classify_as_observer_converges() {
    let mut g = grid(cfg());
    let c = CellCoord { x: 0, z: 0 };
    g.materialize(c);
    classify(&mut g, &cfg(), &[observer_at(500.0)]);
    assert!(g.take_transitions().is_empty());
    classify(&mut g, &cfg(), &[observer_at(200.0)]);
    let ts = g.take_transitions();
    assert_eq!(ts, vec![Transition { coord: c, from: Domain::Outer, to: Domain::Margin }]);
    g.commit_transition(ts[0]);
    classify(&mut g, &cfg(), &[observer_at(105.0)]);
    let ts = g.take_transitions();
    assert_eq!(ts, vec![Transition { coord: c, from: Domain::Margin, to: Domain::Inner }]);
    g.commit_transition(ts[0]);
    assert_eq!(g.domain(c), Some(Domain::Inner));
}

#[test]
fn budget_violation_fails_construction() {
    let mut b = budget();
    b.vram_hlod_budget = 10;
    assert_eq!(refusal(cfg(), b, vec![]), BudgetError::HlodOverBudget);
}

#[test]
fn geometry_budget_violation_fails_construction() {
    let classes = vec![RegionClassConfig { capacity: 64, max_resident_cells: 10 }];
    let mut b = budget();
    b.vram_geometry_budget = 1024;
    assert_eq!(refusal(cfg(), b, classes), BudgetError::GeometryOverBudget);
}

#[test]
fn crossfade_advances_by_world_distance_and_clamps() {
    let mut g = grid(cfg());
    let c = CellCoord { x: 0, z: 0 };
    g.materialize(c);
    classify(&mut g, &cfg(), &[observer_at(50.0)]);
    for t in g.take_transitions() {
        g.commit_transition(t);
    }
    advance(&mut g, 25.0, 100.0);
    assert!((float(g.alpha(c).unwrap()) - 0.25).abs() < 1e-6);
    advance(&mut g, 1000.0, 100.0);
    assert_eq!(float(g.alpha(c).unwrap()), 1.0, "clamped");
}

#[test]
fn materialize_is_idempotent_and_starts_outer_with_zero_alpha() {
    let mut g = grid(cfg());
    let c = CellCoord { x: 3, z: -2 };
    let id_a = g.materialize(c);
    let id_b = g.materialize(c);
    assert_eq!(id_a, id_b, "re-materializing returns the existing dense id");
    assert_eq!(g.domain(c), Some(Domain::Outer));
    assert_eq!(g.alpha(c).map(float), Some(0.0));
    let other = g.materialize(CellCoord { x: 3, z: -1 });
    assert_ne!(id_a, other);
    let untracked = CellCoord { x: 99, z: 99 };
    assert_eq!(g.domain(untracked), None);
    assert_eq!(g.alpha(untracked), None);
    assert_eq!(g.dense_id(untracked), None);
}

#[test]
fn far_cell_with_no_observers_stays_outer() {
    let mut g = grid(cfg());
    let c = CellCoord { x: 40, z: 40 };
    g.materialize(c);
    classify(&mut g, &cfg(), &[]);
    assert!(g.take_transitions().is_empty());
    assert_eq!(g.domain(c), Some(Domain::Outer));
}

#[test]
fn pin_starts_none_and_can_be_set_and_read() {
    let mut g = grid(cfg());
    let c = CellCoord { x: 0, z: 0 };
    g.materialize(c);
    assert_eq!(g.pinned_domain(c), Some(None), "fresh cell has no pin");
    assert!(g.pin(c, Domain::Inner), "pin returns true for tracked coord");
    assert_eq!(g.pinned_domain(c), Some(Some(Domain::Inner)));
    g.unpin(c);
    assert_eq!(g.pinned_domain(c), Some(None), "unpin clears the override");
}

#[test]
fn pin_on_untracked_coord_returns_false() {
    let mut g = grid(cfg());
    let untracked = CellCoord { x: 99, z: 99 };
    assert!(!g.pin(untracked, Domain::Inner), "untracked coord returns false");
    assert_eq!(g.pinned_domain(untracked), None, "untracked coord has no state");
}

#[test]
fn pinned_cell_bypasses_concentric_classification() {
    let mut g = grid(cfg());
    let c = CellCoord { x: 0, z: 0 };
    g.materialize(c);
    assert!(g.pin(c, Domain::Inner));
    classify(&mut g, &cfg(), &[observer_at(500.0)]);
    let ts = g.take_transitions();
    assert_eq!(ts.len(), 1, "pinned cell queues a forced transition to its pin target");
    assert_eq!(ts[0], Transition { coord: c, from: Domain::Outer, to: Domain::Inner });
    g.commit_transition(ts[0]);
    assert_eq!(g.domain(c), Some(Domain::Inner));
}

#[test]
fn pinned_cell_does_not_demote_when_observer_retreats() {
    let mut g = grid(cfg());
    let c = CellCoord { x: 0, z: 0 };
    g.materialize(c);
    classify(&mut g, &cfg(), &[observer_at(50.0)]);
    for t in g.take_transitions() {
        g.commit_transition(t);
    }
    classify(&mut g, &cfg(), &[observer_at(-5.0)]);
    for t in g.take_transitions() {
        g.commit_transition(t);
    }
    assert_eq!(g.domain(c), Some(Domain::Inner));
    assert!(g.pin(c, Domain::Inner));
    classify(&mut g, &cfg(), &[observer_at(10000.0)]);
    let ts = g.take_transitions();
    assert!(ts.is_empty(), "pinned Inner cell does not demote when observer retreats");
    assert_eq!(g.domain(c), Some(Domain::Inner));
}

#[test]
fn unpinned_cell_resumes_concentric_classification() {
    let mut g = grid(cfg());
    let c = CellCoord { x: 0, z: 0 };
    g.materialize(c);
    assert!(g.pin(c, Domain::Inner));
    classify(&mut g, &cfg(), &[observer_at(10000.0)]);
    let t = g.take_transitions().into_iter().next().unwrap();
    g.commit_transition(t);
    assert_eq!(g.domain(c), Some(Domain::Inner));
    g.unpin(c);
    classify(&mut g, &cfg(), &[observer_at(10000.0)]);
    let ts = g.take_transitions();
    assert_eq!(ts.len(), 1, "unpinned cell demotes one step via concentric rules");
    assert_eq!(ts[0].to, Domain::Margin);
    g.commit_transition(ts[0]);
    classify(&mut g, &cfg(), &[observer_at(10000.0)]);
    let ts = g.take_transitions();
    assert_eq!(ts.len(), 1, "unpinned cell demotes second step");
    assert_eq!(ts[0].to, Domain::Outer);
}

#[test]
fn pin_outer_keeps_cell_unloaded_while_observer_is_close() {
    let mut g = grid(cfg());
    let c = CellCoord { x: 0, z: 0 };
    g.materialize(c);
    assert!(g.pin(c, Domain::Outer));
    classify(&mut g, &cfg(), &[observer_at(0.0)]);
    let ts = g.take_transitions();
    assert!(ts.is_empty(), "pinned Outer cell does not promote despite nearby observer");
    assert_eq!(g.domain(c), Some(Domain::Outer));
}

#[test]
fn warm_tier_stages_holds_and_cools_on_its_own_bands() {
    let mut g = grid(warm_cfg());
    let far = CellCoord { x: 5, z: 0 };
    g.materialize(far);

    classify(&mut g, &warm_cfg(), &[observer_at(179.0)]);
    assert!(g.take_transitions().is_empty(), "179 < padded warm threshold 180");

    classify(&mut g, &warm_cfg(), &[observer_at(200.0)]);
    let ts = g.take_transitions();
    assert_eq!(ts, vec![Transition { coord: far, from: Domain::Outer, to: Domain::Warm }]);
    g.commit_transition(ts[0]);
    assert_eq!(g.domain(far), Some(Domain::Warm));
    assert_eq!(g.ram_cached(far), Some(true));
    assert_eq!(g.ram_cached_count(), 1);
    assert_eq!(g.alpha(far).map(float), Some(0.0), "RAM residency has no on-screen content");

    for i in 0..100 {
        let center = 160.0 + ((i % 5) as f32 - 2.0) * 8.0;
        classify(&mut g, &warm_cfg(), &[observer_at(center)]);
        assert!(
            g.take_transitions().is_empty(),
            "warm-band frame {i} (center {center}) caused a transition"
        );
    }

    classify(&mut g, &warm_cfg(), &[observer_at(340.0)]);
    let ts = g.take_transitions();
    assert_eq!(ts, vec![Transition { coord: far, from: Domain::Warm, to: Domain::Margin }]);
    g.commit_transition(ts[0]);
    assert_eq!(g.domain(far), Some(Domain::Margin));
    assert_eq!(g.gpu_id(far), None, "executor records ids; pure grid leaves it unset");
    assert_eq!(g.ram_cached_count(), 0, "GPU-resident cells leave the Warm pool count");
    advance(&mut g, 50.0, 100.0);
    assert!((float(g.alpha(far).unwrap()) - 0.5).abs() < 1e-6);

    classify(&mut g, &warm_cfg(), &[observer_at(305.0)]);
    let ts = g.take_transitions();
    assert_eq!(ts, vec![Transition { coord: far, from: Domain::Margin, to: Domain::Warm }]);
    g.commit_transition(ts[0]);
    assert_eq!(g.ram_cached(far), Some(true));

    classify(&mut g, &warm_cfg(), &[observer_at(139.0)]);
    let ts = g.take_transitions();
    assert_eq!(ts, vec![Transition { coord: far, from: Domain::Warm, to: Domain::Outer }]);
    g.commit_transition(ts[0]);
    assert_eq!(g.ram_cached_count(), 0);
}

#[test]
fn sprint_in_skips_warm_staging_entirely() {
    let mut g = grid(warm_cfg());
    let far = CellCoord { x: 5, z: 0 };
    g.materialize(far);
    classify(&mut g, &warm_cfg(), &[observer_at(400.0)]);
    let ts = g.take_transitions();
    assert_eq!(
        ts,
        vec![Transition { coord: far, from: Domain::Outer, to: Domain::Margin }],
        "fast path: sprint-in registers straight away, no RAM staging step"
    );
    g.commit_transition(ts[0]);
    classify(&mut g, &warm_cfg(), &[observer_at(505.0)]);
    let ts = g.take_transitions();
    assert_eq!(ts, vec![Transition { coord: far, from: Domain::Margin, to: Domain::Inner }]);
    g.commit_transition(ts[0]);
    assert_eq!(g.domain(far), Some(Domain::Inner));
}

#[test]
fn warm_cap_holds_staging_until_room_frees() {
    let mut b = budget();
    b.max_ram_cached_cells = 1;
    let mut g = match StreamingGrid::new(warm_cfg(), b, &vec![]) {
        Ok(g) => g,
        Err(e) => panic!("{e:?}"),
    };
    let a = CellCoord { x: 5, z: 0 };
    let c = CellCoord { x: -6, z: 0 };
    g.materialize(a);
    g.materialize(c);

    classify(&mut g, &warm_cfg(), &[observer_at(200.0)]);
    let ts = g.take_transitions();
    assert_eq!(ts, vec![Transition { coord: a, from: Domain::Outer, to: Domain::Warm }]);
    g.commit_transition(ts[0]);

    classify(&mut g, &warm_cfg(), &[observer_at(300.0)]);
    assert!(g.take_transitions().is_empty());

    classify(&mut g, &warm_cfg(), &[observer_at(130.0)]);
    let ts = g.take_transitions();
    assert_eq!(ts, vec![Transition { coord: a, from: Domain::Warm, to: Domain::Outer }]);
    g.commit_transition(ts[0]);
    assert_eq!(g.ram_cached_count(), 0);

    classify(&mut g, &warm_cfg(), &[observer_at(-310.0)]);
    let ts = g.take_transitions();
    assert_eq!(ts, vec![Transition { coord: c, from: Domain::Outer, to: Domain::Warm }]);
    g.commit_transition(ts[0]);
    assert_eq!(g.ram_cached_count(), 1);
}

#[test]
fn a_full_warm_cap_declines_further_staging() {
    let mut b = budget();
    b.max_ram_cached_cells = 1;
    let mut g = match StreamingGrid::new(warm_cfg(), b, &vec![]) {
        Ok(g) => g,
        Err(e) => panic!("{e:?}"),
    };
    g.materialize(CellCoord { x: 5, z: 0 });
    classify(&mut g, &warm_cfg(), &[observer_at(200.0)]);
    for t in g.take_transitions() {
        g.commit_transition(t);
    }
    g.materialize(CellCoord { x: 5, z: 1 });
    classify(&mut g, &warm_cfg(), &[observer_at(200.0)]);
    assert!(g.take_transitions().is_empty(), "the one warm place is taken");
}

#[test]
fn one_classification_warms_up_no_more_cells_than_there_is_room_for() {
    let mut b = budget();
    b.max_ram_cached_cells = 1;
    let mut g = match StreamingGrid::new(warm_cfg(), b, &vec![]) {
        Ok(g) => g,
        Err(e) => panic!("{e:?}"),
    };
    let (first, second) = (CellCoord { x: 5, z: 0 }, CellCoord { x: 5, z: 1 });
    g.materialize(first);
    g.materialize(second);
    classify(&mut g, &warm_cfg(), &[observer_at(200.0)]);
    let ts = g.take_transitions();
    assert_eq!(ts, vec![Transition { coord: first, from: Domain::Outer, to: Domain::Warm }]);
    g.commit_transition(ts[0]);
    assert_eq!(g.ram_cached_count(), 1);
    assert_eq!(g.domain(second), Some(Domain::Outer), "held");

    assert!(g.pin(first, Domain::Outer));
    classify(&mut g, &warm_cfg(), &[observer_at(200.0)]);
    let ts = g.take_transitions();
    assert_eq!(ts, vec![Transition { coord: first, from: Domain::Warm, to: Domain::Outer }]);
    g.commit_transition(ts[0]);
    classify(&mut g, &warm_cfg(), &[observer_at(200.0)]);
    let ts = g.take_transitions();
    assert_eq!(
        ts,
        vec![Transition { coord: second, from: Domain::Outer, to: Domain::Warm }],
        "taken up again once there is room"
    );
}

#[test]
fn pins_take_up_room_without_asking_for_it() {
    let mut b = budget();
    b.max_ram_cached_cells = 1;
    let mut g = match StreamingGrid::new(warm_cfg(), b, &vec![]) {
        Ok(g) => g,
        Err(e) => panic!("{e:?}"),
    };
    let coords: Vec<CellCoord> = (0..3).map(|z| CellCoord { x: 5, z }).collect();
    for c in &coords {
        g.materialize(*c);
    }
    assert!(g.pin(coords[0], Domain::Warm));
    assert!(g.pin(coords[2], Domain::Warm));
    classify(&mut g, &warm_cfg(), &[observer_at(200.0)]);
    let warmed: Vec<CellCoord> = g.take_transitions().iter().map(|t| t.coord).collect();
    assert_eq!(warmed, vec![coords[0], coords[2]], "the unpinned cell is held");
}

#[test]
fn warm_budget_validation_fails_construction() {
    let mut b = budget();
    b.max_ram_cached_cells = b.max_materialized_cells + 1;
    assert_eq!(refusal(cfg(), b, vec![]), BudgetError::RamCapExceedsMaterialized);

    let mut b = budget();
    b.max_ram_cached_cells = 1024;
    b.ram_budget = 1023 * (1 << 20);
    assert_eq!(refusal(cfg(), b, vec![]), BudgetError::RamOverBudget);

    let bad = GridConfig {
        warm: Some(WarmTierConfig {
            radius: single(150.0),
            pad_fraction: single(0.10),
            hysteresis: single(40.0),
        }),
        ..cfg()
    };
    assert_eq!(refusal(bad, budget(), vec![]), BudgetError::WarmRadiusNotBeyondMargin);
}

#[test]
fn pin_to_warm_forces_ram_residency_past_any_observer() {
    let mut g = grid(warm_cfg());
    let c = CellCoord { x: 0, z: 0 };
    g.materialize(c);
    assert!(g.pin(c, Domain::Warm));
    classify(&mut g, &warm_cfg(), &[observer_at(10_000.0)]);
    let ts = g.take_transitions();
    assert_eq!(ts, vec![Transition { coord: c, from: Domain::Outer, to: Domain::Warm }]);
    g.commit_transition(ts[0]);
    assert_eq!(g.ram_cached(c), Some(true));
    classify(&mut g, &warm_cfg(), &[observer_at(10_000.0)]);
    assert!(g.take_transitions().is_empty(), "stays pinned Warm");
}

#[test]
fn tier_off_margin_drops_straight_to_outer_no_warm_rung() {
    let mut g = grid(cfg());
    let far = CellCoord { x: 5, z: 0 };
    g.materialize(far);
    classify(&mut g, &cfg(), &[observer_at(480.0)]);
    let ts = g.take_transitions();
    assert_eq!(ts, vec![Transition { coord: far, from: Domain::Outer, to: Domain::Margin }]);
    g.commit_transition(ts[0]);
    classify(&mut g, &cfg(), &[observer_at(305.0)]);
    let ts = g.take_transitions();
    assert_eq!(
        ts,
        vec![Transition { coord: far, from: Domain::Margin, to: Domain::Outer }],
        "tier off: full teardown at the floor, no intermediate Warm"
    );
    g.commit_transition(ts[0]);
    assert_eq!(g.ram_cached(far), Some(false));
}

#[test]
fn metadata_packs_alpha_and_domain_by_dense_id() {
    let mut g = grid(cfg());
    let a = CellCoord { x: 0, z: 0 };
    g.materialize(a);
    g.materialize(CellCoord { x: 50, z: 50 });
    classify(&mut g, &cfg(), &[observer_at(50.0)]);
    for t in g.take_transitions() {
        g.commit_transition(t);
    }
    advance(&mut g, 50.0, 100.0);
    let data = g.write_cell_metadata(16);
    assert_eq!(data.len(), 16);
    assert_eq!(data[0..4], 0.5f32.to_le_bytes());
    assert_eq!(data[4..8], 1u32.to_le_bytes());
    assert_eq!(data[8..16], [0; 8]);
    assert_eq!(g.upload_count(), 1);
}

#[test]
fn touching_boxes_intersect_and_nan_never_does() {
    let a = aabb([0.0, 0.0, 0.0], [1.0, 1.0, 1.0]);
    let b = aabb([1.0, 0.0, 0.0], [2.0, 1.0, 1.0]);
    let c = aabb([1.5, 0.0, 0.0], [2.0, 1.0, 1.0]);
    let n = aabb([f32::NAN, 0.0, 0.0], [2.0, 1.0, 1.0]);
    assert!(aabb_intersect(&a, &b));
    assert!(!aabb_intersect(&a, &c));
    assert!(!aabb_intersect(&a, &n));
    assert!(any_intersect(&a, &vec![c, b]));
    assert!(!any_intersect(&a, &vec![c, n]));
}

#[test]
fn bit_comparison_is_float_comparison() {
    let values = [
        f32::NEG_INFINITY,
        -1.5,
        -f32::MIN_POSITIVE,
        -0.0,
        0.0,
        f32::MIN_POSITIVE,
        1.0,
        1.5,
        f32::MAX,
        f32::INFINITY,
        f32::NAN,
        -f32::NAN,
    ];
    for a in values {
        for b in values {
            assert_eq!(single(a).le(single(b)), a <= b, "{a} <= {b}");
        }
    }
    assert_eq!(float(single(2.0).lesser(single(-3.0))), -3.0);
    assert_eq!(float(single(2.0).greater(single(-3.0))), 2.0);
    assert_eq!(float(Single::one()), 1.0);
    assert_eq!(float(Single::zero()), 0.0);
}

#[test]
fn cells_near_either_player_promote_and_pins_outlast_both() {
    let budget = StreamingBudget {
        vram_hlod_budget: 256_000_000,
        vram_geometry_budget: 1_000_000_000,
        max_materialized_cells: 1024,
        proxy_mesh_bytes: 4096,
        mean_cell_geometry_bytes: 1_048_576,
        ram_budget: 0,
        max_ram_cached_cells: 0,
    };
    let mut g = match StreamingGrid::new(cfg(), budget, &vec![]) {
        Ok(g) => g,
        Err(e) => panic!("{e:?}"),
    };
    let near = CellCoord { x: 0, z: 0 };
    let other = CellCoord { x: 5, z: 0 };
    let nobody = CellCoord { x: 40, z: 0 };
    for c in [near, other, nobody] {
        g.materialize(c);
    }
    let players = [
        aabb([-10.0, -10.0, -10.0], [10.0, 10.0, 10.0]),
        aabb([490.0, -10.0, -10.0], [510.0, 10.0, 10.0]),
    ];
    classify(&mut g, &cfg(), &players);
    let ts = g.take_transitions();
    assert_eq!(
        ts,
        vec![
            Transition { coord: near, from: Domain::Outer, to: Domain::Margin },
            Transition { coord: other, from: Domain::Outer, to: Domain::Margin },
        ]
    );
    for t in ts {
        g.commit_transition(t);
    }

    classify(&mut g, &cfg(), &[observer_at(5000.0), players[0]]);
    let ts = g.take_transitions();
    assert!(ts.contains(&Transition { coord: near, from: Domain::Margin, to: Domain::Inner }));
    assert!(ts.contains(&Transition { coord: other, from: Domain::Margin, to: Domain::Outer }));

    let pinned = CellCoord { x: 5, z: 3 };
    g.materialize(pinned);
    assert!(g.pin(pinned, Domain::Inner));
    classify(&mut g, &cfg(), &[observer_at(-100_000.0)]);
    assert!(g
        .take_transitions()
        .contains(&Transition { coord: pinned, from: Domain::Outer, to: Domain::Inner }));
    g.unpin(pinned);
    assert_eq!(g.pinned_domain(pinned), Some(None));
    assert_eq!(g.undrained(), 0);
}
