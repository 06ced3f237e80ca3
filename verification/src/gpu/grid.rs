//! The concentric streaming grid: which cells are resident, decided from where the observers are.
//!
//! A cell is `Outer`, `Warm` (cached in system memory, an opt-in tier), `Margin` or `Inner` (both on
//! the device). Zones around the cell, each larger than the one before, are tested against the
//! observers. A promotion looks at a zone that is smaller than the one the demotion back looks at;
//! between the two lies a band in which nothing happens, so an observer that jitters there causes no
//! transition. Classification only queues transitions; they take effect when they are committed.
use crate::gpu::scene_store::{CellId, RegionClassConfig};
use crate::gpu::single::{any_intersect, Aabb, Single};
use std::collections::HashMap;
use vstd::prelude::*;

verus! {

use crate::gpu::single::{any_intersects, contains_box, intersects, law_larger_box_is_touched_too};

broadcast use vstd::std_specs::hash::group_hash_axioms;

/// The tunables of the grid.
#[derive(Clone, Copy, Debug)]
pub struct GridConfig {
    pub cell_width: Single,
    /// World units beyond the inner zone that count as `Margin`.
    pub margin_radius: Single,
    /// How far a promotion zone stands out, as a fraction of the cell width.
    pub pad_fraction: Single,
    /// How much further a demotion zone stands out.
    pub hysteresis: Single,
    /// The system-memory tier, if it is on.
    pub warm: Option<WarmTierConfig>,
}

/// The tunables of the system-memory tier.
#[derive(Clone, Copy, Debug)]
pub struct WarmTierConfig {
    pub radius: Single,
    pub pad_fraction: Single,
    pub hysteresis: Single,
}

/// The coordinate of a cell.
#[derive(Clone, Copy, Debug, PartialEq, Eq, Hash, Structural)]
pub struct CellCoord {
    pub x: i32,
    pub z: i32,
}

/// Where a cell is resident.
#[derive(Clone, Copy, Debug, PartialEq, Eq, Structural)]
pub enum Domain {
    Inner,
    Margin,
    Warm,
    Outer,
}

impl Domain {
    /// How resident: `Outer`, `Warm`, `Margin`, `Inner`.
    pub open spec fn rank(self) -> int {
        match self {
            Domain::Outer => 0,
            Domain::Warm => 1,
            Domain::Margin => 2,
            Domain::Inner => 3,
        }
    }

    /// On the device.
    pub open spec fn on_gpu(self) -> bool {
        self == Domain::Margin || self == Domain::Inner
    }

    /// Whether a cell of this domain is on the device.
    pub fn is_gpu_resident(self) -> (resident: bool)
        ensures
            resident == self.on_gpu(),
    {
        match self {
            Domain::Margin | Domain::Inner => true,
            _ => false,
        }
    }

    /// The code shaders see: a cell that is not on the device is 0.
    pub open spec fn code(self) -> u32 {
        match self {
            Domain::Outer => 0,
            Domain::Warm => 0,
            Domain::Margin => 1,
            Domain::Inner => 2,
        }
    }
}

/// How resident a domain is.
fn domain_rank(d: Domain) -> (rank: u8)
    ensures
        rank == d.rank(),
{
    match d {
        Domain::Outer => 0,
        Domain::Warm => 1,
        Domain::Margin => 2,
        Domain::Inner => 3,
    }
}

/// A queued change of one cell's domain.
#[derive(Clone, Copy, Debug, PartialEq, Eq, Structural)]
pub struct Transition {
    pub coord: CellCoord,
    pub from: Domain,
    pub to: Domain,
}

/// What the grid may use.
#[derive(Clone, Copy, Debug)]
pub struct StreamingBudget {
    pub vram_hlod_budget: u64,
    pub vram_geometry_budget: u64,
    /// The most cells that are ever materialized at once.
    pub max_materialized_cells: u32,
    pub proxy_mesh_bytes: u64,
    pub mean_cell_geometry_bytes: u64,
    /// System memory for warm cells.
    pub ram_budget: u64,
    /// The most cells that are warmed up at once. A cell beyond it is held back until there is room;
    /// pinned cells, and cells on their way out of the device, are not.
    pub max_ram_cached_cells: u32,
}

/// Why a grid was not made.
#[derive(Clone, Copy, Debug, PartialEq, Eq, Structural)]
pub enum BudgetError {
    HlodOverBudget,
    GeometryOverBudget,
    RamOverBudget,
    /// More warm cells than materialized ones.
    RamCapExceedsMaterialized,
    /// The warm zone does not lie beyond the margin.
    WarmRadiusNotBeyondMargin,
}

/// The cells that may be resident, all classes together.
pub open spec fn resident_cells(classes: Seq<RegionClassConfig>, n: int) -> int
    decreases n,
{
    if n <= 0 {
        0
    } else {
        resident_cells(classes, n - 1) + classes[n - 1].max_resident_cells
    }
}

/// What a budget fails on first, if it does.
pub open spec fn budget_error(
    cfg: GridConfig,
    budget: StreamingBudget,
    classes: Seq<RegionClassConfig>,
) -> Option<BudgetError> {
    if budget.max_materialized_cells * budget.proxy_mesh_bytes > budget.vram_hlod_budget {
        Some(BudgetError::HlodOverBudget)
    } else if resident_cells(classes, classes.len() as int) * budget.mean_cell_geometry_bytes
        > budget.vram_geometry_budget {
        Some(BudgetError::GeometryOverBudget)
    } else if budget.max_ram_cached_cells > budget.max_materialized_cells {
        Some(BudgetError::RamCapExceedsMaterialized)
    } else if budget.max_ram_cached_cells * budget.mean_cell_geometry_bytes > budget.ram_budget {
        Some(BudgetError::RamOverBudget)
    } else if cfg.warm matches Some(warm) && warm.radius.at_most(cfg.margin_radius) {
        Some(BudgetError::WarmRadiusNotBeyondMargin)
    } else {
        None
    }
}

/// The zones around a cell.
#[derive(Clone, Copy, Debug)]
pub struct CellZones {
    pub inner_promote: Aabb,
    pub inner_demote: Aabb,
    pub margin_promote: Aabb,
    pub margin_demote: Aabb,
    pub warm_promote: Aabb,
    pub warm_demote: Aabb,
}

/// One materialized cell.
#[derive(Clone, Copy, Debug, PartialEq, Eq, Structural)]
pub struct GridCell {
    pub coord: CellCoord,
    pub domain: Domain,
    /// Where the cell is held, whatever the observers do.
    pub pinned: Option<Domain>,
    /// How far it is faded in.
    pub alpha: Single,
    /// Whether it is to be faded in or out.
    pub fade_in: bool,
    /// Its regions on the device.
    pub gpu_id: Option<CellId>,
}

/// What a grid holds. The dense id of a cell is its place among the cells.
#[verifier::ext_equal]
pub struct GridState {
    pub cfg: GridConfig,
    pub cells: Seq<GridCell>,
    pub transitions: Seq<Transition>,
    pub warm_cap: u32,
    pub warm_count: u32,
    pub upload_count: u64,
}

/// Whether `coord` is materialized.
pub open spec fn is_tracked(cells: Seq<GridCell>, coord: CellCoord) -> bool {
    exists|i: int| 0 <= i < cells.len() && (#[trigger] cells[i]).coord == coord
}

/// The dense id of `coord`.
pub open spec fn dense_at(cells: Seq<GridCell>, coord: CellCoord) -> int {
    choose|i: int| 0 <= i < cells.len() && (#[trigger] cells[i]).coord == coord
}

/// How many of the first `n` cells are warm.
pub open spec fn warm_cells(cells: Seq<GridCell>, n: int) -> int
    decreases n,
{
    if n <= 0 {
        0
    } else if cells[n - 1].domain == Domain::Warm {
        warm_cells(cells, n - 1) + 1
    } else {
        warm_cells(cells, n - 1)
    }
}

/// Where the concentric rules take a cell: at most one step, from its committed domain. `warm` tells
/// whether the system-memory tier is on, `room` whether it has room.
pub open spec fn next_domain(
    domain: Domain,
    warm: bool,
    room: bool,
    zones: CellZones,
    observers: Seq<Aabb>,
) -> Option<Domain> {
    match domain {
        Domain::Outer => if any_intersects(zones.margin_promote, observers) {
            Some(Domain::Margin)
        } else if warm && room && any_intersects(zones.warm_promote, observers) {
            Some(Domain::Warm)
        } else {
            None
        },
        Domain::Warm => if !warm {
            Some(Domain::Outer)
        } else if any_intersects(zones.margin_promote, observers) {
            Some(Domain::Margin)
        } else if !any_intersects(zones.warm_demote, observers) {
            Some(Domain::Outer)
        } else {
            None
        },
        Domain::Margin => if any_intersects(zones.inner_promote, observers) {
            Some(Domain::Inner)
        } else if !any_intersects(zones.margin_demote, observers) {
            Some(
                if warm {
                    Domain::Warm
                } else {
                    Domain::Outer
                },
            )
        } else {
            None
        },
        Domain::Inner => if !any_intersects(zones.inner_demote, observers) {
            Some(Domain::Margin)
        } else {
            None
        },
    }
}

/// Where a cell goes: to its pin, or as the concentric rules say.
pub open spec fn wanted(
    cell: GridCell,
    warm: bool,
    room: bool,
    zones: CellZones,
    observers: Seq<Aabb>,
) -> Option<Domain> {
    match cell.pinned {
        Some(pin) => if cell.domain != pin {
            Some(pin)
        } else {
            None
        },
        None => next_domain(cell.domain, warm, room, zones, observers),
    }
}

/// Whether a transition warms a cell up.
pub open spec fn warms_up(t: Transition) -> bool {
    t.from == Domain::Outer && t.to == Domain::Warm
}

/// How many of the transitions warm a cell up.
pub open spec fn staged(queue: Seq<Transition>) -> int
    decreases queue.len(),
{
    if queue.len() == 0 {
        0
    } else if warms_up(queue.last()) {
        staged(queue.drop_last()) + 1
    } else {
        staged(queue.drop_last())
    }
}

/// Whether the system-memory tier has room for another cell, besides the warm cells and those that
/// are to be warmed up.
pub open spec fn has_room(state: GridState, queue: Seq<Transition>) -> bool {
    state.warm_count + staged(queue) < state.warm_cap
}

/// The transitions of the first `n` cells, in dense order. Each cell that is warmed up takes up room
/// at once.
pub open spec fn classified(
    state: GridState,
    zones: Seq<CellZones>,
    observers: Seq<Aabb>,
    n: int,
) -> Seq<Transition>
    decreases n,
{
    if n <= 0 {
        seq![]
    } else {
        let front = classified(state, zones, observers, n - 1);
        let cell = state.cells[n - 1];
        match wanted(
            cell,
            state.cfg.warm is Some,
            has_room(state, front),
            zones[n - 1],
            observers,
        ) {
            Some(to) => front.push(Transition { coord: cell.coord, from: cell.domain, to }),
            None => front,
        }
    }
}

impl GridState {
    /// Coordinates are distinct, the warm count is right, and the queue names tracked cells, each
    /// once.
    pub open spec fn consistent(self) -> bool {
        &&& self.cells.len() <= u32::MAX
        &&& forall|i: int, j: int|
            #![trigger self.cells[i], self.cells[j]]
            0 <= i < j < self.cells.len() ==> self.cells[i].coord != self.cells[j].coord
        &&& self.warm_count == warm_cells(self.cells, self.cells.len() as int)
        &&& self.transitions.len() <= self.cells.len()
        &&& forall|i: int|
            0 <= i < self.transitions.len() ==> is_tracked(
                self.cells,
                (#[trigger] self.transitions[i]).coord,
            )
        &&& forall|i: int, j: int|
            #![trigger self.transitions[i], self.transitions[j]]
            0 <= i < j < self.transitions.len() ==> self.transitions[i].coord
                != self.transitions[j].coord
    }

    /// The state with another value for the cell of `coord`.
    pub open spec fn with_cell(self, coord: CellCoord, cell: GridCell) -> GridState {
        GridState { cells: self.cells.update(dense_at(self.cells, coord), cell), ..self }
    }

    /// The cell of `coord`.
    pub open spec fn cell(self, coord: CellCoord) -> GridCell {
        self.cells[dense_at(self.cells, coord)]
    }

    /// The state after a transition took effect.
    pub open spec fn committed(self, t: Transition) -> GridState {
        if is_tracked(self.cells, t.coord) {
            let cell = self.cell(t.coord);
            let left = if cell.domain == Domain::Warm {
                self.warm_count - 1
            } else {
                self.warm_count as int
            };
            GridState {
                warm_count: (if t.to == Domain::Warm {
                    left + 1
                } else {
                    left
                }) as u32,
                ..self.with_cell(
                    t.coord,
                    GridCell {
                        domain: t.to,
                        fade_in: t.to.on_gpu() && t.to.rank() > t.from.rank(),
                        ..cell
                    },
                )
            }
        } else {
            self
        }
    }

    /// The state with regions recorded or cleared.
    pub open spec fn with_gpu_id(self, coord: CellCoord, id: Option<CellId>) -> GridState {
        if is_tracked(self.cells, coord) {
            self.with_cell(coord, GridCell { gpu_id: id, ..self.cell(coord) })
        } else {
            self
        }
    }
}

/// A coordinate as one number.
pub open spec fn packed(coord: CellCoord) -> int {
    (coord.x + 0x8000_0000) * 0x1_0000_0000 + (coord.z + 0x8000_0000)
}

fn pack(coord: CellCoord) -> (key: u64)
    ensures
        key == packed(coord),
{
    let x: u64 = (coord.x as i64 + 0x8000_0000i64) as u64;
    let z: u64 = (coord.z as i64 + 0x8000_0000i64) as u64;
    x * 0x1_0000_0000u64 + z
}

/// The streaming grid.
pub struct StreamingGrid {
    cfg: GridConfig,
    cells: Vec<GridCell>,
    index: HashMap<u64, u32>,
    transitions: Vec<Transition>,
    warm_cap: u32,
    warm_count: u32,
    upload_count: u64,
}

impl View for StreamingGrid {
    type V = GridState;

    closed spec fn view(&self) -> GridState {
        GridState {
            cfg: self.cfg,
            cells: self.cells@,
            transitions: self.transitions@,
            warm_cap: self.warm_cap,
            warm_count: self.warm_count,
            upload_count: self.upload_count,
        }
    }
}

impl StreamingGrid {
    /// The invariant every operation keeps.
    pub closed spec fn wf(&self) -> bool {
        &&& self@.consistent()
        &&& forall|i: int|
            0 <= i < self.cells@.len() ==> self.index@.contains_key(
                packed((#[trigger] self.cells@[i]).coord) as u64,
            ) && self.index@[packed(self.cells@[i].coord) as u64] == i
        &&& forall|key: u64| #[trigger]
            self.index@.contains_key(key) ==> self.index@[key] < self.cells@.len() && packed(
                self.cells@[self.index@[key] as int].coord,
            ) == key
    }

    /// The invariant gives a consistent state.
    pub proof fn lemma_wf(&self)
        requires
            self.wf(),
        ensures
            self@.consistent(),
    {
    }

    /// A grid without cells, if the budget holds.
    pub fn new(
        cfg: GridConfig,
        budget: StreamingBudget,
        inner_classes: &Vec<RegionClassConfig>,
    ) -> (r: Result<Self, BudgetError>)
        ensures
            match r {
                Ok(grid) => {
                    &&& budget_error(cfg, budget, inner_classes@) is None
                    &&& grid.wf()
                    &&& grid@ == (GridState {
                        cfg,
                        cells: seq![],
                        transitions: seq![],
                        warm_cap: budget.max_ram_cached_cells,
                        warm_count: 0,
                        upload_count: 0,
                    })
                },
                Err(e) => budget_error(cfg, budget, inner_classes@) == Some(e),
            },
    {
        proof {
            lemma_product_fits(
                budget.max_materialized_cells as int,
                budget.proxy_mesh_bytes as int,
            );
            lemma_product_fits(
                budget.max_ram_cached_cells as int,
                budget.mean_cell_geometry_bytes as int,
            );
        }
        if budget.max_materialized_cells as u128 * budget.proxy_mesh_bytes as u128
            > budget.vram_hlod_budget as u128 {
            return Err(BudgetError::HlodOverBudget);
        }
        let mut resident: u128 = 0;
        let mut i: usize = 0;
        while i < inner_classes.len()
            invariant
                i <= inner_classes@.len(),
                resident == resident_cells(inner_classes@, i as int),
                resident <= i * u32::MAX,
            decreases inner_classes@.len() - i,
        {
            resident = resident + inner_classes[i].max_resident_cells as u128;
            i = i + 1;
        }
        let mean: u64 = budget.mean_cell_geometry_bytes;
        proof {
            lemma_product_exceeds(
                resident as int,
                mean as int,
                budget.vram_geometry_budget as int,
            );
        }
        if mean > 0 && resident > (budget.vram_geometry_budget / mean) as u128 {
            return Err(BudgetError::GeometryOverBudget);
        }
        if budget.max_ram_cached_cells > budget.max_materialized_cells {
            return Err(BudgetError::RamCapExceedsMaterialized);
        }
        if budget.max_ram_cached_cells as u128 * budget.mean_cell_geometry_bytes as u128
            > budget.ram_budget as u128 {
            return Err(BudgetError::RamOverBudget);
        }
        match cfg.warm {
            Some(warm) => {
                if warm.radius.le(cfg.margin_radius) {
                    return Err(BudgetError::WarmRadiusNotBeyondMargin);
                }
            },
            None => {},
        }
        let grid = StreamingGrid {
            cfg,
            cells: Vec::new(),
            index: HashMap::new(),
            transitions: Vec::new(),
            warm_cap: budget.max_ram_cached_cells,
            warm_count: 0,
            upload_count: 0,
        };
        assert(grid@.cells =~= seq![]);
        assert(grid@.transitions =~= seq![]);
        Ok(grid)
    }

    fn find(&self, coord: CellCoord) -> (at: Option<usize>)
        requires
            self.wf(),
        ensures
            match at {
                Some(i) => is_tracked(self@.cells, coord) && i == dense_at(self@.cells, coord) && i
                    < self@.cells.len() && self@.cells[i as int].coord == coord,
                None => !is_tracked(self@.cells, coord),
            },
    {
        let key: u64 = pack(coord);
        match self.index.get(&key) {
            Some(i) => {
                let at: usize = *i as usize;
                proof {
                    assert(self.index@.contains_key(key));
                    lemma_packed(self.cells@[at as int].coord, coord);
                    assert(self@.cells[at as int].coord == coord);
                    let k = dense_at(self@.cells, coord);
                    assert(self@.cells[k].coord == coord);
                    if k < at {
                        assert(self@.cells[k].coord != self@.cells[at as int].coord);
                    } else if at < k {
                        assert(self@.cells[at as int].coord != self@.cells[k].coord);
                    }
                }
                Some(at)
            },
            None => {
                proof {
                    if is_tracked(self@.cells, coord) {
                        let k = dense_at(self@.cells, coord);
                        assert(self.cells@[k].coord == coord);
                    }
                }
                None
            },
        }
    }

    /// Tracks a cell, `Outer` at first, and returns its dense id. A cell already tracked keeps its id
    /// and its state.
    pub fn materialize(&mut self, coord: CellCoord) -> (id: u32)
        requires
            old(self).wf(),
            is_tracked(old(self)@.cells, coord) || old(self)@.cells.len() < u32::MAX,
        ensures
            final(self).wf(),
            is_tracked(old(self)@.cells, coord) ==> id == dense_at(old(self)@.cells, coord)
                && final(self)@ == old(self)@,
            !is_tracked(old(self)@.cells, coord) ==> id == old(self)@.cells.len() && final(self)@
                == (GridState {
                cells: old(self)@.cells.push(
                    GridCell {
                        coord,
                        domain: Domain::Outer,
                        pinned: None,
                        alpha: (Single { bits: 0 }),
                        fade_in: false,
                        gpu_id: None,
                    },
                ),
                ..old(self)@
            }),
    {
        match self.find(coord) {
            Some(at) => at as u32,
            None => {
                let ghost before = *self;
                let id: u32 = self.cells.len() as u32;
                let key: u64 = pack(coord);
                self.index.insert(key, id);
                self.cells.push(
                    GridCell {
                        coord,
                        domain: Domain::Outer,
                        pinned: None,
                        alpha: Single::zero(),
                        fade_in: false,
                        gpu_id: None,
                    },
                );
                proof {
                    lemma_materialized(before@, self@);
                    assert forall|i: int| 0 <= i < self.cells@.len() implies self.index@.contains_key(
                        packed((#[trigger] self.cells@[i]).coord) as u64,
                    ) && self.index@[packed(self.cells@[i].coord) as u64] == i by {
                        if i < before.cells@.len() {
                            assert(before.cells@[i].coord != coord);
                            lemma_packed(before.cells@[i].coord, coord);
                        }
                    }
                    assert forall|other: u64| #[trigger]
                        self.index@.contains_key(other) implies self.index@[other]
                        < self.cells@.len() && packed(
                        self.cells@[self.index@[other] as int].coord,
                    ) == other by {
                        if other != key {
                            assert(before.index@.contains_key(other));
                        }
                    }
                }
                id
            },
        }
    }

    /// The committed domain of a cell.
    pub fn domain(&self, coord: CellCoord) -> (domain: Option<Domain>)
        requires
            self.wf(),
        ensures
            domain == if is_tracked(self@.cells, coord) {
                Some(self@.cell(coord).domain)
            } else {
                None
            },
    {
        match self.find(coord) {
            Some(at) => Some(self.cells[at].domain),
            None => None,
        }
    }

    /// How far a cell is faded in.
    pub fn alpha(&self, coord: CellCoord) -> (alpha: Option<Single>)
        requires
            self.wf(),
        ensures
            alpha == if is_tracked(self@.cells, coord) {
                Some(self@.cell(coord).alpha)
            } else {
                None
            },
    {
        match self.find(coord) {
            Some(at) => Some(self.cells[at].alpha),
            None => None,
        }
    }

    /// The dense id of a cell.
    pub fn dense_id(&self, coord: CellCoord) -> (id: Option<u32>)
        requires
            self.wf(),
        ensures
            id == if is_tracked(self@.cells, coord) {
                Some(dense_at(self@.cells, coord) as u32)
            } else {
                None
            },
    {
        match self.find(coord) {
            Some(at) => Some(at as u32),
            None => None,
        }
    }

    /// The coordinate of a dense id, in the order cells were materialized.
    pub fn coord_of(&self, id: u32) -> (coord: Option<CellCoord>)
        ensures
            coord == if id < self@.cells.len() {
                Some(self@.cells[id as int].coord)
            } else {
                None
            },
    {
        if (id as usize) < self.cells.len() {
            Some(self.cells[id as usize].coord)
        } else {
            None
        }
    }

    /// How many cells are materialized.
    pub fn cell_count(&self) -> (n: usize)
        ensures
            n == self@.cells.len(),
    {
        self.cells.len()
    }

    /// Holds a cell at `domain`, whatever the observers do. False if the cell is not tracked.
    pub fn pin(&mut self, coord: CellCoord, domain: Domain) -> (pinned: bool)
        requires
            old(self).wf(),
        ensures
            final(self).wf(),
            pinned == is_tracked(old(self)@.cells, coord),
            pinned ==> final(self)@ == old(self)@.with_cell(
                coord,
                GridCell { pinned: Some(domain), ..old(self)@.cell(coord) },
            ),
            !pinned ==> final(self)@ == old(self)@,
    {
        match self.find(coord) {
            Some(at) => {
                let cell: GridCell = self.cells[at];
                self.put(at, GridCell { pinned: Some(domain), ..cell });
                true
            },
            None => false,
        }
    }

    /// Lets a cell follow the observers again. Nothing happens if it is not tracked.
    pub fn unpin(&mut self, coord: CellCoord)
        requires
            old(self).wf(),
        ensures
            final(self).wf(),
            final(self)@ == if is_tracked(old(self)@.cells, coord) {
                old(self)@.with_cell(coord, GridCell { pinned: None, ..old(self)@.cell(coord) })
            } else {
                old(self)@
            },
    {
        match self.find(coord) {
            Some(at) => {
                let cell: GridCell = self.cells[at];
                self.put(at, GridCell { pinned: None, ..cell });
            },
            None => {},
        }
    }

    /// The pin of a tracked cell.
    pub fn pinned_domain(&self, coord: CellCoord) -> (pin: Option<Option<Domain>>)
        requires
            self.wf(),
        ensures
            pin == if is_tracked(self@.cells, coord) {
                Some(self@.cell(coord).pinned)
            } else {
                None
            },
    {
        match self.find(coord) {
            Some(at) => Some(self.cells[at].pinned),
            None => None,
        }
    }

    /// The regions of a cell on the device.
    pub fn gpu_id(&self, coord: CellCoord) -> (id: Option<CellId>)
        requires
            self.wf(),
        ensures
            id == if is_tracked(self@.cells, coord) {
                self@.cell(coord).gpu_id
            } else {
                None
            },
    {
        match self.find(coord) {
            Some(at) => self.cells[at].gpu_id,
            None => None,
        }
    }

    /// Records or clears the regions of a cell. Nothing happens if it is not tracked.
    pub fn set_gpu_id(&mut self, coord: CellCoord, id: Option<CellId>)
        requires
            old(self).wf(),
        ensures
            final(self).wf(),
            final(self)@ == old(self)@.with_gpu_id(coord, id),
    {
        match self.find(coord) {
            Some(at) => {
                let cell: GridCell = self.cells[at];
                self.put(at, GridCell { gpu_id: id, ..cell });
            },
            None => {},
        }
    }

    /// Whether a tracked cell is cached in system memory.
    pub fn ram_cached(&self, coord: CellCoord) -> (cached: Option<bool>)
        requires
            self.wf(),
        ensures
            cached == if is_tracked(self@.cells, coord) {
                Some(self@.cell(coord).domain == Domain::Warm)
            } else {
                None
            },
    {
        match self.find(coord) {
            Some(at) => Some(self.cells[at].domain == Domain::Warm),
            None => None,
        }
    }

    /// How many cells are cached in system memory.
    pub fn ram_cached_count(&self) -> (n: u32)
        requires
            self.wf(),
        ensures
            n == warm_cells(self@.cells, self@.cells.len() as int),
    {
        self.warm_count
    }

    /// Replaces a cell by one of the same coordinate and domain.
    fn put(&mut self, at: usize, cell: GridCell)
        requires
            old(self).wf(),
            at < old(self)@.cells.len(),
            cell.coord == old(self)@.cells[at as int].coord,
            cell.domain == old(self)@.cells[at as int].domain,
        ensures
            final(self).wf(),
            final(self)@ == (GridState {
                cells: old(self)@.cells.update(at as int, cell),
                ..old(self)@
            }),
    {
        let ghost before = *self;
        self.cells.set(at, cell);
        proof {
            lemma_warm_update(before@.cells, at as int, cell, before@.cells.len() as int);
            lemma_cell_replaced(before@, self@, at as int);
            assert forall|i: int| 0 <= i < self.cells@.len() implies self.index@.contains_key(
                packed((#[trigger] self.cells@[i]).coord) as u64,
            ) && self.index@[packed(self.cells@[i].coord) as u64] == i by {
                assert(self.cells@[i].coord == before.cells@[i].coord);
            }
        }
    }

    /// Queues where each cell goes, given the zones around it (`zones` in dense order) and the
    /// observers. The queue must have been drained; nothing takes effect yet.
    pub fn classify(&mut self, zones: &Vec<CellZones>, observers: &Vec<Aabb>)
        requires
            old(self).wf(),
            old(self)@.transitions.len() == 0,
            zones@.len() == old(self)@.cells.len(),
        ensures
            final(self).wf(),
            final(self)@ == (GridState {
                transitions: classified(
                    old(self)@,
                    zones@,
                    observers@,
                    old(self)@.cells.len() as int,
                ),
                ..old(self)@
            }),
    {
        let ghost before = *self;
        let ghost state = self@;
        let warm: bool = self.cfg.warm.is_some();
        let mut taken: u64 = self.warm_count as u64;
        let mut i: usize = 0;
        assert(self.transitions@ =~= seq![]);
        while i < self.cells.len()
            invariant
                i <= self.cells@.len(),
                self.cells@ == state.cells,
                self.index == before.index,
                zones@.len() == state.cells.len(),
                warm == (state.cfg.warm is Some),
                state.cells.len() <= u32::MAX,
                taken == state.warm_count + staged(self.transitions@),
                taken <= state.warm_count + i,
                self@ == (GridState { transitions: self.transitions@, ..state }),
                self.transitions@ == classified(state, zones@, observers@, i as int),
            decreases self.cells@.len() - i,
        {
            let cell: GridCell = self.cells[i];
            let room: bool = taken < self.warm_cap as u64;
            let ghost front = self.transitions@;
            let to: Option<Domain> = match cell.pinned {
                Some(pin) => if cell.domain != pin {
                    Some(pin)
                } else {
                    None
                },
                None => step(cell.domain, warm, room, &zones[i], observers),
            };
            match to {
                Some(to) => {
                    self.transitions.push(
                        Transition { coord: cell.coord, from: cell.domain, to },
                    );
                    assert(self.transitions@.drop_last() =~= front);
                    if cell.domain == Domain::Outer && to == Domain::Warm {
                        taken = taken + 1;
                    }
                },
                None => {},
            }
            i = i + 1;
        }
        proof {
            law_one_transition_per_cell(state, zones@, observers@);
            assert(self@ =~= GridState {
                transitions: classified(state, zones@, observers@, state.cells.len() as int),
                ..state
            });
            assert(self@.consistent());
        }
    }

    /// The queued transitions, in order.
    pub fn queued(&self) -> (transitions: &Vec<Transition>)
        ensures
            transitions@ == self@.transitions,
    {
        &self.transitions
    }

    /// How many transitions are queued.
    pub fn undrained(&self) -> (n: usize)
        ensures
            n == self@.transitions.len(),
    {
        self.transitions.len()
    }

    /// Hands out the queued transitions and empties the queue.
    pub fn take_transitions(&mut self) -> (transitions: Vec<Transition>)
        requires
            old(self).wf(),
        ensures
            final(self).wf(),
            transitions@ == old(self)@.transitions,
            final(self)@ == (GridState { transitions: seq![], ..old(self)@ }),
    {
        let mut transitions: Vec<Transition> = Vec::new();
        std::mem::swap(&mut transitions, &mut self.transitions);
        assert(self.transitions@ =~= seq![]);
        assert(self@.consistent());
        transitions
    }

    /// Makes a transition take effect: the domain, whether the cell fades in (only when it enters
    /// the device) or out, and the warm count. Nothing happens if the cell is not tracked.
    pub fn commit_transition(&mut self, t: Transition)
        requires
            old(self).wf(),
        ensures
            final(self).wf(),
            final(self)@ == old(self)@.committed(t),
    {
        match self.find(t.coord) {
            Some(at) => {
                let ghost before = *self;
                let cell: GridCell = self.cells[at];
                proof {
                    lemma_warm_bound(before@.cells, before@.cells.len() as int);
                    if cell.domain == Domain::Warm {
                        lemma_warm_at(before@.cells, at as int, before@.cells.len() as int);
                    }
                }
                let fade_in: bool = t.to.is_gpu_resident() && domain_rank(t.to) > domain_rank(
                    t.from,
                );
                let new = GridCell { domain: t.to, fade_in, ..cell };
                proof {
                    lemma_warm_update(before@.cells, at as int, new, before@.cells.len() as int);
                    lemma_warm_bound(
                        before@.cells.update(at as int, new),
                        before@.cells.len() as int,
                    );
                }
                if cell.domain == Domain::Warm {
                    self.warm_count = self.warm_count - 1;
                }
                if t.to == Domain::Warm {
                    self.warm_count = self.warm_count + 1;
                }
                self.cells.set(at, new);
                proof {
                    assert(self@ =~= before@.committed(t));
                    lemma_cell_replaced(before@, self@, at as int);
                    assert forall|i: int| 0 <= i < self.cells@.len() implies self.index@.contains_key(
                        packed((#[trigger] self.cells@[i]).coord) as u64,
                    ) && self.index@[packed(self.cells@[i].coord) as u64] == i by {
                        assert(self.cells@[i].coord == before.cells@[i].coord);
                    }
                }
            },
            None => {},
        }
    }

    /// Moves each cell's fade toward its target: `raised` and `lowered` hold, in dense order, the
    /// fade plus and minus the step. No fade passes its target or leaves `[0, 1]`.
    pub fn advance_crossfade(&mut self, raised: &Vec<Single>, lowered: &Vec<Single>)
        requires
            old(self).wf(),
            raised@.len() == old(self)@.cells.len(),
            lowered@.len() == old(self)@.cells.len(),
        ensures
            final(self).wf(),
            final(self)@ == (GridState {
                cells: Seq::new(
                    old(self)@.cells.len(),
                    |i: int| faded(old(self)@.cells[i], raised@[i], lowered@[i]),
                ),
                ..old(self)@
            }),
    {
        let ghost state = self@;
        let mut i: usize = 0;
        while i < self.cells.len()
            invariant
                i <= self.cells@.len(),
                self.cells@.len() == state.cells.len(),
                raised@.len() == state.cells.len(),
                lowered@.len() == state.cells.len(),
                self.wf(),
                self@ == (GridState { cells: self@.cells, ..state }),
                forall|k: int|
                    0 <= k < self.cells@.len() ==> (#[trigger] self@.cells[k]) == if k < i {
                        faded(state.cells[k], raised@[k], lowered@[k])
                    } else {
                        state.cells[k]
                    },
            decreases self.cells@.len() - i,
        {
            let cell: GridCell = self.cells[i];
            assert(self@.cells[i as int] == state.cells[i as int]);
            let alpha: Single = fade(cell.alpha, cell.fade_in, raised[i], lowered[i]);
            self.put(i, GridCell { alpha, ..cell });
            i = i + 1;
        }
        assert(self@.cells =~= Seq::new(
            state.cells.len(),
            |i: int| faded(state.cells[i], raised@[i], lowered@[i]),
        ));
    }

    /// The fade of each cell and whether it is to fade in, in dense order.
    pub fn fades(&self) -> (fades: Vec<(Single, bool)>)
        ensures
            fades@ == Seq::new(
                self@.cells.len(),
                |i: int| (self@.cells[i].alpha, self@.cells[i].fade_in),
            ),
    {
        let mut fades: Vec<(Single, bool)> = Vec::new();
        let mut i: usize = 0;
        while i < self.cells.len()
            invariant
                i <= self.cells@.len(),
                fades@ == Seq::new(
                    i as nat,
                    |i: int| (self@.cells[i].alpha, self@.cells[i].fade_in),
                ),
            decreases self.cells@.len() - i,
        {
            fades.push((self.cells[i].alpha, self.cells[i].fade_in));
            i = i + 1;
            assert(fades@ =~= Seq::new(
                i as nat,
                |i: int| (self@.cells[i].alpha, self@.cells[i].fade_in),
            ));
        }
        fades
    }

    /// The metadata records of all cells, eight bytes each in dense order: the fade, then the
    /// domain's code, both with the low byte first. They must fit the buffer's `size` bytes.
    pub fn write_cell_metadata(&mut self, size: u64) -> (data: Vec<u8>)
        requires
            old(self).wf(),
            8 * old(self)@.cells.len() <= size,
            8 * old(self)@.cells.len() <= usize::MAX,
        ensures
            final(self).wf(),
            data@ == metadata(old(self)@.cells, old(self)@.cells.len() as int),
            data@.len() == 8 * old(self)@.cells.len(),
            final(self)@ == (GridState {
                upload_count: crate::gpu::dynamic_buffer::next_epoch(old(self)@.upload_count),
                ..old(self)@
            }),
    {
        let ghost before = *self;
        let mut data: Vec<u8> = Vec::new();
        let mut i: usize = 0;
        while i < self.cells.len()
            invariant
                i <= self.cells@.len(),
                data@ == metadata(self@.cells, i as int),
                data@.len() == 8 * i,
                *self == before,
            decreases self.cells@.len() - i,
        {
            let cell: GridCell = self.cells[i];
            let code: u32 = match cell.domain {
                Domain::Outer | Domain::Warm => 0,
                Domain::Margin => 1,
                Domain::Inner => 2,
            };
            push_word(&mut data, cell.alpha.bits);
            push_word(&mut data, code);
            assert(data@ =~= metadata(self@.cells, i as int) + (word_bytes(cell.alpha.bits)
                + word_bytes(code)));
            i = i + 1;
        }
        self.upload_count = self.upload_count.wrapping_add(1);
        assert(self@.consistent());
        data
    }

    /// How often the metadata was written; the counter wraps.
    pub fn upload_count(&self) -> (n: u64)
        ensures
            n == self@.upload_count,
    {
        self.upload_count
    }
}

/// A cell after one step of its fade.
pub open spec fn faded(cell: GridCell, raised: Single, lowered: Single) -> GridCell {
    GridCell { alpha: fade_to(cell.alpha, cell.fade_in, raised, lowered), ..cell }
}

/// The target of a fade.
pub open spec fn fade_target(fade_in: bool) -> Single {
    if fade_in {
        Single { bits: 0x3f80_0000 }
    } else {
        Single { bits: 0 }
    }
}

/// `a < b`.
pub open spec fn is_less(a: Single, b: Single) -> bool {
    a.at_most(b) && !b.at_most(a)
}

/// A fade after one step: raised or lowered toward its target, not past it, within `[0, 1]`.
pub open spec fn fade_to(alpha: Single, fade_in: bool, raised: Single, lowered: Single) -> Single {
    let target = fade_target(fade_in);
    let moved = if is_less(alpha, target) {
        if raised.at_most(target) {
            raised
        } else {
            target
        }
    } else if is_less(target, alpha) {
        if target.at_most(lowered) {
            lowered
        } else {
            target
        }
    } else {
        alpha
    };
    if is_less(moved, Single { bits: 0 }) {
        Single { bits: 0 }
    } else if is_less(Single { bits: 0x3f80_0000 }, moved) {
        Single { bits: 0x3f80_0000 }
    } else {
        moved
    }
}

fn fade(alpha: Single, fade_in: bool, raised: Single, lowered: Single) -> (r: Single)
    ensures
        r == fade_to(alpha, fade_in, raised, lowered),
{
    let zero: Single = Single::zero();
    let one: Single = Single::one();
    let target: Single = if fade_in {
        one
    } else {
        zero
    };
    let moved: Single = if alpha.le(target) && !target.le(alpha) {
        raised.lesser(target)
    } else if target.le(alpha) && !alpha.le(target) {
        lowered.greater(target)
    } else {
        alpha
    };
    if moved.le(zero) && !zero.le(moved) {
        zero
    } else if one.le(moved) && !moved.le(one) {
        one
    } else {
        moved
    }
}

/// A word, the low byte first.
pub open spec fn word_bytes(word: u32) -> Seq<u8> {
    seq![
        (word % 256) as u8,
        (word / 256 % 256) as u8,
        (word / 65536 % 256) as u8,
        (word / 16777216) as u8,
    ]
}

fn push_word(data: &mut Vec<u8>, word: u32)
    ensures
        final(data)@ == old(data)@ + word_bytes(word),
{
    data.push((word % 256) as u8);
    data.push((word / 256 % 256) as u8);
    data.push((word / 65536 % 256) as u8);
    data.push((word / 16777216) as u8);
    assert(data@ =~= old(data)@ + word_bytes(word));
}

/// The metadata records of the first `n` cells.
pub open spec fn metadata(cells: Seq<GridCell>, n: int) -> Seq<u8>
    decreases n,
{
    if n <= 0 {
        seq![]
    } else {
        metadata(cells, n - 1) + (word_bytes(cells[n - 1].alpha.bits) + word_bytes(
            cells[n - 1].domain.code(),
        ))
    }
}

/// Where the concentric rules take a cell.
fn step(domain: Domain, warm: bool, room: bool, zones: &CellZones, observers: &Vec<Aabb>) -> (to:
    Option<Domain>)
    ensures
        to == next_domain(domain, warm, room, *zones, observers@),
{
    match domain {
        Domain::Outer => if any_intersect(&zones.margin_promote, observers) {
            Some(Domain::Margin)
        } else if warm && room && any_intersect(&zones.warm_promote, observers) {
            Some(Domain::Warm)
        } else {
            None
        },
        Domain::Warm => if !warm {
            Some(Domain::Outer)
        } else if any_intersect(&zones.margin_promote, observers) {
            Some(Domain::Margin)
        } else if !any_intersect(&zones.warm_demote, observers) {
            Some(Domain::Outer)
        } else {
            None
        },
        Domain::Margin => if any_intersect(&zones.inner_promote, observers) {
            Some(Domain::Inner)
        } else if !any_intersect(&zones.margin_demote, observers) {
            Some(
                if warm {
                    Domain::Warm
                } else {
                    Domain::Outer
                },
            )
        } else {
            None
        },
        Domain::Inner => if !any_intersect(&zones.inner_demote, observers) {
            Some(Domain::Margin)
        } else {
            None
        },
    }
}

/// A product exceeds a bound if and only if one factor exceeds the bound over the other.
proof fn lemma_product_exceeds(a: int, b: int, bound: int)
    requires
        0 <= a,
        0 <= b,
        0 <= bound,
    ensures
        a * b > bound <==> b > 0 && a > bound / b,
{
    if b > 0 {
        let q = bound / b;
        vstd::arithmetic::div_mod::lemma_fundamental_div_mod(bound, b);
        vstd::arithmetic::div_mod::lemma_mod_bound(bound, b);
        if a > q {
            assert(a * b >= (q + 1) * b) by (nonlinear_arith)
                requires
                    a >= q + 1,
                    b > 0,
            ;
            assert((q + 1) * b == b * q + b) by (nonlinear_arith);
        } else {
            assert(a * b <= b * q) by (nonlinear_arith)
                requires
                    a <= q,
                    b > 0,
            ;
        }
    } else {
        assert(a * b == 0) by (nonlinear_arith)
            requires
                b == 0,
        ;
    }
}

proof fn lemma_product_fits(a: int, b: int)
    by (nonlinear_arith)
    requires
        0 <= a <= u64::MAX,
        0 <= b <= u64::MAX,
    ensures
        0 <= a * b <= u128::MAX,
{
}

proof fn lemma_packed(a: CellCoord, b: CellCoord)
    ensures
        0 <= packed(a) <= u64::MAX,
        packed(a) == packed(b) <==> a == b,
{
}

proof fn lemma_warm_bound(cells: Seq<GridCell>, n: int)
    requires
        0 <= n <= cells.len(),
    ensures
        0 <= warm_cells(cells, n) <= n,
    decreases n,
{
    if n > 0 {
        lemma_warm_bound(cells, n - 1);
    }
}

proof fn lemma_warm_at(cells: Seq<GridCell>, at: int, n: int)
    requires
        0 <= at < n <= cells.len(),
        cells[at].domain == Domain::Warm,
    ensures
        warm_cells(cells, n) >= 1,
    decreases n,
{
    lemma_warm_bound(cells, n - 1);
    if at < n - 1 {
        lemma_warm_at(cells, at, n - 1);
    }
}

proof fn lemma_warm_update(cells: Seq<GridCell>, at: int, cell: GridCell, n: int)
    requires
        0 <= at < cells.len(),
        0 <= n <= cells.len(),
    ensures
        warm_cells(cells.update(at, cell), n) == warm_cells(cells, n) + (if at < n {
            (if cell.domain == Domain::Warm {
                1int
            } else {
                0
            }) - (if cells[at].domain == Domain::Warm {
                1int
            } else {
                0
            })
        } else {
            0
        }),
    decreases n,
{
    if n > 0 {
        lemma_warm_update(cells, at, cell, n - 1);
    }
}

proof fn lemma_warm_push(cells: Seq<GridCell>, cell: GridCell, n: int)
    requires
        0 <= n <= cells.len(),
    ensures
        warm_cells(cells.push(cell), n) == warm_cells(cells, n),
    decreases n,
{
    if n > 0 {
        lemma_warm_push(cells, cell, n - 1);
    }
}

proof fn lemma_materialized(before: GridState, after: GridState)
    requires
        before.consistent(),
        before.cells.len() < u32::MAX,
        after == (GridState { cells: after.cells, ..before }),
        after.cells.len() == before.cells.len() + 1,
        after.cells == before.cells.push(after.cells.last()),
        after.cells.last().domain != Domain::Warm,
        !is_tracked(before.cells, after.cells.last().coord),
    ensures
        after.consistent(),
{
    let n = before.cells.len() as int;
    lemma_warm_push(before.cells, after.cells.last(), n);
    assert forall|i: int, j: int|
        #![trigger after.cells[i], after.cells[j]]
        0 <= i < j < after.cells.len() implies after.cells[i].coord != after.cells[j].coord by {
        if j == n {
            assert(before.cells[i].coord != after.cells.last().coord);
        } else {
            assert(before.cells[i].coord != before.cells[j].coord);
        }
    }
    assert forall|i: int| 0 <= i < after.transitions.len() implies is_tracked(
        after.cells,
        (#[trigger] after.transitions[i]).coord,
    ) by {
        let coord = before.transitions[i].coord;
        let k = dense_at(before.cells, coord);
        assert(after.cells[k].coord == coord);
    }
}

proof fn lemma_cell_replaced(before: GridState, after: GridState, at: int)
    requires
        before.consistent(),
        0 <= at < before.cells.len(),
        after.cells == before.cells.update(at, after.cells[at]),
        after.cells[at].coord == before.cells[at].coord,
        after.transitions == before.transitions,
        after.warm_count == warm_cells(after.cells, after.cells.len() as int),
    ensures
        after.consistent(),
{
    assert forall|i: int, j: int|
        #![trigger after.cells[i], after.cells[j]]
        0 <= i < j < after.cells.len() implies after.cells[i].coord != after.cells[j].coord by {
        assert(before.cells[i].coord != before.cells[j].coord);
    }
    assert forall|i: int| 0 <= i < after.transitions.len() implies is_tracked(
        after.cells,
        (#[trigger] after.transitions[i]).coord,
    ) by {
        let coord = before.transitions[i].coord;
        let k = dense_at(before.cells, coord);
        assert(after.cells[k].coord == coord);
    }
}

proof fn lemma_classified(
    state: GridState,
    zones: Seq<CellZones>,
    observers: Seq<Aabb>,
    n: int,
)
    requires
        state.consistent(),
        0 <= n <= state.cells.len(),
    ensures
        ({
            let queue = classified(state, zones, observers, n);
            &&& queue.len() <= n
            &&& forall|i: int|
                0 <= i < queue.len() ==> exists|c: int|
                    0 <= c < n && (#[trigger] queue[i]).coord == (
                    #[trigger] state.cells[c]).coord && queue[i].from == state.cells[c].domain
            &&& forall|i: int, j: int|
                #![trigger queue[i], queue[j]]
                0 <= i < j < queue.len() ==> queue[i].coord != queue[j].coord
        }),
    decreases n,
{
    if n > 0 {
        lemma_classified(state, zones, observers, n - 1);
        let front = classified(state, zones, observers, n - 1);
        let queue = classified(state, zones, observers, n);
        assert forall|i: int| 0 <= i < queue.len() implies exists|c: int|
            0 <= c < n && (#[trigger] queue[i]).coord == (#[trigger] state.cells[c]).coord
                && queue[i].from == state.cells[c].domain by {
            if i < front.len() {
                let c = choose|c: int|
                    0 <= c < n - 1 && front[i].coord == (#[trigger] state.cells[c]).coord
                        && front[i].from == state.cells[c].domain;
                assert(queue[i].coord == state.cells[c].coord);
            } else {
                assert(queue[i].coord == state.cells[n - 1].coord);
            }
        }
        assert forall|i: int, j: int|
            #![trigger queue[i], queue[j]]
            0 <= i < j < queue.len() implies queue[i].coord != queue[j].coord by {
            let c = choose|c: int|
                0 <= c < n - 1 && front[i].coord == (#[trigger] state.cells[c]).coord
                    && front[i].from == state.cells[c].domain;
            if j == front.len() {
                assert(state.cells[c].coord != state.cells[n - 1].coord);
            } else {
                assert(front[i].coord != front[j].coord);
            }
        }
    }
}

/// A classification queues at most one transition for a cell, from its committed domain.
pub proof fn law_one_transition_per_cell(
    state: GridState,
    zones: Seq<CellZones>,
    observers: Seq<Aabb>,
)
    requires
        state.consistent(),
    ensures
        ({
            let queue = classified(state, zones, observers, state.cells.len() as int);
            &&& queue.len() <= state.cells.len()
            &&& forall|i: int|
                0 <= i < queue.len() ==> is_tracked(state.cells, (#[trigger] queue[i]).coord)
                    && queue[i].from == state.cell(queue[i].coord).domain
            &&& forall|i: int, j: int|
                #![trigger queue[i], queue[j]]
                0 <= i < j < queue.len() ==> queue[i].coord != queue[j].coord
        }),
{
    let n = state.cells.len() as int;
    let queue = classified(state, zones, observers, n);
    lemma_classified(state, zones, observers, n);
    assert forall|i: int| 0 <= i < queue.len() implies is_tracked(
        state.cells,
        (#[trigger] queue[i]).coord,
    ) && queue[i].from == state.cell(queue[i].coord).domain by {
        let c = choose|c: int|
            0 <= c < n && queue[i].coord == (#[trigger] state.cells[c]).coord && queue[i].from
                == state.cells[c].domain;
        assert(state.cells[c].coord == queue[i].coord);
        let k = dense_at(state.cells, queue[i].coord);
        assert(state.cells[k].coord == queue[i].coord);
        if k < c {
            assert(state.cells[k].coord != state.cells[c].coord);
        } else if c < k {
            assert(state.cells[c].coord != state.cells[k].coord);
        }
    }
}

/// How many of the transitions warm up a cell that is not pinned.
pub open spec fn staged_unpinned(cells: Seq<GridCell>, queue: Seq<Transition>) -> int
    decreases queue.len(),
{
    if queue.len() == 0 {
        0
    } else if warms_up(queue.last()) && cells[dense_at(cells, queue.last().coord)].pinned is None {
        staged_unpinned(cells, queue.drop_last()) + 1
    } else {
        staged_unpinned(cells, queue.drop_last())
    }
}

/// The state after the first `n` transitions of a queue took effect.
pub open spec fn all_committed(state: GridState, queue: Seq<Transition>, n: int) -> GridState
    decreases n,
{
    if n <= 0 {
        state
    } else {
        all_committed(state, queue, n - 1).committed(queue[n - 1])
    }
}

/// Nothing but unpinned cells on their way in becomes warm.
pub open spec fn only_staging(cells: Seq<GridCell>, queue: Seq<Transition>) -> bool {
    forall|i: int|
        0 <= i < queue.len() ==> ((#[trigger] queue[i]).to == Domain::Warm ==> warms_up(queue[i])
            && cells[dense_at(cells, queue[i].coord)].pinned is None)
}

proof fn lemma_staged_within_cap(
    state: GridState,
    zones: Seq<CellZones>,
    observers: Seq<Aabb>,
    n: int,
)
    requires
        state.consistent(),
        0 <= n <= state.cells.len(),
    ensures
        ({
            let queue = classified(state, zones, observers, n);
            &&& 0 <= staged_unpinned(state.cells, queue) <= staged(queue)
            &&& staged_unpinned(state.cells, queue) > 0 ==> state.warm_count + staged_unpinned(
                state.cells,
                queue,
            ) <= state.warm_cap
        }),
    decreases n,
{
    if n > 0 {
        lemma_staged_within_cap(state, zones, observers, n - 1);
        let front = classified(state, zones, observers, n - 1);
        let queue = classified(state, zones, observers, n);
        if queue != front {
            assert(queue.drop_last() =~= front);
            let cell = state.cells[n - 1];
            let k = dense_at(state.cells, cell.coord);
            assert(state.cells[k].coord == cell.coord);
            if k < n - 1 {
                assert(state.cells[k].coord != state.cells[n - 1].coord);
            } else if n - 1 < k {
                assert(state.cells[n - 1].coord != state.cells[k].coord);
            }
        }
    }
}

pub(crate) proof fn lemma_committed_count(state: GridState, t: Transition)
    requires
        state.consistent(),
    ensures
        state.committed(t).consistent(),
        state.committed(t).warm_count <= state.warm_count + (if t.to == Domain::Warm {
            1int
        } else {
            0
        }),
        state.committed(t).warm_cap == state.warm_cap,
{
    if is_tracked(state.cells, t.coord) {
        let at = dense_at(state.cells, t.coord);
        let n = state.cells.len() as int;
        let after = state.committed(t);
        assert(state.cells[at].coord == t.coord);
        lemma_warm_bound(state.cells, n);
        if state.cells[at].domain == Domain::Warm {
            lemma_warm_at(state.cells, at, n);
        }
        lemma_warm_update(state.cells, at, after.cells[at], n);
        lemma_warm_bound(after.cells, n);
        assert(after.cells =~= state.cells.update(at, after.cells[at]));
        lemma_cell_replaced(state, after, at);
    }
}

proof fn lemma_staging_commits(state: GridState, queue: Seq<Transition>, n: int)
    requires
        state.consistent(),
        only_staging(state.cells, queue),
        0 <= n <= queue.len(),
    ensures
        all_committed(state, queue, n).consistent(),
        all_committed(state, queue, n).warm_cap == state.warm_cap,
        all_committed(state, queue, n).warm_count <= state.warm_count + staged_unpinned(
            state.cells,
            queue.take(n),
        ),
    decreases n,
{
    if n > 0 {
        lemma_staging_commits(state, queue, n - 1);
        lemma_committed_count(all_committed(state, queue, n - 1), queue[n - 1]);
        assert(queue.take(n).drop_last() =~= queue.take(n - 1));
        assert(queue.take(n).last() == queue[n - 1]);
    }
}

/// The cap on warm cells holds: as long as it is kept, a classification warms up no more unpinned
/// cells than there is room for, and where nothing else becomes warm, it is kept when all the
/// transitions have taken effect.
pub proof fn law_warm_cap_is_kept(state: GridState, zones: Seq<CellZones>, observers: Seq<Aabb>)
    requires
        state.consistent(),
        state.warm_count <= state.warm_cap,
    ensures
        ({
            let queue = classified(state, zones, observers, state.cells.len() as int);
            let after = all_committed(state, queue, queue.len() as int);
            &&& staged_unpinned(state.cells, queue) <= state.warm_cap - state.warm_count
            &&& only_staging(state.cells, queue) ==> warm_cells(
                after.cells,
                after.cells.len() as int,
            ) == after.warm_count <= state.warm_cap
        }),
{
    let n = state.cells.len() as int;
    let queue = classified(state, zones, observers, n);
    lemma_staged_within_cap(state, zones, observers, n);
    if only_staging(state.cells, queue) {
        lemma_staging_commits(state, queue, queue.len() as int);
        assert(queue.take(queue.len() as int) =~= queue);
    }
}

/// An unpinned cell that the observers want warm, and no closer, is warmed up if and only if there
/// is still room when its turn comes; else it is held where it is, for a later classification to
/// take up again.
pub proof fn law_held_cells_are_retried(
    state: GridState,
    zones: Seq<CellZones>,
    observers: Seq<Aabb>,
    c: int,
)
    requires
        0 <= c < state.cells.len(),
        state.cells[c].domain == Domain::Outer,
        state.cells[c].pinned is None,
        state.cfg.warm is Some,
        any_intersects(zones[c].warm_promote, observers),
        !any_intersects(zones[c].margin_promote, observers),
    ensures
        ({
            let front = classified(state, zones, observers, c);
            let warmed = Transition {
                coord: state.cells[c].coord,
                from: Domain::Outer,
                to: Domain::Warm,
            };
            classified(state, zones, observers, c + 1) == if has_room(state, front) {
                front.push(warmed)
            } else {
                front
            }
        }),
{
}

/// Each promotion zone lies within the demotion zone of the same boundary.
pub open spec fn zones_nested(zones: CellZones) -> bool {
    &&& contains_box(zones.inner_demote, zones.inner_promote)
    &&& contains_box(zones.margin_demote, zones.margin_promote)
    &&& contains_box(zones.warm_demote, zones.warm_promote)
}

/// No cell bounces: where the rules take a cell from one domain to another, the same observers never
/// take it straight back.
pub proof fn law_no_step_is_undone(
    domain: Domain,
    warm: bool,
    room_before: bool,
    room_after: bool,
    zones: CellZones,
    observers: Seq<Aabb>,
)
    requires
        zones_nested(zones),
    ensures
        next_domain(domain, warm, room_before, zones, observers) matches Some(to) ==> next_domain(
            to,
            warm,
            room_after,
            zones,
            observers,
        ) != Some(domain),
{
    if any_intersects(zones.inner_promote, observers) {
        law_larger_box_is_touched_too(zones.inner_demote, zones.inner_promote, observers);
    }
    if any_intersects(zones.margin_promote, observers) {
        law_larger_box_is_touched_too(zones.margin_demote, zones.margin_promote, observers);
    }
    if any_intersects(zones.warm_promote, observers) {
        law_larger_box_is_touched_too(zones.warm_demote, zones.warm_promote, observers);
    }
}

/// Between a boundary's promotion zone and its demotion zone nothing happens, in either direction.
pub proof fn law_bands_hold(zones: CellZones, observers: Seq<Aabb>, warm: bool, room: bool)
    ensures
        any_intersects(zones.margin_demote, observers) && !any_intersects(
            zones.margin_promote,
            observers,
        ) && !any_intersects(zones.inner_promote, observers) ==> next_domain(
            Domain::Margin,
            warm,
            room,
            zones,
            observers,
        ) is None && next_domain(Domain::Outer, false, room, zones, observers) is None
            && next_domain(Domain::Warm, true, room, zones, observers) != Some(Domain::Margin),
        any_intersects(zones.inner_demote, observers) && !any_intersects(
            zones.inner_promote,
            observers,
        ) ==> next_domain(Domain::Inner, warm, room, zones, observers) is None && next_domain(
            Domain::Margin,
            warm,
            room,
            zones,
            observers,
        ) != Some(Domain::Inner),
        any_intersects(zones.warm_demote, observers) && !any_intersects(
            zones.warm_promote,
            observers,
        ) && !any_intersects(zones.margin_promote, observers) ==> next_domain(
            Domain::Warm,
            true,
            room,
            zones,
            observers,
        ) is None && next_domain(Domain::Outer, warm, room, zones, observers) is None,
{
}

/// The concentric rules reach `Inner` only through `Margin`, and leave it only to `Margin`; without
/// the system-memory tier nothing becomes warm, and with it full nothing warms up.
pub proof fn law_steps_are_graded(
    domain: Domain,
    warm: bool,
    room: bool,
    zones: CellZones,
    observers: Seq<Aabb>,
)
    ensures
        next_domain(domain, warm, room, zones, observers) == Some(Domain::Inner) ==> domain
            == Domain::Margin,
        domain == Domain::Inner ==> match next_domain(domain, warm, room, zones, observers) {
            Some(to) => to == Domain::Margin,
            None => true,
        },
        !warm ==> next_domain(domain, warm, room, zones, observers) != Some(Domain::Warm),
        !room && domain == Domain::Outer ==> next_domain(domain, warm, room, zones, observers)
            != Some(Domain::Warm),
{
}

/// One observer is enough: where one alone takes a cell closer, all of them together take it at
/// least as close.
pub proof fn law_one_observer_is_enough(
    domain: Domain,
    warm: bool,
    room: bool,
    zones: CellZones,
    observers: Seq<Aabb>,
    i: int,
)
    requires
        0 <= i < observers.len(),
    ensures
        next_domain(domain, warm, room, zones, seq![observers[i]]) matches Some(to) ==> to.rank()
            > domain.rank() ==> (next_domain(domain, warm, room, zones, observers) matches Some(
            there,
        ) && there.rank() >= to.rank()),
{
    let one = seq![observers[i]];
    assert forall|zone: Aabb| any_intersects(zone, one) implies #[trigger] any_intersects(
        zone,
        observers,
    ) by {
        let k = choose|k: int| 0 <= k < one.len() && intersects(zone, #[trigger] one[k]);
        assert(intersects(zone, observers[i]));
    }
}

/// A cell is let go only when everybody has left: where all observers together let a cell go
/// further out, each of them alone does.
pub proof fn law_demotion_needs_everybody_gone(
    domain: Domain,
    warm: bool,
    room: bool,
    zones: CellZones,
    observers: Seq<Aabb>,
    i: int,
)
    requires
        0 <= i < observers.len(),
    ensures
        next_domain(domain, warm, room, zones, observers) matches Some(to) ==> to.rank()
            < domain.rank() ==> next_domain(domain, warm, room, zones, seq![observers[i]])
            == Some(to),
{
    let one = seq![observers[i]];
    assert forall|zone: Aabb| any_intersects(zone, one) implies #[trigger] any_intersects(
        zone,
        observers,
    ) by {
        let k = choose|k: int| 0 <= k < one.len() && intersects(zone, #[trigger] one[k]);
        assert(intersects(zone, observers[i]));
    }
}

/// A pinned cell is never taken anywhere but to its pin.
pub proof fn law_pins_hold(
    cell: GridCell,
    warm: bool,
    room: bool,
    zones: CellZones,
    observers: Seq<Aabb>,
)
    ensures
        cell.pinned matches Some(pin) ==> match wanted(cell, warm, room, zones, observers) {
            Some(to) => to == pin && cell.domain != pin,
            None => cell.domain == pin,
        },
{
}

/// A fade that is a number in `[0, 1]` stays one and never passes its target.
pub proof fn law_fade_stays_in_range(
    alpha: Single,
    fade_in: bool,
    raised: Single,
    lowered: Single,
)
    requires
        (Single { bits: 0 }).at_most(alpha),
        alpha.at_most(Single { bits: 0x3f80_0000 }),
    ensures
        ({
            let r = fade_to(alpha, fade_in, raised, lowered);
            (Single { bits: 0 }).at_most(r) && r.at_most(Single { bits: 0x3f80_0000 })
        }),
{
}

} // verus!
