//! Carrying out the grid's transitions: cells entering the device are registered with the store,
//! cells leaving it are unregistered, and the caches in system memory are loaded and dropped through
//! hooks.
use crate::cell::CellStorage;
use crate::gpu::device_writes::DeviceWrite;
use crate::gpu::grid::{CellCoord, Domain, StreamingGrid, Transition};
use crate::gpu::scene_store::SceneGpuStore;
use vstd::prelude::*;

verus! {

use crate::cell::CellState;
use crate::gpu::cell_mirror::{all_committed, registration_writes, QueuedRetire};
use crate::gpu::device_writes::{writes_of, WriteState};
use crate::gpu::grid::{dense_at, is_tracked, GridCell, GridState};
use crate::gpu::scene_store::{resident, CellId, Phase, StoreState};
use crate::gpu::shared_buffers::fixed_columns_of;

/// What came of a list of transitions.
#[derive(Clone, Copy, Debug, PartialEq, Eq, Structural)]
pub struct TransitionStats {
    /// Cells registered with the store.
    pub promoted: u32,
    /// Cells unregistered.
    pub demoted: u32,
    /// Cells the store had no region for.
    pub declined: u32,
    /// Transitions whose cell was no longer where they start.
    pub dropped_stale: u32,
    /// Cells loaded into system memory.
    pub warmed: u32,
    /// Cells dropped from system memory.
    pub cooled: u32,
    /// Cells that could not be loaded into system memory.
    pub ram_declined: u32,
}

impl Default for TransitionStats {
    /// Nothing came of anything yet.
    fn default() -> (stats: Self)
        ensures
            stats == no_stats(),
    {
        TransitionStats {
            promoted: 0,
            demoted: 0,
            declined: 0,
            dropped_stale: 0,
            warmed: 0,
            cooled: 0,
            ram_declined: 0,
        }
    }
}

pub open spec fn no_stats() -> TransitionStats {
    TransitionStats {
        promoted: 0,
        demoted: 0,
        declined: 0,
        dropped_stale: 0,
        warmed: 0,
        cooled: 0,
        ram_declined: 0,
    }
}

/// How many transitions are counted.
pub open spec fn stats_total(s: TransitionStats) -> int {
    s.promoted + s.demoted + s.declined + s.dropped_stale + s.warmed + s.cooled + s.ram_declined
}

/// What a transition asks for.
#[derive(Clone, Copy, Debug, PartialEq, Eq, Structural)]
pub enum TransitionAction {
    /// The cell is no longer where the transition starts.
    Drop,
    /// The cell enters the device.
    Register,
    /// The cell leaves the device.
    Unregister,
    /// The cell is to be cached in system memory.
    Load,
    /// The cell's cache is to be dropped.
    Evict,
    /// Nothing but the domain changes.
    Commit,
}

/// What a transition asks for of a cell in `domain`.
pub open spec fn action_of(domain: Option<Domain>, t: Transition) -> TransitionAction {
    if domain != Some(t.from) {
        TransitionAction::Drop
    } else if !t.from.on_gpu() && t.to.on_gpu() {
        TransitionAction::Register
    } else if t.from.on_gpu() && !t.to.on_gpu() {
        TransitionAction::Unregister
    } else if t.from == Domain::Outer && t.to == Domain::Warm {
        TransitionAction::Load
    } else if t.from == Domain::Warm && t.to == Domain::Outer {
        TransitionAction::Evict
    } else {
        TransitionAction::Commit
    }
}

/// What a transition asks for, given where its cell is now.
pub fn transition_action(grid: &StreamingGrid, t: Transition) -> (action: TransitionAction)
    requires
        grid.wf(),
    ensures
        action == action_of(
            if is_tracked(grid@.cells, t.coord) {
                Some(grid@.cell(t.coord).domain)
            } else {
                None
            },
            t,
        ),
{
    match grid.domain(t.coord) {
        Some(domain) => {
            if domain != t.from {
                return TransitionAction::Drop;
            }
        },
        None => return TransitionAction::Drop,
    }
    let was: bool = t.from.is_gpu_resident();
    let will: bool = t.to.is_gpu_resident();
    if !was && will {
        TransitionAction::Register
    } else if was && !will {
        TransitionAction::Unregister
    } else if t.from == Domain::Outer && t.to == Domain::Warm {
        TransitionAction::Load
    } else if t.from == Domain::Warm && t.to == Domain::Outer {
        TransitionAction::Evict
    } else {
        TransitionAction::Commit
    }
}

/// The grid, the store and the cells (in the grid's dense order) together, and what came of the
/// transitions so far.
pub struct ExecState<B> {
    pub grid: GridState,
    pub store: StoreState<B>,
    pub cells: Seq<CellState>,
    pub writes: Seq<WriteState>,
    pub stats: TransitionStats,
}

/// A cell that may be registered under `class`: the class holds it, or has no region left for it.
pub open spec fn registrable<B>(store: StoreState<B>, class: usize, cell: CellState) -> bool {
    &&& class < store.row_pools.len()
    &&& store.register_error(class as int) is None ==> store.holds(class, cell)
}

impl<B> ExecState<B> {
    /// The state after transition `t`, whose cell would be registered under `class`, and for which
    /// the hook reported `loaded` (nothing if there are no hooks).
    pub open spec fn after(
        self,
        t: Transition,
        class: usize,
        loaded: Option<bool>,
        serial: u64,
    ) -> ExecState<B> {
        let domain = if is_tracked(self.grid.cells, t.coord) {
            Some(self.grid.cell(t.coord).domain)
        } else {
            None
        };
        let at = dense_at(self.grid.cells, t.coord);
        match action_of(domain, t) {
            TransitionAction::Drop => ExecState {
                stats: TransitionStats {
                    dropped_stale: (self.stats.dropped_stale + 1) as u32,
                    ..self.stats
                },
                ..self
            },
            TransitionAction::Register => if self.store.register_error(
                class as int,
            ) is Some {
                ExecState {
                    stats: TransitionStats {
                        declined: (self.stats.declined + 1) as u32,
                        ..self.stats
                    },
                    ..self
                }
            } else {
                let cell = self.cells[at];
                let id = CellId { index: self.store.cells.len() as u32 };
                ExecState {
                    grid: self.grid.with_gpu_id(t.coord, Some(id)).committed(t),
                    store: self.store.after_register(class, cell),
                    writes: self.writes + registration_writes(
                        self.store.new_mirror(class, cell),
                        cell,
                    ),
                    stats: TransitionStats {
                        promoted: (self.stats.promoted + 1) as u32,
                        ..self.stats
                    },
                    ..self
                }
            },
            TransitionAction::Unregister => {
                let id = self.grid.cell(t.coord).gpu_id->0;
                ExecState {
                    grid: self.grid.with_gpu_id(t.coord, None).committed(t),
                    store: self.store.after_unregister(id, serial),
                    cells: self.cells.update(
                        at,
                        all_committed(self.cells[at], self.store.mirror(id).pending),
                    ),
                    stats: TransitionStats {
                        demoted: (self.stats.demoted + 1) as u32,
                        ..self.stats
                    },
                    ..self
                }
            },
            TransitionAction::Load => if loaded == Some(true) {
                ExecState {
                    grid: self.grid.committed(t),
                    stats: TransitionStats {
                        warmed: (self.stats.warmed + 1) as u32,
                        ..self.stats
                    },
                    ..self
                }
            } else {
                ExecState {
                    stats: TransitionStats {
                        ram_declined: (self.stats.ram_declined + 1) as u32,
                        ..self.stats
                    },
                    ..self
                }
            },
            TransitionAction::Evict => ExecState {
                grid: self.grid.committed(t),
                stats: TransitionStats { cooled: (self.stats.cooled + 1) as u32, ..self.stats },
                ..self
            },
            TransitionAction::Commit => ExecState { grid: self.grid.committed(t), ..self },
        }
    }

    /// The state after the first `n` transitions.
    pub open spec fn executed(
        self,
        transitions: Seq<Transition>,
        classes: Seq<usize>,
        loaded: Seq<Option<bool>>,
        serial: u64,
        n: int,
    ) -> ExecState<B>
        decreases n,
    {
        if n <= 0 {
            self
        } else {
            self.executed(transitions, classes, loaded, serial, n - 1).after(
                transitions[n - 1],
                classes[n - 1],
                loaded[n - 1],
                serial,
            )
        }
    }
}

/// A cell on the device has live regions of its own, with its storage; a cell elsewhere has none.
pub open spec fn cell_linked<B>(
    cell: GridCell,
    storage: CellState,
    store: StoreState<B>,
    serial: u64,
) -> bool {
    &&& storage.consistent()
    &&& cell.domain.on_gpu() == (cell.gpu_id is Some)
    &&& cell.gpu_id matches Some(id) ==> {
        &&& store.is_live(id)
        &&& store.mirror(id).paired(storage)
        &&& forall|i: int|
            0 <= i < store.mirror(id).pending.len() ==> (#[trigger] store.mirror(
                id,
            ).pending[i]).serial <= serial
    }
}

/// Grid, cells and store agree.
pub open spec fn linked<B>(
    grid: GridState,
    cells: Seq<CellState>,
    store: StoreState<B>,
    serial: u64,
) -> bool {
    &&& cells.len() == grid.cells.len()
    &&& forall|i: int|
        0 <= i < grid.cells.len() ==> cell_linked(#[trigger] grid.cells[i], cells[i], store, serial)
    &&& forall|i: int, j: int|
        #![trigger grid.cells[i], grid.cells[j]]
        0 <= i < j < grid.cells.len() && grid.cells[i].gpu_id is Some ==> grid.cells[i].gpu_id
            != grid.cells[j].gpu_id
}

/// What the cells hold.
pub open spec fn storages(cells: Seq<CellStorage>) -> Seq<CellState> {
    Seq::new(cells.len(), |i: int| cells[i]@)
}

/// Carries out one transition, of a cell that would be registered under `class`, given what the hook
/// that loads caches reported (nothing if there are no hooks). Returns the writes it takes.
pub fn execute_transition<B: Clone>(
    grid: &mut StreamingGrid,
    store: &mut SceneGpuStore<B>,
    cells: &mut Vec<CellStorage>,
    t: Transition,
    class: usize,
    loaded: Option<bool>,
    serial: u64,
    stats: &mut TransitionStats,
) -> (writes: Vec<DeviceWrite>)
    requires
        old(grid).wf(),
        old(store).wf(),
        old(store)@.phase == Phase::Retired,
        linked(old(grid)@, storages(old(cells)@), old(store)@, serial),
        stats_total(*old(stats)) < u32::MAX,
        is_tracked(old(grid)@.cells, t.coord) && action_of(
            Some(old(grid)@.cell(t.coord).domain),
            t,
        ) == TransitionAction::Register ==> registrable(
            old(store)@,
            class,
            old(cells)@[dense_at(old(grid)@.cells, t.coord)]@,
        ),
    ensures
        final(grid).wf(),
        final(store).wf(),
        linked(final(grid)@, storages(final(cells)@), final(store)@, serial),
        ({
            let before = ExecState {
                grid: old(grid)@,
                store: old(store)@,
                cells: storages(old(cells)@),
                writes: seq![],
                stats: *old(stats),
            };
            let after = before.after(t, class, loaded, serial);
            &&& final(grid)@ == after.grid
            &&& final(store)@ == after.store
            &&& storages(final(cells)@) == after.cells
            &&& writes_of(writes@) == after.writes
            &&& *final(stats) == after.stats
        }),
        stats_total(*final(stats)) <= stats_total(*old(stats)) + 1,
{
    let mut writes: Vec<DeviceWrite> = Vec::new();
    let action: TransitionAction = transition_action(grid, t);
    let ghost g0 = grid@;
    let ghost s0 = store@;
    let ghost c0 = storages(cells@);
    proof {
        grid.lemma_wf();
        store.lemma_wf();
        assert(writes_of(writes@) =~= seq![]);
    }
    match action {
        TransitionAction::Drop => {
            stats.dropped_stale = stats.dropped_stale + 1;
        },
        TransitionAction::Register => {
            let at: usize = match grid.dense_id(t.coord) {
                Some(at) => at as usize,
                None => {
                    assert(false);
                    return writes;
                },
            };
            proof {
                assert(g0.cells[at as int].coord == t.coord);
                assert(cell_linked(g0.cells[at as int], c0[at as int], s0, serial));
                assert(c0[at as int] == cells@[at as int]@);
            }
            match store.register_cell(&cells[at], class) {
                Ok((id, made)) => {
                    grid.set_gpu_id(t.coord, Some(id));
                    grid.commit_transition(t);
                    stats.promoted = stats.promoted + 1;
                    writes = made;
                    proof {
                        lemma_registered(g0, c0, s0, serial, t, at as int, class);
                        let empty: Seq<WriteState> = seq![];
                        assert(empty + writes_of(writes@) =~= writes_of(writes@));
                    }
                },
                Err(_) => {
                    stats.declined = stats.declined + 1;
                },
            }
        },
        TransitionAction::Unregister => {
            let at: usize = match grid.dense_id(t.coord) {
                Some(at) => at as usize,
                None => {
                    assert(false);
                    return writes;
                },
            };
            proof {
                assert(g0.cells[at as int].coord == t.coord);
                assert(cell_linked(g0.cells[at as int], c0[at as int], s0, serial));
                assert(c0[at as int] == cells@[at as int]@);
            }
            match grid.gpu_id(t.coord) {
                Some(id) => {
                    store.unregister_cell(id, &mut cells[at], serial);
                    grid.set_gpu_id(t.coord, None);
                    grid.commit_transition(t);
                    stats.demoted = stats.demoted + 1;
                    proof {
                        let committed = all_committed(c0[at as int], s0.mirror(id).pending);
                        assert(storages(cells@) =~= c0.update(at as int, committed));
                        lemma_unregistered(
                            g0,
                            c0,
                            s0,
                            serial,
                            t,
                            at as int,
                            id,
                            cells@[at as int]@,
                        );
                    }
                },
                None => {
                    assert(false);
                },
            }
        },
        TransitionAction::Load => {
            let ok: bool = match loaded {
                Some(ok) => ok,
                None => false,
            };
            if ok {
                grid.commit_transition(t);
                stats.warmed = stats.warmed + 1;
                proof {
                    lemma_committed(g0, c0, s0, serial, t);
                }
            } else {
                stats.ram_declined = stats.ram_declined + 1;
            }
        },
        TransitionAction::Evict => {
            grid.commit_transition(t);
            stats.cooled = stats.cooled + 1;
            proof {
                lemma_committed(g0, c0, s0, serial, t);
            }
        },
        TransitionAction::Commit => {
            grid.commit_transition(t);
            proof {
                lemma_committed(g0, c0, s0, serial, t);
            }
        },
    }
    writes
}

/// Hooks into the cache in system memory: `load` fills it for a cell that is to be cached and tells
/// whether it could, `evict` drops a cell that is no longer to be, which may not be in it. No other
/// transition calls them: a cell that leaves the device for the cache keeps its copy.
pub struct RamHooks<L, E> {
    pub load: L,
    pub evict: E,
}

/// Where carrying out the queue of `grid` starts: the queue is taken, and nothing came of it yet.
pub open spec fn exec_start<B>(
    grid: GridState,
    store: StoreState<B>,
    cells: Seq<CellState>,
) -> ExecState<B> {
    ExecState {
        grid: GridState { transitions: seq![], ..grid },
        store,
        cells,
        writes: seq![],
        stats: no_stats(),
    }
}

/// What transition `t` asks for in `state`.
pub open spec fn next_action<B>(state: ExecState<B>, t: Transition) -> TransitionAction {
    action_of(
        if is_tracked(state.grid.cells, t.coord) {
            Some(state.grid.cell(t.coord).domain)
        } else {
            None
        },
        t,
    )
}

/// The class of a cell that was to be registered is what `class_of` said.
pub open spec fn step_classed<B, C: Fn(CellCoord) -> usize>(
    state: ExecState<B>,
    t: Transition,
    class: usize,
    class_of: C,
) -> bool {
    next_action(state, t) == TransitionAction::Register ==> class_of.ensures((t.coord,), class)
}

/// Nothing was loaded.
pub open spec fn step_not_loaded<B>(
    state: ExecState<B>,
    t: Transition,
    loaded: Option<bool>,
) -> bool {
    next_action(state, t) == TransitionAction::Load ==> loaded is None
}

/// What the outside said in a step: the class of a cell that was to be registered, and whether a
/// cell that was to be cached could be loaded; without hooks nothing is loaded.
pub open spec fn step_heard<
    B,
    C: Fn(CellCoord) -> usize,
    L: Fn(CellCoord) -> bool,
    E: Fn(CellCoord),
>(
    state: ExecState<B>,
    t: Transition,
    class: usize,
    loaded: Option<bool>,
    class_of: C,
    ram: Option<&RamHooks<L, E>>,
) -> bool {
    &&& step_classed(state, t, class, class_of)
    &&& match ram {
        Some(hooks) => {
            &&& next_action(state, t) == TransitionAction::Load ==> loaded is Some
                && hooks.load.ensures((t.coord,), loaded->0)
            &&& next_action(state, t) == TransitionAction::Evict ==> hooks.evict.ensures(
                (t.coord,),
                (),
            )
        },
        None => step_not_loaded(state, t, loaded),
    }
}

/// What the outside said in the first `n` steps, without hooks.
pub open spec fn heard_without_hooks<B, C: Fn(CellCoord) -> usize>(
    start: ExecState<B>,
    transitions: Seq<Transition>,
    classes: Seq<usize>,
    loaded: Seq<Option<bool>>,
    serial: u64,
    class_of: C,
    n: int,
) -> bool {
    forall|i: int|
        0 <= i < n ==> #[trigger] step_classed(
            start.executed(transitions, classes, loaded, serial, i),
            transitions[i],
            classes[i],
            class_of,
        ) && step_not_loaded(
            start.executed(transitions, classes, loaded, serial, i),
            transitions[i],
            loaded[i],
        )
}

/// What the outside said in the first `n` steps.
pub open spec fn heard<B, C: Fn(CellCoord) -> usize, L: Fn(CellCoord) -> bool, E: Fn(CellCoord)>(
    start: ExecState<B>,
    transitions: Seq<Transition>,
    classes: Seq<usize>,
    loaded: Seq<Option<bool>>,
    serial: u64,
    class_of: C,
    ram: Option<&RamHooks<L, E>>,
    n: int,
) -> bool {
    forall|i: int|
        0 <= i < n ==> #[trigger] step_heard(
            start.executed(transitions, classes, loaded, serial, i),
            transitions[i],
            classes[i],
            loaded[i],
            class_of,
            ram,
        )
}

/// Whatever the outside says, a cell that is to be registered may be when its turn comes.
pub open spec fn registrations_fit<
    B,
    C: Fn(CellCoord) -> usize,
    L: Fn(CellCoord) -> bool,
    E: Fn(CellCoord),
>(
    start: ExecState<B>,
    transitions: Seq<Transition>,
    serial: u64,
    class_of: C,
    ram: Option<&RamHooks<L, E>>,
) -> bool {
    forall|classes: Seq<usize>, loaded: Seq<Option<bool>>, i: int, class: usize|
        0 <= i < transitions.len() && #[trigger] heard(
            start,
            transitions,
            classes,
            loaded,
            serial,
            class_of,
            ram,
            i,
        ) && #[trigger] class_of.ensures((transitions[i].coord,), class) ==> step_fits(
            start.executed(transitions, classes, loaded, serial, i),
            transitions[i],
            class,
        )
}

/// Whatever the outside says, and without hooks, a cell that is to be registered may be when its turn
/// comes.
pub open spec fn registrations_fit_without_hooks<B, C: Fn(CellCoord) -> usize>(
    start: ExecState<B>,
    transitions: Seq<Transition>,
    serial: u64,
    class_of: C,
) -> bool {
    forall|classes: Seq<usize>, loaded: Seq<Option<bool>>, i: int, class: usize|
        0 <= i < transitions.len() && #[trigger] heard_without_hooks(
            start,
            transitions,
            classes,
            loaded,
            serial,
            class_of,
            i,
        ) && #[trigger] class_of.ensures((transitions[i].coord,), class) ==> step_fits(
            start.executed(transitions, classes, loaded, serial, i),
            transitions[i],
            class,
        )
}

/// The step may ask for the class of its cell if it registers it.
pub open spec fn step_may_class<B, C: Fn(CellCoord) -> usize>(
    state: ExecState<B>,
    t: Transition,
    class_of: C,
) -> bool {
    next_action(state, t) == TransitionAction::Register ==> class_of.requires((t.coord,))
}

/// The step may call what it calls: `class_of` if it registers its cell, the hook that loads if it
/// is to be cached, the hook that evicts if it is no longer to be, and nothing else.
pub open spec fn step_may_call<
    B,
    C: Fn(CellCoord) -> usize,
    L: Fn(CellCoord) -> bool,
    E: Fn(CellCoord),
>(
    state: ExecState<B>,
    t: Transition,
    class_of: C,
    ram: Option<&RamHooks<L, E>>,
) -> bool {
    &&& step_may_class(state, t, class_of)
    &&& ram matches Some(hooks) ==> {
        &&& next_action(state, t) == TransitionAction::Load ==> hooks.load.requires((t.coord,))
        &&& next_action(state, t) == TransitionAction::Evict ==> hooks.evict.requires((t.coord,))
    }
}

/// Whatever the outside says, each step may call what it calls when its turn comes.
pub open spec fn hooks_ready<
    B,
    C: Fn(CellCoord) -> usize,
    L: Fn(CellCoord) -> bool,
    E: Fn(CellCoord),
>(
    start: ExecState<B>,
    transitions: Seq<Transition>,
    serial: u64,
    class_of: C,
    ram: Option<&RamHooks<L, E>>,
) -> bool {
    forall|classes: Seq<usize>, loaded: Seq<Option<bool>>, i: int|
        0 <= i < transitions.len() && #[trigger] heard(
            start,
            transitions,
            classes,
            loaded,
            serial,
            class_of,
            ram,
            i,
        ) ==> step_may_call(
            start.executed(transitions, classes, loaded, serial, i),
            transitions[i],
            class_of,
            ram,
        )
}

/// Whatever the outside says, and without hooks, each step may ask for the class it asks for when
/// its turn comes.
pub open spec fn classes_ready<B, C: Fn(CellCoord) -> usize>(
    start: ExecState<B>,
    transitions: Seq<Transition>,
    serial: u64,
    class_of: C,
) -> bool {
    forall|classes: Seq<usize>, loaded: Seq<Option<bool>>, i: int|
        0 <= i < transitions.len() && #[trigger] heard_without_hooks(
            start,
            transitions,
            classes,
            loaded,
            serial,
            class_of,
            i,
        ) ==> step_may_class(
            start.executed(transitions, classes, loaded, serial, i),
            transitions[i],
            class_of,
        )
}

/// If the step registers its cell under `class`, it may.
pub open spec fn step_fits<B>(state: ExecState<B>, t: Transition, class: usize) -> bool {
    next_action(state, t) == TransitionAction::Register ==> registrable(
        state.store,
        class,
        state.cells[dense_at(state.grid.cells, t.coord)],
    )
}

/// Carries out every queued transition, in order. A transition whose cell is no longer where it
/// starts is dropped; one the store has no region for, or the cache refuses, is left for a later
/// boundary. Returns what came of them and the writes they take.
#[verifier::rlimit(60)]
pub fn execute_transitions_with_ram<
    B: Clone,
    C: Fn(CellCoord) -> usize,
    L: Fn(CellCoord) -> bool,
    E: Fn(CellCoord),
>(
    grid: &mut StreamingGrid,
    store: &mut SceneGpuStore<B>,
    cells: &mut Vec<CellStorage>,
    class_of: C,
    ram: Option<&RamHooks<L, E>>,
    eviction_serial: u64,
) -> (r: (TransitionStats, Vec<DeviceWrite>))
    requires
        old(grid).wf(),
        old(store).wf(),
        old(store)@.phase == Phase::Retired,
        linked(old(grid)@, storages(old(cells)@), old(store)@, eviction_serial),
        hooks_ready(
            exec_start(old(grid)@, old(store)@, storages(old(cells)@)),
            old(grid)@.transitions,
            eviction_serial,
            class_of,
            ram,
        ),
        registrations_fit(
            exec_start(old(grid)@, old(store)@, storages(old(cells)@)),
            old(grid)@.transitions,
            eviction_serial,
            class_of,
            ram,
        ),
    ensures
        final(grid).wf(),
        final(store).wf(),
        linked(final(grid)@, storages(final(cells)@), final(store)@, eviction_serial),
        final(grid)@.transitions.len() == 0,
        r.0.promoted == entered(
            old(grid)@.cells,
            final(grid)@.cells,
            old(grid)@.cells.len() as int,
        ),
        r.0.demoted == departed(
            old(grid)@.cells,
            final(grid)@.cells,
            old(grid)@.cells.len() as int,
        ),
        exists|classes: Seq<usize>, loaded: Seq<Option<bool>>|
            #[trigger] heard(
                exec_start(old(grid)@, old(store)@, storages(old(cells)@)),
                old(grid)@.transitions,
                classes,
                loaded,
                eviction_serial,
                class_of,
                ram,
                old(grid)@.transitions.len() as int,
            ) && (ExecState {
                grid: final(grid)@,
                store: final(store)@,
                cells: storages(final(cells)@),
                writes: writes_of(r.1@),
                stats: r.0,
            }) == exec_start(old(grid)@, old(store)@, storages(old(cells)@)).executed(
                old(grid)@.transitions,
                classes,
                loaded,
                eviction_serial,
                old(grid)@.transitions.len() as int,
            ),
{
    let ghost g0 = grid@;
    let ghost c0 = storages(cells@);
    let ghost s0 = store@;
    proof {
        grid.lemma_wf();
    }
    let transitions: Vec<Transition> = grid.take_transitions();
    let ghost start = exec_start(g0, s0, c0);
    let mut stats: TransitionStats = TransitionStats::default();
    let mut writes: Vec<DeviceWrite> = Vec::new();
    let ghost mut classes: Seq<usize> = seq![];
    let ghost mut loaded: Seq<Option<bool>> = seq![];
    let mut i: usize = 0;
    proof {
        assert(writes_of(writes@) =~= seq![]);
        assert(start.grid == (GridState { transitions: seq![], ..g0 }));
        assert(linked(start.grid, c0, s0, eviction_serial)) by {
            assert forall|k: int| 0 <= k < start.grid.cells.len() implies cell_linked(
                #[trigger] start.grid.cells[k],
                c0[k],
                s0,
                eviction_serial,
            ) by {
                assert(cell_linked(g0.cells[k], c0[k], s0, eviction_serial));
            }
        }
    }
    while i < transitions.len()
        invariant
            i <= transitions@.len(),
            transitions@ == g0.transitions,
            g0.consistent(),
            start == exec_start(g0, s0, c0),
            g0 == old(grid)@,
            s0 == old(store)@,
            c0 == storages(old(cells)@),
            c0.len() == g0.cells.len(),
            grid.wf(),
            store.wf(),
            linked(grid@, storages(cells@), store@, eviction_serial),
            stats_total(stats) <= i,
            transitions@.len() <= u32::MAX,
            hooks_ready(start, transitions@, eviction_serial, class_of, ram),
            registrations_fit(start, transitions@, eviction_serial, class_of, ram),
            classes.len() == i,
            loaded.len() == i,
            heard(
                start,
                transitions@,
                classes,
                loaded,
                eviction_serial,
                class_of,
                ram,
                i as int,
            ),
            ({
                let now = start.executed(
                    transitions@,
                    classes,
                    loaded,
                    eviction_serial,
                    i as int,
                );
                &&& grid@ == now.grid
                &&& store@ == now.store
                &&& storages(cells@) == now.cells
                &&& writes_of(writes@) == now.writes
                &&& stats == now.stats
            }),
            store@.phase == Phase::Retired,
        decreases transitions@.len() - i,
    {
        let t: Transition = transitions[i];
        let action: TransitionAction = transition_action(grid, t);
        let mut class: usize = 0;
        let mut load: Option<bool> = None;
        match action {
            TransitionAction::Register => {
                class = class_of(t.coord);
            },
            TransitionAction::Load => {
                match ram {
                    Some(hooks) => {
                        load = Some((hooks.load)(t.coord));
                    },
                    None => {},
                }
            },
            TransitionAction::Evict => {
                match ram {
                    Some(hooks) => {
                        (hooks.evict)(t.coord);
                    },
                    None => {},
                }
            },
            _ => {},
        }
        let ghost g1 = grid@;
        let ghost s1 = store@;
        let ghost c1 = storages(cells@);
        let ghost w1 = writes_of(writes@);
        let ghost stats1 = stats;
        let ghost now = start.executed(transitions@, classes, loaded, eviction_serial, i as int);
        proof {
            grid.lemma_wf();
            store.lemma_wf();
            if action == TransitionAction::Register {
                let at = dense_at(g1.cells, t.coord);
                assert(g1.cells[at].coord == t.coord);
                assert(class_of.ensures((t.coord,), class));
                assert(step_fits(now, t, class));
                assert(c1[at] == cells@[at]@);
            }
        }
        let more: Vec<DeviceWrite> = execute_transition(
            grid,
            store,
            cells,
            t,
            class,
            load,
            eviction_serial,
            &mut stats,
        );
        proof {
            let before = ExecState {
                grid: g1,
                store: s1,
                cells: c1,
                writes: seq![],
                stats: stats1,
            };
            lemma_after_writes(now, t, class, load, eviction_serial);
            assert(now == (ExecState { writes: w1, ..before }));
            assert(step_heard(now, t, class, load, class_of, ram));
            lemma_step_recorded(
                start,
                transitions@,
                classes,
                loaded,
                eviction_serial,
                class_of,
                ram,
                class,
                load,
            );
            classes = classes.push(class);
            loaded = loaded.push(load);
        }
        crate::gpu::scene_store::append_writes(&mut writes, more);
        i = i + 1;
    }
    proof {
        law_promotions_and_demotions_are_counted(
            g0,
            s0,
            c0,
            classes,
            loaded,
            eviction_serial,
            transitions@.len() as int,
        );
    }
    (stats, writes)
}

/// Carries out every queued transition without a cache in system memory: a cell that was to be
/// cached stays where it is.
pub fn execute_transitions<B: Clone, C: Fn(CellCoord) -> usize>(
    grid: &mut StreamingGrid,
    store: &mut SceneGpuStore<B>,
    cells: &mut Vec<CellStorage>,
    class_of: C,
    eviction_serial: u64,
) -> (r: (TransitionStats, Vec<DeviceWrite>))
    requires
        old(grid).wf(),
        old(store).wf(),
        old(store)@.phase == Phase::Retired,
        linked(old(grid)@, storages(old(cells)@), old(store)@, eviction_serial),
        classes_ready(
            exec_start(old(grid)@, old(store)@, storages(old(cells)@)),
            old(grid)@.transitions,
            eviction_serial,
            class_of,
        ),
        registrations_fit_without_hooks(
            exec_start(old(grid)@, old(store)@, storages(old(cells)@)),
            old(grid)@.transitions,
            eviction_serial,
            class_of,
        ),
    ensures
        final(grid).wf(),
        final(store).wf(),
        linked(final(grid)@, storages(final(cells)@), final(store)@, eviction_serial),
        final(grid)@.transitions.len() == 0,
        r.0.promoted == entered(
            old(grid)@.cells,
            final(grid)@.cells,
            old(grid)@.cells.len() as int,
        ),
        r.0.demoted == departed(
            old(grid)@.cells,
            final(grid)@.cells,
            old(grid)@.cells.len() as int,
        ),
        exists|classes: Seq<usize>, loaded: Seq<Option<bool>>|
            #[trigger] heard_without_hooks(
                exec_start(old(grid)@, old(store)@, storages(old(cells)@)),
                old(grid)@.transitions,
                classes,
                loaded,
                eviction_serial,
                class_of,
                old(grid)@.transitions.len() as int,
            ) && (ExecState {
                grid: final(grid)@,
                store: final(store)@,
                cells: storages(final(cells)@),
                writes: writes_of(r.1@),
                stats: r.0,
            }) == exec_start(old(grid)@, old(store)@, storages(old(cells)@)).executed(
                old(grid)@.transitions,
                classes,
                loaded,
                eviction_serial,
                old(grid)@.transitions.len() as int,
            ),
{
    let ghost transitions = grid@.transitions;
    let ghost start = exec_start(grid@, store@, storages(cells@));
    let unused = RamHooks { load: |c: CellCoord| -> bool { false }, evict: |c: CellCoord| {} };
    let mut ram = Some(&unused);
    ram = None;
    proof {
        assert forall|classes: Seq<usize>, loaded: Seq<Option<bool>>, i: int, class: usize|
            0 <= i < transitions.len() && #[trigger] heard(
                start,
                transitions,
                classes,
                loaded,
                eviction_serial,
                class_of,
                ram,
                i,
            ) && #[trigger] class_of.ensures((transitions[i].coord,), class) implies step_fits(
            start.executed(transitions, classes, loaded, eviction_serial, i),
            transitions[i],
            class,
        ) by {
            lemma_heard_without_hooks(
                start,
                transitions,
                classes,
                loaded,
                eviction_serial,
                class_of,
                ram,
                i,
            );
        }
    }
    proof {
        assert forall|classes: Seq<usize>, loaded: Seq<Option<bool>>, i: int|
            0 <= i < transitions.len() && #[trigger] heard(
                start,
                transitions,
                classes,
                loaded,
                eviction_serial,
                class_of,
                ram,
                i,
            ) implies step_may_call(
            start.executed(transitions, classes, loaded, eviction_serial, i),
            transitions[i],
            class_of,
            ram,
        ) by {
            lemma_heard_without_hooks(
                start,
                transitions,
                classes,
                loaded,
                eviction_serial,
                class_of,
                ram,
                i,
            );
        }
    }
    let r = execute_transitions_with_ram(grid, store, cells, class_of, ram, eviction_serial);
    proof {
        let n = transitions.len() as int;
        let (classes, loaded) = choose|classes: Seq<usize>, loaded: Seq<Option<bool>>|
            #[trigger] heard(
                start,
                transitions,
                classes,
                loaded,
                eviction_serial,
                class_of,
                ram,
                n,
            ) && (ExecState {
                grid: grid@,
                store: store@,
                cells: storages(cells@),
                writes: writes_of(r.1@),
                stats: r.0,
            }) == start.executed(transitions, classes, loaded, eviction_serial, n);
        lemma_heard_without_hooks(
            start,
            transitions,
            classes,
            loaded,
            eviction_serial,
            class_of,
            ram,
            n,
        );
    }
    r
}

/// What is heard of absent hooks.
proof fn lemma_heard_without_hooks<
    B,
    C: Fn(CellCoord) -> usize,
    L: Fn(CellCoord) -> bool,
    E: Fn(CellCoord),
>(
    start: ExecState<B>,
    transitions: Seq<Transition>,
    classes: Seq<usize>,
    loaded: Seq<Option<bool>>,
    serial: u64,
    class_of: C,
    ram: Option<&RamHooks<L, E>>,
    n: int,
)
    requires
        ram is None,
        heard(start, transitions, classes, loaded, serial, class_of, ram, n),
    ensures
        heard_without_hooks(start, transitions, classes, loaded, serial, class_of, n),
{
    assert forall|i: int| 0 <= i < n implies #[trigger] step_classed(
        start.executed(transitions, classes, loaded, serial, i),
        transitions[i],
        classes[i],
        class_of,
    ) && step_not_loaded(
        start.executed(transitions, classes, loaded, serial, i),
        transitions[i],
        loaded[i],
    ) by {
        assert(step_heard(
            start.executed(transitions, classes, loaded, serial, i),
            transitions[i],
            classes[i],
            loaded[i],
            class_of,
            ram,
        ));
    }
}

/// A transition between domains of the same residency leaves the links.
proof fn lemma_committed<B>(
    grid: GridState,
    cells: Seq<CellState>,
    store: StoreState<B>,
    serial: u64,
    t: Transition,
)
    requires
        grid.consistent(),
        linked(grid, cells, store, serial),
        is_tracked(grid.cells, t.coord),
        grid.cell(t.coord).domain.on_gpu() == t.to.on_gpu(),
    ensures
        linked(grid.committed(t), cells, store, serial),
{
    let after = grid.committed(t);
    assert forall|i: int| 0 <= i < after.cells.len() implies cell_linked(
        #[trigger] after.cells[i],
        cells[i],
        store,
        serial,
    ) by {
        assert(cell_linked(grid.cells[i], cells[i], store, serial));
    }
    assert forall|i: int, j: int|
        #![trigger after.cells[i], after.cells[j]]
        0 <= i < j < after.cells.len() && after.cells[i].gpu_id is Some implies after.cells[i].gpu_id
        != after.cells[j].gpu_id by {
        assert(grid.cells[i].gpu_id == after.cells[i].gpu_id);
        assert(grid.cells[j].gpu_id == after.cells[j].gpu_id);
    }
}

/// Coordinates are distinct.
spec fn distinct_coords(cells: Seq<GridCell>) -> bool {
    forall|i: int, j: int|
        #![trigger cells[i], cells[j]]
        0 <= i < j < cells.len() ==> cells[i].coord != cells[j].coord
}

/// Setting a cell's regions and committing its transition changes that cell alone.
proof fn lemma_moved(grid: GridState, t: Transition, id: Option<CellId>)
    requires
        distinct_coords(grid.cells),
        is_tracked(grid.cells, t.coord),
    ensures
        ({
            let at = dense_at(grid.cells, t.coord);
            let mid = grid.with_gpu_id(t.coord, id);
            let after = mid.committed(t);
            &&& 0 <= at < grid.cells.len()
            &&& is_tracked(mid.cells, t.coord)
            &&& dense_at(mid.cells, t.coord) == at
            &&& after.cells.len() == grid.cells.len()
            &&& after.transitions == grid.transitions
            &&& after.cells[at].coord == t.coord
            &&& after.cells[at].gpu_id == id
            &&& after.cells[at].domain == t.to
            &&& forall|i: int|
                0 <= i < grid.cells.len() && i != at ==> #[trigger] after.cells[i]
                    == grid.cells[i]
        }),
{
    let at = dense_at(grid.cells, t.coord);
    let mid = grid.with_gpu_id(t.coord, id);
    assert(grid.cells[at].coord == t.coord);
    assert(mid.cells[at].coord == t.coord);
    let k = dense_at(mid.cells, t.coord);
    assert(mid.cells[k].coord == t.coord);
    assert(grid.cells[k].coord == t.coord);
    if k < at {
        assert(grid.cells[k].coord != grid.cells[at].coord);
    } else if at < k {
        assert(grid.cells[at].coord != grid.cells[k].coord);
    }
}

proof fn lemma_registered<B>(
    grid: GridState,
    cells: Seq<CellState>,
    store: StoreState<B>,
    serial: u64,
    t: Transition,
    at: int,
    class: usize,
)
    requires
        grid.consistent(),
        store.consistent(),
        linked(grid, cells, store, serial),
        is_tracked(grid.cells, t.coord),
        at == dense_at(grid.cells, t.coord),
        t.to.on_gpu(),
        store.cells.len() < u32::MAX,
        cells[at].consistent(),
    ensures
        ({
            let id = CellId { index: store.cells.len() as u32 };
            linked(
                grid.with_gpu_id(t.coord, Some(id)).committed(t),
                cells,
                store.after_register(class, cells[at]),
                serial,
            )
        }),
{
    let id = CellId { index: store.cells.len() as u32 };
    let after_grid = grid.with_gpu_id(t.coord, Some(id)).committed(t);
    let after_store = store.after_register(class, cells[at]);
    lemma_moved(grid, t, Some(id));
    assert forall|i: int| 0 <= i < after_grid.cells.len() implies cell_linked(
        #[trigger] after_grid.cells[i],
        cells[i],
        after_store,
        serial,
    ) by {
        assert(cell_linked(grid.cells[i], cells[i], store, serial));
        if i != at {
            match grid.cells[i].gpu_id {
                Some(other) => {
                    assert(after_store.mirror(other) == store.mirror(other));
                },
                None => {},
            }
        }
    }
    assert forall|i: int, j: int|
        #![trigger after_grid.cells[i], after_grid.cells[j]]
        0 <= i < j < after_grid.cells.len()
            && after_grid.cells[i].gpu_id is Some implies after_grid.cells[i].gpu_id
        != after_grid.cells[j].gpu_id by {
        assert(cell_linked(grid.cells[i], cells[i], store, serial));
        assert(cell_linked(grid.cells[j], cells[j], store, serial));
        if i != at && j != at {
            assert(grid.cells[i].gpu_id != grid.cells[j].gpu_id);
        }
    }
}

proof fn lemma_unregistered<B>(
    grid: GridState,
    cells: Seq<CellState>,
    store: StoreState<B>,
    serial: u64,
    t: Transition,
    at: int,
    id: CellId,
    emptied: CellState,
)
    requires
        grid.consistent(),
        store.consistent(),
        linked(grid, cells, store, serial),
        is_tracked(grid.cells, t.coord),
        at == dense_at(grid.cells, t.coord),
        grid.cells[at].gpu_id == Some(id),
        !t.to.on_gpu(),
        emptied.consistent(),
    ensures
        linked(
            grid.with_gpu_id(t.coord, None).committed(t),
            cells.update(at, emptied),
            store.after_unregister(id, serial),
            serial,
        ),
{
    let after_grid = grid.with_gpu_id(t.coord, None).committed(t);
    let after_store = store.after_unregister(id, serial);
    let after_cells = cells.update(at, emptied);
    lemma_moved(grid, t, None);
    assert(cell_linked(grid.cells[at], cells[at], store, serial));
    assert forall|i: int| 0 <= i < after_grid.cells.len() implies cell_linked(
        #[trigger] after_grid.cells[i],
        after_cells[i],
        after_store,
        serial,
    ) by {
        assert(cell_linked(grid.cells[i], cells[i], store, serial));
        if i != at {
            match grid.cells[i].gpu_id {
                Some(other) => {
                    if i < at {
                        assert(grid.cells[i].gpu_id != grid.cells[at].gpu_id);
                    } else {
                        assert(grid.cells[at].gpu_id != grid.cells[i].gpu_id);
                    }
                    assert(other.index != id.index);
                    assert(after_store.mirror(other) == store.mirror(other));
                },
                None => {},
            }
        }
    }
    assert forall|i: int, j: int|
        #![trigger after_grid.cells[i], after_grid.cells[j]]
        0 <= i < j < after_grid.cells.len()
            && after_grid.cells[i].gpu_id is Some implies after_grid.cells[i].gpu_id
        != after_grid.cells[j].gpu_id by {
        if i != at && j != at {
            assert(grid.cells[i].gpu_id != grid.cells[j].gpu_id);
        }
    }
}

/// The store's columns and class sizes, and the shape of each cell, are as they were, and no class
/// has gained a free region.
spec fn same_shape<B>(
    s0: StoreState<B>,
    s: StoreState<B>,
    c0: Seq<CellState>,
    c: Seq<CellState>,
) -> bool {
    &&& s.buffers == s0.buffers
    &&& s.row_pools.len() == s0.row_pools.len()
    &&& s.slot_pools.len() == s0.slot_pools.len()
    &&& forall|k: int|
        0 <= k < s0.row_pools.len() ==> (#[trigger] s.row_pools[k]).size == s0.row_pools[k].size
            && s.row_pools[k].free.len() <= s0.row_pools[k].free.len()
    &&& forall|k: int|
        0 <= k < s0.slot_pools.len() ==> (#[trigger] s.slot_pools[k]).size
            == s0.slot_pools[k].size && s.slot_pools[k].free.len() <= s0.slot_pools[k].free.len()
    &&& c.len() == c0.len()
    &&& forall|k: int| 0 <= k < c0.len() ==> same_cell_shape(c0[k], #[trigger] c[k])
}

spec fn same_cell_shape(a: CellState, b: CellState) -> bool {
    &&& b.rows.len() == a.rows.len()
    &&& b.generations.len() == a.generations.len()
    &&& b.columns == a.columns
}

/// The grid tracks the same cells in the same order.
pub open spec fn same_coords(g0: GridState, g: GridState) -> bool {
    &&& g.cells.len() == g0.cells.len()
    &&& forall|k: int| 0 <= k < g0.cells.len() ==> (#[trigger] g.cells[k]).coord == g0.cells[k].coord
}

proof fn lemma_same_dense(g0: GridState, g: GridState, coord: CellCoord)
    requires
        g0.consistent(),
        same_coords(g0, g),
    ensures
        is_tracked(g.cells, coord) == is_tracked(g0.cells, coord),
        is_tracked(g0.cells, coord) ==> dense_at(g.cells, coord) == dense_at(g0.cells, coord),
{
    if is_tracked(g0.cells, coord) {
        let a = dense_at(g0.cells, coord);
        assert(g0.cells[a].coord == coord);
        assert(g.cells[a].coord == coord);
        let b = dense_at(g.cells, coord);
        assert(g.cells[b].coord == coord);
        assert(g0.cells[b].coord == coord);
        if a < b {
            assert(g0.cells[a].coord != g0.cells[b].coord);
        } else if b < a {
            assert(g0.cells[b].coord != g0.cells[a].coord);
        }
    }
    if is_tracked(g.cells, coord) {
        let b = dense_at(g.cells, coord);
        assert(g.cells[b].coord == coord);
        assert(g0.cells[b].coord == coord);
    }
}

proof fn lemma_registrable_kept<B>(
    s0: StoreState<B>,
    s: StoreState<B>,
    c0: Seq<CellState>,
    c: Seq<CellState>,
    at: int,
    class: usize,
)
    requires
        same_shape(s0, s, c0, c),
        0 <= at < c0.len(),
        s0.row_pools.len() == s0.slot_pools.len(),
        registrable(s0, class, c0[at]),
        s.cells.len() < u32::MAX,
    ensures
        registrable(s, class, c[at]),
{
    let columns = fixed_columns_of(s0.buffers);
    let k = class as int;
    assert(same_cell_shape(c0[at], c[at]));
    assert(s.row_pools[k].size == s0.row_pools[k].size);
    assert(s.slot_pools[k].size == s0.slot_pools[k].size);
    if s.register_error(k) is None {
        assert(s0.register_error(k) is None);
        assert forall|i: int, j: int|
            #![trigger columns[i], columns[j]]
            0 <= i < j < columns.len() && c[at].has_column(columns[i].0) && c[at].has_column(
                columns[j].0,
            ) implies columns[i].1 != columns[j].1 by {
            assert(c0[at].has_column(columns[i].0)) by {
                let k = c[at].column_at(columns[i].0);
                assert(c0[at].columns[k].id == columns[i].0);
            }
            assert(c0[at].has_column(columns[j].0)) by {
                let k = c[at].column_at(columns[j].0);
                assert(c0[at].columns[k].id == columns[j].0);
            }
        }
    }
}

/// Every queued retirement is of a row and a slot the cell has.
spec fn within(pending: Seq<QueuedRetire>, cell: CellState) -> bool {
    forall|i: int|
        0 <= i < pending.len() ==> (#[trigger] pending[i]).pending.row < cell.rows.len()
            && pending[i].pending.slot < cell.generations.len()
}

proof fn lemma_all_committed_shape(cell: CellState, pending: Seq<QueuedRetire>)
    requires
        within(pending, cell),
    ensures
        same_cell_shape(cell, all_committed(cell, pending)),
    decreases pending.len(),
{
    if pending.len() > 0 {
        assert(pending[0].pending.row < cell.rows.len());
        lemma_all_committed_shape(
            cell.after_commit(pending[0].pending),
            pending.subrange(1, pending.len() as int),
        );
    }
}

/// A step appends its writes to those before it.
proof fn lemma_after_writes<B>(
    now: ExecState<B>,
    t: Transition,
    class: usize,
    loaded: Option<bool>,
    serial: u64,
)
    ensures
        ({
            let empty = ExecState { writes: seq![], ..now };
            let a = now.after(t, class, loaded, serial);
            let b = empty.after(t, class, loaded, serial);
            a == ExecState { writes: now.writes + b.writes, ..b }
        }),
{
    let empty = ExecState { writes: seq![], ..now };
    let a = now.after(t, class, loaded, serial);
    let b = empty.after(t, class, loaded, serial);
    let none: Seq<WriteState> = seq![];
    assert(now.writes + none =~= now.writes);
    if a.writes.len() != now.writes.len() {
        let added = registration_writes(
            now.store.new_mirror(class, now.cells[dense_at(now.grid.cells, t.coord)]),
            now.cells[dense_at(now.grid.cells, t.coord)],
        );
        assert(none + added =~= added);
    }
    assert(a.writes =~= now.writes + b.writes);
}

proof fn lemma_executed_prefix<B>(
    start: ExecState<B>,
    transitions: Seq<Transition>,
    classes: Seq<usize>,
    loaded: Seq<Option<bool>>,
    longer_classes: Seq<usize>,
    longer_loaded: Seq<Option<bool>>,
    serial: u64,
    n: int,
)
    requires
        n <= classes.len() <= longer_classes.len(),
        n <= loaded.len() <= longer_loaded.len(),
        forall|k: int| 0 <= k < n ==> classes[k] == longer_classes[k],
        forall|k: int| 0 <= k < n ==> loaded[k] == longer_loaded[k],
    ensures
        start.executed(transitions, longer_classes, longer_loaded, serial, n) == start.executed(
            transitions,
            classes,
            loaded,
            serial,
            n,
        ),
    decreases n,
{
    if n > 0 {
        lemma_executed_prefix(
            start,
            transitions,
            classes,
            loaded,
            longer_classes,
            longer_loaded,
            serial,
            n - 1,
        );
    }
}

/// One more step, with what was heard in it.
proof fn lemma_step_recorded<
    B,
    C: Fn(CellCoord) -> usize,
    L: Fn(CellCoord) -> bool,
    E: Fn(CellCoord),
>(
    start: ExecState<B>,
    transitions: Seq<Transition>,
    classes: Seq<usize>,
    loaded: Seq<Option<bool>>,
    serial: u64,
    class_of: C,
    ram: Option<&RamHooks<L, E>>,
    class: usize,
    load: Option<bool>,
)
    requires
        classes.len() == loaded.len(),
        heard(
            start,
            transitions,
            classes,
            loaded,
            serial,
            class_of,
            ram,
            classes.len() as int,
        ),
        step_heard(
            start.executed(transitions, classes, loaded, serial, classes.len() as int),
            transitions[classes.len() as int],
            class,
            load,
            class_of,
            ram,
        ),
    ensures
        heard(
            start,
            transitions,
            classes.push(class),
            loaded.push(load),
            serial,
            class_of,
            ram,
            classes.len() as int + 1,
        ),
        start.executed(
            transitions,
            classes.push(class),
            loaded.push(load),
            serial,
            classes.len() as int + 1,
        ) == start.executed(transitions, classes, loaded, serial, classes.len() as int).after(
            transitions[classes.len() as int],
            class,
            load,
            serial,
        ),
{
    let n = classes.len() as int;
    let a = classes.push(class);
    let b = loaded.push(load);
    lemma_executed_prefix(start, transitions, classes, loaded, a, b, serial, n);
    assert forall|k: int| 0 <= k < n + 1 implies #[trigger] step_heard(
        start.executed(transitions, a, b, serial, k),
        transitions[k],
        a[k],
        b[k],
        class_of,
        ram,
    ) by {
        lemma_executed_prefix(start, transitions, classes, loaded, a, b, serial, k);
        if k < n {
            assert(step_heard(
                start.executed(transitions, classes, loaded, serial, k),
                transitions[k],
                classes[k],
                loaded[k],
                class_of,
                ram,
            ));
        }
    }
}

/// A cell is on the device if and only if regions are recorded for it; they are live, of a class
/// there is, and its queued retirements are of what it has.
spec fn cell_hosted<B>(cell: GridCell, storage: CellState, store: StoreState<B>) -> bool {
    &&& cell.domain.on_gpu() == (cell.gpu_id is Some)
    &&& cell.gpu_id matches Some(id) ==> {
        &&& store.is_live(id)
        &&& store.mirror(id).class < store.row_pools.len()
        &&& within(store.mirror(id).pending, storage)
    }
}

/// Every cell is hosted, and no two have the same regions.
spec fn hosted<B>(state: ExecState<B>) -> bool {
    &&& state.cells.len() == state.grid.cells.len()
    &&& forall|k: int|
        0 <= k < state.grid.cells.len() ==> cell_hosted(
            #[trigger] state.grid.cells[k],
            state.cells[k],
            state.store,
        )
    &&& forall|i: int, j: int|
        #![trigger state.grid.cells[i], state.grid.cells[j]]
        0 <= i < j < state.grid.cells.len() && state.grid.cells[i].gpu_id is Some
            ==> state.grid.cells[i].gpu_id != state.grid.cells[j].gpu_id
}

proof fn lemma_distinct(g0: GridState, g: GridState)
    requires
        g0.consistent(),
        same_coords(g0, g),
    ensures
        distinct_coords(g.cells),
{
    assert forall|i: int, j: int|
        #![trigger g.cells[i], g.cells[j]]
        0 <= i < j < g.cells.len() implies g.cells[i].coord != g.cells[j].coord by {
        assert(g0.cells[i].coord != g0.cells[j].coord);
    }
}

/// A step leaves the shape of everything, and every cell hosted.
proof fn lemma_step_kept<B>(
    s0: StoreState<B>,
    c0: Seq<CellState>,
    g0: GridState,
    before: ExecState<B>,
    t: Transition,
    class: usize,
    loaded: Option<bool>,
    serial: u64,
)
    requires
        g0.consistent(),
        s0.row_pools.len() == s0.slot_pools.len(),
        same_shape(s0, before.store, c0, before.cells),
        same_coords(g0, before.grid),
        hosted(before),
        before.store.cells.len() < u32::MAX,
        next_action(before, t) == TransitionAction::Register ==> class
            < before.store.row_pools.len(),
    ensures
        ({
            let after = before.after(t, class, loaded, serial);
            &&& same_shape(s0, after.store, c0, after.cells)
            &&& same_coords(g0, after.grid)
            &&& hosted(after)
            &&& after.store.cells.len() <= before.store.cells.len() + 1
        }),
{
    let after = before.after(t, class, loaded, serial);
    let action = next_action(before, t);
    let n = before.grid.cells.len() as int;
    if action != TransitionAction::Drop {
        lemma_distinct(g0, before.grid);
        let at = dense_at(before.grid.cells, t.coord);
        assert(before.grid.cells[at].coord == t.coord);
        let own = before.grid.cells[at].gpu_id;
        assert(cell_hosted(before.grid.cells[at], before.cells[at], before.store));
        let id = if action == TransitionAction::Register {
            Some(CellId { index: before.store.cells.len() as u32 })
        } else if action == TransitionAction::Unregister {
            None
        } else {
            own
        };
        lemma_moved(before.grid, t, id);
        assert(before.grid.with_gpu_id(t.coord, own).cells =~= before.grid.cells);
        if action == TransitionAction::Unregister {
            lemma_all_committed_shape(before.cells[at], before.store.mirror(own->0).pending);
        }
        assert forall|k: int| 0 <= k < c0.len() implies same_cell_shape(
            c0[k],
            #[trigger] after.cells[k],
        ) by {
            assert(same_cell_shape(c0[k], before.cells[k]));
        }
        assert forall|k: int| 0 <= k < n implies cell_hosted(
            #[trigger] after.grid.cells[k],
            after.cells[k],
            after.store,
        ) by {
            assert(cell_hosted(before.grid.cells[k], before.cells[k], before.store));
            if k != at && before.grid.cells[k].gpu_id is Some {
                if k < at {
                    assert(before.grid.cells[k].gpu_id != before.grid.cells[at].gpu_id);
                } else if own is Some {
                    assert(before.grid.cells[at].gpu_id != before.grid.cells[k].gpu_id);
                }
            }
        }
        assert forall|i: int, j: int|
            #![trigger after.grid.cells[i], after.grid.cells[j]]
            0 <= i < j < n && after.grid.cells[i].gpu_id is Some implies after.grid.cells[i].gpu_id
            != after.grid.cells[j].gpu_id by {
            assert(cell_hosted(before.grid.cells[i], before.cells[i], before.store));
            assert(cell_hosted(before.grid.cells[j], before.cells[j], before.store));
            if i != at && j != at {
                assert(before.grid.cells[i].gpu_id != before.grid.cells[j].gpu_id);
            } else if i == at && own is Some {
                assert(before.grid.cells[i].gpu_id != before.grid.cells[j].gpu_id);
            } else if j == at {
                assert(before.grid.cells[i].gpu_id != before.grid.cells[j].gpu_id);
            }
        }
    }
}

/// The transition leads a tracked cell onto the device.
pub open spec fn leads_onto_device(grid: GridState, t: Transition) -> bool {
    is_tracked(grid.cells, t.coord) && !t.from.on_gpu() && t.to.on_gpu()
}

/// Every cell that is queued to enter the device may be registered as things stand.
pub open spec fn queued_cells_fit<B, C: Fn(CellCoord) -> usize>(
    grid: GridState,
    store: StoreState<B>,
    cells: Seq<CellState>,
    class_of: C,
) -> bool {
    forall|k: int, class: usize|
        0 <= k < grid.transitions.len() && leads_onto_device(grid, #[trigger] grid.transitions[k])
            && #[trigger] class_of.ensures((grid.transitions[k].coord,), class) ==> registrable(
            store,
            class,
            cells[dense_at(grid.cells, grid.transitions[k].coord)],
        )
}

proof fn lemma_run_kept<B, C: Fn(CellCoord) -> usize>(
    grid: GridState,
    store: StoreState<B>,
    cells: Seq<CellState>,
    serial: u64,
    class_of: C,
    classes: Seq<usize>,
    loaded: Seq<Option<bool>>,
    n: int,
)
    requires
        grid.consistent(),
        store.consistent(),
        linked(grid, cells, store, serial),
        store.cells.len() + grid.transitions.len() <= u32::MAX,
        queued_cells_fit(grid, store, cells, class_of),
        0 <= n <= grid.transitions.len(),
        forall|i: int|
            0 <= i < n ==> #[trigger] step_classed(
                exec_start(grid, store, cells).executed(
                    grid.transitions,
                    classes,
                    loaded,
                    serial,
                    i,
                ),
                grid.transitions[i],
                classes[i],
                class_of,
            ),
    ensures
        ({
            let now = exec_start(grid, store, cells).executed(
                grid.transitions,
                classes,
                loaded,
                serial,
                n,
            );
            &&& same_shape(store, now.store, cells, now.cells)
            &&& same_coords(grid, now.grid)
            &&& hosted(now)
            &&& now.store.cells.len() <= store.cells.len() + n
        }),
    decreases n,
{
    let start = exec_start(grid, store, cells);
    if n == 0 {
        assert forall|k: int| 0 <= k < grid.cells.len() implies cell_hosted(
            #[trigger] start.grid.cells[k],
            cells[k],
            store,
        ) by {
            assert(cell_linked(grid.cells[k], cells[k], store, serial));
            match grid.cells[k].gpu_id {
                Some(id) => {
                    assert(store.cells[id.index as int] is Some);
                    assert(resident(store.row_pools, store.slot_pools, store.mirror(id)));
                    let pending = store.mirror(id).pending;
                    assert forall|i: int| 0 <= i < pending.len() implies (
                    #[trigger] pending[i]).pending.row < cells[k].rows.len()
                        && pending[i].pending.slot < cells[k].generations.len() by {
                        assert(cells[k].awaits(store.mirror(id).pending[i].pending));
                    }
                },
                None => {},
            }
        }
        assert forall|i: int, j: int|
            #![trigger start.grid.cells[i], start.grid.cells[j]]
            0 <= i < j < start.grid.cells.len()
                && start.grid.cells[i].gpu_id is Some implies start.grid.cells[i].gpu_id
            != start.grid.cells[j].gpu_id by {
            assert(grid.cells[i].gpu_id != grid.cells[j].gpu_id);
        }
    } else {
        lemma_run_kept(grid, store, cells, serial, class_of, classes, loaded, n - 1);
        let before = start.executed(grid.transitions, classes, loaded, serial, n - 1);
        let t = grid.transitions[n - 1];
        assert(step_classed(before, t, classes[n - 1], class_of));
        if next_action(before, t) == TransitionAction::Register {
            lemma_same_dense(grid, before.grid, t.coord);
            assert(leads_onto_device(grid, t));
            assert(class_of.ensures((t.coord,), classes[n - 1]));
        }
        lemma_step_kept(store, cells, grid, before, t, classes[n - 1], loaded[n - 1], serial);
    }
}

/// Where every cell that is queued to enter the device may be registered as things stand, it may
/// be when its turn comes, with or without hooks.
pub proof fn law_queued_cells_fit<
    B,
    C: Fn(CellCoord) -> usize,
    L: Fn(CellCoord) -> bool,
    E: Fn(CellCoord),
>(
    grid: GridState,
    store: StoreState<B>,
    cells: Seq<CellState>,
    serial: u64,
    class_of: C,
    ram: Option<&RamHooks<L, E>>,
)
    requires
        grid.consistent(),
        store.consistent(),
        linked(grid, cells, store, serial),
        store.cells.len() + grid.transitions.len() <= u32::MAX,
        queued_cells_fit(grid, store, cells, class_of),
    ensures
        registrations_fit(exec_start(grid, store, cells), grid.transitions, serial, class_of, ram),
        registrations_fit_without_hooks(
            exec_start(grid, store, cells),
            grid.transitions,
            serial,
            class_of,
        ),
{
    let start = exec_start(grid, store, cells);
    let ts = grid.transitions;
    assert forall|classes: Seq<usize>, loaded: Seq<Option<bool>>, i: int, class: usize|
        0 <= i < ts.len() && #[trigger] heard_without_hooks(
            start,
            ts,
            classes,
            loaded,
            serial,
            class_of,
            i,
        ) && #[trigger] class_of.ensures((ts[i].coord,), class) implies step_fits(
        start.executed(ts, classes, loaded, serial, i),
        ts[i],
        class,
    ) by {
        lemma_run_kept(grid, store, cells, serial, class_of, classes, loaded, i);
        lemma_step_fits(grid, store, cells, serial, class_of, classes, loaded, i, class);
    }
    assert forall|classes: Seq<usize>, loaded: Seq<Option<bool>>, i: int, class: usize|
        0 <= i < ts.len() && #[trigger] heard(
            start,
            ts,
            classes,
            loaded,
            serial,
            class_of,
            ram,
            i,
        ) && #[trigger] class_of.ensures((ts[i].coord,), class) implies step_fits(
        start.executed(ts, classes, loaded, serial, i),
        ts[i],
        class,
    ) by {
        assert forall|k: int| 0 <= k < i implies #[trigger] step_classed(
            start.executed(ts, classes, loaded, serial, k),
            ts[k],
            classes[k],
            class_of,
        ) by {
            assert(step_heard(
                start.executed(ts, classes, loaded, serial, k),
                ts[k],
                classes[k],
                loaded[k],
                class_of,
                ram,
            ));
        }
        lemma_run_kept(grid, store, cells, serial, class_of, classes, loaded, i);
        lemma_step_fits(grid, store, cells, serial, class_of, classes, loaded, i, class);
    }
}

proof fn lemma_step_fits<B, C: Fn(CellCoord) -> usize>(
    grid: GridState,
    store: StoreState<B>,
    cells: Seq<CellState>,
    serial: u64,
    class_of: C,
    classes: Seq<usize>,
    loaded: Seq<Option<bool>>,
    i: int,
    class: usize,
)
    requires
        grid.consistent(),
        store.consistent(),
        cells.len() == grid.cells.len(),
        queued_cells_fit(grid, store, cells, class_of),
        0 <= i < grid.transitions.len(),
        class_of.ensures((grid.transitions[i].coord,), class),
        ({
            let now = exec_start(grid, store, cells).executed(
                grid.transitions,
                classes,
                loaded,
                serial,
                i,
            );
            &&& same_shape(store, now.store, cells, now.cells)
            &&& same_coords(grid, now.grid)
            &&& now.store.cells.len() < u32::MAX
        }),
    ensures
        step_fits(
            exec_start(grid, store, cells).executed(grid.transitions, classes, loaded, serial, i),
            grid.transitions[i],
            class,
        ),
{
    let now = exec_start(grid, store, cells).executed(
        grid.transitions,
        classes,
        loaded,
        serial,
        i,
    );
    let t = grid.transitions[i];
    if next_action(now, t) == TransitionAction::Register {
        lemma_same_dense(grid, now.grid, t.coord);
        assert(leads_onto_device(grid, t));
        let at = dense_at(grid.cells, t.coord);
        assert(grid.cells[at].coord == t.coord);
        lemma_registrable_kept(store, now.store, cells, now.cells, at, class);
    }
}

/// How many of the first `n` cells are on the device in `after` and were not in `before`.
pub open spec fn entered(before: Seq<GridCell>, after: Seq<GridCell>, n: int) -> int
    decreases n,
{
    if n <= 0 {
        0
    } else if !before[n - 1].domain.on_gpu() && after[n - 1].domain.on_gpu() {
        entered(before, after, n - 1) + 1
    } else {
        entered(before, after, n - 1)
    }
}

/// How many of the first `n` cells were on the device in `before` and are not in `after`.
pub open spec fn departed(before: Seq<GridCell>, after: Seq<GridCell>, n: int) -> int {
    entered(after, before, n)
}

proof fn lemma_entered_none(a: Seq<GridCell>, b: Seq<GridCell>, n: int)
    requires
        forall|k: int| 0 <= k < n ==> (#[trigger] a[k]).domain.on_gpu() == b[k].domain.on_gpu(),
    ensures
        entered(a, b, n) == 0,
        entered(b, a, n) == 0,
    decreases n,
{
    if n > 0 {
        lemma_entered_none(a, b, n - 1);
        assert(a[n - 1].domain.on_gpu() == b[n - 1].domain.on_gpu());
    }
}

/// One cell that was where it started enters, departs, or neither.
proof fn lemma_entered_step(
    start: Seq<GridCell>,
    before: Seq<GridCell>,
    after: Seq<GridCell>,
    at: int,
    n: int,
)
    requires
        0 <= at,
        n <= before.len(),
        before.len() == start.len() == after.len(),
        forall|k: int|
            0 <= k < before.len() && k != at ==> (#[trigger] after[k]).domain == before[k].domain,
        at < before.len() ==> before[at].domain == start[at].domain,
    ensures
        entered(start, after, n) == entered(start, before, n) + (if at < n
            && !start[at].domain.on_gpu() && after[at].domain.on_gpu() {
            1int
        } else {
            0
        }),
        departed(start, after, n) == departed(start, before, n) + (if at < n
            && start[at].domain.on_gpu() && !after[at].domain.on_gpu() {
            1int
        } else {
            0
        }),
    decreases n,
{
    if n > 0 {
        lemma_entered_step(start, before, after, at, n - 1);
        if n - 1 != at {
            assert(after[n - 1].domain == before[n - 1].domain);
        }
    }
}

/// Cells that enter the device are counted as promoted and cells that leave it as demoted, each
/// once and nothing else: what the counts say is what the grid shows. The queue is used up, and a
/// cell that no transition speaks of stays where it was.
pub proof fn law_promotions_and_demotions_are_counted<B>(
    grid: GridState,
    store: StoreState<B>,
    cells: Seq<CellState>,
    classes: Seq<usize>,
    loaded: Seq<Option<bool>>,
    serial: u64,
    n: int,
)
    requires
        grid.consistent(),
        0 <= n <= grid.transitions.len(),
    ensures
        ({
            let after = exec_start(grid, store, cells).executed(
                grid.transitions,
                classes,
                loaded,
                serial,
                n,
            );
            let len = grid.cells.len() as int;
            &&& after.grid.cells.len() == len
            &&& after.stats.promoted == entered(grid.cells, after.grid.cells, len)
            &&& after.stats.demoted == departed(grid.cells, after.grid.cells, len)
            &&& after.stats.promoted <= n
            &&& after.stats.demoted <= n
            &&& after.grid.transitions.len() == 0
            &&& forall|k: int|
                0 <= k < len ==> (#[trigger] after.grid.cells[k]).coord == grid.cells[k].coord
            &&& forall|k: int|
                0 <= k < len && (forall|i: int|
                    0 <= i < n ==> (#[trigger] grid.transitions[i]).coord != grid.cells[k].coord)
                    ==> (#[trigger] after.grid.cells[k]).domain == grid.cells[k].domain
        }),
    decreases n,
{
    let start = exec_start(grid, store, cells);
    let len = grid.cells.len() as int;
    if n == 0 {
        lemma_entered_none(grid.cells, grid.cells, len);
    } else {
        law_promotions_and_demotions_are_counted(
            grid,
            store,
            cells,
            classes,
            loaded,
            serial,
            n - 1,
        );
        let before = start.executed(grid.transitions, classes, loaded, serial, n - 1);
        let t = grid.transitions[n - 1];
        let after = before.after(t, classes[n - 1], loaded[n - 1], serial);
        let action = next_action(before, t);
        assert(same_coords(grid, before.grid));
        lemma_distinct(grid, before.grid);
        lemma_same_dense(grid, before.grid, t.coord);
        let at = dense_at(grid.cells, t.coord);
        assert(grid.cells[at].coord == t.coord);
        assert(is_tracked(grid.cells, t.coord));
        assert(forall|i: int|
            0 <= i < n - 1 ==> (#[trigger] grid.transitions[i]).coord
                != grid.transitions[n - 1].coord);
        assert(before.grid.cells[at].domain == grid.cells[at].domain);
        if !refused(before, t, classes[n - 1], loaded[n - 1]) {
            let own = before.grid.cells[at].gpu_id;
            let id = if action == TransitionAction::Register {
                Some(CellId { index: before.store.cells.len() as u32 })
            } else if action == TransitionAction::Unregister {
                None
            } else {
                own
            };
            lemma_moved(before.grid, t, id);
            assert(before.grid.with_gpu_id(t.coord, own).cells =~= before.grid.cells);
        }
        lemma_entered_step(grid.cells, before.grid.cells, after.grid.cells, at, len);
        assert forall|k: int|
            0 <= k < len && (forall|i: int|
                0 <= i < n ==> (#[trigger] grid.transitions[i]).coord
                    != grid.cells[k].coord) implies (#[trigger] after.grid.cells[k]).domain
            == grid.cells[k].domain by {
            assert(grid.transitions[n - 1].coord != grid.cells[k].coord);
            assert(k != at);
            assert(before.grid.cells[k].domain == grid.cells[k].domain);
        }
        assert forall|k: int| 0 <= k < len implies (#[trigger] after.grid.cells[k]).coord
            == grid.cells[k].coord by {
            assert(before.grid.cells[k].coord == grid.cells[k].coord);
        }
    }
}

/// The transition is refused: its cell is elsewhere, the store has no region for it, or the cache
/// did not take it.
pub open spec fn refused<B>(
    state: ExecState<B>,
    t: Transition,
    class: usize,
    loaded: Option<bool>,
) -> bool {
    match next_action(state, t) {
        TransitionAction::Drop => true,
        TransitionAction::Register => state.store.register_error(class as int) is Some,
        TransitionAction::Load => loaded != Some(true),
        _ => false,
    }
}

/// The hooks are for the cache alone: a step may load only where its cell is `Outer` and the
/// transition leads to `Warm`, and evict only where its cell is `Warm` and it leads to `Outer`.
pub proof fn law_hooks_are_for_the_cache<B>(state: ExecState<B>, t: Transition)
    ensures
        next_action(state, t) == TransitionAction::Load <==> is_tracked(state.grid.cells, t.coord)
            && state.grid.cell(t.coord).domain == t.from && t.from == Domain::Outer && t.to
            == Domain::Warm,
        next_action(state, t) == TransitionAction::Evict <==> is_tracked(state.grid.cells, t.coord)
            && state.grid.cell(t.coord).domain == t.from && t.from == Domain::Warm && t.to
            == Domain::Outer,
{
}

/// A refused transition is counted, by what refused it, and changes nothing else, so that it can be
/// asked for again.
pub proof fn law_refused_transition_changes_nothing<B>(
    state: ExecState<B>,
    t: Transition,
    class: usize,
    loaded: Option<bool>,
    serial: u64,
)
    requires
        refused(state, t, class, loaded),
    ensures
        ({
            let after = state.after(t, class, loaded, serial);
            &&& after.grid == state.grid
            &&& after.store == state.store
            &&& after.cells == state.cells
            &&& after.writes == state.writes
            &&& after.stats == match next_action(state, t) {
                TransitionAction::Drop => TransitionStats {
                    dropped_stale: (state.stats.dropped_stale + 1) as u32,
                    ..state.stats
                },
                TransitionAction::Register => TransitionStats {
                    declined: (state.stats.declined + 1) as u32,
                    ..state.stats
                },
                _ => TransitionStats {
                    ram_declined: (state.stats.ram_declined + 1) as u32,
                    ..state.stats
                },
            }
        }),
{
}

/// Each cell is on the device if and only if regions are recorded for it.
pub open spec fn residency_recorded(cells: Seq<GridCell>) -> bool {
    forall|k: int|
        0 <= k < cells.len() ==> (#[trigger] cells[k]).domain.on_gpu() == (cells[k].gpu_id is Some)
}

/// What a step leaves: every cell but its own, and its own too if it is refused; otherwise its own
/// arrives.
proof fn lemma_step_moves<B>(
    grid: GridState,
    before: ExecState<B>,
    t: Transition,
    class: usize,
    loaded: Option<bool>,
    serial: u64,
)
    requires
        grid.consistent(),
        same_coords(grid, before.grid),
        residency_recorded(before.grid.cells),
        is_tracked(grid.cells, t.coord),
    ensures
        ({
            let after = before.after(t, class, loaded, serial);
            let at = dense_at(grid.cells, t.coord);
            &&& same_coords(grid, after.grid)
            &&& residency_recorded(after.grid.cells)
            &&& 0 <= at < grid.cells.len()
            &&& forall|k: int|
                0 <= k < grid.cells.len() && k != at ==> #[trigger] after.grid.cells[k]
                    == before.grid.cells[k]
            &&& refused(before, t, class, loaded) ==> after.grid == before.grid
            &&& !refused(before, t, class, loaded) ==> after.grid.cells[at].domain == t.to
        }),
{
    let after = before.after(t, class, loaded, serial);
    let action = next_action(before, t);
    lemma_distinct(grid, before.grid);
    lemma_same_dense(grid, before.grid, t.coord);
    let at = dense_at(grid.cells, t.coord);
    assert(grid.cells[at].coord == t.coord);
    if !refused(before, t, class, loaded) {
        let own = before.grid.cells[at].gpu_id;
        let id = if action == TransitionAction::Register {
            Some(CellId { index: before.store.cells.len() as u32 })
        } else if action == TransitionAction::Unregister {
            None
        } else {
            own
        };
        lemma_moved(before.grid, t, id);
        assert(before.grid.with_gpu_id(t.coord, own).cells =~= before.grid.cells);
        assert(before.grid.cells[at].domain.on_gpu() == (own is Some));
        assert forall|k: int| 0 <= k < grid.cells.len() && k != at implies
            #[trigger] after.grid.cells[k] == before.grid.cells[k] by {}
        assert forall|k: int| 0 <= k < after.grid.cells.len() implies (
        #[trigger] after.grid.cells[k]).domain.on_gpu() == (after.grid.cells[k].gpu_id is Some) by {
            assert(before.grid.cells[k].domain.on_gpu() == (before.grid.cells[k].gpu_id is Some));
        }
    }
}

/// Each queued transition decides its cell, once: refused when its turn comes, the cell's domain and
/// regions are at the end as they were at the start; otherwise the cell is where the transition
/// leads. Throughout, a cell is on the device if and only if regions are recorded for it.
pub proof fn law_queue_decides_each_cell<B>(
    grid: GridState,
    store: StoreState<B>,
    cells: Seq<CellState>,
    classes: Seq<usize>,
    loaded: Seq<Option<bool>>,
    serial: u64,
    i: int,
    n: int,
)
    requires
        grid.consistent(),
        residency_recorded(grid.cells),
        0 <= i <= n <= grid.transitions.len(),
    ensures
        ({
            let start = exec_start(grid, store, cells);
            let turn = start.executed(grid.transitions, classes, loaded, serial, i);
            let after = start.executed(grid.transitions, classes, loaded, serial, n);
            let t = grid.transitions[i];
            let at = dense_at(grid.cells, t.coord);
            &&& residency_recorded(after.grid.cells)
            &&& same_coords(grid, after.grid)
            &&& i < n ==> {
                &&& turn.grid.cells[at] == grid.cells[at]
                &&& refused(turn, t, classes[i], loaded[i]) ==> after.grid.cells[at]
                    == grid.cells[at]
                &&& !refused(turn, t, classes[i], loaded[i]) ==> after.grid.cells[at].domain == t.to
            }
            &&& forall|k: int|
                0 <= k < grid.cells.len() && (forall|j: int|
                    0 <= j < n ==> (#[trigger] grid.transitions[j]).coord != grid.cells[k].coord)
                    ==> #[trigger] after.grid.cells[k] == grid.cells[k]
        }),
    decreases n,
{
    let start = exec_start(grid, store, cells);
    if n > 0 {
        let last = grid.transitions[n - 1];
        let before = start.executed(grid.transitions, classes, loaded, serial, n - 1);
        let after = start.executed(grid.transitions, classes, loaded, serial, n);
        let moved = dense_at(grid.cells, last.coord);
        law_queue_decides_each_cell(
            grid,
            store,
            cells,
            classes,
            loaded,
            serial,
            if i < n {
                i
            } else {
                n - 1
            },
            n - 1,
        );
        lemma_step_moves(grid, before, last, classes[n - 1], loaded[n - 1], serial);
        assert(grid.cells[moved].coord == last.coord);
        assert forall|k: int|
            0 <= k < grid.cells.len() && (forall|j: int|
                0 <= j < n ==> (#[trigger] grid.transitions[j]).coord
                    != grid.cells[k].coord) implies #[trigger] after.grid.cells[k]
            == grid.cells[k] by {
            assert(grid.transitions[n - 1].coord != grid.cells[k].coord);
            assert(before.grid.cells[k] == grid.cells[k]);
        }
        if i < n {
            let t = grid.transitions[i];
            let at = dense_at(grid.cells, t.coord);
            assert(is_tracked(grid.cells, t.coord));
            assert(grid.cells[at].coord == t.coord);
            if i < n - 1 {
                assert(grid.transitions[i].coord != grid.transitions[n - 1].coord);
                assert(after.grid.cells[at] == before.grid.cells[at]);
            } else {
                assert forall|j: int| 0 <= j < n - 1 implies (#[trigger] grid.transitions[j]).coord
                    != grid.cells[at].coord by {
                    assert(grid.transitions[j].coord != grid.transitions[n - 1].coord);
                }
                assert(before.grid.cells[at] == grid.cells[at]);
            }
        }
    }
}

/// A transition that is carried out puts its cell where it leads; the cell is on the device if and
/// only if regions are recorded for it.
pub proof fn law_executed_transition_arrives<B>(
    state: ExecState<B>,
    t: Transition,
    class: usize,
    loaded: Option<bool>,
    serial: u64,
)
    requires
        state.grid.consistent(),
        linked(state.grid, state.cells, state.store, serial),
        !refused(state, t, class, loaded),
    ensures
        ({
            let after = state.after(t, class, loaded, serial);
            &&& is_tracked(after.grid.cells, t.coord)
            &&& after.grid.cell(t.coord).domain == t.to
            &&& after.grid.cell(t.coord).gpu_id is Some == t.to.on_gpu()
        }),
{
    let at = dense_at(state.grid.cells, t.coord);
    assert(state.grid.cells[at].coord == t.coord);
    assert(cell_linked(state.grid.cells[at], state.cells[at], state.store, serial));
    let action = next_action(state, t);
    let id = if action == TransitionAction::Register {
        Some(CellId { index: state.store.cells.len() as u32 })
    } else if action == TransitionAction::Unregister {
        None
    } else {
        state.grid.cell(t.coord).gpu_id
    };
    lemma_moved(state.grid, t, id);
    assert(state.grid.with_gpu_id(t.coord, state.grid.cell(t.coord).gpu_id).cells
        =~= state.grid.cells);
}

/// Taking a cell off the device writes nothing to the device.
pub proof fn law_eviction_writes_nothing<B>(
    state: ExecState<B>,
    t: Transition,
    class: usize,
    loaded: Option<bool>,
    serial: u64,
)
    requires
        !t.to.on_gpu(),
    ensures
        state.after(t, class, loaded, serial).writes == state.writes,
{
}

/// Every transition is counted once, but for those that change nothing except the domain.
pub proof fn law_every_transition_is_counted<B>(
    state: ExecState<B>,
    t: Transition,
    class: usize,
    loaded: Option<bool>,
    serial: u64,
)
    requires
        stats_total(state.stats) < u32::MAX,
    ensures
        stats_total(state.after(t, class, loaded, serial).stats) == stats_total(state.stats) + (
        if next_action(state, t) == TransitionAction::Commit {
            0int
        } else {
            1int
        }),
{
}

/// A transition that is carried out is counted as what it did: onto the device as a promotion, off it
/// as a demotion, into system memory as warmed, out of it as cooled, and as nothing else; one between
/// two places of the same kind is not counted.
pub proof fn law_transition_counts_as_what_it_did<B>(
    state: ExecState<B>,
    t: Transition,
    class: usize,
    loaded: Option<bool>,
    serial: u64,
)
    requires
        stats_total(state.stats) < u32::MAX,
        !refused(state, t, class, loaded),
    ensures
        ({
            let before = state.stats;
            let after = state.after(t, class, loaded, serial).stats;
            let onto = (t.from == Domain::Outer || t.from == Domain::Warm) && (t.to
                == Domain::Margin || t.to == Domain::Inner);
            let off = (t.from == Domain::Margin || t.from == Domain::Inner) && (t.to
                == Domain::Outer || t.to == Domain::Warm);
            let warm = t.from == Domain::Outer && t.to == Domain::Warm;
            let cool = t.from == Domain::Warm && t.to == Domain::Outer;
            &&& after.promoted - before.promoted == if onto {
                1int
            } else {
                0
            }
            &&& after.demoted - before.demoted == if off {
                1int
            } else {
                0
            }
            &&& after.warmed - before.warmed == if warm {
                1int
            } else {
                0
            }
            &&& after.cooled - before.cooled == if cool {
                1int
            } else {
                0
            }
            &&& after.declined == before.declined
            &&& after.dropped_stale == before.dropped_stale
            &&& after.ram_declined == before.ram_declined
        }),
{
}

/// A transition is refused if and only if its cell is not where it starts from, or the device has no
/// region for it, or system memory did not take it.
pub proof fn law_transition_is_refused_for_a_reason<B>(
    state: ExecState<B>,
    t: Transition,
    class: usize,
    loaded: Option<bool>,
)
    ensures
        ({
            let there = is_tracked(state.grid.cells, t.coord) && state.grid.cell(t.coord).domain
                == t.from;
            let onto = (t.from == Domain::Outer || t.from == Domain::Warm) && (t.to
                == Domain::Margin || t.to == Domain::Inner);
            let warm = t.from == Domain::Outer && t.to == Domain::Warm;
            let full = state.store.row_pools[class as int].free.len() == 0
                || state.store.slot_pools[class as int].free.len() == 0;
            refused(state, t, class, loaded) <==> !there || (onto && full) || (warm && loaded
                != Some(true))
        }),
{
}

/// Only a transition onto the device or off it touches the store, and only the storage of its own cell.
pub proof fn law_only_moves_on_the_device_touch_the_store<B>(
    state: ExecState<B>,
    t: Transition,
    class: usize,
    loaded: Option<bool>,
    serial: u64,
    k: int,
)
    requires
        state.cells.len() == state.grid.cells.len(),
        0 <= k < state.cells.len(),
    ensures
        ({
            let after = state.after(t, class, loaded, serial);
            &&& t.from.on_gpu() == t.to.on_gpu() ==> after.store == state.store && after.cells
                == state.cells && after.writes == state.writes
            &&& !t.from.on_gpu() ==> after.cells == state.cells
            &&& after.cells.len() == state.cells.len()
            &&& k != dense_at(state.grid.cells, t.coord) ==> after.cells[k] == state.cells[k]
        }),
{
    if is_tracked(state.grid.cells, t.coord) {
        let at = dense_at(state.grid.cells, t.coord);
        assert(state.grid.cells[at].coord == t.coord);
    }
}

/// A cell that comes onto the device is registered: the next id of the store is live for it, and the
/// grid knows it by that id.
pub proof fn law_arriving_cell_is_registered<B>(
    state: ExecState<B>,
    t: Transition,
    class: usize,
    loaded: Option<bool>,
    serial: u64,
    c: int,
)
    requires
        state.grid.consistent(),
        0 <= c < state.grid.cells.len(),
        state.grid.cells[c].coord == t.coord,
        !t.from.on_gpu(),
        t.to.on_gpu(),
        !refused(state, t, class, loaded),
        state.store.cells.len() < u32::MAX,
    ensures
        ({
            let after = state.after(t, class, loaded, serial);
            let id = CellId { index: state.store.cells.len() as u32 };
            &&& after.grid.cells[c].gpu_id == Some(id)
            &&& after.grid.cells[c].domain == t.to
            &&& after.store.is_live(id)
            &&& after.store.mirror(id).class == class
            &&& after.store.cells.len() == state.store.cells.len() + 1
            &&& after.writes == state.writes + registration_writes(
                after.store.mirror(id),
                state.cells[c],
            )
        }),
{
    let at = dense_at(state.grid.cells, t.coord);
    assert(is_tracked(state.grid.cells, t.coord));
    assert(state.grid.cells[at].coord == t.coord);
    if at < c {
        assert(state.grid.cells[at].coord != state.grid.cells[c].coord);
    } else if c < at {
        assert(state.grid.cells[c].coord != state.grid.cells[at].coord);
    }
    let id = CellId { index: state.store.cells.len() as u32 };
    lemma_moved(state.grid, t, Some(id));
}

/// A cell that goes off the device is unregistered, its regions wait for the submission, and no
/// retirement of it is left waiting: they are carried out as if all submissions were done.
pub proof fn law_departing_cell_is_settled<B>(
    state: ExecState<B>,
    t: Transition,
    class: usize,
    loaded: Option<bool>,
    serial: u64,
    c: int,
)
    requires
        state.grid.consistent(),
        state.cells.len() == state.grid.cells.len(),
        0 <= c < state.grid.cells.len(),
        state.grid.cells[c].coord == t.coord,
        t.from.on_gpu(),
        !t.to.on_gpu(),
        !refused(state, t, class, loaded),
        state.grid.cells[c].gpu_id is Some,
        state.store.is_live(state.grid.cells[c].gpu_id->0),
    ensures
        ({
            let after = state.after(t, class, loaded, serial);
            let id = state.grid.cells[c].gpu_id->0;
            let mirror = state.store.mirror(id);
            &&& after.grid.cells[c].gpu_id is None
            &&& after.grid.cells[c].domain == t.to
            &&& !after.store.is_live(id)
            &&& after.cells[c] == crate::gpu::cell_mirror::retired(
                mirror,
                state.cells[c],
                u64::MAX,
            ).cell
            &&& after.writes == state.writes
        }),
{
    let at = dense_at(state.grid.cells, t.coord);
    assert(is_tracked(state.grid.cells, t.coord));
    assert(state.grid.cells[at].coord == t.coord);
    if at < c {
        assert(state.grid.cells[at].coord != state.grid.cells[c].coord);
    } else if c < at {
        assert(state.grid.cells[c].coord != state.grid.cells[at].coord);
    }
    let id = state.grid.cells[c].gpu_id->0;
    crate::gpu::store_rules::law_unregistering_retires_everything(
        state.store.mirror(id),
        state.cells[c],
    );
    lemma_moved(state.grid, t, None);
}

} // verus!
