//! What the streaming grid does with each cell, cell by cell.
use crate::gpu::grid::{
    BudgetError, CellCoord, CellZones, Domain, GridCell, GridConfig, GridState, StreamingBudget, Transition,
};
use crate::gpu::scene_store::{CellId, RegionClassConfig};
use crate::gpu::single::{Aabb, Single};
use vstd::prelude::*;

verus! {

use crate::gpu::grid::{
    all_committed, budget_error, classified, dense_at, faded, has_room, is_tracked,
    law_one_transition_per_cell, metadata, resident_cells, staged, wanted, warm_cells, warms_up,
    word_bytes,
};
use crate::gpu::single::any_intersects;

/// The queue takes the cell to `to`.
pub open spec fn moves(queue: Seq<Transition>, cell: GridCell, to: Domain) -> bool {
    queue.contains(Transition { coord: cell.coord, from: cell.domain, to })
}

/// The queue leaves the cell where it is.
pub open spec fn stays(queue: Seq<Transition>, cell: GridCell) -> bool {
    forall|i: int| 0 <= i < queue.len() ==> (#[trigger] queue[i]).coord != cell.coord
}

/// The warm cells, by dense id.
pub open spec fn warm_set(cells: Seq<GridCell>, n: int) -> Set<int> {
    Set::new(|i: int| 0 <= i < n && cells[i].domain == Domain::Warm)
}

/// The cells before `c` that the queue warms up, by dense id.
pub open spec fn warmed_set(cells: Seq<GridCell>, queue: Seq<Transition>, c: int) -> Set<int> {
    Set::new(
        |i: int|
            0 <= i < c && cells[i].domain == Domain::Outer && moves(queue, cells[i], Domain::Warm),
    )
}

proof fn lemma_warm_set(cells: Seq<GridCell>, n: int)
    requires
        0 <= n <= cells.len(),
    ensures
        warm_set(cells, n).finite(),
        warm_set(cells, n).len() == warm_cells(cells, n),
    decreases n,
{
    if n > 0 {
        lemma_warm_set(cells, n - 1);
        if cells[n - 1].domain == Domain::Warm {
            assert(warm_set(cells, n) =~= warm_set(cells, n - 1).insert(n - 1));
        } else {
            assert(warm_set(cells, n) =~= warm_set(cells, n - 1));
        }
    } else {
        assert(warm_set(cells, n) =~= Set::empty());
    }
}

proof fn lemma_front(
    state: GridState,
    zones: Seq<CellZones>,
    observers: Seq<Aabb>,
    m: int,
    n: int,
)
    requires
        0 <= m <= n <= state.cells.len(),
    ensures
        ({
            let front = classified(state, zones, observers, m);
            let queue = classified(state, zones, observers, n);
            &&& front.len() <= queue.len()
            &&& forall|i: int| 0 <= i < front.len() ==> #[trigger] queue[i] == front[i]
            &&& forall|i: int|
                front.len() <= i < queue.len() ==> exists|c: int|
                    m <= c < n && (#[trigger] queue[i]).coord == (#[trigger] state.cells[c]).coord
        }),
    decreases n - m,
{
    if m < n {
        lemma_front(state, zones, observers, m, n - 1);
        let front = classified(state, zones, observers, m);
        let most = classified(state, zones, observers, n - 1);
        let queue = classified(state, zones, observers, n);
        assert forall|i: int| 0 <= i < front.len() implies #[trigger] queue[i] == front[i] by {
            assert(most[i] == front[i]);
        }
        assert forall|i: int| front.len() <= i < queue.len() implies exists|c: int|
            m <= c < n && (#[trigger] queue[i]).coord == (#[trigger] state.cells[c]).coord by {
            if i < most.len() {
                assert(queue[i] == most[i]);
                let c = choose|c: int|
                    m <= c < n - 1 && most[i].coord == (#[trigger] state.cells[c]).coord;
                assert(queue[i].coord == state.cells[c].coord);
            } else {
                assert(queue[i].coord == state.cells[n - 1].coord);
            }
        }
    }
}

/// What the whole queue says of one cell is decided when its turn comes.
proof fn lemma_turn(
    state: GridState,
    zones: Seq<CellZones>,
    observers: Seq<Aabb>,
    c: int,
    n: int,
)
    requires
        state.consistent(),
        0 <= c < n <= state.cells.len(),
    ensures
        ({
            let queue = classified(state, zones, observers, n);
            let cell = state.cells[c];
            match wanted(
                cell,
                state.cfg.warm is Some,
                has_room(state, classified(state, zones, observers, c)),
                zones[c],
                observers,
            ) {
                Some(to) => forall|other: Domain|
                    #[trigger] moves(queue, cell, other) <==> other == to,
                None => stays(queue, cell),
            }
        }),
{
    let front = classified(state, zones, observers, c);
    let turn = classified(state, zones, observers, c + 1);
    let queue = classified(state, zones, observers, n);
    let cell = state.cells[c];
    lemma_front(state, zones, observers, 0, c);
    lemma_front(state, zones, observers, c, c + 1);
    lemma_front(state, zones, observers, c + 1, n);
    assert forall|i: int| 0 <= i < queue.len() && (#[trigger] queue[i]).coord == cell.coord implies i
        == front.len() && turn.len() == front.len() + 1 && queue[i] == turn[i] by {
        if i < front.len() {
            assert(turn[i] == front[i]);
            assert(queue[i] == turn[i]);
            let b = choose|b: int|
                0 <= b < c && front[i].coord == (#[trigger] state.cells[b]).coord;
            assert(state.cells[b].coord != state.cells[c].coord);
        } else if i >= turn.len() {
            let b = choose|b: int|
                c + 1 <= b < n && queue[i].coord == (#[trigger] state.cells[b]).coord;
            assert(state.cells[c].coord != state.cells[b].coord);
        }
    }
    match wanted(
        cell,
        state.cfg.warm is Some,
        has_room(state, front),
        zones[c],
        observers,
    ) {
        Some(to) => {
            let t = Transition { coord: cell.coord, from: cell.domain, to };
            assert(turn[front.len() as int] == t);
            assert(queue[front.len() as int] == t);
            assert forall|other: Domain| #[trigger] moves(queue, cell, other) implies other
                == to by {
                let u = Transition { coord: cell.coord, from: cell.domain, to: other };
                let i = choose|i: int| 0 <= i < queue.len() && queue[i] == u;
                assert(queue[i].coord == cell.coord);
            }
        },
        None => {},
    }
}

proof fn lemma_staged(
    state: GridState,
    zones: Seq<CellZones>,
    observers: Seq<Aabb>,
    c: int,
    n: int,
)
    requires
        state.consistent(),
        0 <= c <= n <= state.cells.len(),
    ensures
        ({
            let warmed = warmed_set(state.cells, classified(state, zones, observers, n), c);
            &&& warmed.finite()
            &&& warmed.len() == staged(classified(state, zones, observers, c))
        }),
    decreases c,
{
    let queue = classified(state, zones, observers, n);
    if c > 0 {
        lemma_staged(state, zones, observers, c - 1, n);
        lemma_turn(state, zones, observers, c - 1, n);
        let front = classified(state, zones, observers, c - 1);
        let turn = classified(state, zones, observers, c);
        let cell = state.cells[c - 1];
        let before = warmed_set(state.cells, queue, c - 1);
        let now = warmed_set(state.cells, queue, c);
        match wanted(
            cell,
            state.cfg.warm is Some,
            has_room(state, front),
            zones[c - 1],
            observers,
        ) {
            Some(to) => {
                assert(turn.drop_last() =~= front);
                assert(warms_up(turn.last()) <==> cell.domain == Domain::Outer && to
                    == Domain::Warm);
                assert(moves(queue, cell, Domain::Warm) <==> to == Domain::Warm);
            },
            None => {
                if moves(queue, cell, Domain::Warm) {
                    let u = Transition {
                        coord: cell.coord,
                        from: cell.domain,
                        to: Domain::Warm,
                    };
                    let i = choose|i: int| 0 <= i < queue.len() && queue[i] == u;
                    assert(queue[i].coord == cell.coord);
                }
            },
        }
        if cell.domain == Domain::Outer && moves(queue, cell, Domain::Warm) {
            assert(now =~= before.insert(c - 1));
        } else {
            assert(now =~= before);
        }
    } else {
        assert(warmed_set(state.cells, queue, c) =~= Set::empty());
    }
}

/// Classification queues exactly the transitions that the pins and the observers call for, however
/// many there are. A pinned cell goes to its pin unless it is there. Else an outer cell goes to the
/// margin when an observer touches that zone; failing that, it is warmed up when an observer touches
/// the warm zone, the tier is on, and the warm cells together with the cells warmed up before it
/// leave room under the cap. A warm cell goes to the margin likewise, and out when no observer is left
/// or the tier is off. A margin cell goes to the inner zone, or falls back to the warm tier (out, if
/// the tier is off) when no observer is left, and an inner cell falls back to the margin.
pub proof fn law_every_cell_gets_its_transition(
    state: GridState,
    zones: Seq<CellZones>,
    observers: Seq<Aabb>,
    c: int,
)
    requires
        state.consistent(),
        0 <= c < state.cells.len(),
    ensures
        ({
            let n = state.cells.len() as int;
            let queue = classified(state, zones, observers, n);
            let cell = state.cells[c];
            let near_inner = any_intersects(zones[c].inner_promote, observers);
            let left_inner = !any_intersects(zones[c].inner_demote, observers);
            let near_margin = any_intersects(zones[c].margin_promote, observers);
            let left_margin = !any_intersects(zones[c].margin_demote, observers);
            let near_warm = any_intersects(zones[c].warm_promote, observers);
            let left_warm = !any_intersects(zones[c].warm_demote, observers);
            let tier = state.cfg.warm is Some;
            let room = warm_set(state.cells, n).len() + warmed_set(state.cells, queue, c).len()
                < state.warm_cap;
            let at = |d: Domain| cell.pinned is None && cell.domain == d;
            &&& cell.pinned matches Some(pin) ==> if pin == cell.domain {
                stays(queue, cell)
            } else {
                moves(queue, cell, pin)
            }
            &&& at(Domain::Outer) && near_margin ==> moves(queue, cell, Domain::Margin)
            &&& at(Domain::Outer) && !near_margin && tier && near_warm && room ==> moves(
                queue,
                cell,
                Domain::Warm,
            )
            &&& at(Domain::Outer) && !near_margin && !(tier && near_warm && room) ==> stays(
                queue,
                cell,
            )
            &&& at(Domain::Warm) && !tier ==> moves(queue, cell, Domain::Outer)
            &&& at(Domain::Warm) && tier && near_margin ==> moves(queue, cell, Domain::Margin)
            &&& at(Domain::Warm) && tier && !near_margin && left_warm ==> moves(
                queue,
                cell,
                Domain::Outer,
            )
            &&& at(Domain::Warm) && tier && !near_margin && !left_warm ==> stays(queue, cell)
            &&& at(Domain::Margin) && near_inner ==> moves(queue, cell, Domain::Inner)
            &&& at(Domain::Margin) && !near_inner && left_margin && tier ==> moves(
                queue,
                cell,
                Domain::Warm,
            )
            &&& at(Domain::Margin) && !near_inner && left_margin && !tier ==> moves(
                queue,
                cell,
                Domain::Outer,
            )
            &&& at(Domain::Margin) && !near_inner && !left_margin ==> stays(queue, cell)
            &&& at(Domain::Inner) && left_inner ==> moves(queue, cell, Domain::Margin)
            &&& at(Domain::Inner) && !left_inner ==> stays(queue, cell)
        }),
{
    let n = state.cells.len() as int;
    let queue = classified(state, zones, observers, n);
    let cell = state.cells[c];
    lemma_turn(state, zones, observers, c, n);
    lemma_staged(state, zones, observers, c, n);
    lemma_warm_set(state.cells, n);
    let to = wanted(
        cell,
        state.cfg.warm is Some,
        has_room(state, classified(state, zones, observers, c)),
        zones[c],
        observers,
    );
    if to is Some {
        assert(moves(queue, cell, to->0));
    }
}

/// Nothing else is queued, and the queue follows the cells in dense order, each at most once.
pub proof fn law_queue_follows_the_cells(
    state: GridState,
    zones: Seq<CellZones>,
    observers: Seq<Aabb>,
    i: int,
    j: int,
)
    requires
        state.consistent(),
        0 <= i < j < classified(state, zones, observers, state.cells.len() as int).len(),
    ensures
        ({
            let queue = classified(state, zones, observers, state.cells.len() as int);
            exists|a: int, b: int|
                0 <= a < b < state.cells.len() && (#[trigger] state.cells[a]).coord
                    == queue[i].coord && state.cells[a].domain == queue[i].from && (
                #[trigger] state.cells[b]).coord == queue[j].coord && state.cells[b].domain
                    == queue[j].from
        }),
{
    let n = state.cells.len() as int;
    let queue = classified(state, zones, observers, n);
    law_one_transition_per_cell(state, zones, observers);
    let a = dense_at(state.cells, queue[i].coord);
    let b = dense_at(state.cells, queue[j].coord);
    assert(state.cells[a].coord == queue[i].coord);
    assert(state.cells[b].coord == queue[j].coord);
    if b <= a {
        lemma_front(state, zones, observers, 0, a);
        lemma_front(state, zones, observers, a, n);
        let front = classified(state, zones, observers, a);
        if j < front.len() {
            assert(queue[i] == front[i]);
            let d = choose|d: int|
                0 <= d < a && front[i].coord == (#[trigger] state.cells[d]).coord;
            assert(state.cells[d].coord != state.cells[a].coord);
        } else if b == a {
            assert(queue[i].coord != queue[j].coord);
        } else {
            let d = choose|d: int|
                a <= d < n && queue[j].coord == (#[trigger] state.cells[d]).coord;
            assert(state.cells[b].coord != state.cells[d].coord);
        }
    }
}

/// A transition that takes effect changes the cell it names and no other: the cell is then where the
/// transition leads, with its fade, pin and regions as they were, and it fades in if and only if it
/// came onto the device or further in. The warm cells are still counted right. A transition of a cell
/// that is not tracked changes nothing.
pub proof fn law_commit_moves_one_cell(state: GridState, t: Transition, c: int)
    requires
        state.consistent(),
        0 <= c < state.cells.len(),
    ensures
        ({
            let after = state.committed(t);
            let cell = state.cells[c];
            let moved = after.cells[c];
            &&& after.cells.len() == state.cells.len()
            &&& cell.coord != t.coord ==> moved == cell
            &&& cell.coord == t.coord ==> {
                &&& moved.coord == cell.coord
                &&& moved.domain == t.to
                &&& moved.pinned == cell.pinned
                &&& moved.alpha == cell.alpha
                &&& moved.gpu_id == cell.gpu_id
                &&& moved.fade_in <==> (t.to == Domain::Margin && (t.from == Domain::Outer
                    || t.from == Domain::Warm)) || (t.to == Domain::Inner && t.from
                    != Domain::Inner)
            }
            &&& after.warm_count == warm_set(after.cells, after.cells.len() as int).len()
            &&& after.cfg == state.cfg
            &&& after.transitions == state.transitions
            &&& after.warm_cap == state.warm_cap
            &&& after.upload_count == state.upload_count
            &&& !is_tracked(state.cells, t.coord) ==> after == state
        }),
{
    let after = state.committed(t);
    lemma_warm_set(after.cells, after.cells.len() as int);
    crate::gpu::grid::lemma_committed_count(state, t);
    if is_tracked(state.cells, t.coord) {
        let k = dense_at(state.cells, t.coord);
        assert(state.cells[k].coord == t.coord);
        if k < c {
            assert(state.cells[k].coord != state.cells[c].coord);
        } else if c < k {
            assert(state.cells[c].coord != state.cells[k].coord);
        }
    } else {
        assert(state.cells[c].coord != t.coord);
    }
}

proof fn lemma_all_committed(state: GridState, queue: Seq<Transition>, n: int, c: int)
    requires
        state.consistent(),
        0 <= c < state.cells.len(),
        0 <= n <= queue.len(),
        forall|i: int, j: int|
            #![trigger queue[i], queue[j]]
            0 <= i < j < queue.len() ==> queue[i].coord != queue[j].coord,
    ensures
        ({
            let after = all_committed(state, queue, n);
            &&& after.consistent()
            &&& after.cells.len() == state.cells.len()
            &&& after.cells[c].coord == state.cells[c].coord
            &&& forall|i: int|
                0 <= i < n && (#[trigger] queue[i]).coord == state.cells[c].coord
                    ==> after.cells[c].domain == queue[i].to
            &&& (forall|i: int| 0 <= i < n ==> (#[trigger] queue[i]).coord != state.cells[c].coord)
                ==> after.cells[c] == state.cells[c]
        }),
    decreases n,
{
    if n > 0 {
        lemma_all_committed(state, queue, n - 1, c);
        let most = all_committed(state, queue, n - 1);
        crate::gpu::grid::lemma_committed_count(most, queue[n - 1]);
        law_commit_moves_one_cell(most, queue[n - 1], c);
    }
}

/// Once all the transitions of a classification took effect, a cell that the queue moves is where it
/// was to go, and a cell that it leaves is as it was.
pub proof fn law_committed_queue_moves_every_cell(
    state: GridState,
    zones: Seq<CellZones>,
    observers: Seq<Aabb>,
    c: int,
    to: Domain,
)
    requires
        state.consistent(),
        0 <= c < state.cells.len(),
    ensures
        ({
            let queue = classified(state, zones, observers, state.cells.len() as int);
            let after = all_committed(state, queue, queue.len() as int);
            &&& after.cells.len() == state.cells.len()
            &&& moves(queue, state.cells[c], to) ==> after.cells[c].domain == to
            &&& stays(queue, state.cells[c]) ==> after.cells[c] == state.cells[c]
        }),
{
    let queue = classified(state, zones, observers, state.cells.len() as int);
    law_one_transition_per_cell(state, zones, observers);
    lemma_all_committed(state, queue, queue.len() as int, c);
    if moves(queue, state.cells[c], to) {
        let t = Transition { coord: state.cells[c].coord, from: state.cells[c].domain, to };
        let i = choose|i: int| 0 <= i < queue.len() && queue[i] == t;
        assert(queue[i].coord == state.cells[c].coord);
    }
}

/// A step of a fade leads toward the target and ends there if it is large enough, whichever way it
/// goes: below its target a fade becomes the raised value, but no more than the target; above it, the
/// lowered value, but no less than the target; at the target it stays. A step that is not a number
/// ends at the target. The result lies in `[0, 1]`. Nothing else of the cell changes.
pub proof fn law_fade_moves_to_its_target(cell: GridCell, raised: Single, lowered: Single)
    ensures
        ({
            let one: int = 0x3f80_0000;
            let target = if cell.fade_in {
                one
            } else {
                0
            };
            let after = faded(cell, raised, lowered);
            let bounded = |x: int|
                if x < 0 {
                    0
                } else if x > one {
                    one
                } else {
                    x
                };
            &&& after == (GridCell { alpha: after.alpha, ..cell })
            &&& cell.alpha.order() is None ==> after.alpha == cell.alpha
            &&& cell.alpha.order() matches Some(alpha) ==> {
                &&& after.alpha.order() is Some
                &&& alpha == target ==> after.alpha.order()->0 == target
                &&& alpha < target ==> after.alpha.order()->0 == bounded(
                    match raised.order() {
                        Some(r) => if r < target {
                            r
                        } else {
                            target
                        },
                        None => target,
                    },
                )
                &&& alpha > target ==> after.alpha.order()->0 == bounded(
                    match lowered.order() {
                        Some(l) => if l > target {
                            l
                        } else {
                            target
                        },
                        None => target,
                    },
                )
            }
        }),
{
}

proof fn lemma_metadata_len(cells: Seq<GridCell>, n: int)
    requires
        0 <= n <= cells.len(),
    ensures
        metadata(cells, n).len() == 8 * n,
    decreases n,
{
    if n > 0 {
        lemma_metadata_len(cells, n - 1);
    }
}

/// The number that four bytes spell, the low byte first.
pub open spec fn word_at(bytes: Seq<u8>, at: int) -> int {
    bytes[at] + 256 * bytes[at + 1] + 65536 * bytes[at + 2] + 16777216 * bytes[at + 3]
}

proof fn lemma_word_bytes(word: u32)
    ensures
        word_bytes(word).len() == 4,
        word_at(word_bytes(word), 0) == word,
{
}

/// The metadata holds eight bytes for each cell, at eight times its dense id: the bits of its fade,
/// then 2 for an inner cell, 1 for one in the margin, 0 for one that is not on the device.
pub proof fn law_metadata_spells_every_cell(cells: Seq<GridCell>, n: int, c: int)
    requires
        0 <= c < n <= cells.len(),
    ensures
        metadata(cells, n).len() == 8 * n,
        word_at(metadata(cells, n), 8 * c) == cells[c].alpha.bits,
        word_at(metadata(cells, n), 8 * c + 4) == (if cells[c].domain == Domain::Inner {
            2int
        } else if cells[c].domain == Domain::Margin {
            1
        } else {
            0
        }),
    decreases n,
{
    lemma_metadata_len(cells, n);
    lemma_metadata_len(cells, n - 1);
    if c < n - 1 {
        law_metadata_spells_every_cell(cells, n - 1, c);
    } else {
        lemma_word_bytes(cells[c].alpha.bits);
        lemma_word_bytes(cells[c].domain.code());
    }
}

/// The resident cells of two lists of classes add up, and those of one class are its own.
pub proof fn law_resident_cells_add_up(a: Seq<RegionClassConfig>, b: Seq<RegionClassConfig>)
    ensures
        resident_cells(a + b, (a + b).len() as int) == resident_cells(a, a.len() as int)
            + resident_cells(b, b.len() as int),
        a.len() == 1 ==> resident_cells(a, 1) == a[0].max_resident_cells,
        a.len() == 0 ==> resident_cells(a, 0) == 0,
    decreases b.len(),
{
    reveal_with_fuel(resident_cells, 2);
    if b.len() > 0 {
        let front = b.drop_last();
        law_resident_cells_add_up(a, front);
        lemma_resident_cells(a + b, a + front, (a + front).len() as int);
        lemma_resident_cells(b, front, front.len() as int);
    } else {
        assert(a + b =~= a);
    }
}

proof fn lemma_resident_cells(a: Seq<RegionClassConfig>, b: Seq<RegionClassConfig>, n: int)
    requires
        0 <= n <= a.len(),
        n <= b.len(),
        forall|i: int| 0 <= i < n ==> a[i] == b[i],
    ensures
        resident_cells(a, n) == resident_cells(b, n),
    decreases n,
{
    if n > 0 {
        lemma_resident_cells(a, b, n - 1);
    }
}

/// A budget is accepted if and only if it covers the proxies of all materialized cells, the geometry
/// of all resident ones and that of all warm ones, does not warm more cells than are materialized, and
/// the warm zone, where there is one, lies beyond the margin. Else the error names a limit that is
/// broken, and none of those tested before it is.
pub proof fn law_budget_is_refused_for_what_it_breaks(
    cfg: GridConfig,
    budget: StreamingBudget,
    classes: Seq<RegionClassConfig>,
)
    ensures
        ({
            let hlod = budget.max_materialized_cells * budget.proxy_mesh_bytes
                <= budget.vram_hlod_budget;
            let geometry = resident_cells(classes, classes.len() as int)
                * budget.mean_cell_geometry_bytes <= budget.vram_geometry_budget;
            let cap = budget.max_ram_cached_cells <= budget.max_materialized_cells;
            let ram = budget.max_ram_cached_cells * budget.mean_cell_geometry_bytes
                <= budget.ram_budget;
            let beyond = match cfg.warm {
                Some(warm) => match (warm.radius.order(), cfg.margin_radius.order()) {
                    (Some(r), Some(m)) => r > m,
                    _ => true,
                },
                None => true,
            };
            let error = budget_error(cfg, budget, classes);
            &&& error is None <==> hlod && geometry && cap && ram && beyond
            &&& error == Some(BudgetError::HlodOverBudget) <==> !hlod
            &&& error == Some(BudgetError::GeometryOverBudget) <==> hlod && !geometry
            &&& error == Some(BudgetError::RamCapExceedsMaterialized) <==> hlod && geometry && !cap
            &&& error == Some(BudgetError::RamOverBudget) <==> hlod && geometry && cap && !ram
            &&& error == Some(BudgetError::WarmRadiusNotBeyondMargin) <==> hlod && geometry && cap
                && ram && !beyond
        }),
{
}

/// Recording the regions of a cell sets them for that cell and changes nothing else; of a cell that is
/// not tracked nothing is recorded.
pub proof fn law_regions_are_recorded_for_one_cell(
    state: GridState,
    coord: CellCoord,
    id: Option<CellId>,
    c: int,
)
    requires
        state.consistent(),
        0 <= c < state.cells.len(),
    ensures
        ({
            let after = state.with_gpu_id(coord, id);
            &&& after.cells.len() == state.cells.len()
            &&& after.cells[c] == if state.cells[c].coord == coord {
                GridCell { gpu_id: id, ..state.cells[c] }
            } else {
                state.cells[c]
            }
            &&& after.transitions == state.transitions
            &&& after.warm_count == state.warm_count
            &&& !is_tracked(state.cells, coord) ==> after == state
        }),
{
    if is_tracked(state.cells, coord) {
        let k = dense_at(state.cells, coord);
        assert(state.cells[k].coord == coord);
        if k < c {
            assert(state.cells[k].coord != state.cells[c].coord);
        } else if c < k {
            assert(state.cells[c].coord != state.cells[k].coord);
        }
    } else {
        assert(state.cells[c].coord != coord);
    }
}

/// Another value for one cell, such as one with a pin, is what that cell then has; every other cell, the
/// queue and everything else stay as they were.
pub proof fn law_cells_are_set_one_by_one(
    state: GridState,
    coord: CellCoord,
    cell: GridCell,
    other: CellCoord,
)
    requires
        state.consistent(),
        is_tracked(state.cells, coord),
        is_tracked(state.cells, other),
        cell.coord == coord,
    ensures
        ({
            let after = state.with_cell(coord, cell);
            &&& is_tracked(after.cells, coord) && after.cell(coord) == cell
            &&& other != coord ==> is_tracked(after.cells, other) && after.cell(other) == state.cell(
                other,
            )
            &&& after.cells.len() == state.cells.len()
            &&& after == (GridState { cells: after.cells, ..state })
        }),
{
    let after = state.with_cell(coord, cell);
    let at = dense_at(state.cells, coord);
    let there = dense_at(state.cells, other);
    assert(after.cells[at].coord == coord);
    assert(after.cells[there].coord == other);
    assert forall|i: int, j: int|
        0 <= i < after.cells.len() && 0 <= j < after.cells.len() && (#[trigger] after.cells[i]).coord
            == (#[trigger] after.cells[j]).coord implies i == j by {
        assert(after.cells[i].coord == state.cells[i].coord);
        assert(after.cells[j].coord == state.cells[j].coord);
    }
}
} // verus!
