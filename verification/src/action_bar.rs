//! When the action bar is rebuilt, and with what: the per-selection panel,
//! the construction progress, the base-founding panel or the building grid;
//! what the units bar shows for a unit selection; and which worker
//! controls, recipe rows and storage rows a building's panel holds.
use vstd::prelude::*;
use crate::unit_ai::UnitState;

verus! {

/// What the player is doing, as far as the action bar cares.
#[derive(Clone, Copy, PartialEq, Eq, Debug)]
pub enum BarMode {
    /// Nothing selected.
    Idle,
    /// A building is being placed.
    PlacingBuilding,
    /// A building is selected: `None` when the selection does not resolve
    /// to one building, else whether that building is complete.
    SelectedBuilding(Option<bool>),
    /// Units are selected; whether a worker is among them.
    SelectedUnits(bool),
    /// Any other mode.
    Other,
}

/// What the rebuilt bar holds.
#[derive(Clone, Copy, PartialEq, Eq, Debug)]
pub enum BarContent {
    /// Actions of a complete building.
    BuildingActions,
    /// Progress of a building under construction.
    Construction,
    /// The panel to found the first base.
    FoundBase,
    /// Commands for the selected units.
    UnitActions,
    /// The grid of buildings to place.
    BuildingGrid,
    /// Nothing: the selected building could not be resolved.
    Empty,
}

/// What changed since the bar was last built, and the state it is built
/// from.
#[derive(Clone, Copy, PartialEq, Eq, Debug)]
pub struct BarState {
    pub mode: BarMode,
    pub mode_changed: bool,
    pub building_changed: bool,
    pub completed_changed: bool,
    pub founded_changed: bool,
    pub queue_changed: bool,
    pub rally_changed: bool,
    pub resources_changed: bool,
    pub unit_cap_changed: bool,
    pub layout_changed: bool,
    /// A demolish confirmation is open.
    pub confirm_open: bool,
    /// The bar itself exists.
    pub bar_exists: bool,
    /// The bar currently holds cards.
    pub has_cards: bool,
    /// The player has founded a base.
    pub founded: bool,
}

/// What to do with the bar this frame.
#[derive(Clone, Copy, PartialEq, Eq, Debug)]
pub enum BarPlan {
    /// Leave the bar as it is.
    Keep,
    /// Clear the bar and fill it with `content`; `animate` plays the
    /// entrance animation.
    Rebuild { content: BarContent, animate: bool },
}

/// Something the bar shows has changed.
pub open spec fn anything_changed(s: BarState) -> bool {
    s.mode_changed || s.building_changed || s.completed_changed || s.founded_changed || s.queue_changed
        || s.rally_changed || s.resources_changed || s.unit_cap_changed || s.layout_changed
}

/// The bar is left alone: while a confirmation is open or a building is
/// being placed, when nothing changed or there is no bar, and when idle
/// with cards already shown unless the mode, the completed buildings, the
/// base, the resources, the unit cap or the layout changed.
pub open spec fn bar_kept(s: BarState) -> bool {
    ||| s.confirm_open
    ||| s.mode == BarMode::PlacingBuilding
    ||| !anything_changed(s)
    ||| !s.bar_exists
    ||| (!s.mode_changed && s.mode == BarMode::Idle && s.has_cards && !s.completed_changed && !s.founded_changed
        && !s.resources_changed && !s.unit_cap_changed && !s.layout_changed)
}

/// What a rebuilt bar holds in mode `mode`.
pub open spec fn bar_content(mode: BarMode, founded: bool) -> BarContent {
    match mode {
        BarMode::SelectedBuilding(None) => BarContent::Empty,
        BarMode::SelectedBuilding(Some(complete)) => if complete {
            BarContent::BuildingActions
        } else {
            BarContent::Construction
        },
        BarMode::SelectedUnits(has_workers) => if !founded && has_workers {
            BarContent::FoundBase
        } else {
            BarContent::UnitActions
        },
        _ => if founded {
            BarContent::BuildingGrid
        } else {
            BarContent::FoundBase
        },
    }
}

/// The panels that place buildings; they appear without animation.
pub open spec fn is_placement_panel(c: BarContent) -> bool {
    c == BarContent::FoundBase || c == BarContent::BuildingGrid
}

/// Decides whether the action bar is rebuilt this frame and with what.
/// The entrance animation plays only when the mode itself changed and the
/// new content is not a placement panel.
pub fn plan_action_bar(s: BarState) -> (r: BarPlan)
    ensures
        r == BarPlan::Keep <==> bar_kept(s),
        !bar_kept(s) ==> r == (BarPlan::Rebuild {
            content: bar_content(s.mode, s.founded),
            animate: s.mode_changed && !is_placement_panel(bar_content(s.mode, s.founded)),
        }),
{
    if s.confirm_open {
        return BarPlan::Keep;
    }
    if let BarMode::PlacingBuilding = s.mode {
        return BarPlan::Keep;
    }
    let changed = s.mode_changed || s.building_changed || s.completed_changed || s.founded_changed
        || s.queue_changed || s.rally_changed || s.resources_changed || s.unit_cap_changed || s.layout_changed;
    if !changed || !s.bar_exists {
        return BarPlan::Keep;
    }
    let idle = match s.mode {
        BarMode::Idle => true,
        _ => false,
    };
    if !s.mode_changed && idle && s.has_cards && !s.completed_changed && !s.founded_changed && !s.resources_changed
        && !s.unit_cap_changed && !s.layout_changed {
        return BarPlan::Keep;
    }
    let (content, placement) = match s.mode {
        BarMode::SelectedBuilding(None) => (BarContent::Empty, false),
        BarMode::SelectedBuilding(Some(complete)) => {
            if complete {
                (BarContent::BuildingActions, false)
            } else {
                (BarContent::Construction, false)
            }
        },
        BarMode::SelectedUnits(has_workers) => {
            if !s.founded && has_workers {
                (BarContent::FoundBase, true)
            } else {
                (BarContent::UnitActions, false)
            }
        },
        _ => {
            if s.founded {
                (BarContent::BuildingGrid, true)
            } else {
                (BarContent::FoundBase, true)
            }
        },
    };
    BarPlan::Rebuild { content, animate: !placement && s.mode_changed }
}

/// A selected unit as the units bar sees it.
#[derive(Clone, Copy, PartialEq, Eq, Debug)]
pub struct BarUnit {
    pub is_worker: bool,
    /// It carries a cargo hold (it has a load and a capacity).
    pub has_hold: bool,
    /// Its load is not empty.
    pub carrying: bool,
}

/// The units bar's title.
#[derive(Clone, Copy, PartialEq, Eq, Debug)]
pub enum UnitsBarTitle {
    /// Only workers are selected: "N Worker(s)".
    Workers(usize),
    /// Any other selection: "N unit(s) selected".
    Units(usize),
}

/// What the units bar shows besides the command buttons.
#[derive(Clone, Copy, PartialEq, Eq, Debug)]
pub struct UnitsBarPlan {
    pub title: UnitsBarTitle,
    /// The load meter of a single selected worker.
    pub cargo_meter: bool,
    /// The activity line of a single selected worker.
    pub activity_line: bool,
    /// The "Drop Cargo" button.
    pub drop_cargo: bool,
    /// The formation button.
    pub formation: bool,
}

/// Number of workers among the first `n` units.
pub open spec fn worker_count(units: Seq<BarUnit>, n: int) -> int
    decreases n,
{
    if n <= 0 {
        0
    } else {
        worker_count(units, n - 1) + if units[n - 1].is_worker {
            1int
        } else {
            0int
        }
    }
}

pub open spec fn units_bar_plan(units: Seq<BarUnit>) -> UnitsBarPlan {
    let n = units.len() as int;
    let w = worker_count(units, n);
    let single_worker = n == 1 && units[0].is_worker && units[0].has_hold;
    UnitsBarPlan {
        title: if w == n && w > 0 {
            UnitsBarTitle::Workers(w as usize)
        } else {
            UnitsBarTitle::Units(n as usize)
        },
        cargo_meter: single_worker && units[0].carrying,
        activity_line: single_worker,
        drop_cargo: exists|i: int| 0 <= i < n && (#[trigger] units[i]).is_worker && units[i].carrying,
        formation: n > 1,
    }
}

proof fn lemma_worker_count_bound(units: Seq<BarUnit>, n: int)
    requires
        0 <= n <= units.len(),
    ensures
        0 <= worker_count(units, n) <= n,
    decreases n,
{
    if n > 0 {
        lemma_worker_count_bound(units, n - 1);
    }
}

/// Plans the units bar: the title counts workers when only workers are
/// selected, a single worker with a cargo hold shows its load meter (when
/// loaded) and its activity, "Drop Cargo" appears when a selected worker
/// carries something, and the formation button when several units are
/// selected.
pub fn plan_units_bar(units: &Vec<BarUnit>) -> (r: UnitsBarPlan)
    ensures
        r == units_bar_plan(units@),
{
    let n = units.len();
    let mut w: usize = 0;
    let mut carrying_worker = false;
    let mut i: usize = 0;
    while i < n
        invariant
            n == units@.len(),
            i <= n,
            w == worker_count(units@, i as int),
            carrying_worker <==> exists|j: int| 0 <= j < i && (#[trigger] units@[j]).is_worker && units@[j].carrying,
        decreases n - i,
    {
        proof {
            lemma_worker_count_bound(units@, i as int);
        }
        let u = units[i];
        if u.is_worker {
            w += 1;
            if u.carrying {
                carrying_worker = true;
            }
        }
        i += 1;
    }
    let title = if w == n && w > 0 {
        UnitsBarTitle::Workers(w)
    } else {
        UnitsBarTitle::Units(n)
    };
    let single_worker = n == 1 && units[0].is_worker && units[0].has_hold;
    UnitsBarPlan {
        title,
        cargo_meter: single_worker && units[0].carrying,
        activity_line: single_worker,
        drop_cargo: carrying_worker,
        formation: n > 1,
    }
}

/// What a worker's activity line says.
#[derive(Clone, Copy, PartialEq, Eq, Debug)]
pub enum WorkerActivity {
    Idle,
    Moving,
    Gathering,
    ReturningToDepot,
    Depositing,
    GoingToPlot,
    MovingToBuild,
    Building,
    StorageFull,
    WorkingAtBuilding,
    Attacking,
    AttackMoving,
    Patrolling,
    HoldingPosition,
}

/// The activity line of a worker in `state`; a worker walking to or
/// inside a processing building is working at it.
pub fn worker_activity<P>(state: &UnitState<P>) -> (r: WorkerActivity)
    ensures
        r == match *state {
            UnitState::Idle => WorkerActivity::Idle,
            UnitState::Moving(_) => WorkerActivity::Moving,
            UnitState::Gathering(_) => WorkerActivity::Gathering,
            UnitState::ReturningToDeposit { .. } => WorkerActivity::ReturningToDepot,
            UnitState::Depositing { .. } => WorkerActivity::Depositing,
            UnitState::WaitingForStorage { .. } => WorkerActivity::StorageFull,
            UnitState::MovingToPlot(_) => WorkerActivity::GoingToPlot,
            UnitState::MovingToBuild(_) => WorkerActivity::MovingToBuild,
            UnitState::Building(_) => WorkerActivity::Building,
            UnitState::MovingToProcessor(_) | UnitState::InsideProcessor(_) => WorkerActivity::WorkingAtBuilding,
            UnitState::Attacking(_) => WorkerActivity::Attacking,
            UnitState::AttackMoving(_) => WorkerActivity::AttackMoving,
            UnitState::Patrolling { .. } => WorkerActivity::Patrolling,
            UnitState::HoldPosition => WorkerActivity::HoldingPosition,
        },
{
    match state {
        UnitState::Idle => WorkerActivity::Idle,
        UnitState::Moving(_) => WorkerActivity::Moving,
        UnitState::Gathering(_) => WorkerActivity::Gathering,
        UnitState::ReturningToDeposit { .. } => WorkerActivity::ReturningToDepot,
        UnitState::Depositing { .. } => WorkerActivity::Depositing,
        UnitState::WaitingForStorage { .. } => WorkerActivity::StorageFull,
        UnitState::MovingToPlot(_) => WorkerActivity::GoingToPlot,
        UnitState::MovingToBuild(_) => WorkerActivity::MovingToBuild,
        UnitState::Building(_) => WorkerActivity::Building,
        UnitState::MovingToProcessor(_) | UnitState::InsideProcessor(_) => WorkerActivity::WorkingAtBuilding,
        UnitState::Attacking(_) => WorkerActivity::Attacking,
        UnitState::AttackMoving(_) => WorkerActivity::AttackMoving,
        UnitState::Patrolling { .. } => WorkerActivity::Patrolling,
        UnitState::HoldPosition => WorkerActivity::HoldingPosition,
    }
}

/// Which worker controls the panel of a processing building shows.
#[derive(Clone, Copy, PartialEq, Eq, Debug)]
pub struct WorkerControls {
    /// The row of worker slots (one per place).
    pub slots: bool,
    /// The button that takes one worker out.
    pub unassign_one: bool,
    /// The button that sends one more worker in.
    pub assign_one: bool,
    /// The button that takes every worker out.
    pub unassign_all: bool,
}

/// The worker controls for a building with `worker_count` workers and
/// room for `max_workers`: none at all when it takes no workers; else the
/// slots, "-" when someone works there, "+" while there is room, and
/// "Unassign All" when more than one works there.
pub fn worker_controls(worker_count: usize, max_workers: u32) -> (r: WorkerControls)
    ensures
        r.slots == (max_workers > 0),
        r.unassign_one == (max_workers > 0 && worker_count > 0),
        r.assign_one == (max_workers > 0 && worker_count < max_workers),
        r.unassign_all == (max_workers > 0 && worker_count > 1),
{
    let takes_workers = max_workers > 0;
    WorkerControls {
        slots: takes_workers,
        unassign_one: takes_workers && worker_count > 0,
        assign_one: takes_workers && worker_count < max_workers as usize,
        unassign_all: takes_workers && worker_count > 1,
    }
}

/// A row of the production section.
#[derive(Clone, Copy, PartialEq, Eq, Debug)]
pub enum RecipeRow {
    /// The building's level is too low: the row names the level needed.
    Locked { requires_level: u8 },
    /// The recipe can be clicked; `active` marks the one in production.
    Open { active: bool },
}

/// The row of a recipe needing level `requires_level`, at position `idx`.
pub open spec fn recipe_row(requires_level: u8, idx: int, active: Option<usize>, level: u8) -> RecipeRow {
    if requires_level > level {
        RecipeRow::Locked { requires_level }
    } else {
        RecipeRow::Open { active: active matches Some(a) && a == idx }
    }
}

/// The production rows of a building at `level`, one per recipe (given by
/// the level each one needs), in order.
pub fn recipe_rows(levels_needed: &Vec<u8>, active: Option<usize>, level: u8) -> (r: Vec<RecipeRow>)
    ensures
        r@.len() == levels_needed@.len(),
        forall|i: int| 0 <= i < levels_needed@.len() ==> #[trigger] r@[i] == recipe_row(levels_needed@[i], i, active, level),
{
    let mut out: Vec<RecipeRow> = Vec::new();
    let mut i: usize = 0;
    while i < levels_needed.len()
        invariant
            i <= levels_needed@.len(),
            out@.len() == i,
            forall|j: int| 0 <= j < i ==> #[trigger] out@[j] == recipe_row(levels_needed@[j], j, active, level),
        decreases levels_needed@.len() - i,
    {
        let need = levels_needed[i];
        let row = if need > level {
            RecipeRow::Locked { requires_level: need }
        } else {
            let is_active = match active {
                Some(a) => a == i,
                None => false,
            };
            RecipeRow::Open { active: is_active }
        };
        out.push(row);
        i += 1;
    }
    out
}

/// The storage rows for the first `n` resource types: (type, amount, cap)
/// for each type the building accepts (a cap above zero), in order.
pub open spec fn storage_rows_upto(amounts: Seq<u32>, caps: Seq<u32>, n: int) -> Seq<(usize, u32, u32)>
    decreases n,
{
    if n <= 0 {
        Seq::empty()
    } else if caps[n - 1] == 0 {
        storage_rows_upto(amounts, caps, n - 1)
    } else {
        storage_rows_upto(amounts, caps, n - 1).push(((n - 1) as usize, amounts[n - 1], caps[n - 1]))
    }
}

/// The per-resource storage rows of a building: the types it does not
/// accept (cap zero) are left out.
pub fn storage_rows(amounts: &Vec<u32>, caps: &Vec<u32>) -> (r: Vec<(usize, u32, u32)>)
    requires
        amounts@.len() == caps@.len(),
    ensures
        r@ == storage_rows_upto(amounts@, caps@, caps@.len() as int),
{
    let mut out: Vec<(usize, u32, u32)> = Vec::new();
    let mut i: usize = 0;
    while i < caps.len()
        invariant
            amounts@.len() == caps@.len(),
            i <= caps@.len(),
            out@ == storage_rows_upto(amounts@, caps@, i as int),
        decreases caps@.len() - i,
    {
        if caps[i] != 0 {
            out.push((i, amounts[i], caps[i]));
        }
        i += 1;
    }
    out
}

} // verus!
