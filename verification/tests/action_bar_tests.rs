use rts_core::action_bar::{plan_action_bar, BarContent, BarMode, BarPlan, BarState};
use rts_core::action_bar::{recipe_rows, storage_rows, worker_controls, RecipeRow, WorkerControls};

fn quiet(mode: BarMode) -> BarState {
    BarState {
        mode,
        mode_changed: false,
        building_changed: false,
        completed_changed: false,
        founded_changed: false,
        queue_changed: false,
        rally_changed: false,
        resources_changed: false,
        unit_cap_changed: false,
        layout_changed: false,
        confirm_open: false,
        bar_exists: true,
        has_cards: false,
        founded: true,
    }
}

fn rebuild(content: BarContent, animate: bool) -> BarPlan {
    BarPlan::Rebuild { content, animate }
}

#[test]
fn nothing_changed_keeps_the_bar() {
    assert_eq!(plan_action_bar(quiet(BarMode::Idle)), BarPlan::Keep);
}

#[test]
fn confirmation_and_placement_keep_the_bar() {
    let mut s = quiet(BarMode::Idle);
    s.mode_changed = true;
    s.confirm_open = true;
    assert_eq!(plan_action_bar(s), BarPlan::Keep);
    let mut s = quiet(BarMode::PlacingBuilding);
    s.mode_changed = true;
    assert_eq!(plan_action_bar(s), BarPlan::Keep);
    let mut s = quiet(BarMode::Idle);
    s.mode_changed = true;
    s.bar_exists = false;
    assert_eq!(plan_action_bar(s), BarPlan::Keep);
}

#[test]
fn idle_grid_ignores_queue_and_rally_changes() {
    let mut s = quiet(BarMode::Idle);
    s.has_cards = true;
    s.queue_changed = true;
    s.rally_changed = true;
    assert_eq!(plan_action_bar(s), BarPlan::Keep);
    s.resources_changed = true;
    assert_eq!(plan_action_bar(s), rebuild(BarContent::BuildingGrid, false));
    s.has_cards = false;
    s.resources_changed = false;
    assert_eq!(plan_action_bar(s), rebuild(BarContent::BuildingGrid, false));
}

#[test]
fn selected_building_panels() {
    let mut s = quiet(BarMode::SelectedBuilding(Some(true)));
    s.mode_changed = true;
    assert_eq!(plan_action_bar(s), rebuild(BarContent::BuildingActions, true));
    s.mode = BarMode::SelectedBuilding(Some(false));
    assert_eq!(plan_action_bar(s), rebuild(BarContent::Construction, true));
    s.mode = BarMode::SelectedBuilding(None);
    s.mode_changed = false;
    s.queue_changed = true;
    assert_eq!(plan_action_bar(s), rebuild(BarContent::Empty, false));
}

#[test]
fn workers_before_founding_get_the_found_base_panel() {
    let mut s = quiet(BarMode::SelectedUnits(true));
    s.mode_changed = true;
    s.founded = false;
    assert_eq!(plan_action_bar(s), rebuild(BarContent::FoundBase, false));
    s.mode = BarMode::SelectedUnits(false);
    assert_eq!(plan_action_bar(s), rebuild(BarContent::UnitActions, true));
    s.mode = BarMode::Idle;
    assert_eq!(plan_action_bar(s), rebuild(BarContent::FoundBase, false));
    s.founded = true;
    s.mode = BarMode::SelectedUnits(true);
    assert_eq!(plan_action_bar(s), rebuild(BarContent::UnitActions, true));
}

#[test]
fn worker_buttons_follow_the_worker_count() {
    let none = WorkerControls { slots: false, unassign_one: false, assign_one: false, unassign_all: false };
    assert_eq!(worker_controls(0, 0), none);
    assert_eq!(
        worker_controls(0, 3),
        WorkerControls { slots: true, unassign_one: false, assign_one: true, unassign_all: false }
    );
    assert_eq!(
        worker_controls(1, 3),
        WorkerControls { slots: true, unassign_one: true, assign_one: true, unassign_all: false }
    );
    assert_eq!(
        worker_controls(3, 3),
        WorkerControls { slots: true, unassign_one: true, assign_one: false, unassign_all: true }
    );
}

#[test]
fn recipes_above_the_building_level_are_locked() {
    assert_eq!(
        recipe_rows(&vec![1, 2, 3], Some(1), 2),
        vec![
            RecipeRow::Open { active: false },
            RecipeRow::Open { active: true },
            RecipeRow::Locked { requires_level: 3 },
        ]
    );
    assert_eq!(recipe_rows(&vec![1], None, 1), vec![RecipeRow::Open { active: false }]);
}

#[test]
fn storage_rows_skip_resources_without_room() {
    assert_eq!(storage_rows(&vec![5, 0, 7, 2], &vec![100, 0, 50, 0]), vec![(0, 5, 100), (2, 7, 50)]);
    assert!(storage_rows(&vec![0, 0], &vec![0, 0]).is_empty());
}
