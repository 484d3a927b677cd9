use rts_core::action_bar::{plan_units_bar, worker_activity, BarUnit, UnitsBarPlan, UnitsBarTitle, WorkerActivity};
use rts_core::inventory::{inventory_detail, item_status, InventoryDetail, ItemStatus, SlotRuntime};
use rts_core::production::{cancel_queued, confirm_demolish, demolish_refund_preview, refund, select_recipe, DemolishAction};
use rts_core::unit_ai::UnitState;

#[test]
fn cancelling_a_queued_unit_refunds_it() {
    let mut queue = vec![4, 7, 9];
    assert_eq!(cancel_queued(&mut queue, 1), Some((7, false)));
    assert_eq!(queue, vec![4, 9]);
    assert_eq!(cancel_queued(&mut queue, 0), Some((4, true)));
    assert_eq!(queue, vec![9]);
    assert_eq!(cancel_queued(&mut queue, 5), None);
    assert_eq!(queue, vec![9]);
    let mut amounts = vec![10, 0, 5];
    refund(&mut amounts, &vec![50, 25, 0]);
    assert_eq!(amounts, vec![60, 25, 5]);
}

#[test]
fn demolition_refunds_only_unfinished_buildings() {
    let mut amounts = vec![1, 2];
    assert_eq!(confirm_demolish(true, &mut amounts, &vec![100, 30]), DemolishAction::RefundAndRemove);
    assert_eq!(amounts, vec![101, 32]);
    assert_eq!(confirm_demolish(false, &mut amounts, &vec![100, 30]), DemolishAction::StartDemolition);
    assert_eq!(amounts, vec![101, 32]);
}

#[test]
fn clicking_a_recipe_toggles_it() {
    assert_eq!(select_recipe(None, 2), (Some(2), true));
    assert_eq!(select_recipe(Some(1), 2), (Some(2), true));
    assert_eq!(select_recipe(Some(2), 2), (None, false));
}

fn unit(is_worker: bool, has_hold: bool, carrying: bool) -> BarUnit {
    BarUnit { is_worker, has_hold, carrying }
}

#[test]
fn units_bar_titles_and_extras() {
    let p = plan_units_bar(&vec![unit(true, true, true)]);
    assert_eq!(
        p,
        UnitsBarPlan {
            title: UnitsBarTitle::Workers(1),
            cargo_meter: true,
            activity_line: true,
            drop_cargo: true,
            formation: false
        }
    );
    let p = plan_units_bar(&vec![unit(true, true, false), unit(false, false, false)]);
    assert_eq!(
        p,
        UnitsBarPlan {
            title: UnitsBarTitle::Units(2),
            cargo_meter: false,
            activity_line: false,
            drop_cargo: false,
            formation: true
        }
    );
    assert_eq!(plan_units_bar(&vec![unit(true, false, false), unit(true, true, false)]).title, UnitsBarTitle::Workers(2));
    assert_eq!(plan_units_bar(&vec![]).title, UnitsBarTitle::Units(0));
}

#[test]
fn worker_activity_lines() {
    assert_eq!(worker_activity::<(i32, i32)>(&UnitState::Idle), WorkerActivity::Idle);
    assert_eq!(worker_activity::<(i32, i32)>(&UnitState::WaitingForStorage { depot: 3 }), WorkerActivity::StorageFull);
    assert_eq!(worker_activity::<(i32, i32)>(&UnitState::InsideProcessor(3)), WorkerActivity::WorkingAtBuilding);
    assert_eq!(worker_activity(&UnitState::Patrolling { target: (1, 1), origin: (0, 0) }), WorkerActivity::Patrolling);
}

#[test]
fn inventory_detail_focus() {
    assert_eq!(inventory_detail(0, 0, None, false), InventoryDetail::Hidden);
    assert_eq!(inventory_detail(3, 0, None, false), InventoryDetail::NoItems);
    assert_eq!(inventory_detail(3, 2, None, false), InventoryDetail::Item(0));
    assert_eq!(inventory_detail(3, 2, Some(1), true), InventoryDetail::Item(1));
    // a focus on another unit, or outside the slots, falls back to slot 0
    assert_eq!(inventory_detail(3, 2, Some(1), false), InventoryDetail::Item(0));
    assert_eq!(inventory_detail(3, 2, Some(5), true), InventoryDetail::Item(0));
    // an empty slot in focus asks to pick a filled one
    assert_eq!(inventory_detail(3, 2, Some(2), true), InventoryDetail::PickSlot);
    assert_eq!(inventory_detail(3, 0, Some(2), true), InventoryDetail::NoItems);
}

#[test]
fn item_status_lines() {
    let rt = |cooling_down, enabled, active| Some(SlotRuntime { cooling_down, enabled, active });
    assert_eq!(item_status(None), ItemStatus::Ready);
    assert_eq!(item_status(rt(true, true, true)), ItemStatus::Cooldown);
    assert_eq!(item_status(rt(false, true, true)), ItemStatus::Active);
    assert_eq!(item_status(rt(false, true, false)), ItemStatus::Ready);
    assert_eq!(item_status(rt(false, false, true)), ItemStatus::Disabled);
}

#[test]
fn demolition_preview_gives_half_of_a_finished_building() {
    assert_eq!(demolish_refund_preview(true, &vec![75, 0, 31]), (50, vec![37, 0, 15]));
    assert_eq!(demolish_refund_preview(false, &vec![75, 0, 31]), (100, vec![75, 0, 31]));
    assert_eq!(demolish_refund_preview(true, &vec![]), (50, vec![]));
}
