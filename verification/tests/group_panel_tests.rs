use rts_core::group_panel::{group_slot_summary, KindCount, SlotLook, SLOT_KINDS_SHOWN};

fn kc(kind: u32, count: u32) -> KindCount {
    KindCount { kind, count }
}

#[test]
fn slot_counts_living_members_by_kind() {
    let units = vec![(1, 10), (2, 20), (3, 10), (4, 30)];
    // unit 9 died: it is no longer counted
    let s = group_slot_summary(&vec![1, 2, 3, 4, 9], &units, &vec![], false);
    assert_eq!(s.look, SlotLook::Filled);
    assert_eq!(s.kinds, vec![kc(10, 2), kc(20, 1), kc(30, 1)]);
    assert_eq!(s.more, 0);
}

#[test]
fn slot_folds_extra_kinds_into_more() {
    let units = vec![(1, 10), (2, 20), (3, 20), (4, 30), (5, 40), (6, 40), (7, 40)];
    let s = group_slot_summary(&vec![1, 2, 3, 4, 5, 6, 7], &units, &vec![], false);
    assert_eq!(SLOT_KINDS_SHOWN, 3);
    assert_eq!(s.kinds, vec![kc(40, 3), kc(20, 2)]);
    assert_eq!(s.more, 2);
}

#[test]
fn slot_ties_keep_order_of_first_member() {
    let units = vec![(1, 7), (2, 5), (3, 9)];
    let s = group_slot_summary(&vec![3, 1, 2], &units, &vec![], false);
    assert_eq!(s.kinds, vec![kc(9, 1), kc(7, 1), kc(5, 1)]);
}

#[test]
fn empty_slot_looks() {
    let units = vec![(1, 10)];
    let dead_only = vec![8, 9];
    assert_eq!(group_slot_summary(&vec![], &units, &vec![], false).look, SlotLook::Empty);
    assert_eq!(group_slot_summary(&dead_only, &units, &vec![], true).look, SlotLook::Empty);
    assert_eq!(group_slot_summary(&dead_only, &units, &vec![1], false).look, SlotLook::Assignable);
    assert_eq!(group_slot_summary(&vec![], &units, &vec![1], true).look, SlotLook::Assignable);
    assert!(group_slot_summary(&vec![], &units, &vec![1], true).kinds.is_empty());
}

#[test]
fn recalled_and_selected_slot_looks() {
    let units = vec![(1, 10), (2, 10)];
    assert_eq!(group_slot_summary(&vec![1], &units, &vec![2], true).look, SlotLook::Recalled);
    assert_eq!(group_slot_summary(&vec![1], &units, &vec![2, 1], false).look, SlotLook::HoldsSelected);
    assert_eq!(group_slot_summary(&vec![1], &units, &vec![2], false).look, SlotLook::Filled);
}
