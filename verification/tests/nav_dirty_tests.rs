use rts_core::nav_dirty::{NavGridDirty, NavRefresh};

#[test]
fn new_buildings_are_stamped_incrementally() {
    let mut d: NavGridDirty<(i32, i32)> = NavGridDirty::new();
    // building 2 is still a plan (not on the grid): not stamped
    d.record_building_changes(false, &vec![1], &vec![(1, true, (5, 5)), (2, false, (6, 6)), (3, true, (7, 7))]);
    assert!(!d.full);
    match d.take_refresh() {
        NavRefresh::Incremental(v) => assert_eq!(v, vec![(5, 5), (7, 7)]),
        other => panic!("unexpected {:?}", other),
    }
    assert!(matches!(d.take_refresh(), NavRefresh::Nothing));
}

#[test]
fn removal_or_move_forces_full_rebuild() {
    let mut d: NavGridDirty<(i32, i32)> = NavGridDirty::new();
    d.record_building_changes(true, &vec![], &vec![(4, true, (1, 1))]);
    assert!(d.full);
    assert!(matches!(d.take_refresh(), NavRefresh::Full));
    assert!(!d.full);
    assert!(d.added.is_empty());

    let mut d: NavGridDirty<(i32, i32)> = NavGridDirty::new();
    d.record_building_changes(false, &vec![9], &vec![(4, true, (1, 1))]);
    assert!(d.full);
    assert!(matches!(d.take_refresh(), NavRefresh::Full));
    assert!(matches!(d.take_refresh(), NavRefresh::Nothing));
}
