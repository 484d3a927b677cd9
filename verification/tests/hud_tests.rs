use rts_core::hud::{hint_step, onboarding_hints, EventLogRenderState, GroupPanelState, HintStep, HINT_CUTOFF_MS};
use rts_core::hud::{
    count_player_units, group_key_action, grid_columns_for, stance_to_net_u8, ControlGroups,
    EventCategory, GameEventLog, GroupKeyAction, LogLevel, RecallTracker, SlotClick, UnitCensusEntry,
    UnitCount, UnitStance, CONTROL_GROUP_COUNT,
};

#[test]
fn stance_codes() {
    assert_eq!(stance_to_net_u8(UnitStance::Passive), 0);
    assert_eq!(stance_to_net_u8(UnitStance::Defensive), 1);
    assert_eq!(stance_to_net_u8(UnitStance::Aggressive), 2);
}

#[test]
fn group_panel_columns() {
    let expected = [1u16, 1, 2, 3, 2, 3, 3, 4, 4, 3, 3];
    for (count, want) in expected.iter().enumerate() {
        assert_eq!(grid_columns_for(count), *want, "count {}", count);
    }
}

#[test]
fn log_labels_and_prefixes() {
    assert_eq!(LogLevel::Info.label(), "Info");
    assert_eq!(LogLevel::Warning.label(), "Warn");
    assert_eq!(LogLevel::Error.label(), "Error");
    let all = [
        (EventCategory::Combat, "!"),
        (EventCategory::Construction, "+"),
        (EventCategory::Training, "*"),
        (EventCategory::Alert, "?"),
        (EventCategory::Resource, "$"),
        (EventCategory::Upgrade, "^"),
        (EventCategory::Demolish, "-"),
        (EventCategory::Network, "@"),
        (EventCategory::Sync, "~"),
    ];
    for (c, p) in all {
        assert_eq!(c.prefix(), p);
    }
}

#[test]
fn event_log_appends_and_counts_revisions() {
    let mut log: GameEventLog<f32, (f32, f32), u8> = GameEventLog::new();
    assert_eq!(log.revision, 0);
    log.push(1.5, "Barracks complete".to_string(), EventCategory::Construction, None, Some(0));
    log.push_with_level(2.0, "Base under attack".to_string(), EventCategory::Combat, LogLevel::Error, Some((3.0, 4.0)), None);
    assert_eq!(log.revision, 2);
    assert_eq!(log.entries.len(), 2);
    assert_eq!(log.entries[0].level, LogLevel::Info);
    assert_eq!(log.entries[0].message, "Barracks complete");
    assert_eq!(log.entries[1].level, LogLevel::Error);
    assert_eq!(log.entries[1].world_pos, Some((3.0, 4.0)));
}

#[test]
fn groups_for_entity_lists_ascending_indices() {
    let mut cg = ControlGroups::new();
    cg.assign(0, vec![7, 8]);
    cg.assign(4, vec![8]);
    cg.assign(8, vec![9, 8]);
    assert_eq!(cg.groups_for_entity(8), vec![0, 4, 8]);
    assert_eq!(cg.groups_for_entity(7), vec![0]);
    assert!(cg.groups_for_entity(1).is_empty());
    assert_eq!(CONTROL_GROUP_COUNT, 9);
}

#[test]
fn assigning_nothing_keeps_the_group() {
    let mut cg = ControlGroups::new();
    cg.assign(2, vec![1, 2, 3]);
    cg.assign(2, vec![]);
    assert_eq!(cg.groups[2], vec![1, 2, 3]);
    cg.assign(2, vec![4]);
    assert_eq!(cg.groups[2], vec![4]);
}

#[test]
fn stealing_removes_units_from_other_groups() {
    let mut cg = ControlGroups::new();
    cg.assign(0, vec![1, 2, 3]);
    cg.assign(1, vec![3, 4]);
    cg.steal(2, vec![3, 1]);
    assert_eq!(cg.groups[0], vec![2]);
    assert_eq!(cg.groups[1], vec![4]);
    assert_eq!(cg.groups[2], vec![3, 1]);
    for g in 0..9 {
        if g != 2 {
            assert!(!cg.groups[g].contains(&3));
            assert!(!cg.groups[g].contains(&1));
        }
    }
    cg.steal(5, vec![]);
    assert_eq!(cg.groups[0], vec![2]);
    assert!(cg.groups[5].is_empty());
}

#[test]
fn adding_appends_new_units_once() {
    let mut cg = ControlGroups::new();
    cg.assign(3, vec![5, 6]);
    cg.add(3, &vec![6, 7, 7, 8]);
    assert_eq!(cg.groups[3], vec![5, 6, 7, 8]);
    cg.add(4, &vec![]);
    assert!(cg.groups[4].is_empty());
}

#[test]
fn key_modifiers_pick_the_action() {
    assert_eq!(group_key_action(true, true, true), GroupKeyAction::Assign);
    assert_eq!(group_key_action(false, true, true), GroupKeyAction::Steal);
    assert_eq!(group_key_action(false, false, true), GroupKeyAction::Add);
    assert_eq!(group_key_action(false, false, false), GroupKeyAction::Recall);
}

#[test]
fn slot_clicks() {
    let mut cg = ControlGroups::new();
    // left click on an empty slot assigns the selection
    assert_eq!(cg.slot_click(1, false, vec![10, 11]), SlotClick::Assigned);
    assert_eq!(cg.groups[1], vec![10, 11]);
    // left click on a filled slot recalls it
    assert_eq!(cg.slot_click(1, false, vec![99]), SlotClick::Recalled);
    assert_eq!(cg.groups[1], vec![10, 11]);
    // right click assigns
    assert_eq!(cg.slot_click(1, true, vec![12]), SlotClick::Assigned);
    assert_eq!(cg.groups[1], vec![12]);
    // nothing selected: an empty slot stays empty
    assert_eq!(cg.slot_click(2, false, vec![]), SlotClick::Ignored);
    assert_eq!(cg.slot_click(1, true, vec![]), SlotClick::Ignored);
    assert_eq!(cg.groups[1], vec![12]);
}

#[test]
fn double_tap_centres_once() {
    let mut t = RecallTracker { last_recall_group: None };
    assert!(!t.recall(3, true));
    assert_eq!(t.last_recall_group, Some(3));
    assert!(t.recall(3, true));
    assert_eq!(t.last_recall_group, None);
    assert!(!t.recall(3, true));
    assert!(!t.recall(4, true));
    assert!(!t.recall(4, false));
    assert_eq!(t.last_recall_group, Some(4));
}

#[test]
fn unit_census_per_kind() {
    let units = vec![
        UnitCensusEntry { kind: 2, faction: 0, is_idle_worker: true },
        UnitCensusEntry { kind: 5, faction: 1, is_idle_worker: false },
        UnitCensusEntry { kind: 3, faction: 0, is_idle_worker: false },
        UnitCensusEntry { kind: 2, faction: 0, is_idle_worker: false },
        UnitCensusEntry { kind: 2, faction: 0, is_idle_worker: true },
    ];
    assert_eq!(
        count_player_units(&units, 0),
        vec![
            UnitCount { kind: 2, total: 3, idle_workers: 2 },
            UnitCount { kind: 3, total: 1, idle_workers: 0 },
        ]
    );
    assert_eq!(count_player_units(&units, 1), vec![UnitCount { kind: 5, total: 1, idle_workers: 0 }]);
    assert!(count_player_units(&units, 7).is_empty());
}

#[test]
fn next_hint_is_the_first_due_and_unseen() {
    let hints = vec![(true, 0u8), (true, 1), (false, 2), (true, 3)];
    assert_eq!(rts_core::hud::next_hint(&hints, &vec![]), Some(0));
    assert_eq!(rts_core::hud::next_hint(&hints, &vec![0]), Some(1));
    assert_eq!(rts_core::hud::next_hint(&hints, &vec![1, 0]), Some(3));
    assert_eq!(rts_core::hud::next_hint(&hints, &vec![0, 1, 3]), None);
}

#[test]
fn hints_show_once_each_and_stop_after_three_minutes() {
    let schedule = onboarding_hints();
    let mut shown = vec![];
    assert_eq!(hint_step(1000, &schedule, &mut shown), HintStep::Keep);
    assert_eq!(hint_step(5000, &schedule, &mut shown), HintStep::Show(0));
    assert_eq!(shown, vec![0]);
    assert_eq!(hint_step(6000, &schedule, &mut shown), HintStep::Keep);
    assert_eq!(hint_step(70000, &schedule, &mut shown), HintStep::Show(1));
    assert_eq!(hint_step(70001, &schedule, &mut shown), HintStep::Show(2));
    assert_eq!(hint_step(70002, &schedule, &mut shown), HintStep::Keep);
    assert_eq!(hint_step(HINT_CUTOFF_MS + 1, &schedule, &mut shown), HintStep::Clear);
    assert_eq!(shown, vec![0, 1, 2]);
}

#[test]
fn recalling_a_group_twice_quickly_centres_the_camera() {
    let mut groups = ControlGroups::new();
    groups.assign(2, vec![11, 12]);
    let mut panel = GroupPanelState { recall: RecallTracker { last_recall_group: None }, active_group: None };
    assert_eq!(panel.recall_key(&groups, 0, true), None);
    assert_eq!(panel.active_group, None);
    assert_eq!(panel.recall_key(&groups, 2, true), Some((vec![11, 12], false)));
    assert_eq!(panel.active_group, Some(2));
    assert_eq!(panel.recall_key(&groups, 2, true), Some((vec![11, 12], true)));
    assert_eq!(panel.recall.last_recall_group, None);
    assert_eq!(panel.recall_key(&groups, 2, false), Some((vec![11, 12], false)));
    assert_eq!(panel.recall_key(&groups, 2, false), Some((vec![11, 12], false)));
}

#[test]
fn clicking_a_slot_makes_it_active() {
    let mut groups = ControlGroups::new();
    let mut panel = GroupPanelState { recall: RecallTracker { last_recall_group: None }, active_group: None };
    assert_eq!(panel.slot_clicked(&mut groups, 4, false, vec![]), SlotClick::Ignored);
    assert_eq!(panel.active_group, None);
    assert_eq!(panel.slot_clicked(&mut groups, 4, false, vec![8]), SlotClick::Assigned);
    assert_eq!(panel.active_group, Some(4));
    assert_eq!(panel.slot_clicked(&mut groups, 1, true, vec![9]), SlotClick::Assigned);
    assert_eq!(panel.slot_clicked(&mut groups, 4, false, vec![9]), SlotClick::Recalled);
    assert_eq!(panel.active_group, Some(4));
    assert_eq!(groups.groups[4], vec![8]);
}

#[test]
fn event_log_panel_rebuilds_only_after_a_push() {
    let mut log: GameEventLog<u32, (i32, i32), u8> = GameEventLog::new();
    let mut shown = EventLogRenderState { last_revision: 0 };
    assert!(!shown.take_change(log.revision));
    log.push(1, String::from("Base under attack"), EventCategory::Combat, None, None);
    assert!(shown.take_change(log.revision));
    assert_eq!(shown.last_revision, 1);
    assert!(!shown.take_change(log.revision));
}
