use rts_core::build_menu::{
    available_buildings, is_building_unlocked, offered_upgrade, tech_tree_rows, trainable_units, BuildingLevel,
    BuildingOption, TechEntry, TechStatus,
};

const BASE: u32 = 0;
const HOUSE: u32 = 1;
const BARRACKS: u32 = 2;
const TEMPLE: u32 = 3;

fn options() -> Vec<BuildingOption> {
    vec![
        BuildingOption { kind: BASE, required_age: 0, prerequisite: None },
        BuildingOption { kind: HOUSE, required_age: 0, prerequisite: Some(BASE) },
        BuildingOption { kind: BARRACKS, required_age: 0, prerequisite: Some(HOUSE) },
        BuildingOption { kind: TEMPLE, required_age: 2, prerequisite: None },
    ]
}

#[test]
fn before_founding_only_the_base() {
    let got = available_buildings(&options(), BASE, false, 0, &vec![]);
    assert_eq!(got, vec![BASE]);
}

#[test]
fn after_founding_the_base_is_hidden_and_its_dependents_show() {
    let got = available_buildings(&options(), BASE, true, 0, &vec![]);
    assert_eq!(got, vec![HOUSE]);
    let got = available_buildings(&options(), BASE, true, 0, &vec![HOUSE]);
    assert_eq!(got, vec![HOUSE, BARRACKS]);
    let got = available_buildings(&options(), BASE, true, 2, &vec![HOUSE]);
    assert_eq!(got, vec![HOUSE, BARRACKS, TEMPLE]);
}

#[test]
fn a_completed_base_counts_without_founding() {
    let house = options()[1];
    assert!(!is_building_unlocked(house, BASE, false, 0, &vec![]));
    assert!(is_building_unlocked(house, BASE, false, 0, &vec![BASE]));
}

#[test]
fn trainable_units_grow_with_level() {
    let trains = vec![10, 11];
    let unlocks = vec![vec![12, 10], vec![], vec![13]];
    assert_eq!(trainable_units(&trains, &unlocks, 1), vec![10, 11]);
    assert_eq!(trainable_units(&trains, &unlocks, 2), vec![10, 11, 12]);
    assert_eq!(trainable_units(&trains, &unlocks, 4), vec![10, 11, 12, 13]);
    assert_eq!(trainable_units(&vec![], &vec![vec![5, 5]], 2), vec![5]);
}

#[test]
fn upgrade_offered_below_level_three() {
    assert_eq!(offered_upgrade(1, 2), Some(0));
    assert_eq!(offered_upgrade(2, 2), Some(1));
    assert_eq!(offered_upgrade(2, 1), None);
    assert_eq!(offered_upgrade(3, 2), None);
    assert_eq!(offered_upgrade(1, 0), None);
}

fn row(kind: u32, status: TechStatus, level: u8) -> TechEntry {
    TechEntry { kind, status, level }
}

#[test]
fn tech_tree_before_founding() {
    let rows = tech_tree_rows(&options(), BASE, false, &vec![], &vec![], 1);
    assert_eq!(
        rows,
        vec![
            row(BASE, TechStatus::Available, 1),
            row(HOUSE, TechStatus::Locked, 1),
            row(BARRACKS, TechStatus::Locked, 1),
            row(TEMPLE, TechStatus::Locked, 1),
        ]
    );
}

#[test]
fn tech_tree_after_founding_ignores_ages_and_hides_the_base() {
    let buildings = vec![
        BuildingLevel { faction: 1, kind: HOUSE, level: 2 },
        BuildingLevel { faction: 1, kind: HOUSE, level: 3 },
        BuildingLevel { faction: 1, kind: HOUSE, level: 1 },
        BuildingLevel { faction: 2, kind: BARRACKS, level: 3 },
    ];
    let rows = tech_tree_rows(&options(), BASE, true, &vec![BASE, HOUSE], &buildings, 1);
    assert_eq!(
        rows,
        vec![
            row(HOUSE, TechStatus::Built, 3),
            row(BARRACKS, TechStatus::Available, 1),
            row(TEMPLE, TechStatus::Available, 1),
        ]
    );
    let rows = tech_tree_rows(&options(), BASE, true, &vec![], &buildings, 1);
    assert_eq!(rows[1], row(BARRACKS, TechStatus::Locked, 1));
    // a founded base opens the kinds that need it, built or not
    assert_eq!(rows[0], row(HOUSE, TechStatus::Available, 3));
}
