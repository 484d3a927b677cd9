use rts_core::fog::{explore_all, mark_explored, EXPLORED};
use rts_core::hud::{EventCategory, GameEventLog};
use rts_core::inventory::{transfer_targets, InventorySlots, TransferUnit};

#[test]
fn exploring_a_cell_once() {
    let mut layer = vec![0u8, 7, 0];
    assert!(mark_explored(&mut layer, 0));
    assert_eq!(layer, vec![EXPLORED, 7, 0]);
    assert!(!mark_explored(&mut layer, 0));
    assert!(!mark_explored(&mut layer, 1));
    assert_eq!(layer, vec![EXPLORED, 7, 0]);
}

#[test]
fn reveal_all() {
    let mut layer = vec![0u8, 3, 0];
    assert!(explore_all(&mut layer));
    assert_eq!(layer, vec![EXPLORED; 3]);
    assert!(!explore_all(&mut layer));
    let mut seen = vec![1u8, 2];
    assert!(!explore_all(&mut seen));
    assert_eq!(seen, vec![1, 2]);
}

fn unit(id: u64, capacity: u32, items: Vec<u32>) -> TransferUnit {
    named(id, &format!("Unit {}", id), capacity, items)
}

fn named(id: u64, label: &str, capacity: u32, items: Vec<u32>) -> TransferUnit {
    TransferUnit {
        unit: id,
        label: label.as_bytes().to_vec(),
        inventory: Some(InventorySlots { capacity, item_categories: items }),
    }
}

#[test]
fn transfer_goes_to_units_with_room_and_no_same_category() {
    let units = vec![
        unit(1, 3, vec![5, 6]),
        unit(2, 2, vec![7]),
        unit(3, 2, vec![5]),
        unit(4, 1, vec![8]),
        TransferUnit { unit: 5, label: b"Unit 5".to_vec(), inventory: None },
        unit(6, 0, vec![]),
        unit(7, 4, vec![]),
    ];
    assert_eq!(transfer_targets(&units, 1, Some(0)), vec![2, 7]);
    assert_eq!(transfer_targets(&units, 1, None), vec![2, 7]);
    assert_eq!(transfer_targets(&units, 1, Some(1)), vec![2, 3, 7]);
    assert!(transfer_targets(&units, 1, Some(2)).is_empty());
    assert!(transfer_targets(&units, 7, None).is_empty());
    assert!(transfer_targets(&units, 5, None).is_empty());
    assert!(transfer_targets(&units, 99, None).is_empty());
}

#[test]
fn transfer_targets_are_listed_by_label() {
    let units = vec![
        named(1, "Worker", 3, vec![5]),
        named(2, "Spearman", 2, vec![]),
        named(3, "Archer", 2, vec![]),
        named(4, "Spear", 2, vec![]),
        named(5, "Archer", 2, vec![]),
        named(6, "archer", 2, vec![]),
    ];
    // byte order: upper case before lower case, a prefix before longer
    // labels, equal labels in selection order
    assert_eq!(transfer_targets(&units, 1, None), vec![3, 5, 4, 2, 6]);
}

#[test]
fn event_log_page_newest_first_for_allies() {
    let mut log: GameEventLog<u32, (i32, i32), u8> = GameEventLog::new();
    log.push(1, "a".to_string(), EventCategory::Alert, None, Some(0));
    log.push(2, "b".to_string(), EventCategory::Alert, None, Some(3));
    log.push(3, "c".to_string(), EventCategory::Alert, None, None);
    log.push(4, "d".to_string(), EventCategory::Alert, None, Some(1));
    log.push(5, "e".to_string(), EventCategory::Alert, None, Some(0));
    let allied = vec![0u8, 1];
    assert_eq!(log.visible_page(&allied, 50), (4, vec![4, 3, 2, 0]));
    assert_eq!(log.visible_page(&allied, 2), (4, vec![4, 3]));
    assert_eq!(log.visible_page(&vec![], 50), (1, vec![2]));
    let empty: GameEventLog<u32, (i32, i32), u8> = GameEventLog::new();
    assert_eq!(empty.visible_page(&allied, 50), (0, vec![]));
}
