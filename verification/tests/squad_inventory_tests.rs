use rts_core::squad_inventory::{squad_inventory_summary, ItemTotal, SquadMember};

fn member(capacity: usize, items: Vec<u32>) -> SquadMember {
    SquadMember { capacity, items }
}

#[test]
fn squad_summary_counts_shown_items() {
    // kinds 0..3 with name ranks: kind 0 -> 2, kind 1 -> 0, kind 2 -> 1
    let ranks = vec![2, 0, 1];
    let units = vec![member(2, vec![0, 1, 2]), member(3, vec![2]), member(0, vec![1]), member(2, vec![0, 2])];
    let s = squad_inventory_summary(&units, &ranks);
    assert_eq!(s.capacity, 7);
    assert_eq!(s.filled, 5);
    // kind 0 and kind 2 twice each (kind 2's name first), kind 1 once;
    // the third slot of the first unit and the item of the unit without
    // slots are not shown
    assert_eq!(
        s.totals,
        vec![
            ItemTotal { item: 2, count: 2, name_rank: 1 },
            ItemTotal { item: 0, count: 2, name_rank: 2 },
            ItemTotal { item: 1, count: 1, name_rank: 0 },
        ]
    );
}

#[test]
fn squad_summary_of_empty_inventories() {
    let s = squad_inventory_summary(&vec![member(3, vec![]), member(1, vec![])], &vec![]);
    assert_eq!(s.capacity, 4);
    assert_eq!(s.filled, 0);
    assert!(s.totals.is_empty());
}
