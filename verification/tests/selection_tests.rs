use rts_core::selection::{group_by_kind, group_units_by_kind};

#[test]
fn selection_groups_by_kind_in_first_seen_order() {
    let items = vec![(10, 2), (11, 1), (12, 2), (13, 3), (14, 1), (15, 2)];
    let groups = group_by_kind(&items);
    let summary: Vec<(u32, Vec<u64>)> = groups.into_iter().map(|g| (g.kind, g.ids)).collect();
    assert_eq!(summary, vec![(2, vec![10, 12, 15]), (1, vec![11, 14]), (3, vec![13])]);
}

#[test]
fn empty_selection_has_no_groups() {
    assert!(group_by_kind(&vec![]).is_empty());
}

#[test]
fn unit_groups_are_sorted_by_name() {
    let items = vec![(10, 2), (11, 1), (12, 2), (13, 2), (14, 1)];
    let labels: Vec<Vec<u8>> = ["Zed", "Bo", "Amy", "", "Al"].iter().map(|s| s.as_bytes().to_vec()).collect();
    let groups = group_units_by_kind(&items, &labels);
    let summary: Vec<(u32, Vec<u64>)> = groups.into_iter().map(|g| (g.kind, g.ids)).collect();
    // a unit without a name (empty label) comes first
    assert_eq!(summary, vec![(2, vec![13, 12, 10]), (1, vec![14, 11])]);
}
