use rts_core::queue_panel::{group_by_queue, QueueRow};

fn keys(v: &[&str]) -> Vec<Vec<u8>> {
    v.iter().map(|s| s.as_bytes().to_vec()).collect()
}

#[test]
fn units_with_the_same_queue_share_a_row() {
    let ids = vec![10, 11, 12, 13, 14];
    let k = keys(&["Worker|Idle", "Archer|Move to 3, 4", "Worker|Idle", "Archer|Idle", "Archer|Move to 3, 4"]);
    let rows = group_by_queue(&ids, &k);
    assert_eq!(
        rows,
        vec![
            QueueRow { representative: 13, count: 1 },
            QueueRow { representative: 11, count: 2 },
            QueueRow { representative: 10, count: 2 },
        ]
    );
}

#[test]
fn no_units_no_rows() {
    assert!(group_by_queue(&vec![], &vec![]).is_empty());
}
