use rts_core::spatial::{
    ordered_bits, CellKey, GridEntry, PosBits, SpatialHashGrid, WallPayload, WallSpatialGrid,
};

fn pos(x: f32, y: f32, z: f32) -> PosBits {
    PosBits { x: x.to_bits(), y: y.to_bits(), z: z.to_bits() }
}

fn key(x: i32, z: i32) -> CellKey {
    CellKey { x, z }
}

#[test]
fn ordered_bits_follow_float_order() {
    let vals = [-5.0f32, -1.0, -0.0, 0.0, 0.5, 2.0, 100.0];
    for w in vals.windows(2) {
        assert!(ordered_bits(w[0].to_bits()) < ordered_bits(w[1].to_bits()));
    }
    assert_eq!(ordered_bits(0), 0x8000_0000);
    assert_eq!(ordered_bits(0x8000_0000), 0x7FFF_FFFF);
}

#[test]
fn insert_then_collect() {
    let mut g = SpatialHashGrid::new();
    g.insert(1, key(0, 0), pos(0.5, 0.0, 0.5), Some(10));
    g.insert(2, key(0, 1), pos(0.5, 0.0, 4.5), None);
    g.insert(3, key(1, 0), pos(4.5, 0.0, 0.5), Some(7));
    let all = g.collect_cells(key(0, 0), key(1, 1));
    let ids: Vec<u64> = all.iter().map(|e| e.entity).collect();
    // column x = 0 (z = 0 then z = 1), then column x = 1
    assert_eq!(ids, vec![1, 2, 3]);
    assert_eq!(g.stable_id(1), 10);
    assert_eq!(g.stable_id(2), u32::MAX);
    assert_eq!(g.stable_id(99), u32::MAX);
    let only_first = g.collect_cells(key(0, 0), key(0, 0));
    assert_eq!(
        only_first,
        vec![GridEntry { entity: 1, payload: pos(0.5, 0.0, 0.5), stable_id: 10 }]
    );
}

#[test]
fn remove_takes_entity_out() {
    let mut g = SpatialHashGrid::new();
    g.insert(1, key(2, 2), pos(1.0, 0.0, 1.0), None);
    g.insert(2, key(2, 2), pos(1.5, 0.0, 1.0), None);
    g.remove(1);
    let left: Vec<u64> = g.collect_cells(key(2, 2), key(2, 2)).iter().map(|e| e.entity).collect();
    assert_eq!(left, vec![2]);
    g.remove(2);
    assert!(g.collect_cells(key(2, 2), key(2, 2)).is_empty());
    g.remove(42);
}

#[test]
fn upsert_moves_or_updates() {
    let mut g = SpatialHashGrid::new();
    g.upsert(5, key(0, 0), pos(0.0, 0.0, 0.0), Some(1));
    g.upsert(5, key(0, 0), pos(0.25, 0.0, 0.0), Some(1));
    let here = g.collect_cells(key(0, 0), key(0, 0));
    assert_eq!(here.len(), 1);
    assert_eq!(here[0].payload, pos(0.25, 0.0, 0.0));
    g.upsert(5, key(3, -1), pos(9.0, 0.0, -3.0), Some(1));
    assert!(g.collect_cells(key(0, 0), key(0, 0)).is_empty());
    let there = g.collect_cells(key(3, -1), key(3, -1));
    assert_eq!(there.len(), 1);
    assert_eq!(there[0].entity, 5);
    g.clear();
    assert!(g.collect_cells(key(3, -1), key(3, -1)).is_empty());
    assert_eq!(g.stable_id(5), u32::MAX);
}

#[test]
fn hits_ordered_by_stable_id_then_position() {
    let mut g = SpatialHashGrid::new();
    g.insert(1, key(0, 0), pos(1.0, 0.0, 0.0), Some(3));
    g.insert(2, key(0, 0), pos(-1.0, 0.0, 0.0), Some(3));
    g.insert(3, key(0, 0), pos(0.0, 0.0, 0.0), Some(1));
    let mut hits = vec![(1, pos(1.0, 0.0, 0.0)), (2, pos(-1.0, 0.0, 0.0)), (3, pos(0.0, 0.0, 0.0))];
    g.order_hits(&mut hits);
    let ids: Vec<u64> = hits.iter().map(|h| h.0).collect();
    assert_eq!(ids, vec![3, 2, 1]);
}

#[test]
fn filtered_hits_keep_the_accepted_in_grid_order() {
    let mut g = SpatialHashGrid::new();
    g.insert(1, key(0, 0), pos(1.0, 0.0, 0.0), Some(3));
    g.insert(2, key(0, 0), pos(-1.0, 0.0, 0.0), Some(3));
    g.insert(3, key(0, 0), pos(0.0, 0.0, 0.0), Some(1));
    let mut hits = vec![(1, pos(1.0, 0.0, 0.0)), (2, pos(-1.0, 0.0, 0.0)), (3, pos(0.0, 0.0, 0.0))];
    g.order_kept_hits(&mut hits, &vec![true, false, true]);
    let ids: Vec<u64> = hits.iter().map(|h| h.0).collect();
    assert_eq!(ids, vec![3, 1]);
    let mut none = vec![(1, pos(1.0, 0.0, 0.0))];
    g.order_kept_hits(&mut none, &vec![false]);
    assert!(none.is_empty());
}

#[test]
fn hits_ordered_by_distance_and_limited() {
    let g = SpatialHashGrid::new();
    let mut hits = vec![
        (1, pos(5.0, 0.0, 0.0)),
        (2, pos(1.0, 0.0, 0.0)),
        (3, pos(3.0, 0.0, 0.0)),
    ];
    let dist = vec![5.0f32.to_bits(), 1.0f32.to_bits(), 3.0f32.to_bits()];
    g.order_hits_by_distance(&mut hits, &dist, 2);
    let ids: Vec<u64> = hits.iter().map(|h| h.0).collect();
    assert_eq!(ids, vec![2, 3]);
}

#[test]
fn wall_hits_ordered() {
    let mut w = WallSpatialGrid::new();
    let a = WallPayload { pos: pos(2.0, 0.0, 0.0), footprint_bits: 1.0f32.to_bits(), faction: 1 };
    let b = WallPayload { pos: pos(1.0, 0.0, 0.0), footprint_bits: 1.0f32.to_bits(), faction: 1 };
    let c = WallPayload { pos: pos(0.0, 0.0, 0.0), footprint_bits: 1.0f32.to_bits(), faction: 0 };
    w.insert(10, key(0, 0), a, None);
    w.insert(11, key(0, 0), b, None);
    w.insert(12, key(0, 0), c, None);
    let mut hits = vec![(10, a), (11, b), (12, c)];
    w.order_wall_hits(&mut hits);
    let ids: Vec<u64> = hits.iter().map(|h| h.0).collect();
    assert_eq!(ids, vec![12, 11, 10]);
}
