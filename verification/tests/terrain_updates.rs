use std::collections::VecDeque;

use rts_core::terrain_ops::{enqueue_terrain_ops, sort_terrain_ops, TerrainShapeOp};

fn op(cx: f32, cz: f32, footprint: f32, target_height: f32) -> TerrainShapeOp {
    TerrainShapeOp {
        center_x_bits: cx.to_bits(),
        center_z_bits: cz.to_bits(),
        footprint_bits: footprint.to_bits(),
        target_height_bits: target_height.to_bits(),
    }
}

#[test]
fn terrain_op_sort_is_permutation_stable() {
    let a = op(1.5, -2.0, 3.0, 0.5);
    let b = op(-4.0, 6.0, 2.5, 1.0);
    let c = op(1.5, 0.0, 3.0, -0.5);

    let mut p1 = vec![a, b, c];
    let mut p2 = vec![c, a, b];
    let mut p3 = vec![b, c, a];

    sort_terrain_ops(&mut p1);
    sort_terrain_ops(&mut p2);
    sort_terrain_ops(&mut p3);

    assert_eq!(p1, p2);
    assert_eq!(p2, p3);
}

#[test]
fn terrain_ops_sort_by_center_bits_then_footprint() {
    let a = op(1.5, -2.0, 3.0, 0.5);
    let b = op(-4.0, 6.0, 2.5, 1.0);
    let c = op(1.5, 0.0, 3.0, -0.5);
    let mut v = vec![b, c, a];
    sort_terrain_ops(&mut v);
    // 1.5 has a smaller bit pattern than -4.0 (sign bit set); for equal x,
    // 0.0 (bits 0) comes before -2.0 (sign bit set).
    assert_eq!(v, vec![c, a, b]);
}

#[test]
fn terrain_ops_with_equal_keys_keep_their_order() {
    let first = op(2.0, 2.0, 1.0, 5.0);
    let second = op(2.0, 2.0, 1.0, -5.0);
    let mut v = vec![first, second];
    sort_terrain_ops(&mut v);
    assert_eq!(v, vec![first, second]);
    let mut w = vec![second, first];
    sort_terrain_ops(&mut w);
    assert_eq!(w, vec![second, first]);
}

#[test]
fn terrain_ops_empty_and_single() {
    let mut e: Vec<TerrainShapeOp> = Vec::new();
    sort_terrain_ops(&mut e);
    assert!(e.is_empty());
    let a = op(0.0, 0.0, 1.0, 1.0);
    let mut s = vec![a];
    sort_terrain_ops(&mut s);
    assert_eq!(s, vec![a]);
}

#[test]
fn enqueued_edits_follow_the_pending_ones_in_sorted_order() {
    let early = op(9.0, 9.0, 1.0, 0.0);
    let a = op(1.5, -2.0, 3.0, 0.5);
    let b = op(-4.0, 6.0, 2.5, 1.0);
    let c = op(1.5, 0.0, 3.0, -0.5);
    let mut q1: VecDeque<TerrainShapeOp> = VecDeque::new();
    q1.push_back(early);
    let mut q2 = q1.clone();
    enqueue_terrain_ops(&mut q1, vec![a, b, c]);
    enqueue_terrain_ops(&mut q2, vec![b, c, a]);
    assert_eq!(q1, q2);
    assert_eq!(q1, VecDeque::from(vec![early, c, a, b]));
}
