use rts_core::water::{find_water_bodies, MIN_WATER_BODY_CELLS};
use rts_core::water_mesh::water_body_mesh_topology;

fn mask(gs: usize, wet_vertices: &[(usize, usize)]) -> Vec<bool> {
    let mut m = vec![false; gs * gs];
    for &(x, z) in wet_vertices {
        m[z * gs + x] = true;
    }
    m
}

#[test]
fn dry_map_has_no_water() {
    assert!(find_water_bodies(&mask(6, &[]), 6).is_empty());
    assert!(find_water_bodies(&vec![false], 1).is_empty());
}

#[test]
fn one_wet_vertex_wets_its_four_cells() {
    let bodies = find_water_bodies(&mask(5, &[(2, 2)]), 5);
    assert_eq!(bodies, vec![vec![(1, 1), (2, 1), (1, 2), (2, 2)]]);
}

#[test]
fn small_puddles_are_dropped() {
    // a corner vertex touches only one cell
    let bodies = find_water_bodies(&mask(5, &[(0, 0)]), 5);
    assert!(bodies.is_empty());
    // an edge vertex touches two cells
    let bodies = find_water_bodies(&mask(5, &[(2, 0)]), 5);
    assert!(bodies.is_empty());
    assert_eq!(MIN_WATER_BODY_CELLS, 4);
}

#[test]
fn separate_lakes_are_separate_bodies_in_scan_order() {
    let gs = 9;
    let bodies = find_water_bodies(&mask(gs, &[(6, 2), (2, 6)]), gs);
    assert_eq!(bodies.len(), 2);
    // the scan meets the lake around vertex (6, 2) first (row 1 < row 5)
    assert_eq!(bodies[0][0], (5, 1));
    assert_eq!(bodies[1][0], (1, 5));
    for b in &bodies {
        assert_eq!(b.len(), 4);
    }
    for c in &bodies[0] {
        assert!(!bodies[1].contains(c));
    }
}

#[test]
fn touching_wet_areas_merge() {
    let gs = 6;
    let bodies = find_water_bodies(&mask(gs, &[(1, 1), (2, 1), (3, 1)]), gs);
    assert_eq!(bodies.len(), 1);
    let mut cells = bodies[0].clone();
    cells.sort();
    assert_eq!(
        cells,
        vec![(0, 0), (0, 1), (1, 0), (1, 1), (2, 0), (2, 1), (3, 0), (3, 1)]
    );
    assert_eq!(bodies[0][0], (0, 0));
}

#[test]
fn mesh_of_no_cells_is_none() {
    assert!(water_body_mesh_topology(&vec![], 5).is_none());
}

#[test]
fn mesh_of_one_cell() {
    let (verts, indices) = water_body_mesh_topology(&vec![(1, 1)], 5).unwrap();
    assert_eq!(verts, vec![6, 7, 11, 12]);
    assert_eq!(indices, vec![0, 2, 1, 1, 2, 3]);
}

#[test]
fn mesh_shares_vertices_between_cells() {
    let (verts, indices) = water_body_mesh_topology(&vec![(0, 0), (1, 0)], 5).unwrap();
    assert_eq!(verts, vec![0, 1, 5, 6, 2, 7]);
    assert_eq!(indices, vec![0, 2, 1, 1, 2, 3, 1, 3, 4, 4, 3, 5]);
}

#[test]
fn mesh_of_a_found_body_covers_every_cell() {
    let gs = 5;
    let bodies = find_water_bodies(&mask(gs, &[(2, 2)]), gs);
    let (verts, indices) = water_body_mesh_topology(&bodies[0], gs).unwrap();
    assert_eq!(indices.len(), 6 * bodies[0].len());
    assert_eq!(verts.len(), 9);
    for (k, &(cx, cz)) in bodies[0].iter().enumerate() {
        let tl = cz * gs + cx;
        assert_eq!(verts[indices[6 * k] as usize], tl);
        assert_eq!(verts[indices[6 * k + 5] as usize], tl + gs + 1);
    }
}
