use rts_core::biome::{count_biome, patch_geometry, stamp_biome_patch};

const GRASS: u8 = 0;
const FOREST: u8 = 1;
const WATER: u8 = 2;
const MOUNTAIN: u8 = 3;

#[test]
fn patch_geometry_by_map_size() {
    assert_eq!(patch_geometry(10), (5, 9, 1));
    assert_eq!(patch_geometry(140), (10, 14, 17));
    assert_eq!(patch_geometry(0), (5, 9, 0));
}

#[test]
fn stamping_paints_a_disk_and_counts_changes() {
    let gs = 7;
    let mut data = vec![GRASS; gs * gs];
    data[3 * gs + 4] = WATER;
    data[0] = MOUNTAIN;
    let changed = stamp_biome_patch(&mut data, gs, 3, 3, 1, FOREST, WATER, MOUNTAIN);
    // the disk of radius 1 is the centre and its four neighbours; one is water
    assert_eq!(changed, 4);
    assert_eq!(data[3 * gs + 3], FOREST);
    assert_eq!(data[2 * gs + 3], FOREST);
    assert_eq!(data[4 * gs + 3], FOREST);
    assert_eq!(data[3 * gs + 2], FOREST);
    assert_eq!(data[3 * gs + 4], WATER);
    assert_eq!(data[2 * gs + 2], GRASS);
    assert_eq!(count_biome(&data, FOREST), 4);
    // painting again changes nothing
    assert_eq!(stamp_biome_patch(&mut data, gs, 3, 3, 1, FOREST, WATER, MOUNTAIN), 0);
}

#[test]
fn stamping_at_the_edge_is_clipped() {
    let gs = 5;
    let mut data = vec![GRASS; gs * gs];
    let changed = stamp_biome_patch(&mut data, gs, 0, 0, 2, FOREST, WATER, MOUNTAIN);
    // cells (x, z) with x, z >= 0 and x*x + z*z <= 4
    assert_eq!(changed, 6);
    assert_eq!(count_biome(&data, FOREST), 6);
    assert_eq!(count_biome(&data, GRASS), 19);
}

#[test]
fn counting_cells() {
    assert_eq!(count_biome(&vec![], GRASS), 0);
    assert_eq!(count_biome(&vec![1, 2, 1, 1], 1), 3);
}
