//! Painting round patches of a biome into the biome grid, so that every
//! wanted biome covers a minimum share of the map.
//!
//! Biomes are byte codes chosen by the caller; water and mountain cells are
//! never painted over.
use vstd::prelude::*;

verus! {

/// Cell `(x, z)` lies in the disk of radius `r` around `(cx, cz)`.
pub open spec fn in_disk(cx: int, cz: int, r: int, x: int, z: int) -> bool {
    (x - cx) * (x - cx) + (z - cz) * (z - cz) <= r * r
}

/// What painting a patch does to the cell at index `i` of a `gs` x `gs`
/// grid.
pub open spec fn painted(
    before: Seq<u8>,
    gs: int,
    cx: int,
    cz: int,
    r: int,
    biome: u8,
    water: u8,
    mountain: u8,
    i: int,
) -> u8 {
    if in_disk(cx, cz, r, i % gs, i / gs) && before[i] != water && before[i] != mountain {
        biome
    } else {
        before[i]
    }
}

/// Number of indices below `n` where `a` and `b` differ.
pub open spec fn num_diff(a: Seq<u8>, b: Seq<u8>, n: int) -> nat
    decreases n,
{
    if n <= 0 {
        0
    } else {
        num_diff(a, b, n - 1) + if a[n - 1] != b[n - 1] { 1nat } else { 0nat }
    }
}

/// Number of indices below `n` holding `v`.
pub open spec fn num_eq(a: Seq<u8>, v: u8, n: int) -> nat
    decreases n,
{
    if n <= 0 {
        0
    } else {
        num_eq(a, v, n - 1) + if a[n - 1] == v { 1nat } else { 0nat }
    }
}

proof fn lemma_num_diff_update(a: Seq<u8>, b: Seq<u8>, i: int, v: u8, n: int)
    requires
        0 <= i < n <= a.len(),
        b.len() == a.len(),
    ensures
        num_diff(a, b.update(i, v), n) + (if a[i] != b[i] { 1int } else { 0int }) == num_diff(a, b, n) + (if a[i]
            != v { 1int } else { 0int }),
    decreases n,
{
    if n - 1 > i {
        lemma_num_diff_update(a, b, i, v, n - 1);
    } else {
        lemma_num_diff_same(a, b, b.update(i, v), n - 1);
    }
}

proof fn lemma_num_diff_same(a: Seq<u8>, b: Seq<u8>, c: Seq<u8>, n: int)
    requires
        0 <= n <= a.len(),
        b.len() == a.len(),
        c.len() == a.len(),
        forall|k: int| 0 <= k < n ==> b[k] == c[k],
    ensures
        num_diff(a, b, n) == num_diff(a, c, n),
    decreases n,
{
    if n > 0 {
        lemma_num_diff_same(a, b, c, n - 1);
    }
}

proof fn lemma_num_diff_bound(a: Seq<u8>, b: Seq<u8>, n: int)
    requires
        0 <= n,
    ensures
        num_diff(a, b, n) <= n,
    decreases n,
{
    if n > 0 {
        lemma_num_diff_bound(a, b, n - 1);
    }
}

proof fn lemma_num_diff_self(a: Seq<u8>, n: int)
    requires
        0 <= n <= a.len(),
    ensures
        num_diff(a, a, n) == 0,
    decreases n,
{
    if n > 0 {
        lemma_num_diff_self(a, n - 1);
    }
}

proof fn lemma_outside_disk(cx: int, cz: int, r: int, x: int, z: int)
    requires
        r >= 0,
        x - cx > r || cx - x > r || z - cz > r || cz - z > r,
    ensures
        !in_disk(cx, cz, r, x, z),
{
    if x - cx > r || cx - x > r {
        assert((x - cx) * (x - cx) > r * r) by (nonlinear_arith)
            requires
                x - cx > r || cx - x > r,
                r >= 0,
        ;
        assert((z - cz) * (z - cz) >= 0) by (nonlinear_arith);
    } else {
        assert((z - cz) * (z - cz) > r * r) by (nonlinear_arith)
            requires
                z - cz > r || cz - z > r,
                r >= 0,
        ;
        assert((x - cx) * (x - cx) >= 0) by (nonlinear_arith);
    }
}

/// Counts the cells holding `biome`.
pub fn count_biome(data: &Vec<u8>, biome: u8) -> (n: usize)
    ensures
        n == num_eq(data@, biome, data@.len() as int),
{
    let mut n: usize = 0;
    let mut i: usize = 0;
    while i < data.len()
        invariant
            i <= data@.len(),
            n == num_eq(data@, biome, i as int),
            n <= i,
        decreases data@.len() - i,
    {
        if data[i] == biome {
            n += 1;
        }
        i += 1;
    }
    n
}

/// Paints `biome` over the disk of radius `radius` around cell `(cx, cz)`,
/// sparing water and mountain cells, and returns how many cells changed.
pub fn stamp_biome_patch(
    data: &mut Vec<u8>,
    grid_size: usize,
    cx: usize,
    cz: usize,
    radius: usize,
    biome: u8,
    water: u8,
    mountain: u8,
) -> (changed: usize)
    requires
        old(data)@.len() == grid_size * grid_size,
        grid_size <= i32::MAX,
        cx < grid_size,
        cz < grid_size,
        radius * radius <= i32::MAX,
    ensures
        final(data)@.len() == old(data)@.len(),
        forall|i: int|
            0 <= i < old(data)@.len() ==> #[trigger] final(data)@[i] == painted(
                old(data)@,
                grid_size as int,
                cx as int,
                cz as int,
                radius as int,
                biome,
                water,
                mountain,
                i,
            ),
        changed == num_diff(old(data)@, final(data)@, old(data)@.len() as int),
{
    let ghost before = data@;
    let ghost gs = grid_size as int;
    let ghost total = data@.len() as int;
    let _len = data.len();
    assert(radius <= 46341) by (nonlinear_arith)
        requires
            radius * radius <= i32::MAX,
    ;
    let r = radius as i64;
    let g = grid_size as i64;
    let mut changed: usize = 0;
    proof {
        lemma_num_diff_self(before, total);
    }
    let mut dz: i64 = -r;
    proof {
        assert forall|i: int| 0 <= i < total && i / gs < cz + dz implies before[i] == painted(
            before,
            gs,
            cx as int,
            cz as int,
            r as int,
            biome,
            water,
            mountain,
            i,
        ) by {
            lemma_outside_disk(cx as int, cz as int, r as int, i % gs, i / gs);
        }
    }
    while dz <= r
        invariant
            before.len() == total,
            total == gs * gs,
            gs == grid_size,
            g == gs,
            r == radius,
            r * r <= i32::MAX,
            0 <= r <= 46341,
            total <= usize::MAX,
            g <= i32::MAX,
            cx < gs,
            cz < gs,
            -r <= dz <= r + 1,
            data@.len() == total,
            changed as int == num_diff(before, data@, total),
            changed <= total,
            forall|i: int|
                0 <= i < total ==> #[trigger] data@[i] == (if i / gs < cz + dz {
                    painted(before, gs, cx as int, cz as int, r as int, biome, water, mountain, i)
                } else {
                    before[i]
                }),
        decreases r + 1 - dz,
    {
        let mut dx: i64 = -r;
        proof {
            assert forall|i: int| 0 <= i < total && i / gs == cz + dz && i % gs < cx + dx implies before[i] == painted(
                before,
                gs,
                cx as int,
                cz as int,
                r as int,
                biome,
                water,
                mountain,
                i,
            ) by {
                lemma_outside_disk(cx as int, cz as int, r as int, i % gs, i / gs);
            }
        }
        while dx <= r
            invariant
                before.len() == total,
                total == gs * gs,
                gs == grid_size,
                g == gs,
                r == radius,
                r * r <= i32::MAX,
                0 <= r <= 46341,
                total <= usize::MAX,
                g <= i32::MAX,
                cx < gs,
                cz < gs,
                -r <= dz <= r,
                -r <= dx <= r + 1,
                data@.len() == total,
                changed as int == num_diff(before, data@, total),
                changed <= total,
                forall|i: int|
                    0 <= i < total ==> #[trigger] data@[i] == (if i / gs < cz + dz || (i / gs == cz + dz && i % gs
                        < cx + dx) {
                        painted(before, gs, cx as int, cz as int, r as int, biome, water, mountain, i)
                    } else {
                        before[i]
                    }),
            decreases r + 1 - dx,
        {
            let ghost d0 = data@;
            let ix = cx as i64 + dx;
            let iz = cz as i64 + dz;
            assert(0 <= dx * dx <= r * r && 0 <= dz * dz <= r * r) by (nonlinear_arith)
                requires
                    -r <= dx <= r,
                    -r <= dz <= r,
                    r >= 0,
            ;
            let inside = dx * dx + dz * dz <= r * r;
            if inside && ix >= 0 && iz >= 0 && ix < g && iz < g {
                let ux = ix as usize;
                let uz = iz as usize;
                proof {
                    crate::nav_grid::lemma_cell_index(gs, ux as int, uz as int);
                }
                let idx = uz * grid_size + ux;
                let cur = data[idx];
                proof {
                    assert(data@[idx as int] == before[idx as int]);
                }
                if cur != water && cur != mountain {
                    proof {
                        lemma_num_diff_update(before, data@, idx as int, biome, total);
                        lemma_num_diff_bound(before, data@.update(idx as int, biome), total);
                    }
                    if cur != biome {
                        changed += 1;
                    }
                    data.set(idx, biome);
                }
            }
            proof {
                assert forall|i: int| 0 <= i < total implies #[trigger] data@[i] == (if i / gs < cz + dz || (i / gs
                    == cz + dz && i % gs < cx + dx + 1) {
                    painted(before, gs, cx as int, cz as int, r as int, biome, water, mountain, i)
                } else {
                    before[i]
                }) by {
                    if i / gs == cz + dz && i % gs == cx + dx {
                        vstd::arithmetic::div_mod::lemma_fundamental_div_mod(i, gs);
                        vstd::arithmetic::div_mod::lemma_mod_bound(i, gs);
                        assert(i / gs < gs) by (nonlinear_arith)
                            requires
                                i == gs * (i / gs) + i % gs,
                                0 <= i % gs,
                                i < gs * gs,
                                gs > 0,
                        ;
                        assert(i / gs >= 0) by (nonlinear_arith)
                            requires
                                i == gs * (i / gs) + i % gs,
                                i % gs < gs,
                                i >= 0,
                                gs > 0,
                        ;
                        assert(i == (cz + dz) * gs + (cx + dx)) by (nonlinear_arith)
                            requires
                                i == gs * (i / gs) + i % gs,
                                i / gs == cz + dz,
                                i % gs == cx + dx,
                        ;
                        assert(in_disk(cx as int, cz as int, r as int, i % gs, i / gs) == inside);
                        assert(d0[i] == before[i]);
                    } else {
                        if inside && ix >= 0 && iz >= 0 && ix < g && iz < g {
                            vstd::arithmetic::div_mod::lemma_fundamental_div_mod(i, gs);
                            vstd::arithmetic::div_mod::lemma_mod_bound(i, gs);
                            let idx = (cz + dz) * gs + (cx + dx);
                            if i == idx {
                                vstd::arithmetic::div_mod::lemma_fundamental_div_mod_converse(i, gs, cz + dz, cx + dx);
                            }
                            assert(data@[i] == d0[i]);
                        }
                    }
                }
            }
            dx += 1;
        }
        proof {
            assert forall|i: int| 0 <= i < total implies #[trigger] data@[i] == (if i / gs < cz + dz + 1 {
                painted(before, gs, cx as int, cz as int, r as int, biome, water, mountain, i)
            } else {
                before[i]
            }) by {
                if i / gs == cz + dz && i % gs >= cx + dx {
                    lemma_outside_disk(cx as int, cz as int, r as int, i % gs, i / gs);
                }
            }
        }
        dz += 1;
    }
    proof {
        assert forall|i: int| 0 <= i < total implies #[trigger] data@[i] == painted(
            before,
            gs,
            cx as int,
            cz as int,
            r as int,
            biome,
            water,
            mountain,
            i,
        ) by {
            if i / gs >= cz + dz {
                lemma_outside_disk(cx as int, cz as int, r as int, i % gs, i / gs);
            }
        }
    }
    changed
}

/// Law: painting the same patch twice leaves the grid as one painting
/// does.
pub proof fn lemma_paint_idempotent(
    before: Seq<u8>,
    gs: int,
    cx: int,
    cz: int,
    r: int,
    biome: u8,
    water: u8,
    mountain: u8,
    i: int,
)
    requires
        0 <= i < before.len(),
    ensures
        ({
            let once = Seq::new(before.len(), |k: int| painted(before, gs, cx, cz, r, biome, water, mountain, k));
            painted(once, gs, cx, cz, r, biome, water, mountain, i) == once[i]
        }),
{
}

/// Radius of a painted patch, the margin kept from the map edge when
/// choosing its centre, and the sampling stride of the candidate centres.
pub fn patch_geometry(grid_size: usize) -> (r: (usize, usize, usize))
    ensures
        r.0 == (if grid_size / 14 > 5 { grid_size / 14 } else { 5 }),
        r.1 == r.0 + 4,
        r.2 == grid_size / 8,
{
    let patch_radius = if grid_size / 14 > 5 { grid_size / 14 } else { 5 };
    (patch_radius, patch_radius + 4, grid_size / 8)
}

} // verus!
