//! Triangle mesh of a water body: each wet cell becomes two triangles
//! over the grid vertices at its corners, vertices shared between cells.
use vstd::prelude::*;
use std::collections::HashMap;
use crate::water::{Cell, in_cells};

verus! {

broadcast use vstd::std_specs::hash::group_hash_axioms;

/// Grid vertex of corner `k` of cell `c` (0 top left, 1 top right,
/// 2 bottom left, 3 bottom right).
pub open spec fn cell_corner(c: Cell, gs: int, k: int) -> int {
    (c.1 * gs + c.0) + (k % 2) + (k / 2) * gs
}

/// The corners of every cell, four per cell, in corner order.
pub open spec fn corner_seq(cells: Seq<Cell>, gs: int) -> Seq<usize> {
    Seq::new(4 * cells.len(), |j: int| cell_corner(cells[j / 4], gs, j % 4) as usize)
}

/// Corner of each vertex of the two triangles of a cell: top left, bottom
/// left, top right; top right, bottom left, bottom right.
pub open spec fn triangle_corner(t: int) -> int {
    if t == 0 {
        0
    } else if t == 1 || t == 4 {
        2
    } else if t == 2 || t == 3 {
        1
    } else {
        3
    }
}

/// Grid vertex of index `j` of the triangle list.
pub open spec fn triangle_vertex(cells: Seq<Cell>, gs: int, j: int) -> usize {
    cell_corner(cells[j / 6], gs, triangle_corner(j % 6)) as usize
}

/// `s` with later repeats removed, in order of first appearance.
pub open spec fn first_uses(s: Seq<usize>) -> Seq<usize>
    decreases s.len(),
{
    if s.len() == 0 {
        Seq::empty()
    } else {
        let d = first_uses(s.drop_last());
        if d.contains(s.last()) {
            d
        } else {
            d.push(s.last())
        }
    }
}

/// `remap` sends each vertex of `verts` to its position there.
pub open spec fn remap_ok(remap: Map<usize, u32>, verts: Seq<usize>) -> bool {
    &&& forall|v: usize| #[trigger] remap.contains_key(v) <==> verts.contains(v)
    &&& forall|v: usize| #[trigger] remap.contains_key(v) ==> remap[v] < verts.len() && verts[remap[v] as int] == v
}

/// Position of grid vertex `v` in the mesh, adding it at the end when new.
fn vertex_slot(remap: &mut HashMap<usize, u32>, verts: &mut Vec<usize>, v: usize) -> (slot: u32)
    requires
        remap_ok(old(remap)@, old(verts)@),
        old(verts)@.len() < u32::MAX,
    ensures
        remap_ok(final(remap)@, final(verts)@),
        final(verts)@ == (if old(verts)@.contains(v) { old(verts)@ } else { old(verts)@.push(v) }),
        slot < final(verts)@.len(),
        final(verts)@[slot as int] == v,
{
    match remap.get(&v) {
        Some(s) => {
            return *s;
        },
        None => {},
    }
    let slot = verts.len() as u32;
    verts.push(v);
    remap.insert(v, slot);
    proof {
        let vs = verts@;
        assert(vs[slot as int] == v);
        assert forall|w: usize| #[trigger] remap@.contains_key(w) <==> vs.contains(w) by {
            if vs.contains(w) && w != v {
                let k = choose|k: int| 0 <= k < vs.len() && vs[k] == w;
                assert(k < old(verts)@.len());
                assert(old(verts)@[k] == w);
            }
            if w != v && old(verts)@.contains(w) {
                let k = choose|k: int| 0 <= k < old(verts)@.len() && old(verts)@[k] == w;
                assert(vs[k] == w);
            }
        }
        assert forall|w: usize| #[trigger] remap@.contains_key(w) implies remap@[w] < vs.len() && vs[remap@[w] as int] == w by {
            if w != v {
                assert(old(remap)@.contains_key(w));
            }
        }
    }
    slot
}

/// The triangle mesh of a water body, as grid vertices: the vertices
/// used, in order of first use (corners of each cell taken top left, top
/// right, bottom left, bottom right), and for each cell two triangles as
/// positions in that list. No mesh for no cells.
pub fn water_body_mesh_topology(cells: &Vec<Cell>, grid_size: usize) -> (r: Option<(Vec<usize>, Vec<u32>)>)
    requires
        grid_size * grid_size <= usize::MAX,
        4 * cells@.len() < u32::MAX,
        forall|k: int| 0 <= k < cells@.len() ==> in_cells(grid_size - 1, #[trigger] cells@[k]),
    ensures
        cells@.len() == 0 <==> r is None,
        r matches Some((verts, indices)) ==> {
            &&& verts@ == first_uses(corner_seq(cells@, grid_size as int))
            &&& indices@.len() == 6 * cells@.len()
            &&& forall|j: int|
                0 <= j < indices@.len() ==> #[trigger] indices@[j] < verts@.len() && verts@[indices@[j] as int]
                    == triangle_vertex(cells@, grid_size as int, j)
        },
{
    if cells.len() == 0 {
        return None;
    }
    let gs = grid_size;
    let mut remap: HashMap<usize, u32> = HashMap::new();
    let mut verts: Vec<usize> = Vec::new();
    let mut indices: Vec<u32> = Vec::new();
    let ghost cs = corner_seq(cells@, gs as int);
    let mut k: usize = 0;
    while k < cells.len()
        invariant
            gs == grid_size,
            gs * gs <= usize::MAX,
            4 * cells@.len() < u32::MAX,
            forall|q: int| 0 <= q < cells@.len() ==> in_cells(gs - 1, #[trigger] cells@[q]),
            cs == corner_seq(cells@, gs as int),
            k <= cells@.len(),
            remap_ok(remap@, verts@),
            verts@ == first_uses(cs.take(4 * k)),
            verts@.len() <= 4 * k,
            indices@.len() == 6 * k,
            forall|j: int|
                0 <= j < indices@.len() ==> #[trigger] indices@[j] < verts@.len() && verts@[indices@[j] as int]
                    == triangle_vertex(cells@, gs as int, j),
        decreases cells@.len() - k,
    {
        let (cx, cz) = cells[k];
        proof {
            assert(in_cells(gs - 1, cells@[k as int]));
            crate::nav_grid::lemma_cell_index(gs as int, cx + 1, cz + 1);
            assert((cz + 1) * gs + cx + 1 == cz * gs + cx + gs + 1) by (nonlinear_arith);
        }
        let tl = cz * gs + cx;
        let tr = tl + 1;
        let bl = tl + gs;
        let br = bl + 1;
        let ghost v0 = verts@;
        let ghost i0 = indices@;
        let i_tl = vertex_slot(&mut remap, &mut verts, tl);
        let ghost v1 = verts@;
        let i_tr = vertex_slot(&mut remap, &mut verts, tr);
        let ghost v2 = verts@;
        let i_bl = vertex_slot(&mut remap, &mut verts, bl);
        let ghost v3 = verts@;
        let i_br = vertex_slot(&mut remap, &mut verts, br);
        indices.push(i_tl);
        indices.push(i_bl);
        indices.push(i_tr);
        indices.push(i_tr);
        indices.push(i_bl);
        indices.push(i_br);
        proof {
            let c = cells@[k as int];
            let t0 = cs.take(4 * k);
            assert(cs[4 * k] == tl) by {
                assert((4 * k) / 4 == k && (4 * k) % 4 == 0) by (nonlinear_arith);
            }
            assert(cs[4 * k + 1] == tr) by {
                assert((4 * k + 1) / 4 == k && (4 * k + 1) % 4 == 1) by (nonlinear_arith);
            }
            assert(cs[4 * k + 2] == bl) by {
                assert((4 * k + 2) / 4 == k && (4 * k + 2) % 4 == 2) by (nonlinear_arith);
            }
            assert(cs[4 * k + 3] == br) by {
                assert((4 * k + 3) / 4 == k && (4 * k + 3) % 4 == 3) by (nonlinear_arith);
            }
            assert(cs.take(4 * k + 1).drop_last() =~= t0);
            assert(cs.take(4 * k + 2).drop_last() =~= cs.take(4 * k + 1));
            assert(cs.take(4 * k + 3).drop_last() =~= cs.take(4 * k + 2));
            assert(cs.take(4 * (k + 1)).drop_last() =~= cs.take(4 * k + 3));
            assert(v1 == first_uses(cs.take(4 * k + 1)));
            assert(v2 == first_uses(cs.take(4 * k + 2)));
            assert(v3 == first_uses(cs.take(4 * k + 3)));
            assert(verts@ == first_uses(cs.take(4 * (k + 1))));
            assert forall|j: int| 0 <= j < indices@.len() implies #[trigger] indices@[j] < verts@.len()
                && verts@[indices@[j] as int] == triangle_vertex(cells@, gs as int, j) by {
                if j < i0.len() {
                    assert(indices@[j] == i0[j]);
                    assert(v0[i0[j] as int] == triangle_vertex(cells@, gs as int, j));
                    assert(verts@[i0[j] as int] == v0[i0[j] as int]) by {
                        assert(verts@.take(v0.len() as int) =~= v0) by {
                            assert(v1.take(v0.len() as int) =~= v0);
                            assert(v2.take(v0.len() as int) =~= v0);
                            assert(v3.take(v0.len() as int) =~= v0);
                        }
                        assert(verts@.take(v0.len() as int)[i0[j] as int] == verts@[i0[j] as int]);
                    }
                } else {
                    let t = j - 6 * k;
                    assert(j / 6 == k && j % 6 == t) by (nonlinear_arith)
                        requires
                            6 * k <= j < 6 * k + 6,
                            t == j - 6 * k,
                    ;
                    assert(verts@[i_tl as int] == tl) by {
                        assert(v1[i_tl as int] == tl);
                        assert(v2.take(v1.len() as int) =~= v1);
                        assert(v3.take(v1.len() as int) =~= v1);
                        assert(verts@.take(v1.len() as int) =~= v1);
                        assert(verts@.take(v1.len() as int)[i_tl as int] == verts@[i_tl as int]);
                    }
                    assert(verts@[i_tr as int] == tr) by {
                        assert(v3.take(v2.len() as int) =~= v2);
                        assert(verts@.take(v2.len() as int) =~= v2);
                        assert(verts@.take(v2.len() as int)[i_tr as int] == verts@[i_tr as int]);
                    }
                    assert(verts@[i_bl as int] == bl) by {
                        assert(verts@.take(v3.len() as int) =~= v3);
                        assert(verts@.take(v3.len() as int)[i_bl as int] == verts@[i_bl as int]);
                    }
                }
            }
        }
        k += 1;
    }
    proof {
        assert(cs.take(4 * cells@.len() as int) =~= cs);
    }
    Some((verts, indices))
}

} // verus!
