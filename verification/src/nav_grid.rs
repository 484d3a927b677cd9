//! Navigation grid: per-cell traversal costs over a square terrain grid,
//! with the edge data (cliffs and slope penalties) that the search reads.
//!
//! Cells are addressed row-major: cell `(x, z)` has index `z * size + x`.
//! Costs: 0 = impassable, 1..=255 = traversal cost (1 = cheapest).
//! For every cell, the edge data holds one slot per 3x3 neighbourhood
//! position (`(dz + 1) * 3 + (dx + 1)`); the centre slot is unused.
use vstd::prelude::*;
use vstd::multiset::Multiset;
use crate::open_set::OpenSet;

verus! {

/// Edge-data slots per cell (the 3x3 neighbourhood).
pub const NEIGHBOR_SLOTS: usize = 9;

/// Largest supported side length; keeps coordinates, indices and heuristic
/// values inside their integer types.
pub const MAX_GRID_SIZE: usize = 3_000_000;

/// Largest slope penalty an edge may carry: the worst edge cost
/// (`1414 + 255 * 10 + penalty`) must fit in a `u32`.
pub const MAX_SLOPE_PENALTY: u32 = 4_294_963_331;

/// Cost given to cells in the soft margin around an obstacle.
pub const OBSTACLE_MARGIN_COST: u8 = 40;

pub open spec fn neighbor_slot(dx: int, dz: int) -> int {
    (dz + 1) * 3 + (dx + 1)
}

pub open spec fn abs_int(v: int) -> int {
    if v < 0 { -v } else { v }
}

pub open spec fn min_int(a: int, b: int) -> int {
    if a <= b { a } else { b }
}

pub open spec fn max_int(a: int, b: int) -> int {
    if a >= b { a } else { b }
}

/// Octile distance in thousandths of a cell: diagonal moves cost 1414,
/// straight moves 1000.
pub open spec fn octile(ax: int, az: int, bx: int, bz: int) -> int {
    let dx = abs_int(ax - bx);
    let dz = abs_int(az - bz);
    min_int(dx, dz) * 1414 + (max_int(dx, dz) - min_int(dx, dz)) * 1000
}

/// How a cell relates to a circular obstacle being stamped into the grid.
#[derive(Clone, Copy, PartialEq, Eq, Debug)]
pub enum ObstacleZone {
    /// Inside the obstacle footprint: becomes impassable.
    Footprint,
    /// Inside the soft margin: passable cells cost at least the margin cost.
    Margin,
    /// Untouched.
    Outside,
}

pub struct NavGrid {
    costs: Vec<u8>,
    terrain_base_costs: Vec<u8>,
    cliff_edges: Vec<bool>,
    slope_penalties: Vec<u32>,
    grid_size: usize,
    revision: u64,
}

/// Index and coordinate facts for a cell of a `size` x `size` grid.
pub proof fn lemma_cell_index(size: int, x: int, z: int)
    requires
        0 <= x < size,
        0 <= z < size,
    ensures
        0 <= z * size + x < size * size,
        (z * size + x) % size == x,
        (z * size + x) / size == z,
        (z * size + x) * 9 + 8 < size * size * 9,
{
    assert(0 <= z * size + x < size * size) by (nonlinear_arith)
        requires
            0 <= x < size,
            0 <= z < size,
    ;
    vstd::arithmetic::div_mod::lemma_fundamental_div_mod_converse(z * size + x, size, z, x);
    assert((z * size + x) * 9 + 8 < size * size * 9) by (nonlinear_arith)
        requires
            0 <= z * size + x < size * size,
    ;
}

/// Coordinates of a cell index.
pub proof fn lemma_index_coords(size: int, i: int)
    requires
        0 <= i < size * size,
        size > 0,
    ensures
        0 <= i % size < size,
        0 <= i / size < size,
        (i / size) * size + i % size == i,
        i * 9 + 8 < size * size * 9,
{
    vstd::arithmetic::div_mod::lemma_fundamental_div_mod(i, size);
    vstd::arithmetic::div_mod::lemma_mod_bound(i, size);
    vstd::arithmetic::mul::lemma_mul_is_commutative(size, i / size);
    assert(0 <= i / size) by {
        vstd::arithmetic::div_mod::lemma_div_pos_is_pos(i, size);
    }
    assert(i / size < size) by {
        vstd::arithmetic::div_mod::lemma_div_by_multiple_is_strongly_ordered(i, size * size, size, size);
        vstd::arithmetic::div_mod::lemma_div_multiples_vanish(size, size);
    }
    assert(i * 9 + 8 < size * size * 9) by (nonlinear_arith)
        requires
            0 <= i < size * size,
    ;
}

impl NavGrid {
    pub closed spec fn size(&self) -> int {
        self.grid_size as int
    }

    pub closed spec fn cost_seq(&self) -> Seq<u8> {
        self.costs@
    }

    pub closed spec fn base_cost_seq(&self) -> Seq<u8> {
        self.terrain_base_costs@
    }

    pub closed spec fn cliff_seq(&self) -> Seq<bool> {
        self.cliff_edges@
    }

    pub closed spec fn penalty_seq(&self) -> Seq<u32> {
        self.slope_penalties@
    }

    pub closed spec fn revision_value(&self) -> u64 {
        self.revision
    }

    pub open spec fn total(&self) -> int {
        self.size() * self.size()
    }

    /// Shape of the grid data.
    pub open spec fn wf(&self) -> bool {
        &&& 1 <= self.size() <= MAX_GRID_SIZE
        &&& self.cost_seq().len() == self.total()
        &&& self.base_cost_seq().len() == self.total()
        &&& self.cliff_seq().len() == self.total() * 9
        &&& self.penalty_seq().len() == self.total() * 9
        &&& forall|k: int|
            0 <= k < self.penalty_seq().len() ==> #[trigger] self.penalty_seq()[k]
                <= MAX_SLOPE_PENALTY
    }

    pub open spec fn in_grid(&self, x: int, z: int) -> bool {
        0 <= x < self.size() && 0 <= z < self.size()
    }

    pub open spec fn cell(&self, x: int, z: int) -> int {
        z * self.size() + x
    }

    pub open spec fn cell_x(&self, i: int) -> int {
        i % self.size()
    }

    pub open spec fn cell_z(&self, i: int) -> int {
        i / self.size()
    }

    pub open spec fn passable(&self, i: int) -> bool {
        0 <= i < self.total() && self.cost_seq()[i] > 0
    }

    pub open spec fn passable_at(&self, x: int, z: int) -> bool {
        self.in_grid(x, z) && self.cost_seq()[self.cell(x, z)] > 0
    }

    /// Whether moving from cell `i` by `(dx, dz)` crosses a cliff.
    pub open spec fn cliff(&self, i: int, dx: int, dz: int) -> bool {
        self.cliff_seq()[i * 9 + neighbor_slot(dx, dz)]
    }

    /// Extra cost for moving from cell `i` by `(dx, dz)` across a slope.
    pub open spec fn slope_penalty(&self, i: int, dx: int, dz: int) -> int {
        self.penalty_seq()[i * 9 + neighbor_slot(dx, dz)] as int
    }

    /// A single 8-connected move the search may take: the target is in the
    /// grid and passable, and a diagonal move does not cut a blocked corner.
    pub open spec fn step_allowed(&self, fx: int, fz: int, dx: int, dz: int) -> bool {
        &&& -1 <= dx <= 1
        &&& -1 <= dz <= 1
        &&& !(dx == 0 && dz == 0)
        &&& self.in_grid(fx, fz)
        &&& self.passable_at(fx + dx, fz + dz)
        &&& (dx != 0 && dz != 0) ==> (self.passable_at(fx + dx, fz) && self.passable_at(
            fx,
            fz + dz,
        ))
    }

    /// `a -> b` is a move the search may take, between cell indices.
    #[verifier::opaque]
    pub open spec fn is_step(&self, a: int, b: int) -> bool {
        &&& 0 <= a < self.total()
        &&& 0 <= b < self.total()
        &&& self.step_allowed(
            self.cell_x(a),
            self.cell_z(a),
            self.cell_x(b) - self.cell_x(a),
            self.cell_z(b) - self.cell_z(a),
        )
    }

    /// `p` is a chain of allowed moves from `s` to `t`.
    pub open spec fn is_step_chain(&self, p: Seq<usize>, s: int, t: int) -> bool {
        &&& p.len() >= 1
        &&& p[0] == s
        &&& p[p.len() - 1] == t
        &&& forall|k: int| 0 <= k < p.len() - 1 ==> #[trigger] self.is_step(p[k] as int, p[k + 1] as int)
    }

    /// Builds a grid from its side length, cell costs and per-cell edge data
    /// (`NEIGHBOR_SLOTS` entries per cell). The given costs also become the
    /// terrain costs that `reset_to_terrain` restores. Returns `None` when
    /// the data does not fit together.
    pub fn new(grid_size: usize, costs: Vec<u8>, cliff_edges: Vec<bool>, slope_penalties: Vec<u32>) -> (r: Option<NavGrid>)
        ensures
            r is Some <==> {
                &&& 1 <= grid_size <= MAX_GRID_SIZE
                &&& costs@.len() == grid_size * grid_size
                &&& cliff_edges@.len() == grid_size * grid_size * 9
                &&& slope_penalties@.len() == grid_size * grid_size * 9
                &&& forall|k: int| 0 <= k < slope_penalties@.len() ==> #[trigger] slope_penalties@[k] <= MAX_SLOPE_PENALTY
            },
            r matches Some(g) ==> {
                &&& g.wf()
                &&& g.size() == grid_size
                &&& g.cost_seq() == costs@
                &&& g.base_cost_seq() == costs@
                &&& g.cliff_seq() == cliff_edges@
                &&& g.penalty_seq() == slope_penalties@
                &&& g.revision_value() == 1
            },
    {
        if grid_size == 0 || grid_size > MAX_GRID_SIZE {
            return None;
        }
        let _costs_len = costs.len();
        let total = match grid_size.checked_mul(grid_size) {
            Some(t) => t,
            None => return None,
        };
        if costs.len() != total {
            return None;
        }
        if cliff_edges.len() / 9 != total || cliff_edges.len() % 9 != 0 {
            return None;
        }
        if slope_penalties.len() != cliff_edges.len() {
            return None;
        }
        let mut k: usize = 0;
        while k < slope_penalties.len()
            invariant
                k <= slope_penalties@.len(),
                forall|j: int| 0 <= j < k ==> #[trigger] slope_penalties@[j] <= MAX_SLOPE_PENALTY,
            decreases slope_penalties@.len() - k,
        {
            if slope_penalties[k] > MAX_SLOPE_PENALTY {
                return None;
            }
            k += 1;
        }
        let terrain_base_costs = costs.clone();
        Some(NavGrid { costs, terrain_base_costs, cliff_edges, slope_penalties, grid_size, revision: 1 })
    }

    pub fn grid_size(&self) -> (r: usize)
        ensures
            r == self.size(),
    {
        self.grid_size
    }

    pub fn revision(&self) -> (r: u64)
        ensures
            r == self.revision_value(),
    {
        self.revision
    }

    /// Index of cell `(gx, gz)`.
    pub fn index(&self, gx: usize, gz: usize) -> (r: usize)
        requires
            self.wf(),
            gx < self.size(),
            gz < self.size(),
        ensures
            r == self.cell(gx as int, gz as int),
            r < self.total(),
    {
        let n = self.costs.len();
        proof {
            lemma_cell_index(self.size(), gx as int, gz as int);
        }
        gz * self.grid_size + gx
    }

    /// Traversal cost of cell `idx` (0 = impassable).
    pub fn cost(&self, idx: usize) -> (r: u8)
        requires
            self.wf(),
            idx < self.total(),
        ensures
            r == self.cost_seq()[idx as int],
    {
        self.costs[idx]
    }

    pub fn is_passable(&self, idx: usize) -> (r: bool)
        requires
            self.wf(),
            idx < self.total(),
        ensures
            r == self.passable(idx as int),
    {
        self.costs[idx] > 0
    }

    /// Restores every cell to its terrain cost.
    pub fn reset_to_terrain(&mut self)
        requires
            old(self).wf(),
        ensures
            final(self).wf(),
            final(self).cost_seq() == old(self).base_cost_seq(),
            final(self).base_cost_seq() == old(self).base_cost_seq(),
            final(self).cliff_seq() == old(self).cliff_seq(),
            final(self).penalty_seq() == old(self).penalty_seq(),
            final(self).size() == old(self).size(),
            final(self).revision_value() == old(self).revision_value(),
    {
        let n = self.costs.len();
        let mut i: usize = 0;
        while i < n
            invariant
                n == self.costs@.len(),
                n == self.terrain_base_costs@.len(),
                i <= n,
                self.terrain_base_costs@ == old(self).terrain_base_costs@,
                self.cliff_edges@ == old(self).cliff_edges@,
                self.slope_penalties@ == old(self).slope_penalties@,
                self.grid_size == old(self).grid_size,
                self.revision == old(self).revision,
                forall|j: int| 0 <= j < i ==> self.costs@[j] == self.terrain_base_costs@[j],
            decreases n - i,
        {
            let c = self.terrain_base_costs[i];
            self.costs.set(i, c);
            i += 1;
        }
        assert(self.costs@ =~= self.terrain_base_costs@);
    }

    /// Applies one cell of an obstacle stamp: footprint cells become
    /// impassable; passable margin cells cost at least `OBSTACLE_MARGIN_COST`.
    pub fn stamp_obstacle_cell(&mut self, idx: usize, zone: ObstacleZone)
        requires
            old(self).wf(),
            idx < old(self).total(),
        ensures
            final(self).wf(),
            final(self).cost_seq() == old(self).cost_seq().update(
                idx as int,
                match zone {
                    ObstacleZone::Footprint => 0u8,
                    ObstacleZone::Margin => if old(self).cost_seq()[idx as int] > 0 {
                        if old(self).cost_seq()[idx as int] >= OBSTACLE_MARGIN_COST {
                            old(self).cost_seq()[idx as int]
                        } else {
                            OBSTACLE_MARGIN_COST
                        }
                    } else {
                        0u8
                    },
                    ObstacleZone::Outside => old(self).cost_seq()[idx as int],
                },
            ),
            final(self).base_cost_seq() == old(self).base_cost_seq(),
            final(self).cliff_seq() == old(self).cliff_seq(),
            final(self).penalty_seq() == old(self).penalty_seq(),
            final(self).size() == old(self).size(),
            final(self).revision_value() == old(self).revision_value(),
    {
        let c = self.costs[idx];
        match zone {
            ObstacleZone::Footprint => {
                self.costs.set(idx, 0);
            },
            ObstacleZone::Margin => {
                if c > 0 && c < OBSTACLE_MARGIN_COST {
                    self.costs.set(idx, OBSTACLE_MARGIN_COST);
                } else {
                    assert(self.costs@ =~= self.costs@.update(idx as int, c));
                }
            },
            ObstacleZone::Outside => {
                assert(self.costs@ =~= self.costs@.update(idx as int, c));
            },
        }
    }

    /// Marks the grid as changed: the revision advances, wrapping, and never
    /// becomes 0.
    pub fn bump_revision(&mut self)
        requires
            old(self).wf(),
        ensures
            final(self).wf(),
            final(self).revision_value() == next_nonzero(old(self).revision_value()),
            final(self).cost_seq() == old(self).cost_seq(),
            final(self).base_cost_seq() == old(self).base_cost_seq(),
            final(self).cliff_seq() == old(self).cliff_seq(),
            final(self).penalty_seq() == old(self).penalty_seq(),
            final(self).size() == old(self).size(),
    {
        self.revision = advance_nonzero(self.revision);
    }
}


/// Bresenham step facts: while the walk has not reached its target, it
/// moves along at least one axis and never past the target on either axis.
proof fn lemma_bresenham_step(dx: int, dz: int, i: int, j: int)
    requires
        0 <= dx,
        0 <= dz,
        0 <= i <= dx,
        0 <= j <= dz,
        !(i == dx && j == dz),
    ensures
        2 * (dx * (j + 1) - dz * (i + 1)) > -dz ==> i < dx,
        2 * (dx * (j + 1) - dz * (i + 1)) < dx ==> j < dz,
        2 * (dx * (j + 1) - dz * (i + 1)) > -dz || 2 * (dx * (j + 1) - dz * (i + 1)) < dx,
{
    if i == dx {
        assert(2 * (dx * (j + 1) - dz * (i + 1)) <= -dz) by (nonlinear_arith)
            requires i == dx, 0 <= j < dz, 0 <= dx;
    }
    if j == dz {
        assert(2 * (dx * (j + 1) - dz * (i + 1)) >= dx) by (nonlinear_arith)
            requires j == dz, 0 <= i < dx, 0 <= dz;
    }
    assert(2 * (dx * (j + 1) - dz * (i + 1)) > -dz || 2 * (dx * (j + 1) - dz * (i + 1)) < dx)
        by (nonlinear_arith)
        requires
            0 <= dx,
            0 <= dz,
            0 <= i,
            0 <= j,
            dx > 0 || dz > 0,
    ;
}

impl NavGrid {
    /// Walks the Bresenham line towards `(x1, z1)` from cell `(x, z)` with
    /// error term `err`. True when every visited cell is in the grid and
    /// passable and no move between consecutive cells crosses a cliff, up to
    /// and including the target. `(px, pz)` is the previously visited cell
    /// (ignored on the first cell).
    pub open spec fn los_walk(
        &self,
        x1: int,
        z1: int,
        dx: int,
        dz: int,
        sx: int,
        sz: int,
        x: int,
        z: int,
        err: int,
        px: int,
        pz: int,
        first: bool,
        fuel: nat,
    ) -> bool
        decreases fuel,
    {
        if fuel == 0 {
            false
        } else if !self.in_grid(x, z) {
            false
        } else if self.cost_seq()[self.cell(x, z)] == 0 {
            false
        } else if !first && self.cliff(self.cell(px, pz), x - px, z - pz) {
            false
        } else if x == x1 && z == z1 {
            true
        } else {
            let e2 = 2 * err;
            let err_a = if e2 > -dz { err - dz } else { err };
            let nx = if e2 > -dz { x + sx } else { x };
            let err_b = if e2 < dx { err_a + dx } else { err_a };
            let nz = if e2 < dx { z + sz } else { z };
            self.los_walk(x1, z1, dx, dz, sx, sz, nx, nz, err_b, x, z, false, (fuel - 1) as nat)
        }
    }

    /// Line of sight between two cells along the Bresenham line: all cells
    /// on it are passable and no step between consecutive cells is a cliff.
    pub open spec fn los(&self, x0: int, z0: int, x1: int, z1: int) -> bool {
        let dx = abs_int(x1 - x0);
        let dz = abs_int(z1 - z0);
        let sx = if x0 < x1 { 1int } else { -1int };
        let sz = if z0 < z1 { 1int } else { -1int };
        self.los_walk(x1, z1, dx, dz, sx, sz, x0, z0, dx - dz, x0, z0, true, (dx + dz + 1) as nat)
    }

    /// Line of sight between cells `(x0, z0)` and `(x1, z1)`.
    #[verifier::rlimit(40)]
    pub fn line_of_sight(&self, x0: usize, z0: usize, x1: usize, z1: usize) -> (r: bool)
        requires
            self.wf(),
            x0 < self.size(),
            z0 < self.size(),
            x1 < self.size(),
            z1 < self.size(),
        ensures
            r == self.los(x0 as int, z0 as int, x1 as int, z1 as int),
    {
        let _n_costs = self.costs.len();
        let _n_edges = self.cliff_edges.len();
        let gs = self.grid_size;
        let gsi = gs as i32;
        let dx: i32 = if x1 >= x0 { (x1 - x0) as i32 } else { (x0 - x1) as i32 };
        let dz: i32 = if z1 >= z0 { (z1 - z0) as i32 } else { (z0 - z1) as i32 };
        let sx: i32 = if x0 < x1 { 1 } else { -1 };
        let sz: i32 = if z0 < z1 { 1 } else { -1 };
        let mut err: i32 = dx - dz;
        let mut x: i32 = x0 as i32;
        let mut z: i32 = z0 as i32;
        let mut px: i32 = x;
        let mut pz: i32 = z;
        let mut first = true;
        let ghost mut i: int = 0;
        let ghost mut j: int = 0;
        let ghost mut fuel: nat = (dx + dz + 1) as nat;
        assert(err == dx * (0 + 1) - dz * (0 + 1)) by (nonlinear_arith)
            requires err == dx - dz;
        loop
            invariant
                self.wf(),
                gs == self.size(),
                gsi == gs,
                _n_costs == self.total(),
                _n_edges == self.total() * 9,
                dx == abs_int(x1 - x0),
                dz == abs_int(z1 - z0),
                sx == (if x0 < x1 { 1int } else { -1int }),
                sz == (if z0 < z1 { 1int } else { -1int }),
                0 <= i <= dx,
                0 <= j <= dz,
                x == (if x0 < x1 { x0 + i } else { x0 - i }),
                z == (if z0 < z1 { z0 + j } else { z0 - j }),
                err == dx * (j + 1) - dz * (i + 1),
                -2 * dz <= err <= 2 * dx,
                x0 < gs,
                z0 < gs,
                x1 < gs,
                z1 < gs,
                gs <= MAX_GRID_SIZE,
                fuel >= (dx - i) + (dz - j) + 1,
                first ==> i == 0 && j == 0,
                !first ==> {
                    &&& self.in_grid(px as int, pz as int)
                    &&& (x - px == 0 || x - px == sx)
                    &&& (z - pz == 0 || z - pz == sz)
                },
                self.los_walk(x1 as int, z1 as int, dx as int, dz as int, sx as int, sz as int, x as int, z as int, err as int, px as int, pz as int, first, fuel)
                    == self.los(x0 as int, z0 as int, x1 as int, z1 as int),
            decreases (dx - i) + (dz - j),
        {
            assert(0 <= x < gs);
            assert(0 <= z < gs);
            if x < 0 || z < 0 || x >= gsi || z >= gsi {
                return false;
            }
            proof {
                lemma_cell_index(gs as int, x as int, z as int);
            }
            let idx = z as usize * gs + x as usize;
            if self.costs[idx] == 0 {
                return false;
            }
            if !first {
                proof {
                    lemma_cell_index(gs as int, px as int, pz as int);
                }
                let pidx = pz as usize * gs + px as usize;
                let slot = ((z - pz + 1) * 3 + (x - px + 1)) as usize;
                if self.cliff_edges[pidx * 9 + slot] {
                    return false;
                }
            }
            let tx = x1 as i32;
            let tz = z1 as i32;
            if x == tx && z == tz {
                return true;
            }
            proof {
                assert(!(i == dx && j == dz));
                lemma_bresenham_step(dx as int, dz as int, i, j);
            }
            let e2 = 2 * err;
            let ghost old_state = (x, z, err, px, pz, first, fuel);
            px = x;
            pz = z;
            first = false;
            if e2 > -dz {
                proof {
                    assert(dx * (j + 1) - dz * (i + 2) == dx * (j + 1) - dz * (i + 1) - dz) by (nonlinear_arith);
                }
                err = err - dz;
                x = x + sx;
                proof {
                    i = i + 1;
                }
            }
            if e2 < dx {
                proof {
                    assert(dx * (j + 2) - dz * (i + 1) == dx * (j + 1) - dz * (i + 1) + dx) by (nonlinear_arith);
                }
                err = err + dx;
                z = z + sz;
                proof {
                    j = j + 1;
                }
            }
            proof {
                fuel = (fuel - 1) as nat;
            }
        }
    }
}


impl NavGrid {
    /// Line of sight between two cells given by index.
    pub open spec fn los_cells(&self, a: int, b: int) -> bool {
        self.los(self.cell_x(a), self.cell_z(a), self.cell_x(b), self.cell_z(b))
    }

    /// The farthest waypoint among `path[a + 2 ..= hi]` in line of sight
    /// from `path[a]`, or `a + 1` when there is none.
    pub open spec fn farthest_visible(&self, path: Seq<usize>, a: int, hi: int) -> int
        decreases hi - a,
    {
        if hi < a + 2 {
            a + 1
        } else if self.los_cells(path[a] as int, path[hi] as int) {
            hi
        } else {
            self.farthest_visible(path, a, hi - 1)
        }
    }

    /// Waypoints kept after `path[a]`: jump to the farthest visible waypoint,
    /// repeatedly, until the end of the path.
    pub open spec fn smooth_from(&self, path: Seq<usize>, a: int) -> Seq<usize>
        decreases path.len() - a,
    {
        if a < 0 || a >= path.len() - 1 {
            Seq::empty()
        } else {
            let f = self.farthest_visible(path, a, path.len() - 1);
            if f <= a || f >= path.len() {
                Seq::empty()
            } else {
                seq![path[f]] + self.smooth_from(path, f)
            }
        }
    }

    /// Line-of-sight smoothing of a waypoint path: paths of at most two
    /// waypoints are kept; otherwise the first waypoint is kept and each next
    /// kept waypoint is the farthest one visible from the previous.
    pub open spec fn smoothed(&self, path: Seq<usize>) -> Seq<usize> {
        if path.len() <= 2 {
            path
        } else {
            seq![path[0]] + self.smooth_from(path, 0)
        }
    }

    pub proof fn lemma_farthest_visible_bounds(&self, path: Seq<usize>, a: int, hi: int)
        ensures
            a + 1 <= self.farthest_visible(path, a, hi),
            hi >= a + 1 ==> self.farthest_visible(path, a, hi) <= hi,
            self.farthest_visible(path, a, hi) >= a + 2 ==> self.los_cells(
                path[a] as int,
                path[self.farthest_visible(path, a, hi)] as int,
            ),
        decreases hi - a,
    {
        if hi >= a + 2 && !self.los_cells(path[a] as int, path[hi] as int) {
            self.lemma_farthest_visible_bounds(path, a, hi - 1);
        }
    }

    /// Removes waypoints that can be skipped by a straight walk in line of
    /// sight; every waypoint must be a cell of the grid.
    pub fn smooth_path(&self, path: &Vec<usize>) -> (r: Vec<usize>)
        requires
            self.wf(),
            forall|k: int| 0 <= k < path@.len() ==> #[trigger] path@[k] < self.total(),
        ensures
            r@ == self.smoothed(path@),
    {
        if path.len() <= 2 {
            let copy = path.clone();
            assert(copy@ =~= path@);
            return copy;
        }
        let gs = self.grid_size;
        let len = path.len();
        let mut smoothed: Vec<usize> = Vec::new();
        smoothed.push(path[0]);
        let mut anchor: usize = 0;
        assert(smoothed@ + self.smooth_from(path@, 0) =~= seq![path@[0]] + self.smooth_from(path@, 0));
        while anchor < len - 1
            invariant
                self.wf(),
                gs == self.size(),
                len == path@.len(),
                len > 2,
                anchor < len,
                forall|k: int| 0 <= k < path@.len() ==> #[trigger] path@[k] < self.total(),
                smoothed@ + self.smooth_from(path@, anchor as int) == seq![path@[0]]
                    + self.smooth_from(path@, 0),
            decreases len - anchor,
        {
            let mut farthest = anchor + 1;
            let mut probe = anchor + 2;
            while probe < len
                invariant
                    self.wf(),
                    gs == self.size(),
                    len == path@.len(),
                    anchor < len - 1,
                    anchor + 2 <= probe <= len,
                    forall|k: int| 0 <= k < path@.len() ==> #[trigger] path@[k] < self.total(),
                    farthest == self.farthest_visible(path@, anchor as int, probe - 1),
                decreases len - probe,
            {
                proof {
                    lemma_index_coords(gs as int, path@[anchor as int] as int);
                    lemma_index_coords(gs as int, path@[probe as int] as int);
                }
                let ax = path[anchor] % gs;
                let az = path[anchor] / gs;
                let bx = path[probe] % gs;
                let bz = path[probe] / gs;
                if self.line_of_sight(ax, az, bx, bz) {
                    farthest = probe;
                }
                probe += 1;
            }
            proof {
                self.lemma_farthest_visible_bounds(path@, anchor as int, len - 1);
                let f = farthest as int;
                assert(self.smooth_from(path@, anchor as int) == seq![path@[f]] + self.smooth_from(path@, f));
                assert(smoothed@.push(path@[f]) + self.smooth_from(path@, f) =~= smoothed@ + (seq![path@[f]] + self.smooth_from(path@, f)));
            }
            smoothed.push(path[farthest]);
            anchor = farthest;
        }
        proof {
            assert(self.smooth_from(path@, anchor as int) =~= Seq::<usize>::empty());
            assert(smoothed@ =~= smoothed@ + self.smooth_from(path@, anchor as int));
        }
        smoothed
    }
}


/// Radius (in cells) of the largest square searched for a passable cell.
pub const NEAREST_SEARCH_RADIUS: usize = 10;

pub open spec fn dist_sq(gx: int, gz: int, x: int, z: int) -> int {
    (x - gx) * (x - gx) + (z - gz) * (z - gz)
}

/// Row-major order: a cell scanned earlier has a smaller index.
proof fn lemma_row_major_order(size: int, x1: int, z1: int, x2: int, z2: int)
    requires
        0 <= x1 < size,
        0 <= z1 < size,
        0 <= x2 < size,
        0 <= z2 < size,
        z1 < z2 || (z1 == z2 && x1 < x2),
    ensures
        z1 * size + x1 < z2 * size + x2,
{
    if z1 < z2 {
        assert(z1 * size + x1 < z2 * size + x2) by (nonlinear_arith)
            requires
                0 <= x1 < size,
                0 <= x2,
                z1 < z2,
        ;
    }
}

impl NavGrid {
    /// Cell `(x, z)` is in the grid and within Chebyshev distance `r` of `(gx, gz)`.
    pub open spec fn in_square(&self, gx: int, gz: int, r: int, x: int, z: int) -> bool {
        self.in_grid(x, z) && abs_int(x - gx) <= r && abs_int(z - gz) <= r
    }

    pub open spec fn square_has_passable(&self, gx: int, gz: int, r: int) -> bool {
        exists|x: int, z: int| self.in_square(gx, gz, r, x, z) && #[trigger] self.passable_at(x, z)
    }

    /// Cell `i` is the passable cell of the square of radius `r` closest to
    /// `(gx, gz)`, ties going to the smaller index.
    pub open spec fn nearest_in_square(&self, gx: int, gz: int, r: int, i: int) -> bool {
        let x = self.cell_x(i);
        let z = self.cell_z(i);
        &&& 0 <= i < self.total()
        &&& self.in_square(gx, gz, r, x, z)
        &&& self.passable_at(x, z)
        &&& forall|x2: int, z2: int|
            self.in_square(gx, gz, r, x2, z2) && #[trigger] self.passable_at(x2, z2) ==> (dist_sq(
                gx,
                gz,
                x,
                z,
            ) < dist_sq(gx, gz, x2, z2) || (dist_sq(gx, gz, x, z) == dist_sq(gx, gz, x2, z2) && i
                <= self.cell(x2, z2)))
    }

    /// Cell `i` answers the nearest-passable search around `(gx, gz)`: it is
    /// the closest passable cell of the smallest square (radius 1 to
    /// `NEAREST_SEARCH_RADIUS`) that holds a passable cell.
    pub open spec fn is_nearest_passable(&self, gx: int, gz: int, i: int) -> bool {
        exists|r: int|
            1 <= r <= NEAREST_SEARCH_RADIUS && #[trigger] self.square_has_passable(gx, gz, r) && (
            forall|q: int| 1 <= q < r ==> !#[trigger] self.square_has_passable(gx, gz, q))
                && self.nearest_in_square(gx, gz, r, i)
    }

    pub open spec fn nearest_passable(&self, gx: int, gz: int) -> Option<int> {
        if self.square_has_passable(gx, gz, NEAREST_SEARCH_RADIUS as int) {
            Some(choose|i: int| self.is_nearest_passable(gx, gz, i))
        } else {
            None
        }
    }

    proof fn lemma_nearest_unique(&self, gx: int, gz: int, i: int, j: int)
        requires
            self.wf(),
            self.is_nearest_passable(gx, gz, i),
            self.is_nearest_passable(gx, gz, j),
        ensures
            i == j,
    {
        let ri = choose|r: int|
            1 <= r <= NEAREST_SEARCH_RADIUS && #[trigger] self.square_has_passable(gx, gz, r) && (
            forall|q: int| 1 <= q < r ==> !#[trigger] self.square_has_passable(gx, gz, q))
                && self.nearest_in_square(gx, gz, r, i);
        let rj = choose|r: int|
            1 <= r <= NEAREST_SEARCH_RADIUS && #[trigger] self.square_has_passable(gx, gz, r) && (
            forall|q: int| 1 <= q < r ==> !#[trigger] self.square_has_passable(gx, gz, q))
                && self.nearest_in_square(gx, gz, r, j);
        assert(ri == rj) by {
            if ri < rj {
                assert(!self.square_has_passable(gx, gz, ri));
            }
            if rj < ri {
                assert(!self.square_has_passable(gx, gz, rj));
            }
        }
        let gs = self.size();
        lemma_index_coords(gs, i);
        lemma_index_coords(gs, j);
        let (xi, zi) = (self.cell_x(i), self.cell_z(i));
        let (xj, zj) = (self.cell_x(j), self.cell_z(j));
        assert(self.passable_at(xj, zj));
        assert(self.passable_at(xi, zi));
        assert(self.cell(xi, zi) == i);
        assert(self.cell(xj, zj) == j);
    }

    /// The passable cell nearest to `(gx, gz)`, searching squares of growing
    /// radius up to `NEAREST_SEARCH_RADIUS`; distances are compared through
    /// their squares, ties go to the smaller index.
    pub fn find_nearest_passable(&self, gx: usize, gz: usize) -> (r: Option<usize>)
        requires
            self.wf(),
            gx < self.size(),
            gz < self.size(),
        ensures
            match r {
                None => self.nearest_passable(gx as int, gz as int) is None,
                Some(i) => {
                    &&& self.nearest_passable(gx as int, gz as int) == Some(i as int)
                    &&& self.is_nearest_passable(gx as int, gz as int, i as int)
                },
            },
    {
        let _n_costs = self.costs.len();
        let gs = self.grid_size;
        let mut radius: usize = 1;
        while radius <= NEAREST_SEARCH_RADIUS
            invariant
                self.wf(),
                gs == self.size(),
                _n_costs == self.total(),
                gx < gs,
                gz < gs,
                1 <= radius <= NEAREST_SEARCH_RADIUS + 1,
                forall|q: int| 1 <= q < radius ==> !#[trigger] self.square_has_passable(gx as int, gz as int, q),
            decreases NEAREST_SEARCH_RADIUS + 1 - radius,
        {
            let min_x = if gx >= radius { gx - radius } else { 0 };
            let max_x = if gx + radius <= gs - 1 { gx + radius } else { gs - 1 };
            let min_z = if gz >= radius { gz - radius } else { 0 };
            let max_z = if gz + radius <= gs - 1 { gz + radius } else { gs - 1 };
            let ghost r = radius as int;
            let ghost cgx = gx as int;
            let ghost cgz = gz as int;
            let mut best: Option<(usize, usize)> = None;
            let mut z = min_z;
            while z <= max_z
                invariant
                    self.wf(),
                    gs == self.size(),
                    _n_costs == self.total(),
                    gx < gs,
                    gz < gs,
                    1 <= r <= NEAREST_SEARCH_RADIUS,
                    r == radius,
                    cgx == gx,
                    cgz == gz,
                    min_x == max_int(cgx - r, 0),
                    max_x == min_int(cgx + r, gs - 1),
                    min_z == max_int(cgz - r, 0),
                    max_z == min_int(cgz + r, gs - 1),
                    min_z <= z <= max_z + 1,
                    match best {
                        None => forall|x2: int, z2: int|
                            self.in_square(cgx, cgz, r, x2, z2) && z2 < z ==> !#[trigger] self.passable_at(x2, z2),
                        Some((bi, bd)) => {
                            &&& bi < self.total()
                            &&& self.in_square(cgx, cgz, r, self.cell_x(bi as int), self.cell_z(bi as int))
                            &&& self.cell_z(bi as int) < z
                            &&& self.passable_at(self.cell_x(bi as int), self.cell_z(bi as int))
                            &&& bd == dist_sq(cgx, cgz, self.cell_x(bi as int), self.cell_z(bi as int))
                            &&& forall|x2: int, z2: int|
                                self.in_square(cgx, cgz, r, x2, z2) && z2 < z && #[trigger] self.passable_at(x2, z2)
                                    ==> (bd < dist_sq(cgx, cgz, x2, z2) || (bd == dist_sq(cgx, cgz, x2, z2)
                                    && bi <= self.cell(x2, z2)))
                        },
                    },
                decreases max_z + 1 - z,
            {
                let mut x = min_x;
                while x <= max_x
                    invariant
                        self.wf(),
                        gs == self.size(),
                        _n_costs == self.total(),
                        gx < gs,
                        gz < gs,
                        1 <= r <= NEAREST_SEARCH_RADIUS,
                        r == radius,
                        cgx == gx,
                        cgz == gz,
                        min_x == max_int(cgx - r, 0),
                        max_x == min_int(cgx + r, gs - 1),
                        min_z == max_int(cgz - r, 0),
                        max_z == min_int(cgz + r, gs - 1),
                        min_z <= z <= max_z,
                        min_x <= x <= max_x + 1,
                        match best {
                            None => forall|x2: int, z2: int|
                                self.in_square(cgx, cgz, r, x2, z2) && (z2 < z || (z2 == z && x2 < x))
                                    ==> !#[trigger] self.passable_at(x2, z2),
                            Some((bi, bd)) => {
                                &&& bi < self.total()
                                &&& self.in_square(cgx, cgz, r, self.cell_x(bi as int), self.cell_z(bi as int))
                                &&& (self.cell_z(bi as int) < z || (self.cell_z(bi as int) == z && self.cell_x(bi as int) < x))
                                &&& self.passable_at(self.cell_x(bi as int), self.cell_z(bi as int))
                                &&& bd == dist_sq(cgx, cgz, self.cell_x(bi as int), self.cell_z(bi as int))
                                &&& forall|x2: int, z2: int|
                                    self.in_square(cgx, cgz, r, x2, z2) && (z2 < z || (z2 == z && x2 < x))
                                        && #[trigger] self.passable_at(x2, z2) ==> (bd < dist_sq(cgx, cgz, x2, z2)
                                        || (bd == dist_sq(cgx, cgz, x2, z2) && bi <= self.cell(x2, z2)))
                            },
                        },
                    decreases max_x + 1 - x,
                {
                    proof {
                        lemma_cell_index(gs as int, x as int, z as int);
                    }
                    let idx = z * gs + x;
                    if self.costs[idx] > 0 {
                        let ddx = if x >= gx { x - gx } else { gx - x };
                        let ddz = if z >= gz { z - gz } else { gz - z };
                        proof {
                            assert(ddx * ddx + ddz * ddz == dist_sq(cgx, cgz, x as int, z as int)) by (nonlinear_arith)
                                requires
                                    ddx == abs_int(x - cgx),
                                    ddz == abs_int(z - cgz),
                            ;
                            assert(ddx * ddx <= 100) by (nonlinear_arith) requires ddx <= 10;
                            assert(ddz * ddz <= 100) by (nonlinear_arith) requires ddz <= 10;
                        }
                        let d = ddx * ddx + ddz * ddz;
                        let replace = match best {
                            None => true,
                            Some((_, bd)) => d < bd,
                        };
                        if replace {
                            best = Some((idx, d));
                        } else {
                            proof {
                                let (bi, bd) = best.unwrap();
                                lemma_index_coords(gs as int, bi as int);
                                lemma_row_major_order(gs as int, self.cell_x(bi as int), self.cell_z(bi as int), x as int, z as int);
                            }
                        }
                    }
                    x += 1;
                }
                z += 1;
            }
            match best {
                Some((bi, _)) => {
                    proof {
                        let gxi = gx as int;
                        let gzi = gz as int;
                        lemma_index_coords(gs as int, bi as int);
                        assert(self.square_has_passable(gxi, gzi, r));
                        assert(self.nearest_in_square(gxi, gzi, r, bi as int));
                        assert(self.is_nearest_passable(gxi, gzi, bi as int));
                        let (bx, bz) = (self.cell_x(bi as int), self.cell_z(bi as int));
                        assert(self.in_square(gxi, gzi, NEAREST_SEARCH_RADIUS as int, bx, bz));
                        assert(self.square_has_passable(gxi, gzi, NEAREST_SEARCH_RADIUS as int));
                        let c = choose|i: int| self.is_nearest_passable(gxi, gzi, i);
                        self.lemma_nearest_unique(gxi, gzi, c, bi as int);
                    }
                    return Some(bi);
                },
                None => {
                    assert(!self.square_has_passable(gx as int, gz as int, r));
                },
            }
            radius += 1;
        }
        assert(!self.square_has_passable(gx as int, gz as int, NEAREST_SEARCH_RADIUS as int));
        None
    }
}


/// Most entries the search takes from its open set before giving up.
pub const ASTAR_NODE_LIMIT: usize = 12_000;

/// A route found on the grid: the kept waypoint cells, and whether the
/// caller's exact destination is appended after them (it is when the
/// destination cell itself was passable).
pub struct GridRoute {
    pub cells: Vec<usize>,
    pub append_goal: bool,
}

fn filled_u32(n: usize, v: u32) -> (r: Vec<u32>)
    ensures
        r@ == Seq::new(n as nat, |_k: int| v),
{
    let mut r: Vec<u32> = Vec::new();
    while r.len() < n
        invariant
            r@.len() <= n,
            forall|k: int| 0 <= k < r@.len() ==> r@[k] == v,
        decreases n - r@.len(),
    {
        r.push(v);
    }
    assert(r@ =~= Seq::new(n as nat, |_k: int| v));
    r
}

fn filled_usize(n: usize, v: usize) -> (r: Vec<usize>)
    ensures
        r@ == Seq::new(n as nat, |_k: int| v),
{
    let mut r: Vec<usize> = Vec::new();
    while r.len() < n
        invariant
            r@.len() <= n,
            forall|k: int| 0 <= k < r@.len() ==> r@[k] == v,
        decreases n - r@.len(),
    {
        r.push(v);
    }
    assert(r@ =~= Seq::new(n as nat, |_k: int| v));
    r
}

impl NavGrid {
    /// The cell a search endpoint at `(x, z)` moves to: the cell itself when
    /// passable, else the nearest passable cell (if any).
    pub open spec fn projected(&self, x: int, z: int) -> Option<int> {
        if self.passable_at(x, z) {
            Some(self.cell(x, z))
        } else {
            self.nearest_passable(x, z)
        }
    }

    /// `cells` is the smoothing of some chain of allowed moves from `s` to `t`.
    pub open spec fn smoothed_route(&self, cells: Seq<usize>, s: int, t: int) -> bool {
        exists|p: Seq<usize>| self.is_step_chain(p, s, t) && cells == self.smoothed(p)
    }

    /// Every recorded predecessor is one allowed move before its cell, and
    /// the cell's cost is at least the predecessor's cost plus that move.
    #[verifier::opaque]
    pub open spec fn preds_ok(&self, g: Seq<u32>, cf: Seq<usize>) -> bool {
        forall|n: int|
            0 <= n < self.total() && #[trigger] cf[n] != usize::MAX ==> {
                &&& cf[n] < self.total()
                &&& self.is_step(cf[n] as int, n)
                &&& g[cf[n] as int] + self.step_cost(cf[n] as int, n) <= g[n]
            }
    }

    /// Cost of moving along `p`: the sum of its moves' costs.
    pub open spec fn chain_cost(&self, p: Seq<usize>) -> int
        decreases p.len(),
    {
        if p.len() <= 1 {
            0
        } else {
            self.chain_cost(p.drop_last()) + self.step_cost(p[p.len() - 2] as int, p[p.len() - 1] as int)
        }
    }

    /// `p` is a cheapest chain of allowed moves from `s` to `t`.
    pub open spec fn shortest_chain(&self, p: Seq<usize>, s: int, t: int) -> bool {
        &&& self.is_step_chain(p, s, t)
        &&& forall|q: Seq<usize>| #[trigger] self.is_step_chain(q, s, t) ==> self.chain_cost(p) <= self.chain_cost(q)
    }

    /// `cells` is the smoothing of a cheapest chain of allowed moves from
    /// `s` to `t`.
    pub open spec fn shortest_route(&self, cells: Seq<usize>, s: int, t: int) -> bool {
        exists|p: Seq<usize>| self.shortest_chain(p, s, t) && cells == self.smoothed(p)
    }

    /// Bookkeeping of the search: best-known costs `g`, predecessors `cf`
    /// (`usize::MAX` = none) and open entries.
    pub open spec fn search_inv(
        &self,
        g: Seq<u32>,
        cf: Seq<usize>,
        open: Multiset<(u64, usize)>,
        start: int,
    ) -> bool {
        &&& g.len() == self.total()
        &&& cf.len() == self.total()
        &&& 0 <= start < self.total()
        &&& g[start] == 0
        &&& cf[start] == usize::MAX
        &&& self.preds_ok(g, cf)
        &&& forall|n: int|
            0 <= n < self.total() && #[trigger] g[n] != u32::MAX ==> n == start || cf[n] != usize::MAX
        &&& forall|e: (u64, usize)|
            open.contains(e) ==> e.1 < self.total() && g[e.1 as int] != u32::MAX
    }

    /// Following predecessors from a cell with a known cost leads back to
    /// `start` through cells with known costs.
    proof fn lemma_pred_known(&self, g: Seq<u32>, cf: Seq<usize>, start: int, n: int)
        requires
            self.wf(),
            g.len() == self.total(),
            cf.len() == self.total(),
            self.preds_ok(g, cf),
            forall|m: int| 0 <= m < self.total() && #[trigger] g[m] != u32::MAX ==> m == start || cf[m] != usize::MAX,
            0 <= n < self.total(),
            cf[n] != usize::MAX,
        ensures
            cf[n] < self.total(),
            self.is_step(cf[n] as int, n),
            g[cf[n] as int] + self.step_cost(cf[n] as int, n) <= g[n],
            g[cf[n] as int] < g[n],
            cf[n] == start || cf[cf[n] as int] != usize::MAX,
    {
        reveal(NavGrid::preds_ok);
        self.lemma_step_facts(cf[n] as int, n);
    }

    /// A cell with a known cost is reached from `start` by a chain of
    /// allowed moves costing at most that cost.
    pub proof fn lemma_known_cost_chain(&self, g: Seq<u32>, cf: Seq<usize>, open: Multiset<(u64, usize)>, start: int, n: int) -> (p: Seq<usize>)
        requires
            self.wf(),
            self.search_inv(g, cf, open, start),
            self.total() <= usize::MAX,
            0 <= n < self.total(),
            g[n] != u32::MAX,
        ensures
            self.is_step_chain(p, start, n),
            self.chain_cost(p) <= g[n],
        decreases g[n],
    {
        if n == start {
            let p = seq![start as usize];
            assert(self.chain_cost(p) == 0);
            p
        } else {
            self.lemma_pred_known(g, cf, start, n);
            let m = cf[n] as int;
            let q = self.lemma_known_cost_chain(g, cf, open, start, m);
            let p = q.push(n as usize);
            assert(p.drop_last() =~= q);
            assert(p[p.len() - 2] == q[q.len() - 1]);
            assert forall|k: int| 0 <= k < p.len() - 1 implies #[trigger] self.is_step(p[k] as int, p[k + 1] as int) by {
                if k < q.len() - 1 {
                    assert(p[k] == q[k] && p[k + 1] == q[k + 1]);
                    assert(self.is_step(q[k] as int, q[k + 1] as int));
                } else {
                    assert(p[k] == q[q.len() - 1]);
                    assert(p[k] as int == m);
                    assert(p[k + 1] as int == n);
                }
            }
            p
        }
    }

    /// A chain in which each cell is the recorded predecessor of the next
    /// costs at most the difference of the end cells' costs.
    proof fn lemma_pred_chain_cost(&self, g: Seq<u32>, cf: Seq<usize>, p: Seq<usize>)
        requires
            self.wf(),
            g.len() == self.total(),
            cf.len() == self.total(),
            self.preds_ok(g, cf),
            self.total() <= usize::MAX,
            p.len() >= 1,
            forall|k: int| 0 <= k < p.len() ==> #[trigger] p[k] < self.total(),
            forall|k: int| 0 <= k < p.len() - 1 ==> cf[#[trigger] p[k + 1] as int] == p[k],
        ensures
            self.chain_cost(p) <= g[p[p.len() - 1] as int] - g[p[0] as int],
        decreases p.len(),
    {
        if p.len() > 1 {
            let q = p.drop_last();
            assert forall|k: int| 0 <= k < q.len() - 1 implies cf[#[trigger] q[k + 1] as int] == q[k] by {
                assert(cf[p[k + 1] as int] == p[k]);
            }
            self.lemma_pred_chain_cost(g, cf, q);
            let last = p[p.len() - 1] as int;
            assert(cf[p[(p.len() - 2) + 1] as int] == p[p.len() - 2]);
            assert(p[p.len() - 2] < self.total());
            reveal(NavGrid::preds_ok);
            assert(cf[last] != usize::MAX);
        }
    }

    /// Follows predecessors from `goal` back to `start` and returns the
    /// cells from `start` to `goal`.
    fn reconstruct_path(&self, came_from: &Vec<usize>, start: usize, goal: usize, Ghost(g): Ghost<Seq<u32>>) -> (path: Vec<usize>)
        requires
            self.wf(),
            came_from@.len() == self.total(),
            g.len() == self.total(),
            start < self.total(),
            goal < self.total(),
            self.preds_ok(g, came_from@),
            forall|m: int| 0 <= m < self.total() && #[trigger] g[m] != u32::MAX ==> m == start || came_from@[m] != usize::MAX,
            g[goal as int] != u32::MAX,
        ensures
            self.is_step_chain(path@, start as int, goal as int),
            self.chain_cost(path@) <= g[goal as int] - g[start as int],
    {
        let _n = came_from.len();
        let mut back: Vec<usize> = Vec::new();
        let mut node = goal;
        while node != start
            invariant
                self.wf(),
                came_from@.len() == self.total(),
                g.len() == self.total(),
                start < self.total(),
                node < self.total(),
                self.preds_ok(g, came_from@),
                forall|m: int| 0 <= m < self.total() && #[trigger] g[m] != u32::MAX ==> m == start || came_from@[m] != usize::MAX,
                g[node as int] != u32::MAX,
                back@.len() == 0 ==> node == goal,
                back@.len() > 0 ==> {
                    &&& back@[0] == goal
                    &&& came_from@[back@[back@.len() - 1] as int] == node
                },
                forall|k: int| 0 <= k < back@.len() ==> #[trigger] back@[k] < self.total(),
                forall|k: int| 0 <= k < back@.len() - 1 ==> came_from@[#[trigger] back@[k] as int] == back@[k + 1],
            decreases g[node as int],
        {
            proof {
                self.lemma_pred_known(g, came_from@, start as int, node as int);
            }
            let ghost b0 = back@;
            back.push(node);
            let prev = came_from[node];
            proof {
                assert forall|k: int| 0 <= k < back@.len() - 1 implies came_from@[#[trigger] back@[k] as int] == back@[k + 1] by {
                    if k < b0.len() - 1 {
                        assert(back@[k] == b0[k] && back@[k + 1] == b0[k + 1]);
                    } else {
                        assert(back@[k] == b0[b0.len() - 1]);
                    }
                }
            }
            node = prev;
        }
        let ghost b0 = back@;
        back.push(start);
        proof {
            assert forall|k: int| 0 <= k < back@.len() - 1 implies came_from@[#[trigger] back@[k] as int] == back@[k + 1] by {
                if k < b0.len() - 1 {
                    assert(back@[k] == b0[k] && back@[k + 1] == b0[k + 1]);
                } else {
                    assert(back@[k] == b0[b0.len() - 1]);
                }
            }
        }
        let n = back.len();
        let mut path: Vec<usize> = Vec::new();
        while path.len() < n
            invariant
                n == back@.len(),
                n >= 1,
                path@.len() <= n,
                forall|k: int| 0 <= k < path@.len() ==> path@[k] == back@[n - 1 - k],
            decreases n - path@.len(),
        {
            let k = path.len();
            path.push(back[n - 1 - k]);
        }
        proof {
            assert forall|k: int| 0 <= k < path@.len() implies #[trigger] path@[k] < self.total() by {
                assert(path@[k] == back@[n - 1 - k]);
            }
            assert forall|k: int| 0 <= k < path@.len() - 1 implies came_from@[#[trigger] path@[k + 1] as int] == path@[k] by {
                let b = n - 2 - k;
                assert(path@[k] == back@[b + 1]);
                assert(path@[k + 1] == back@[b]);
            }
            assert forall|k: int| 0 <= k < path@.len() - 1 implies #[trigger] self.is_step(path@[k] as int, path@[k + 1] as int) by {
                reveal(NavGrid::preds_ok);
                assert(came_from@[path@[k + 1] as int] == path@[k]);
                assert(path@[k] != usize::MAX) by {
                    assert(path@[k] < self.total());
                }
            }
            assert(path@[0] == back@[n - 1]);
            assert(path@[path@.len() - 1] == back@[0]);
            self.lemma_pred_chain_cost(g, came_from@, path@);
        }
        path
    }

    /// Lowering the cost of `ni` through `current` keeps the search bookkeeping.
    proof fn lemma_relax_keeps_inv(
        &self,
        g: Seq<u32>,
        cf: Seq<usize>,
        open: Multiset<(u64, usize)>,
        start: int,
        current: int,
        ni: int,
        t: u32,
        f: u64,
    )
        requires
            self.search_inv(g, cf, open, start),
            0 <= current < self.total(),
            current < usize::MAX,
            0 <= ni < self.total(),
            ni < usize::MAX,
            self.is_step(current, ni),
            g[current] + self.step_cost(current, ni) <= t,
            t < g[ni],
        ensures
            self.search_inv(g.update(ni, t), cf.update(ni, current as usize), open.insert((f, ni as usize)), start),
    {
        let g2 = g.update(ni, t);
        let cf2 = cf.update(ni, current as usize);
        let o2 = open.insert((f, ni as usize));
        broadcast use vstd::multiset::group_multiset_axioms;
        assert(ni != start);
        assert(self.preds_ok(g2, cf2)) by {
            reveal(NavGrid::preds_ok);
            assert forall|n: int|
                0 <= n < self.total() && #[trigger] cf2[n] != usize::MAX implies {
                    &&& cf2[n] < self.total()
                    &&& self.is_step(cf2[n] as int, n)
                    &&& g2[cf2[n] as int] + self.step_cost(cf2[n] as int, n) <= g2[n]
                } by {
                if n != ni {
                    assert(cf2[n] == cf[n]);
                    assert(g2[n] == g[n]);
                }
            }
        }
        assert forall|n: int|
            0 <= n < self.total() && #[trigger] g2[n] != u32::MAX implies n == start || cf2[n] != usize::MAX by {
            if n != ni {
                assert(g2[n] == g[n]);
            }
        }
        assert forall|e: (u64, usize)| o2.contains(e) implies e.1 < self.total() && g2[e.1 as int] != u32::MAX by {
            if e != (f, ni as usize) {
                assert(open.contains(e));
            }
        }
    }

    /// One neighbour relaxation of the search from cell `current`.
    #[verifier::rlimit(60)]
    fn relax_neighbor(
        &self,
        current: usize,
        dx: i32,
        dz: i32,
        goal_gx: usize,
        goal_gz: usize,
        g_cost: &mut Vec<u32>,
        came_from: &mut Vec<usize>,
        open: &mut OpenSet,
        Ghost(start): Ghost<int>,
        Ghost(goal): Ghost<int>,
    )
        requires
            self.wf(),
            current < self.total(),
            old(g_cost)@[current as int] != u32::MAX,
            -1 <= dx <= 1,
            -1 <= dz <= 1,
            !(dx == 0 && dz == 0),
            0 <= goal < self.total(),
            goal_gx == self.cell_x(goal),
            goal_gz == self.cell_z(goal),
            old(open).wf(),
            self.search_inv(old(g_cost)@, old(came_from)@, old(open)@, start),
        ensures
            final(open).wf(),
            self.search_inv(final(g_cost)@, final(came_from)@, final(open)@, start),
            (final(g_cost)@, final(came_from)@, final(open)@) == self.relaxed(
                old(g_cost)@,
                old(came_from)@,
                old(open)@,
                current as int,
                dx as int,
                dz as int,
                goal,
            ),
            final(g_cost)@[current as int] == old(g_cost)@[current as int],
    {
        let _n_costs = self.costs.len();
        let _n_edges = self.slope_penalties.len();
        let gs = self.grid_size;
        proof {
            lemma_index_coords(gs as int, current as int);
            lemma_index_coords(gs as int, goal);
        }
        let cx = current % gs;
        let cz = current / gs;
        let nx = cx as i32 + dx;
        let nz = cz as i32 + dz;
        if nx < 0 || nz < 0 || nx >= gs as i32 || nz >= gs as i32 {
            return;
        }
        proof {
            lemma_cell_index(gs as int, nx as int, nz as int);
        }
        let ni = nz as usize * gs + nx as usize;
        let cell_cost = self.costs[ni];
        if cell_cost == 0 {
            return;
        }
        if dx != 0 && dz != 0 {
            proof {
                lemma_cell_index(gs as int, nx as int, cz as int);
                lemma_cell_index(gs as int, cx as int, nz as int);
            }
            let adj1 = self.costs[cz * gs + nx as usize];
            let adj2 = self.costs[nz as usize * gs + cx];
            if adj1 == 0 || adj2 == 0 {
                return;
            }
        }
        let base_cost: u32 = if dx != 0 && dz != 0 { 1414 } else { 1000 };
        let slot = ((dz + 1) * 3 + (dx + 1)) as usize;
        let slope_penalty = self.slope_penalties[current * 9 + slot];
        let edge_cost = base_cost + cell_cost as u32 * 10 + slope_penalty;
        let current_g = g_cost[current];
        let tentative_g = current_g.saturating_add(edge_cost);
        proof {
            assert(self.move_target(current as int, dx as int, dz as int) == Some(ni as int));
            assert(self.cell_x(ni as int) == nx);
            assert(self.cell_z(ni as int) == nz);
            assert(edge_cost == self.step_cost(current as int, ni as int));
            assert(tentative_g == crate::nav_search::sat_u32(current_g + edge_cost));
        }
        if tentative_g < g_cost[ni] {
            proof {
                reveal(NavGrid::is_step);
                assert(self.is_step(current as int, ni as int));
            }
            let ghost old_g = g_cost@;
            let ghost old_cf = came_from@;
            let ghost old_open = open@;
            g_cost.set(ni, tentative_g);
            came_from.set(ni, current);
            let h = octile_heuristic(nx as usize, nz as usize, goal_gx, goal_gz);
            let f = tentative_g as u64 + h as u64;
            open.push((f, ni));
            proof {
                self.lemma_relax_keeps_inv(old_g, old_cf, old_open, start, current as int, ni as int, tentative_g, f);
                assert(h == self.h_to(ni as int, goal));
            }
        }
    }

    /// A* search between cells `(sx, sz)` and `(gx, gz)` over 8-connected
    /// allowed moves, followed by line-of-sight smoothing. The chain of
    /// moves found is a cheapest one, since the octile heuristic never
    /// overestimates the cost of the moves left. An impassable endpoint is
    /// first moved to its nearest passable cell. Returns `None`
    /// when an endpoint has no passable cell nearby, when the goal is
    /// unreachable, or when more than `ASTAR_NODE_LIMIT` entries were taken
    /// from the open set. Open-set priorities are cost-so-far plus the
    /// octile heuristic.
    ///
    /// On a grid whose move costs keep every path cost below `u32::MAX`, a
    /// search fails on a reachable goal only by running into the node limit:
    /// for every chain of moves from start to goal, more than a ninth of
    /// `ASTAR_NODE_LIMIT` cells lie in its focus set (cells reached by some
    /// chain whose cost plus the remaining octile distance stays within the
    /// chain's cost), the only cells expanded before the goal.
    ///
    /// Also returns the number of entries taken from the open set: a
    /// search that takes more than `ASTAR_NODE_LIMIT` of them gives up with
    /// `None`, and on a grid of bounded move costs a reachable goal is
    /// missed only that way.
    pub fn find_path_counted(&self, sx: usize, sz: usize, gx: usize, gz: usize) -> (r: (Option<GridRoute>, usize))
        requires
            self.wf(),
            sx < self.size(),
            sz < self.size(),
            gx < self.size(),
            gz < self.size(),
        ensures
            ({
                let s = self.cell(sx as int, sz as int);
                let t = self.cell(gx as int, gz as int);
                if s == t && self.passable(t) {
                    r.0 matches Some(route) && route.cells@ == seq![t as usize] && !route.append_goal
                } else {
                    match (self.projected(gx as int, gz as int), self.projected(sx as int, sz as int)) {
                        (Some(tp), Some(sp)) => {
                            &&& r.0 matches Some(route) ==> {
                                &&& route.append_goal == (tp == t)
                                &&& self.smoothed_route(route.cells@, sp, tp)
                                &&& self.shortest_route(route.cells@, sp, tp)
                            }
                            &&& r.0 is None ==> (self.step_costs_bounded() ==> forall|q: Seq<usize>|
                                #[trigger] self.is_step_chain(q, sp, tp) ==> 9 * self.focus_set(
                                    sp,
                                    tp,
                                    self.chain_cost(q),
                                ).len() > ASTAR_NODE_LIMIT)
                            &&& r.0 is None && self.step_costs_bounded() && self.reachable(sp, tp) ==> r.1
                                > ASTAR_NODE_LIMIT
                        },
                        _ => r.0 is None,
                    }
                }
            }),
            r.1 <= ASTAR_NODE_LIMIT + 1,
            r.1 > ASTAR_NODE_LIMIT ==> r.0 is None,
    {
        let gs = self.grid_size;
        let start_cell = self.index(sx, sz);
        let requested_goal_idx = self.index(gx, gz);
        if start_cell == requested_goal_idx && self.costs[requested_goal_idx] > 0 {
            let mut cells: Vec<usize> = Vec::new();
            cells.push(requested_goal_idx);
            return (Some(GridRoute { cells, append_goal: false }), 0);
        }
        proof {
            lemma_cell_index(gs as int, gx as int, gz as int);
            lemma_cell_index(gs as int, sx as int, sz as int);
        }
        let goal_idx = if self.costs[requested_goal_idx] == 0 {
            match self.find_nearest_passable(gx, gz) {
                Some(alt) => alt,
                None => return (None, 0),
            }
        } else {
            requested_goal_idx
        };
        let goal_is_projected = goal_idx != requested_goal_idx;
        let start_idx = if self.costs[start_cell] == 0 {
            match self.find_nearest_passable(sx, sz) {
                Some(alt) => alt,
                None => return (None, 0),
            }
        } else {
            start_cell
        };
        let ghost tp = self.projected(gx as int, gz as int);
        let ghost sp = self.projected(sx as int, sz as int);
        assert(tp == Some(goal_idx as int));
        assert(sp == Some(start_idx as int));
        let total = self.costs.len();
        let mut g_cost = filled_u32(total, u32::MAX);
        let mut came_from = filled_usize(total, usize::MAX);
        let mut open = OpenSet::new();
        let mut visited: usize = 0;
        proof {
            lemma_index_coords(gs as int, goal_idx as int);
            lemma_index_coords(gs as int, start_idx as int);
        }
        let goal_gx = goal_idx % gs;
        let goal_gz = goal_idx / gs;
        g_cost.set(start_idx, 0);
        proof {
            assert(self.preds_ok(g_cost@, came_from@)) by {
                reveal(NavGrid::preds_ok);
            }
        }
        let h = octile_heuristic(start_idx % gs, start_idx / gs, goal_gx, goal_gz);
        open.push((h as u64, start_idx));
        let ghost goal = goal_idx as int;
        let ghost mut fresh: Set<int> = Set::empty();
        let ghost mut flast: int = 0;
        let ghost mut pushes: int = 1;
        let ghost mut pops: int = 0;
        proof {
            assert forall|e: (u64, usize)| open@.contains(e) implies e.1 < self.total() && g_cost@[e.1 as int] != u32::MAX by {
                assert(open@ =~= Multiset::empty().insert((h as u64, start_idx)));
            }
            assert(open@ =~= Multiset::empty().insert((self.h_to(start_idx as int, goal) as u64, start_idx)));
            self.lemma_astar_start(g_cost@, open@, start_idx as int, goal);
        }
        loop
            invariant
                self.wf(),
                gs == self.size(),
                total == self.total(),
                total <= usize::MAX,
                start_idx < total,
                goal_idx < total,
                goal == goal_idx as int,
                goal_gx == self.cell_x(goal),
                goal_gz == self.cell_z(goal),
                tp == Some(goal_idx as int),
                sp == Some(start_idx as int),
                tp == self.projected(gx as int, gz as int),
                sp == self.projected(sx as int, sz as int),
                !(self.cell(sx as int, sz as int) == self.cell(gx as int, gz as int) && self.passable(self.cell(gx as int, gz as int))),
                goal_is_projected == (goal_idx != requested_goal_idx),
                requested_goal_idx == self.cell(gx as int, gz as int),
                open.wf(),
                self.search_inv(g_cost@, came_from@, open@, start_idx as int),
                self.astar_ok(g_cost@, open@, fresh, flast, start_idx as int, goal, pushes, pops),
                visited as int == pops,
                visited <= ASTAR_NODE_LIMIT,
            decreases ASTAR_NODE_LIMIT - visited,
        {
            let ghost before_pop = open@;
            let popped = open.pop();
            let e = match popped {
                None => {
                    proof {
                        if self.step_costs_bounded() {
                            self.lemma_search_exhausted(g_cost@, open@, fresh, flast, start_idx as int, goal, pushes, pops);
                        }
                    }
                    return (None, visited);
                },
                Some(e) => e,
            };
            let current = e.1;
            proof {
                broadcast use vstd::multiset::group_multiset_axioms;
                assert forall|x: (u64, usize)| open@.contains(x) implies before_pop.contains(x) by {
                    assert(open@.count(x) <= before_pop.count(x));
                }
                assert(self.search_inv(g_cost@, came_from@, before_pop, start_idx as int));
                assert forall|x: (u64, usize)| open@.contains(x) implies x.1 < self.total() && g_cost@[x.1 as int] != u32::MAX by {
                    assert(before_pop.contains(x));
                }
                assert(self.search_inv(g_cost@, came_from@, open@, start_idx as int));
            }
            if current == goal_idx {
                proof {
                    assert(g_cost@[goal] != u32::MAX);
                    self.lemma_goal_cost_optimal(g_cost@, before_pop, fresh, flast, start_idx as int, goal, pushes, pops, e);
                }
                let grid_path = self.reconstruct_path(&came_from, start_idx, goal_idx, Ghost(g_cost@));
                proof {
                    reveal(NavGrid::is_step);
                    assert forall|k: int| 0 <= k < grid_path@.len() implies #[trigger] grid_path@[k] < self.total() by {
                        if k < grid_path@.len() - 1 {
                            assert(self.is_step(grid_path@[k] as int, grid_path@[k + 1] as int));
                        } else if k > 0 {
                            assert(self.is_step(grid_path@[k - 1] as int, grid_path@[(k - 1) + 1] as int));
                        }
                    }
                }
                let smoothed = self.smooth_path(&grid_path);
                proof {
                    assert(self.is_step_chain(grid_path@, start_idx as int, goal_idx as int));
                    assert(self.smoothed_route(smoothed@, start_idx as int, goal_idx as int));
                    assert(self.shortest_chain(grid_path@, start_idx as int, goal_idx as int));
                    assert(self.shortest_route(smoothed@, start_idx as int, goal_idx as int));
                }
                return (Some(GridRoute { cells: smoothed, append_goal: !goal_is_projected }), visited);
            }
            proof {
                if self.step_costs_bounded() {
                    self.lemma_min_entry_bound(g_cost@, before_pop, fresh, flast, start_idx as int, goal, pushes, pops, e);
                }
            }
            let ghost f0 = e.0 as int;
            let ghost gm = g_cost@[current as int] as int;
            let ghost is_new = !fresh.contains(current as int);
            let ghost p0 = pushes;
            proof {
                self.lemma_after_pop(g_cost@, before_pop, open@, e, fresh, flast, start_idx as int, goal, pushes, pops);
                pops = pops + 1;
            }
            visited += 1;
            if visited > ASTAR_NODE_LIMIT {
                proof {
                    if self.step_costs_bounded() {
                        assert forall|q: Seq<usize>| #[trigger] self.is_step_chain(q, start_idx as int, goal) implies 9
                            * self.focus_set(start_idx as int, goal, self.chain_cost(q)).len() > ASTAR_NODE_LIMIT by {
                            self.lemma_search_focus(
                                g_cost@,
                                came_from@,
                                open@,
                                fresh,
                                f0,
                                current as int,
                                gm,
                                is_new,
                                start_idx as int,
                                goal,
                                pushes,
                                pops,
                                p0,
                                q,
                            );
                        }
                    }
                }
                return (None, visited);
            }
            let current_g = g_cost[current];
            if current_g == u32::MAX {
                proof {
                    assert(false);
                }
                continue;
            }
            let mut k: usize = 0;
            while k < 8
                invariant
                    self.wf(),
                    gs == self.size(),
                    total == self.total(),
                    total <= usize::MAX,
                    current < total,
                    g_cost@[current as int] != u32::MAX,
                    goal == goal_idx as int,
                    0 <= goal < total,
                    goal_gx == self.cell_x(goal),
                    goal_gz == self.cell_z(goal),
                    k <= 8,
                    open.wf(),
                    self.search_inv(g_cost@, came_from@, open@, start_idx as int),
                    self.expand_ok(
                        g_cost@,
                        open@,
                        fresh,
                        f0,
                        current as int,
                        gm,
                        is_new,
                        k as int,
                        start_idx as int,
                        goal,
                        pushes,
                        pops,
                        p0,
                    ),
                decreases 8 - k,
            {
                let (dx, dz) = direction(k);
                let ghost g0 = g_cost@;
                let ghost cf0 = came_from@;
                let ghost open0 = open@;
                self.relax_neighbor(
                    current,
                    dx,
                    dz,
                    goal_gx,
                    goal_gz,
                    &mut g_cost,
                    &mut came_from,
                    &mut open,
                    Ghost(start_idx as int),
                    Ghost(goal),
                );
                proof {
                    self.lemma_after_relax(
                        g0,
                        cf0,
                        open0,
                        g_cost@,
                        came_from@,
                        open@,
                        fresh,
                        f0,
                        current as int,
                        gm,
                        is_new,
                        k as int,
                        start_idx as int,
                        goal,
                        pushes,
                        pops,
                        p0,
                    );
                    pushes = pushes + (open@.len() - open0.len());
                }
                k += 1;
            }
            proof {
                self.lemma_after_expand(
                    g_cost@,
                    open@,
                    fresh,
                    f0,
                    current as int,
                    gm,
                    is_new,
                    start_idx as int,
                    goal,
                    pushes,
                    pops,
                    p0,
                );
                if is_new {
                    fresh = fresh.insert(current as int);
                }
                flast = f0;
            }
        }
    }

    /// The route of `find_path_counted`, without the count.
    pub fn find_path(&self, sx: usize, sz: usize, gx: usize, gz: usize) -> (r: Option<GridRoute>)
        requires
            self.wf(),
            sx < self.size(),
            sz < self.size(),
            gx < self.size(),
            gz < self.size(),
        ensures
            ({
                let s = self.cell(sx as int, sz as int);
                let t = self.cell(gx as int, gz as int);
                if s == t && self.passable(t) {
                    r matches Some(route) && route.cells@ == seq![t as usize] && !route.append_goal
                } else {
                    match (self.projected(gx as int, gz as int), self.projected(sx as int, sz as int)) {
                        (Some(tp), Some(sp)) => {
                            &&& r matches Some(route) ==> {
                                &&& route.append_goal == (tp == t)
                                &&& self.smoothed_route(route.cells@, sp, tp)
                                &&& self.shortest_route(route.cells@, sp, tp)
                            }
                            &&& r is None ==> (self.step_costs_bounded() ==> forall|q: Seq<usize>|
                                #[trigger] self.is_step_chain(q, sp, tp) ==> 9 * self.focus_set(
                                    sp,
                                    tp,
                                    self.chain_cost(q),
                                ).len() > ASTAR_NODE_LIMIT)
                        },
                        _ => r is None,
                    }
                }
            }),
    {
        self.find_path_counted(sx, sz, gx, gz).0
    }
}

/// The move tried at position `k` of the search's order.
fn direction(k: usize) -> (r: (i32, i32))
    requires
        k < 8,
    ensures
        r.0 == crate::nav_search::dir_dx(k as int),
        r.1 == crate::nav_search::dir_dz(k as int),
{
    let dz: i32 = if k < 3 {
        -1
    } else if k < 5 {
        0
    } else {
        1
    };
    let dx: i32 = if k == 0 || k == 3 || k == 5 {
        -1
    } else if k == 1 || k == 6 {
        0
    } else {
        1
    };
    (dx, dz)
}

impl NavGrid {
    /// A leg of a smoothed route: a single allowed move, or a straight walk
    /// in line of sight.
    pub open spec fn route_leg(&self, a: int, b: int) -> bool {
        self.is_step(a, b) || self.los_cells(a, b)
    }

    proof fn lemma_smooth_from_legs(&self, p: Seq<usize>, a: int)
        requires
            p.len() >= 2,
            0 <= a < p.len() - 1,
            forall|k: int| 0 <= k < p.len() - 1 ==> #[trigger] self.is_step(p[k] as int, p[k + 1] as int),
        ensures
            ({
                let c = self.smooth_from(p, a);
                &&& c.len() >= 1
                &&& c[c.len() - 1] == p[p.len() - 1]
                &&& self.route_leg(p[a] as int, c[0] as int)
                &&& forall|k: int| 0 <= k < c.len() - 1 ==> #[trigger] self.route_leg(c[k] as int, c[k + 1] as int)
            }),
        decreases p.len() - a,
    {
        let f = self.farthest_visible(p, a, p.len() - 1);
        self.lemma_farthest_visible_bounds(p, a, p.len() - 1);
        let c = self.smooth_from(p, a);
        assert(c == seq![p[f]] + self.smooth_from(p, f));
        if f == a + 1 {
            assert(self.is_step(p[a] as int, p[a + 1] as int));
        }
        if f < p.len() - 1 {
            self.lemma_smooth_from_legs(p, f);
            let rest = self.smooth_from(p, f);
            assert forall|k: int| 0 <= k < c.len() - 1 implies #[trigger] self.route_leg(c[k] as int, c[k + 1] as int) by {
                if k > 0 {
                    assert(c[k] == rest[k - 1]);
                    assert(c[k + 1] == rest[(k - 1) + 1]);
                }
            }
        } else {
            assert(self.smooth_from(p, f) =~= Seq::<usize>::empty());
        }
    }

    /// Law: the smoothing of a chain of allowed moves from `s` to `t` starts
    /// at `s`, ends at `t`, and each of its legs is a single allowed move or
    /// a straight walk in line of sight.
    pub proof fn lemma_smoothed_route_legs(&self, p: Seq<usize>, s: int, t: int)
        requires
            self.is_step_chain(p, s, t),
        ensures
            ({
                let c = self.smoothed(p);
                &&& c.len() >= 1
                &&& c[0] == s
                &&& c[c.len() - 1] == t
                &&& forall|k: int| 0 <= k < c.len() - 1 ==> #[trigger] self.route_leg(c[k] as int, c[k + 1] as int)
            }),
    {
        let c = self.smoothed(p);
        if p.len() > 2 {
            self.lemma_smooth_from_legs(p, 0);
            let rest = self.smooth_from(p, 0);
            assert forall|k: int| 0 <= k < c.len() - 1 implies #[trigger] self.route_leg(c[k] as int, c[k + 1] as int) by {
                if k > 0 {
                    assert(c[k] == rest[k - 1]);
                    assert(c[k + 1] == rest[(k - 1) + 1]);
                }
            }
        } else {
            assert forall|k: int| 0 <= k < c.len() - 1 implies #[trigger] self.route_leg(c[k] as int, c[k + 1] as int) by {
                assert(self.is_step(p[k] as int, p[k + 1] as int));
            }
        }
    }

    /// Law: every route the search returns starts at the start cell (or its
    /// nearest passable cell), ends at the goal cell (or its nearest passable
    /// cell), and each leg is a single allowed move or a walk in line of sight.
    pub proof fn lemma_route_endpoints(&self, cells: Seq<usize>, s: int, t: int)
        requires
            self.smoothed_route(cells, s, t),
        ensures
            cells.len() >= 1,
            cells[0] == s,
            cells[cells.len() - 1] == t,
            forall|k: int| 0 <= k < cells.len() - 1 ==> #[trigger] self.route_leg(cells[k] as int, cells[k + 1] as int),
    {
        let p = choose|p: Seq<usize>| self.is_step_chain(p, s, t) && cells == self.smoothed(p);
        self.lemma_smoothed_route_legs(p, s, t);
    }

    /// A short move may skip the search when both endpoints are passable and
    /// the straight line between them is in line of sight.
    pub fn is_direct_path_walkable(&self, sx: usize, sz: usize, gx: usize, gz: usize) -> (r: bool)
        requires
            self.wf(),
            sx < self.size(),
            sz < self.size(),
            gx < self.size(),
            gz < self.size(),
        ensures
            r == (self.passable_at(sx as int, sz as int) && self.passable_at(gx as int, gz as int)
                && self.los(sx as int, sz as int, gx as int, gz as int)),
    {
        let s = self.index(sx, sz);
        let g = self.index(gx, gz);
        if self.costs[s] == 0 || self.costs[g] == 0 {
            return false;
        }
        self.line_of_sight(sx, sz, gx, gz)
    }
}

/// `v + 1`, wrapping at `u64::MAX` to 1 (0 is never produced).
pub open spec fn next_nonzero(v: u64) -> u64 {
    if v == u64::MAX { 1 } else if v + 1 == 0 { 1 } else { (v + 1) as u64 }
}

/// Wrapping increment that skips 0.
pub fn advance_nonzero(v: u64) -> (r: u64)
    ensures
        r == next_nonzero(v),
        r != 0,
{
    let w = v.wrapping_add(1);
    if w > 1 { w } else { 1 }
}

/// Issues path request ids: 1, 2, 3, ..., wrapping past `u64::MAX` back to 1.
pub struct PathRequestIds {
    next: u64,
}

impl PathRequestIds {
    pub closed spec fn last_issued(&self) -> u64 {
        self.next
    }

    pub fn new() -> (r: Self)
        ensures
            r.last_issued() == 0,
    {
        PathRequestIds { next: 0 }
    }

    pub fn next_id(&mut self) -> (id: u64)
        ensures
            id == next_nonzero(old(self).last_issued()),
            id != 0,
            final(self).last_issued() == id,
    {
        self.next = advance_nonzero(self.next);
        self.next
    }
}

/// Octile heuristic between two cells.
pub fn octile_heuristic(ax: usize, az: usize, bx: usize, bz: usize) -> (r: u32)
    requires
        ax < MAX_GRID_SIZE,
        az < MAX_GRID_SIZE,
        bx < MAX_GRID_SIZE,
        bz < MAX_GRID_SIZE,
    ensures
        r == octile(ax as int, az as int, bx as int, bz as int),
{
    let dx: u32 = if ax >= bx { (ax - bx) as u32 } else { (bx - ax) as u32 };
    let dz: u32 = if az >= bz { (az - bz) as u32 } else { (bz - az) as u32 };
    let diag: u32 = if dx <= dz { dx } else { dz };
    let straight: u32 = if dx >= dz { dx - diag } else { dz - diag };
    diag * 1414 + straight * 1000
}

} // verus!
