//! What a failed grid search says about the grid: the cells reachable by
//! allowed moves, the cost of a move, and the facts from which it follows
//! that a search that ran out of cells to expand could not reach its goal.
use vstd::prelude::*;
use vstd::multiset::Multiset;
use crate::nav_grid::{abs_int, octile, NavGrid};

verus! {

/// Base cost of a move by `(dx, dz)`: 1414 diagonally, 1000 straight.
pub open spec fn base_cost(dx: int, dz: int) -> int {
    if dx != 0 && dz != 0 {
        1414
    } else {
        1000
    }
}

/// `v`, or `u32::MAX` when it does not fit below it.
pub open spec fn sat_u32(v: int) -> int {
    if v >= u32::MAX {
        u32::MAX as int
    } else {
        v
    }
}

/// Cells with a known cost (a cost below `u32::MAX`).
pub open spec fn discovered(g: Seq<u32>) -> Set<int> {
    Set::new(|n: int| 0 <= n < g.len() && g[n] != u32::MAX)
}

impl NavGrid {
    /// Cost of the move from cell `a` to cell `b`: the base cost, ten times
    /// the target cell's cost, and the slope penalty of the edge.
    pub open spec fn step_cost(&self, a: int, b: int) -> int {
        let dx = self.cell_x(b) - self.cell_x(a);
        let dz = self.cell_z(b) - self.cell_z(a);
        base_cost(dx, dz) + self.cost_seq()[b] * 10 + self.slope_penalty(a, dx, dz)
    }

    /// Octile distance from cell `n` to cell `goal`.
    pub open spec fn h_to(&self, n: int, goal: int) -> int {
        octile(self.cell_x(n), self.cell_z(n), self.cell_x(goal), self.cell_z(goal))
    }

    /// Cell `t` can be reached from cell `s` by allowed moves.
    pub open spec fn reachable(&self, s: int, t: int) -> bool {
        exists|p: Seq<usize>| #[trigger] self.is_step_chain(p, s, t)
    }

    /// Largest move cost for which no sum of `total() + 1` moves reaches
    /// `u32::MAX`.
    pub open spec fn edge_budget(&self) -> int {
        (u32::MAX - 1) as int / (self.total() + 1)
    }

    /// Every move is cheap enough that path costs never reach `u32::MAX`:
    /// the worst base and cell cost (3964) plus any slope penalty stays
    /// within `edge_budget`.
    pub open spec fn step_costs_bounded(&self) -> bool {
        forall|k: int| 0 <= k < self.penalty_seq().len() ==> 3964 + #[trigger] self.penalty_seq()[k] <= self.edge_budget()
    }
}

/// The octile distance to a goal drops by at most the base cost of one move.
pub proof fn lemma_octile_consistent(ax: int, az: int, bx: int, bz: int, gx: int, gz: int)
    requires
        abs_int(ax - bx) <= 1,
        abs_int(az - bz) <= 1,
        !(ax == bx && az == bz),
    ensures
        octile(ax, az, gx, gz) <= base_cost(bx - ax, bz - az) + octile(bx, bz, gx, gz),
{
}

impl NavGrid {
    pub proof fn lemma_step_facts(&self, a: int, b: int)
        requires
            self.wf(),
            self.is_step(a, b),
        ensures
            0 <= a < self.total(),
            0 <= b < self.total(),
            abs_int(self.cell_x(b) - self.cell_x(a)) <= 1,
            abs_int(self.cell_z(b) - self.cell_z(a)) <= 1,
            !(self.cell_x(b) == self.cell_x(a) && self.cell_z(b) == self.cell_z(a)),
            self.cost_seq()[b] > 0,
            base_cost(self.cell_x(b) - self.cell_x(a), self.cell_z(b) - self.cell_z(a)) <= self.step_cost(a, b),
            self.step_cost(a, b) <= 3964 + self.slope_penalty(
                a,
                self.cell_x(b) - self.cell_x(a),
                self.cell_z(b) - self.cell_z(a),
            ),
            self.step_costs_bounded() ==> self.step_cost(a, b) <= self.edge_budget(),
    {
        reveal(NavGrid::is_step);
        let gs = self.size();
        crate::nav_grid::lemma_index_coords(gs, a);
        crate::nav_grid::lemma_index_coords(gs, b);
        let dx = self.cell_x(b) - self.cell_x(a);
        let dz = self.cell_z(b) - self.cell_z(a);
        crate::nav_grid::lemma_cell_index(gs, self.cell_x(b), self.cell_z(b));
        assert(self.cell(self.cell_x(a) + dx, self.cell_z(a) + dz) == b);
        let k = a * 9 + crate::nav_grid::neighbor_slot(dx, dz);
        assert(0 <= k < self.penalty_seq().len());
        if self.step_costs_bounded() {
            assert(3964 + self.penalty_seq()[k] <= self.edge_budget());
        }
    }

    /// The heuristic is consistent: along a move it drops by at most the
    /// move's cost.
    pub proof fn lemma_h_consistent(&self, m: int, n: int, goal: int)
        requires
            self.wf(),
            self.is_step(m, n),
        ensures
            self.h_to(m, goal) <= self.step_cost(m, n) + self.h_to(n, goal),
    {
        self.lemma_step_facts(m, n);
        lemma_octile_consistent(
            self.cell_x(m),
            self.cell_z(m),
            self.cell_x(n),
            self.cell_z(n),
            self.cell_x(goal),
            self.cell_z(goal),
        );
    }

    pub proof fn lemma_reachable_self(&self, s: int)
        requires
            0 <= s <= usize::MAX,
        ensures
            self.reachable(s, s),
    {
        let p = seq![s as usize];
        assert(self.is_step_chain(p, s, s));
    }

    pub proof fn lemma_reachable_step(&self, s: int, m: int, n: int)
        requires
            self.wf(),
            self.total() <= usize::MAX,
            self.reachable(s, m),
            self.is_step(m, n),
        ensures
            self.reachable(s, n),
    {
        let p = choose|p: Seq<usize>| #[trigger] self.is_step_chain(p, s, m);
        self.lemma_step_facts(m, n);
        let q = p.push(n as usize);
        assert forall|k: int| 0 <= k < q.len() - 1 implies #[trigger] self.is_step(q[k] as int, q[k + 1] as int) by {
            if k < p.len() - 1 {
                assert(q[k] == p[k] && q[k + 1] == p[k + 1]);
                assert(self.is_step(p[k] as int, p[k + 1] as int));
            } else {
                assert(q[k] == p[p.len() - 1]);
                assert(q[k + 1] == n as usize);
            }
        }
        assert(self.is_step_chain(q, s, n));
    }

    /// A set of cells that holds `s` and every move out of its cells holds
    /// every cell reachable from `s`.
    pub proof fn lemma_closed_holds_reachable(&self, d: Set<int>, s: int, t: int)
        requires
            d.contains(s),
            forall|m: int, n: int| #[trigger] d.contains(m) && #[trigger] self.is_step(m, n) ==> d.contains(n),
            self.reachable(s, t),
        ensures
            d.contains(t),
    {
        let p = choose|p: Seq<usize>| #[trigger] self.is_step_chain(p, s, t);
        self.lemma_closed_holds_chain(d, p, s, t, p.len() - 1);
    }

    proof fn lemma_closed_holds_chain(&self, d: Set<int>, p: Seq<usize>, s: int, t: int, k: int)
        requires
            d.contains(s),
            forall|m: int, n: int| #[trigger] d.contains(m) && #[trigger] self.is_step(m, n) ==> d.contains(n),
            self.is_step_chain(p, s, t),
            0 <= k < p.len(),
        ensures
            d.contains(p[k] as int),
        decreases k,
    {
        if k > 0 {
            self.lemma_closed_holds_chain(d, p, s, t, k - 1);
            assert(self.is_step(p[k - 1] as int, p[(k - 1) + 1] as int));
        }
    }
}

/// Moves in the order the search tries them: row by row from `dz = -1`,
/// `dx` from -1 to 1 in each row, skipping the centre.
pub open spec fn dir_dx(k: int) -> int {
    if k == 0 || k == 3 || k == 5 {
        -1
    } else if k == 1 || k == 6 {
        0
    } else {
        1
    }
}

pub open spec fn dir_dz(k: int) -> int {
    if k < 3 {
        -1
    } else if k < 5 {
        0
    } else {
        1
    }
}

/// Position of a move in the search's order.
pub proof fn lemma_direction_index(dx: int, dz: int) -> (k: int)
    requires
        -1 <= dx <= 1,
        -1 <= dz <= 1,
        !(dx == 0 && dz == 0),
    ensures
        0 <= k < 8,
        dir_dx(k) == dx,
        dir_dz(k) == dz,
{
    if dz == -1 {
        dx + 1
    } else if dz == 0 {
        if dx == -1 { 3 } else { 4 }
    } else {
        dx + 6
    }
}

impl NavGrid {
    /// The cell the move by `(dx, dz)` from cell `cur` leads to, when it is
    /// an allowed move.
    pub open spec fn move_target(&self, cur: int, dx: int, dz: int) -> Option<int> {
        if self.step_allowed(self.cell_x(cur), self.cell_z(cur), dx, dz) {
            Some(self.cell(self.cell_x(cur) + dx, self.cell_z(cur) + dz))
        } else {
            None
        }
    }

    /// Costs, predecessors and open entries after relaxing the move by
    /// `(dx, dz)` out of `cur`: a cheaper way to the target lowers its cost,
    /// records `cur` as its predecessor and opens it again.
    pub open spec fn relaxed(
        &self,
        g: Seq<u32>,
        cf: Seq<usize>,
        open: Multiset<(u64, usize)>,
        cur: int,
        dx: int,
        dz: int,
        goal: int,
    ) -> (Seq<u32>, Seq<usize>, Multiset<(u64, usize)>) {
        match self.move_target(cur, dx, dz) {
            None => (g, cf, open),
            Some(ni) => {
                let t = sat_u32(g[cur] + self.step_cost(cur, ni));
                if t < g[ni] {
                    (
                        g.update(ni, t as u32),
                        cf.update(ni, cur as usize),
                        open.insert(((t + self.h_to(ni, goal)) as u64, ni as usize)),
                    )
                } else {
                    (g, cf, open)
                }
            },
        }
    }

    pub proof fn lemma_move_target_step(&self, cur: int, dx: int, dz: int)
        requires
            self.wf(),
            0 <= cur < self.total(),
            self.move_target(cur, dx, dz) is Some,
        ensures
            ({
                let ni = self.move_target(cur, dx, dz).unwrap();
                &&& self.is_step(cur, ni)
                &&& 0 <= ni < self.total()
                &&& self.cell_x(ni) - self.cell_x(cur) == dx
                &&& self.cell_z(ni) - self.cell_z(cur) == dz
            }),
    {
        reveal(NavGrid::is_step);
        let gs = self.size();
        crate::nav_grid::lemma_index_coords(gs, cur);
        let nx = self.cell_x(cur) + dx;
        let nz = self.cell_z(cur) + dz;
        crate::nav_grid::lemma_cell_index(gs, nx, nz);
    }

    /// A move allowed from `m` to `n` is the move by their coordinate
    /// difference.
    pub proof fn lemma_step_is_move(&self, m: int, n: int)
        requires
            self.wf(),
            self.is_step(m, n),
        ensures
            self.move_target(m, self.cell_x(n) - self.cell_x(m), self.cell_z(n) - self.cell_z(m)) == Some(n),
    {
        reveal(NavGrid::is_step);
        let gs = self.size();
        crate::nav_grid::lemma_index_coords(gs, m);
        crate::nav_grid::lemma_index_coords(gs, n);
    }

    /// Bookkeeping of a search from `start` towards `goal`, after `pops`
    /// entries were taken from the open set and `pushes` put into it:
    /// every open entry's priority is at least the last one taken (`flast`)
    /// and at least its cell's cost plus heuristic; every cell with a known
    /// cost that was not expanded at that cost is open at it; expanded
    /// cells (`fresh`) keep their cost, are not the goal, and every move out
    /// of them has been relaxed; each expansion opened at most eight
    /// entries; cells with a known cost are reachable from `start`; and,
    /// when moves are cheap enough, known costs stay below `u32::MAX`.
    pub open spec fn astar_ok(
        &self,
        g: Seq<u32>,
        open: Multiset<(u64, usize)>,
        fresh: Set<int>,
        flast: int,
        start: int,
        goal: int,
        pushes: int,
        pops: int,
    ) -> bool {
        &&& forall|e: (u64, usize)|
            #[trigger] open.contains(e) ==> (e.1 as int) < self.total() && flast <= e.0 && g[e.1 as int] + self.h_to(
                e.1 as int,
                goal,
            ) <= e.0
        &&& forall|m: int|
            0 <= m < self.total() && #[trigger] g[m] != u32::MAX && !fresh.contains(m) ==> open.contains(
                ((g[m] + self.h_to(m, goal)) as u64, m as usize),
            )
        &&& forall|m: int|
            #[trigger] fresh.contains(m) ==> 0 <= m < self.total() && g[m] != u32::MAX && g[m] + self.h_to(m, goal)
                <= flast && m != goal
        &&& forall|m: int, n: int|
            #[trigger] fresh.contains(m) && #[trigger] self.is_step(m, n) ==> g[n] <= sat_u32(g[m] + self.step_cost(m, n))
        &&& fresh.finite()
        &&& open.len() + pops == pushes
        &&& pushes <= 1 + 8 * fresh.len()
        &&& forall|n: int| 0 <= n < self.total() && #[trigger] g[n] != u32::MAX ==> self.reachable(start, n)
        &&& self.step_costs_bounded() ==> forall|n: int|
            0 <= n < self.total() && #[trigger] g[n] != u32::MAX ==> g[n] <= discovered(g).len() * self.edge_budget()
    }
}

proof fn lemma_discovered_finite(g: Seq<u32>)
    ensures
        discovered(g).finite(),
        discovered(g).len() <= g.len(),
{
    let range = vstd::set_lib::set_int_range(0, g.len() as int);
    vstd::set_lib::lemma_int_range(0, g.len() as int);
    assert(discovered(g).subset_of(range));
    vstd::set_lib::lemma_len_subset(discovered(g), range);
}

impl NavGrid {
    /// The search state while the moves out of cell `m` (taken from the
    /// open set with priority `f0`, at cost `gm`) are relaxed one by one:
    /// the first `k` moves are done. `is_new` says whether `m` is expanded
    /// for the first time; only then may entries be opened.
    pub open spec fn expand_ok(
        &self,
        g: Seq<u32>,
        open: Multiset<(u64, usize)>,
        fresh: Set<int>,
        f0: int,
        m: int,
        gm: int,
        is_new: bool,
        k: int,
        start: int,
        goal: int,
        pushes: int,
        pops: int,
        p0: int,
    ) -> bool {
        &&& forall|e: (u64, usize)|
            #[trigger] open.contains(e) ==> (e.1 as int) < self.total() && f0 <= e.0 && g[e.1 as int] + self.h_to(
                e.1 as int,
                goal,
            ) <= e.0
        &&& forall|m2: int|
            0 <= m2 < self.total() && #[trigger] g[m2] != u32::MAX && !fresh.contains(m2) && m2 != m ==> open.contains(
                ((g[m2] + self.h_to(m2, goal)) as u64, m2 as usize),
            )
        &&& forall|m2: int|
            #[trigger] fresh.contains(m2) ==> 0 <= m2 < self.total() && g[m2] != u32::MAX && g[m2] + self.h_to(m2, goal)
                <= f0 && m2 != goal
        &&& forall|m2: int, n: int|
            #[trigger] fresh.contains(m2) && #[trigger] self.is_step(m2, n) ==> g[n] <= sat_u32(g[m2] + self.step_cost(m2, n))
        &&& fresh.finite()
        &&& open.len() + pops == pushes
        &&& p0 <= 1 + 8 * fresh.len()
        &&& pushes <= p0 + (if is_new { k } else { 0 })
        &&& forall|n: int| 0 <= n < self.total() && #[trigger] g[n] != u32::MAX ==> self.reachable(start, n)
        &&& self.step_costs_bounded() ==> forall|n: int|
            0 <= n < self.total() && #[trigger] g[n] != u32::MAX ==> g[n] <= discovered(g).len() * self.edge_budget()
        &&& 0 <= m < self.total()
        &&& g[m] == gm
        &&& gm != u32::MAX
        &&& m != goal
        &&& is_new == !fresh.contains(m)
        &&& is_new ==> gm + self.h_to(m, goal) == f0
        &&& 0 <= k <= 8
        &&& forall|j: int|
            0 <= j < k && #[trigger] self.move_target(m, dir_dx(j), dir_dz(j)) is Some ==> g[self.move_target(
                m,
                dir_dx(j),
                dir_dz(j),
            ).unwrap()] <= sat_u32(gm + self.step_cost(m, self.move_target(m, dir_dx(j), dir_dz(j)).unwrap()))
    }

    /// The state right after the search started.
    pub proof fn lemma_astar_start(&self, g: Seq<u32>, open: Multiset<(u64, usize)>, start: int, goal: int)
        requires
            self.wf(),
            self.total() <= usize::MAX,
            0 <= start < self.total(),
            0 <= goal < self.total(),
            g.len() == self.total(),
            forall|n: int| 0 <= n < self.total() && n != start ==> g[n] == u32::MAX,
            g[start] == 0,
            open == Multiset::<(u64, usize)>::empty().insert((self.h_to(start, goal) as u64, start as usize)),
            0 <= self.h_to(start, goal) < u32::MAX,
        ensures
            self.astar_ok(g, open, Set::empty(), 0, start, goal, 1, 0),
    {
        broadcast use vstd::multiset::group_multiset_axioms;
        self.lemma_reachable_self(start);
        assert(discovered(g) =~= Set::empty().insert(start));
        assert(forall|n: int| 0 <= n < self.total() && #[trigger] g[n] != u32::MAX ==> n == start);
        assert forall|e: (u64, usize)| #[trigger] open.contains(e) implies (e.1 as int) < self.total() && 0 <= e.0 && g[
            e.1 as int] + self.h_to(e.1 as int, goal) <= e.0 by {
            assert(e == (self.h_to(start, goal) as u64, start as usize));
        }
    }

    proof fn lemma_h_bounds(&self, n: int, goal: int)
        requires
            self.wf(),
            0 <= n < self.total(),
            0 <= goal < self.total(),
        ensures
            0 <= self.h_to(n, goal) < 0x1_0000_0000,
    {
        let gs = self.size();
        crate::nav_grid::lemma_index_coords(gs, n);
        crate::nav_grid::lemma_index_coords(gs, goal);
    }

    /// Taking the smallest entry `e` (not the goal) from the open set
    /// starts the expansion of its cell.
    pub proof fn lemma_after_pop(
        &self,
        g: Seq<u32>,
        open0: Multiset<(u64, usize)>,
        open1: Multiset<(u64, usize)>,
        e: (u64, usize),
        fresh: Set<int>,
        flast: int,
        start: int,
        goal: int,
        pushes: int,
        pops: int,
    )
        requires
            self.wf(),
            g.len() == self.total(),
            0 <= goal < self.total(),
            self.astar_ok(g, open0, fresh, flast, start, goal, pushes, pops),
            open0.contains(e),
            e.1 < self.total(),
            g[e.1 as int] != u32::MAX,
            open1 == open0.remove(e),
            forall|x: (u64, usize)| open0.contains(x) ==> crate::open_set::entry_le(e, x),
            e.1 != goal,
        ensures
            flast <= e.0,
            self.expand_ok(
                g,
                open1,
                fresh,
                e.0 as int,
                e.1 as int,
                g[e.1 as int] as int,
                !fresh.contains(e.1 as int),
                0,
                start,
                goal,
                pushes,
                pops + 1,
                pushes,
            ),
    {
        broadcast use vstd::multiset::group_multiset_axioms;
        let m = e.1 as int;
        assert forall|x: (u64, usize)| #[trigger] open1.contains(x) implies (x.1 as int) < self.total() && e.0 <= x.0 && g[
            x.1 as int] + self.h_to(x.1 as int, goal) <= x.0 by {
            assert(open0.contains(x));
            assert(crate::open_set::entry_le(e, x));
        }
        assert forall|m2: int|
            0 <= m2 < self.total() && #[trigger] g[m2] != u32::MAX && !fresh.contains(m2) && m2 != m implies open1.contains(
            ((g[m2] + self.h_to(m2, goal)) as u64, m2 as usize),
        ) by {
            let x = ((g[m2] + self.h_to(m2, goal)) as u64, m2 as usize);
            assert(open0.contains(x));
            assert(x != e);
        }
        if !fresh.contains(m) {
            let x = ((g[m] + self.h_to(m, goal)) as u64, m as usize);
            assert(open0.contains(x));
            assert(crate::open_set::entry_le(e, x));
            self.lemma_h_bounds(m, goal);
        }
    }
}

impl NavGrid {
    /// Relaxing the next move keeps the expansion state: a new entry is
    /// opened only on a first expansion, never for an expanded cell, never
    /// below the priority just taken, and only for a cell reachable from the
    /// start.
    #[verifier::rlimit(40)]
    pub proof fn lemma_after_relax(
        &self,
        g0: Seq<u32>,
        cf0: Seq<usize>,
        open0: Multiset<(u64, usize)>,
        g1: Seq<u32>,
        cf1: Seq<usize>,
        open1: Multiset<(u64, usize)>,
        fresh: Set<int>,
        f0: int,
        m: int,
        gm: int,
        is_new: bool,
        k: int,
        start: int,
        goal: int,
        pushes0: int,
        pops: int,
        p0: int,
    )
        requires
            self.wf(),
            self.total() <= usize::MAX,
            g0.len() == self.total(),
            0 <= goal < self.total(),
            self.expand_ok(g0, open0, fresh, f0, m, gm, is_new, k, start, goal, pushes0, pops, p0),
            0 <= k < 8,
            (g1, cf1, open1) == self.relaxed(g0, cf0, open0, m, dir_dx(k), dir_dz(k), goal),
        ensures
            self.expand_ok(
                g1,
                open1,
                fresh,
                f0,
                m,
                gm,
                is_new,
                k + 1,
                start,
                goal,
                pushes0 + (open1.len() - open0.len()),
                pops,
                p0,
            ),
    {
        broadcast use vstd::multiset::group_multiset_axioms;
        let dx = dir_dx(k);
        let dz = dir_dz(k);
        match self.move_target(m, dx, dz) {
            None => {
                assert(g1 == g0 && open1 == open0);
                assert forall|j: int|
                    0 <= j < k + 1 && #[trigger] self.move_target(m, dir_dx(j), dir_dz(j)) is Some implies g1[self.move_target(
                    m,
                    dir_dx(j),
                    dir_dz(j),
                ).unwrap()] <= sat_u32(gm + self.step_cost(m, self.move_target(m, dir_dx(j), dir_dz(j)).unwrap())) by {
                    if j == k {
                        assert(false);
                    }
                }
            },
            Some(ni) => {
                self.lemma_move_target_step(m, dx, dz);
                let c = self.step_cost(m, ni);
                let t = sat_u32(gm + c);
                assert(ni != m);
                if t < g0[ni] {
                    self.lemma_h_consistent(m, ni, goal);
                    self.lemma_h_bounds(ni, goal);
                    self.lemma_step_facts(m, ni);
                    if !is_new {
                        assert(fresh.contains(m) && self.is_step(m, ni));
                        assert(false);
                    }
                    if fresh.contains(ni) {
                        assert(g0[ni] + self.h_to(ni, goal) <= f0);
                        assert(false);
                    }
                    assert(t == gm + c);
                    assert(g1[ni] == t);
                    let x = ((t + self.h_to(ni, goal)) as u64, ni as usize);
                    assert(g1 == g0.update(ni, t as u32));
                    assert(open1 == open0.insert(x));
                    assert(x.0 == t + self.h_to(ni, goal));
                    self.lemma_reachable_step(start, m, ni);
                    assert forall|e: (u64, usize)| #[trigger] open1.contains(e) implies (e.1 as int) < self.total() && f0 <= e.0
                        && g1[e.1 as int] + self.h_to(e.1 as int, goal) <= e.0 by {
                        if e != x {
                            assert(open0.contains(e));
                            if e.1 as int != ni {
                                assert(g1[e.1 as int] == g0[e.1 as int]);
                            }
                        }
                    }
                    assert forall|m2: int|
                        0 <= m2 < self.total() && #[trigger] g1[m2] != u32::MAX && !fresh.contains(m2) && m2 != m implies open1.contains(
                        ((g1[m2] + self.h_to(m2, goal)) as u64, m2 as usize),
                    ) by {
                        if m2 != ni {
                            assert(g1[m2] == g0[m2]);
                            assert(open0.contains(((g0[m2] + self.h_to(m2, goal)) as u64, m2 as usize)));
                        }
                    }
                    assert forall|m2: int| #[trigger] fresh.contains(m2) implies 0 <= m2 < self.total() && g1[m2] != u32::MAX
                        && g1[m2] + self.h_to(m2, goal) <= f0 && m2 != goal by {
                        assert(m2 != ni);
                        assert(g1[m2] == g0[m2]);
                    }
                    assert forall|m2: int, n: int| #[trigger] fresh.contains(m2) && #[trigger] self.is_step(m2, n) implies g1[n]
                        <= sat_u32(g1[m2] + self.step_cost(m2, n)) by {
                        assert(m2 != ni);
                        assert(g1[m2] == g0[m2]);
                        self.lemma_step_facts(m2, n);
                        assert(g0[n] <= sat_u32(g0[m2] + self.step_cost(m2, n)));
                        if n != ni {
                            assert(g1[n] == g0[n]);
                        }
                    }
                    assert forall|n: int| 0 <= n < self.total() && #[trigger] g1[n] != u32::MAX implies self.reachable(start, n) by {
                        if n != ni {
                            assert(g1[n] == g0[n]);
                        }
                    }
                    if self.step_costs_bounded() {
                        lemma_discovered_finite(g0);
                        lemma_discovered_finite(g1);
                        let e_b = self.edge_budget();
                        let d0 = discovered(g0).len();
                        let d1 = discovered(g1).len();
                        assert(gm <= d0 * e_b);
                        if g0[ni] == u32::MAX {
                            assert(discovered(g1) =~= discovered(g0).insert(ni));
                            assert(!discovered(g0).contains(ni));
                            assert(d1 == d0 + 1);
                        } else {
                            assert(discovered(g1) =~= discovered(g0));
                        }
                        assert(d0 <= d1);
                        assert(0 <= e_b);
                        assert(d0 * e_b <= d1 * e_b) by (nonlinear_arith)
                            requires
                                d0 <= d1,
                                0 <= e_b,
                        ;
                        assert((d0 + 1) * e_b == d0 * e_b + e_b) by (nonlinear_arith);
                        assert forall|n: int| 0 <= n < self.total() && #[trigger] g1[n] != u32::MAX implies g1[n] <= d1 * e_b by {
                            if n != ni {
                                assert(g1[n] == g0[n]);
                                assert(g0[n] <= d0 * e_b);
                            }
                        }
                    }
                    assert forall|j: int|
                        0 <= j < k + 1 && #[trigger] self.move_target(m, dir_dx(j), dir_dz(j)) is Some implies g1[self.move_target(
                        m,
                        dir_dx(j),
                        dir_dz(j),
                    ).unwrap()] <= sat_u32(gm + self.step_cost(m, self.move_target(m, dir_dx(j), dir_dz(j)).unwrap())) by {
                        let tj = self.move_target(m, dir_dx(j), dir_dz(j)).unwrap();
                        self.lemma_move_target_step(m, dir_dx(j), dir_dz(j));
                        if j < k && tj != ni {
                            assert(g1[tj] == g0[tj]);
                        }
                    }
                } else {
                    assert(g1 == g0 && open1 == open0);
                    assert forall|j: int|
                        0 <= j < k + 1 && #[trigger] self.move_target(m, dir_dx(j), dir_dz(j)) is Some implies g1[self.move_target(
                        m,
                        dir_dx(j),
                        dir_dz(j),
                    ).unwrap()] <= sat_u32(gm + self.step_cost(m, self.move_target(m, dir_dx(j), dir_dz(j)).unwrap())) by {
                    }
                }
            },
        }
    }
}

impl NavGrid {
    /// Once every move out of `m` is relaxed, `m` counts as expanded.
    pub proof fn lemma_after_expand(
        &self,
        g: Seq<u32>,
        open: Multiset<(u64, usize)>,
        fresh: Set<int>,
        f0: int,
        m: int,
        gm: int,
        is_new: bool,
        start: int,
        goal: int,
        pushes: int,
        pops: int,
        p0: int,
    )
        requires
            self.wf(),
            self.total() <= usize::MAX,
            g.len() == self.total(),
            0 <= goal < self.total(),
            self.expand_ok(g, open, fresh, f0, m, gm, is_new, 8, start, goal, pushes, pops, p0),
        ensures
            self.astar_ok(g, open, if is_new { fresh.insert(m) } else { fresh }, f0, start, goal, pushes, pops),
    {
        let fr = if is_new { fresh.insert(m) } else { fresh };
        assert forall|m2: int, n: int| #[trigger] fr.contains(m2) && #[trigger] self.is_step(m2, n) implies g[n] <= sat_u32(
            g[m2] + self.step_cost(m2, n),
        ) by {
            if !fresh.contains(m2) {
                assert(m2 == m);
                self.lemma_step_facts(m, n);
                self.lemma_step_is_move(m, n);
                let j = lemma_direction_index(self.cell_x(n) - self.cell_x(m), self.cell_z(n) - self.cell_z(m));
                assert(self.move_target(m, dir_dx(j), dir_dz(j)) == Some(n));
            }
        }
        if is_new {
            assert(!fresh.contains(m));
            assert(fr.len() == fresh.len() + 1);
        }
    }

    /// A search that ran out of open entries on a grid of bounded move
    /// costs never had a way to the goal.
    pub proof fn lemma_search_exhausted(
        &self,
        g: Seq<u32>,
        open: Multiset<(u64, usize)>,
        fresh: Set<int>,
        flast: int,
        start: int,
        goal: int,
        pushes: int,
        pops: int,
    )
        requires
            self.wf(),
            self.total() <= usize::MAX,
            g.len() == self.total(),
            0 <= start < self.total(),
            0 <= goal < self.total(),
            self.astar_ok(g, open, fresh, flast, start, goal, pushes, pops),
            open.len() == 0,
            g[start] != u32::MAX,
            self.step_costs_bounded(),
        ensures
            !self.reachable(start, goal),
    {
        broadcast use vstd::multiset::group_multiset_axioms;
        let d = discovered(g);
        lemma_discovered_finite(g);
        let total = self.total();
        let e_b = self.edge_budget();
        let dl = d.len() as int;
        vstd::arithmetic::div_mod::lemma_fundamental_div_mod((u32::MAX - 1) as int, total + 1);
        assert(e_b * (total + 1) <= u32::MAX - 1) by {
            vstd::arithmetic::div_mod::lemma_mod_pos_bound((u32::MAX - 1) as int, total + 1);
            vstd::arithmetic::mul::lemma_mul_is_commutative(e_b, total + 1);
        }
        assert(0 <= e_b) by {
            vstd::arithmetic::div_mod::lemma_div_pos_is_pos((u32::MAX - 1) as int, total + 1);
        }
        assert(dl * e_b <= total * e_b) by (nonlinear_arith)
            requires
                dl <= total,
                0 <= e_b,
        ;
        assert((total + 1) * e_b == total * e_b + e_b) by (nonlinear_arith);
        assert forall|x: int| d.contains(x) implies fresh.contains(x) by {
            if !fresh.contains(x) {
                assert(open.contains(((g[x] + self.h_to(x, goal)) as u64, x as usize)));
            }
        }
        assert forall|a: int, b: int| #[trigger] d.contains(a) && #[trigger] self.is_step(a, b) implies d.contains(b) by {
            self.lemma_step_facts(a, b);
            assert(fresh.contains(a));
            assert(g[a] <= dl * e_b);
            assert(g[b] <= sat_u32(g[a] + self.step_cost(a, b)));
        }
        if self.reachable(start, goal) {
            self.lemma_closed_holds_reachable(d, start, goal);
            assert(fresh.contains(goal));
        }
    }
}

impl NavGrid {
    /// A chain's cost splits at any of its cells.
    pub proof fn lemma_chain_cost_split(&self, p: Seq<usize>, i: int)
        requires
            0 <= i < p.len(),
        ensures
            self.chain_cost(p) == self.chain_cost(p.take(i + 1)) + self.chain_cost(p.skip(i)),
        decreases p.len(),
    {
        if i == p.len() - 1 {
            assert(p.take(i + 1) =~= p);
            assert(p.skip(i).len() == 1);
        } else {
            let q = p.drop_last();
            self.lemma_chain_cost_split(q, i);
            assert(q.take(i + 1) =~= p.take(i + 1));
            let r = p.skip(i);
            assert(r.drop_last() =~= q.skip(i));
            assert(r[r.len() - 2] == p[p.len() - 2]);
            assert(r[r.len() - 1] == p[p.len() - 1]);
        }
    }

    /// Chain costs are never negative.
    pub proof fn lemma_chain_cost_nonneg(&self, p: Seq<usize>)
        requires
            self.wf(),
            forall|k: int| 0 <= k < p.len() - 1 ==> #[trigger] self.is_step(p[k] as int, p[k + 1] as int),
        ensures
            self.chain_cost(p) >= 0,
        decreases p.len(),
    {
        if p.len() > 1 {
            let q = p.drop_last();
            assert forall|k: int| 0 <= k < q.len() - 1 implies #[trigger] self.is_step(q[k] as int, q[k + 1] as int) by {
                assert(self.is_step(p[k] as int, p[k + 1] as int));
            }
            self.lemma_chain_cost_nonneg(q);
            assert(self.is_step(p[p.len() - 2] as int, p[(p.len() - 2) + 1] as int));
            self.lemma_step_facts(p[p.len() - 2] as int, p[p.len() - 1] as int);
        }
    }

    /// The octile heuristic never overestimates: from the first cell of a
    /// chain to its last, it is at most the chain's cost.
    pub proof fn lemma_h_admissible(&self, p: Seq<usize>, goal: int)
        requires
            self.wf(),
            p.len() >= 1,
            p[p.len() - 1] == goal,
            forall|k: int| 0 <= k < p.len() - 1 ==> #[trigger] self.is_step(p[k] as int, p[k + 1] as int),
        ensures
            self.h_to(p[0] as int, goal) <= self.chain_cost(p),
        decreases p.len(),
    {
        if p.len() > 1 {
            let r = p.skip(1);
            assert forall|k: int| 0 <= k < r.len() - 1 implies #[trigger] self.is_step(r[k] as int, r[k + 1] as int) by {
                assert(self.is_step(p[k + 1] as int, p[(k + 1) + 1] as int));
            }
            self.lemma_h_admissible(r, goal);
            assert(r[0] == p[1]);
            self.lemma_chain_cost_split(p, 1);
            let t = p.take(2);
            assert(t.drop_last() =~= seq![p[0]]);
            assert(self.chain_cost(seq![p[0]]) == 0);
            assert(t[0] == p[0] && t[1] == p[1]);
            assert(self.chain_cost(t) == self.step_cost(p[0] as int, p[1] as int));
            assert(self.is_step(p[0] as int, p[0int + 1] as int));
            self.lemma_h_consistent(p[0] as int, p[1] as int, goal);
        } else {
            assert(p[0] == goal);
            assert(octile(self.cell_x(goal), self.cell_z(goal), self.cell_x(goal), self.cell_z(goal)) == 0);
        }
    }

    /// Along a chain from `start` whose first `j` cells were expanded, the
    /// known cost of cell `j` is at most the cost of the chain up to it.
    proof fn lemma_expanded_prefix(
        &self,
        g: Seq<u32>,
        open: Multiset<(u64, usize)>,
        fresh: Set<int>,
        flast: int,
        start: int,
        goal: int,
        pushes: int,
        pops: int,
        q: Seq<usize>,
        j: int,
    )
        requires
            self.wf(),
            self.astar_ok(g, open, fresh, flast, start, goal, pushes, pops),
            g.len() == self.total(),
            g[start] == 0,
            self.is_step_chain(q, start, goal),
            0 <= j < q.len(),
            forall|k: int| 0 <= k < j ==> fresh.contains(#[trigger] q[k] as int),
        ensures
            g[q[j] as int] <= self.chain_cost(q.take(j + 1)),
        decreases j,
    {
        if j > 0 {
            self.lemma_expanded_prefix(g, open, fresh, flast, start, goal, pushes, pops, q, j - 1);
            assert(fresh.contains(q[j - 1] as int));
            assert(self.is_step(q[j - 1] as int, q[(j - 1) + 1] as int));
            assert(q.take(j + 1).drop_last() =~= q.take(j));
        }
    }

    /// From the first cell of `q` at or after `j` that was not expanded,
    /// the goal's cost is at most the chain's cost.
    proof fn lemma_goal_cost_from(
        &self,
        g: Seq<u32>,
        open: Multiset<(u64, usize)>,
        fresh: Set<int>,
        flast: int,
        start: int,
        goal: int,
        pushes: int,
        pops: int,
        e: (u64, usize),
        q: Seq<usize>,
        j: int,
    )
        requires
            self.wf(),
            self.astar_ok(g, open, fresh, flast, start, goal, pushes, pops),
            g.len() == self.total(),
            0 <= start < self.total(),
            0 <= goal < self.total(),
            g[start] == 0,
            g[goal] != u32::MAX,
            open.contains(e),
            e.1 == goal,
            forall|x: (u64, usize)| open.contains(x) ==> crate::open_set::entry_le(e, x),
            self.is_step_chain(q, start, goal),
            0 <= j < q.len(),
            forall|k: int| 0 <= k < j ==> fresh.contains(#[trigger] q[k] as int),
        ensures
            g[goal] <= self.chain_cost(q),
        decreases q.len() - j,
    {
        let c = q[j] as int;
        if fresh.contains(c) {
            assert(c != goal);
            assert(j != q.len() - 1);
            assert forall|k: int| 0 <= k < j + 1 implies fresh.contains(#[trigger] q[k] as int) by {
                if k < j {
                    assert(fresh.contains(q[k] as int));
                }
            }
            self.lemma_goal_cost_from(g, open, fresh, flast, start, goal, pushes, pops, e, q, j + 1);
        } else {
            self.lemma_expanded_prefix(g, open, fresh, flast, start, goal, pushes, pops, q, j);
            self.lemma_chain_cost_split(q, j);
            let r = q.skip(j);
            assert forall|k: int| 0 <= k < r.len() - 1 implies #[trigger] self.is_step(r[k] as int, r[k + 1] as int) by {
                assert(self.is_step(q[j + k] as int, q[(j + k) + 1] as int));
            }
            self.lemma_chain_cost_nonneg(r);
            assert(self.h_to(goal, goal) == 0);
            assert(g[goal] + self.h_to(goal, goal) <= e.0);
            if q.len() >= 2 {
                self.lemma_step_facts_cell(q, j);
            }
            if g[c] != u32::MAX {
                self.lemma_h_admissible(r, goal);
                self.lemma_h_bounds(c, goal);
                let x = ((g[c] + self.h_to(c, goal)) as u64, c as usize);
                assert(open.contains(x));
                assert(crate::open_set::entry_le(e, x));
            }
        }
    }

    /// Every cell of a chain of allowed moves is a cell of the grid.
    proof fn lemma_step_facts_cell(&self, q: Seq<usize>, j: int)
        requires
            self.wf(),
            q.len() >= 2,
            0 <= j < q.len(),
            forall|k: int| 0 <= k < q.len() - 1 ==> #[trigger] self.is_step(q[k] as int, q[k + 1] as int),
        ensures
            0 <= q[j] < self.total(),
    {
        if j < q.len() - 1 {
            self.lemma_step_facts(q[j] as int, q[j + 1] as int);
        } else {
            assert(self.is_step(q[j - 1] as int, q[(j - 1) + 1] as int));
            self.lemma_step_facts(q[j - 1] as int, q[j] as int);
        }
    }

    /// When the goal's entry is the smallest open entry, the goal's known
    /// cost is at most the cost of any chain of allowed moves from the start
    /// to the goal.
    pub proof fn lemma_goal_cost_optimal(
        &self,
        g: Seq<u32>,
        open: Multiset<(u64, usize)>,
        fresh: Set<int>,
        flast: int,
        start: int,
        goal: int,
        pushes: int,
        pops: int,
        e: (u64, usize),
    )
        requires
            self.wf(),
            self.astar_ok(g, open, fresh, flast, start, goal, pushes, pops),
            g.len() == self.total(),
            0 <= start < self.total(),
            0 <= goal < self.total(),
            g[start] == 0,
            g[goal] != u32::MAX,
            open.contains(e),
            e.1 == goal,
            forall|x: (u64, usize)| open.contains(x) ==> crate::open_set::entry_le(e, x),
        ensures
            forall|q: Seq<usize>| #[trigger] self.is_step_chain(q, start, goal) ==> g[goal] <= self.chain_cost(q),
    {
        assert forall|q: Seq<usize>| #[trigger] self.is_step_chain(q, start, goal) implies g[goal] <= self.chain_cost(q) by {
            self.lemma_goal_cost_from(g, open, fresh, flast, start, goal, pushes, pops, e, q, 0);
        }
    }
}

impl NavGrid {
    /// Cells `c` reached from `s` by some chain whose cost plus the octile
    /// distance from `c` to `t` is at most `b`: the only cells an A* search
    /// from `s` to `t` expands before it takes an entry above `b`.
    pub open spec fn focus_set(&self, s: int, t: int, b: int) -> Set<int> {
        Set::new(
            |c: int|
                0 <= c < self.total() && exists|p: Seq<usize>|
                    #[trigger] self.is_step_chain(p, s, c) && self.chain_cost(p) + self.h_to(c, t) <= b,
        )
    }

    /// On a grid of bounded move costs, a move out of an expanded cell
    /// reaches a cell with a known cost.
    proof fn lemma_fresh_step_known(
        &self,
        g: Seq<u32>,
        open: Multiset<(u64, usize)>,
        fresh: Set<int>,
        flast: int,
        start: int,
        goal: int,
        pushes: int,
        pops: int,
        a: int,
        b: int,
    )
        requires
            self.wf(),
            self.total() <= usize::MAX,
            g.len() == self.total(),
            self.astar_ok(g, open, fresh, flast, start, goal, pushes, pops),
            self.step_costs_bounded(),
            fresh.contains(a),
            self.is_step(a, b),
        ensures
            g[b] != u32::MAX,
    {
        let total = self.total();
        let e_b = self.edge_budget();
        let dl = discovered(g).len() as int;
        lemma_discovered_finite(g);
        vstd::arithmetic::div_mod::lemma_fundamental_div_mod((u32::MAX - 1) as int, total + 1);
        assert(e_b * (total + 1) <= u32::MAX - 1) by {
            vstd::arithmetic::div_mod::lemma_mod_pos_bound((u32::MAX - 1) as int, total + 1);
            vstd::arithmetic::mul::lemma_mul_is_commutative(e_b, total + 1);
        }
        assert(0 <= e_b) by {
            vstd::arithmetic::div_mod::lemma_div_pos_is_pos((u32::MAX - 1) as int, total + 1);
        }
        assert(dl * e_b <= total * e_b) by (nonlinear_arith)
            requires
                dl <= total,
                0 <= e_b,
        ;
        assert((total + 1) * e_b == total * e_b + e_b) by (nonlinear_arith);
        self.lemma_step_facts(a, b);
        assert(g[a] <= dl * e_b);
        assert(g[b] <= sat_u32(g[a] + self.step_cost(a, b)));
    }

    /// On a grid of bounded move costs, the smallest open entry's priority
    /// is at most the cost of any chain from the start to the goal, as long
    /// as the goal has not been taken.
    proof fn lemma_min_entry_from(
        &self,
        g: Seq<u32>,
        open: Multiset<(u64, usize)>,
        fresh: Set<int>,
        flast: int,
        start: int,
        goal: int,
        pushes: int,
        pops: int,
        e: (u64, usize),
        q: Seq<usize>,
        j: int,
    )
        requires
            self.wf(),
            self.total() <= usize::MAX,
            self.astar_ok(g, open, fresh, flast, start, goal, pushes, pops),
            self.step_costs_bounded(),
            g.len() == self.total(),
            0 <= start < self.total(),
            0 <= goal < self.total(),
            g[start] == 0,
            open.contains(e),
            forall|x: (u64, usize)| open.contains(x) ==> crate::open_set::entry_le(e, x),
            self.is_step_chain(q, start, goal),
            0 <= j < q.len(),
            forall|k: int| 0 <= k < j ==> fresh.contains(#[trigger] q[k] as int),
        ensures
            e.0 <= self.chain_cost(q),
        decreases q.len() - j,
    {
        let c = q[j] as int;
        if fresh.contains(c) {
            assert(c != goal);
            assert(j != q.len() - 1);
            assert forall|k: int| 0 <= k < j + 1 implies fresh.contains(#[trigger] q[k] as int) by {
                if k < j {
                    assert(fresh.contains(q[k] as int));
                }
            }
            self.lemma_min_entry_from(g, open, fresh, flast, start, goal, pushes, pops, e, q, j + 1);
        } else {
            self.lemma_expanded_prefix(g, open, fresh, flast, start, goal, pushes, pops, q, j);
            self.lemma_chain_cost_split(q, j);
            let r = q.skip(j);
            assert forall|k: int| 0 <= k < r.len() - 1 implies #[trigger] self.is_step(r[k] as int, r[k + 1] as int) by {
                assert(self.is_step(q[j + k] as int, q[(j + k) + 1] as int));
            }
            if q.len() >= 2 {
                self.lemma_step_facts_cell(q, j);
            }
            if j > 0 {
                assert(fresh.contains(q[j - 1] as int));
                assert(self.is_step(q[j - 1] as int, q[(j - 1) + 1] as int));
                self.lemma_fresh_step_known(g, open, fresh, flast, start, goal, pushes, pops, q[j - 1] as int, c);
            }
            assert(g[c] != u32::MAX);
            self.lemma_h_admissible(r, goal);
            self.lemma_h_bounds(c, goal);
            let x = ((g[c] + self.h_to(c, goal)) as u64, c as usize);
            assert(open.contains(x));
            assert(crate::open_set::entry_le(e, x));
        }
    }

    /// The smallest open entry's priority bounds every chain's cost from
    /// below (bounded move costs, goal not yet taken).
    pub proof fn lemma_min_entry_bound(
        &self,
        g: Seq<u32>,
        open: Multiset<(u64, usize)>,
        fresh: Set<int>,
        flast: int,
        start: int,
        goal: int,
        pushes: int,
        pops: int,
        e: (u64, usize),
    )
        requires
            self.wf(),
            self.total() <= usize::MAX,
            self.astar_ok(g, open, fresh, flast, start, goal, pushes, pops),
            self.step_costs_bounded(),
            g.len() == self.total(),
            0 <= start < self.total(),
            0 <= goal < self.total(),
            g[start] == 0,
            open.contains(e),
            forall|x: (u64, usize)| open.contains(x) ==> crate::open_set::entry_le(e, x),
        ensures
            forall|q: Seq<usize>| #[trigger] self.is_step_chain(q, start, goal) ==> e.0 <= self.chain_cost(q),
    {
        assert forall|q: Seq<usize>| #[trigger] self.is_step_chain(q, start, goal) implies e.0 <= self.chain_cost(q) by {
            self.lemma_min_entry_from(g, open, fresh, flast, start, goal, pushes, pops, e, q, 0);
        }
    }

    /// When the search gives up after taking `pops` entries, those entries
    /// are at most nine per cell of the focus set of any chain's cost: the
    /// expanded cells all lie in it, and each expansion opens at most eight
    /// entries.
    pub proof fn lemma_search_focus(
        &self,
        g: Seq<u32>,
        cf: Seq<usize>,
        open: Multiset<(u64, usize)>,
        fresh: Set<int>,
        f0: int,
        m: int,
        gm: int,
        is_new: bool,
        start: int,
        goal: int,
        pushes: int,
        pops: int,
        p0: int,
        q: Seq<usize>,
    )
        requires
            self.wf(),
            self.total() <= usize::MAX,
            0 <= start < self.total(),
            0 <= goal < self.total(),
            self.search_inv(g, cf, open, start),
            self.expand_ok(g, open, fresh, f0, m, gm, is_new, 0, start, goal, pushes, pops, p0),
            self.is_step_chain(q, start, goal),
            f0 <= self.chain_cost(q),
        ensures
            pops <= 9 * self.focus_set(start, goal, self.chain_cost(q)).len(),
    {
        let b = self.chain_cost(q);
        let f = self.focus_set(start, goal, b);
        let range = vstd::set_lib::set_int_range(0, self.total());
        vstd::set_lib::lemma_int_range(0, self.total());
        assert(f.subset_of(range));
        vstd::set_lib::lemma_len_subset(f, range);
        assert forall|x: int| fresh.contains(x) implies f.contains(x) by {
            let p = self.lemma_known_cost_chain(g, cf, open, start, x);
            assert(self.is_step_chain(p, start, x));
        }
        vstd::set_lib::lemma_len_subset(fresh, f);
        assert forall|k: int| 0 <= k < q.len() - 1 implies #[trigger] self.is_step(q[k] as int, q[k + 1] as int) by {
        }
        self.lemma_h_admissible(q, goal);
        let p0s = seq![start as usize];
        assert(self.chain_cost(p0s) == 0);
        assert(self.is_step_chain(p0s, start, start));
        assert(f.contains(start));
        assert(f.len() >= 1) by {
            vstd::set::axiom_set_contains_len(f, start);
        }
    }
}

} // verus!
