//! Water bodies: connected regions of wet terrain cells.
//!
//! The terrain is a `grid_size` x `grid_size` grid of vertices; a cell is
//! the quad between four neighbouring vertices, so there are
//! `grid_size - 1` cells per side. A vertex is wet when it lies below the
//! water level (decided by the caller); a cell is wet when any of its four
//! corners is.
use vstd::prelude::*;
use std::collections::VecDeque;
use vstd::set_lib::set_int_range;

verus! {

/// A terrain cell `(x, z)`.
pub type Cell = (usize, usize);

/// Smallest number of cells for a region to count as a water body.
pub const MIN_WATER_BODY_CELLS: usize = 4;

pub open spec fn vertex_wet(wet: Seq<bool>, gs: int, x: int, z: int) -> bool {
    wet[z * gs + x]
}

pub open spec fn in_cells(n: int, c: Cell) -> bool {
    (c.0 as int) < n && (c.1 as int) < n
}

/// Cell `c` is inside the grid and wet.
pub open spec fn wet_cell(wet: Seq<bool>, gs: int, c: Cell) -> bool {
    &&& in_cells(gs - 1, c)
    &&& (vertex_wet(wet, gs, c.0 as int, c.1 as int) || vertex_wet(wet, gs, c.0 + 1, c.1 as int)
        || vertex_wet(wet, gs, c.0 as int, c.1 + 1) || vertex_wet(wet, gs, c.0 + 1, c.1 + 1))
}

/// Cells sharing an edge.
pub open spec fn adjacent(a: Cell, b: Cell) -> bool {
    ||| (a.0 == b.0 && (a.1 + 1 == b.1 || b.1 + 1 == a.1))
    ||| (a.1 == b.1 && (a.0 + 1 == b.0 || b.0 + 1 == a.0))
}

/// Every wet cell next to a member of `g` is a member.
pub open spec fn closed_region(wet: Seq<bool>, gs: int, g: Seq<Cell>) -> bool {
    forall|i: int, c: Cell|
        0 <= i < g.len() && #[trigger] adjacent(g[i], c) && wet_cell(wet, gs, c) ==> g.contains(c)
}

/// Member `k` is next to an earlier member.
pub open spec fn linked(g: Seq<Cell>, k: int) -> bool {
    exists|j: int| 0 <= j < k && #[trigger] adjacent(g[j], g[k])
}

/// Every member after the first is next to an earlier member.
pub open spec fn chained(g: Seq<Cell>) -> bool {
    forall|k: int| 0 < k < g.len() ==> #[trigger] linked(g, k)
}

/// A connected region of wet cells, each listed once, closed under wet
/// neighbours: one whole 4-connected wet component.
pub open spec fn wet_component(wet: Seq<bool>, gs: int, g: Seq<Cell>) -> bool {
    &&& g.len() >= 1
    &&& forall|k: int| 0 <= k < g.len() ==> #[trigger] wet_cell(wet, gs, g[k])
    &&& g.no_duplicates()
    &&& chained(g)
    &&& closed_region(wet, gs, g)
}

pub open spec fn cidx(n: int, c: Cell) -> int {
    c.1 * n + c.0
}

pub open spec fn visited_set(v: Seq<bool>) -> Set<int> {
    Set::new(|i: int| 0 <= i < v.len() && v[i])
}

proof fn lemma_visited_set_bounds(v: Seq<bool>)
    ensures
        visited_set(v).finite(),
        visited_set(v).len() <= v.len(),
{
    vstd::set_lib::lemma_int_range(0, v.len() as int);
    assert(visited_set(v).subset_of(set_int_range(0, v.len() as int)));
    vstd::set_lib::lemma_len_subset(visited_set(v), set_int_range(0, v.len() as int));
}

proof fn lemma_visited_set_mark(v: Seq<bool>, i: int)
    requires
        0 <= i < v.len(),
        !v[i],
    ensures
        visited_set(v.update(i, true)) =~= visited_set(v).insert(i),
        visited_set(v.update(i, true)).len() == visited_set(v).len() + 1,
{
    lemma_visited_set_bounds(v);
    assert(visited_set(v.update(i, true)) =~= visited_set(v).insert(i));
}

proof fn lemma_cidx(n: int, c: Cell)
    requires
        in_cells(n, c),
    ensures
        0 <= cidx(n, c) < n * n,
        forall|d: Cell| in_cells(n, d) && cidx(n, d) == cidx(n, c) ==> d == c,
{
    crate::nav_grid::lemma_cell_index(n, c.0 as int, c.1 as int);
    assert forall|d: Cell| in_cells(n, d) && cidx(n, d) == cidx(n, c) implies d == c by {
        crate::nav_grid::lemma_cell_index(n, d.0 as int, d.1 as int);
    }
}


/// Finished regions are whole wet components, and `owner` maps each of
/// their cells to the region holding it.
pub open spec fn regions_ok(wet: Seq<bool>, gs: int, done: Seq<Seq<Cell>>, owner: Map<Cell, int>) -> bool {
    &&& forall|j: int| 0 <= j < done.len() ==> #[trigger] wet_component(wet, gs, done[j])
    &&& forall|j: int, k: int|
        0 <= j < done.len() && 0 <= k < done[j].len() ==> owner.contains_key(#[trigger] done[j][k])
            && owner[done[j][k]] == j
    &&& forall|c: Cell|
        #[trigger] owner.contains_key(c) ==> 0 <= owner[c] < done.len() && done[owner[c]].contains(c)
}

/// The reported bodies are exactly the finished regions with enough cells,
/// in order.
pub open spec fn reported_ok(bodies: Seq<Vec<Cell>>, done: Seq<Seq<Cell>>, kept_idx: Seq<int>) -> bool {
    &&& bodies.len() == kept_idx.len()
    &&& forall|i: int|
        #![trigger bodies[i]]
        #![trigger kept_idx[i]]
        0 <= i < bodies.len() ==> 0 <= kept_idx[i] && kept_idx[i] < done.len() && bodies[i]@ == done[kept_idx[i]]
            && bodies[i]@.len() >= MIN_WATER_BODY_CELLS
    &&& forall|i: int, j: int| 0 <= i < j < kept_idx.len() ==> kept_idx[i] < kept_idx[j]
    &&& forall|j: int|
        0 <= j < done.len() && #[trigger] done[j].len() >= MIN_WATER_BODY_CELLS ==> exists|i: int|
            0 <= i < kept_idx.len() && kept_idx[i] == j
}

/// Cell `a` comes before cell `b` in row-major scan order.
pub open spec fn scan_before(a: Cell, b: Cell) -> bool {
    a.1 < b.1 || (a.1 == b.1 && a.0 < b.0)
}

/// Each region starts at its scan-first cell, and the regions are listed
/// in scan order of their first cells.
pub open spec fn regions_ordered(done: Seq<Seq<Cell>>) -> bool {
    &&& forall|j: int, k: int|
        0 <= j < done.len() && 0 <= k < done[j].len() ==> !scan_before(#[trigger] done[j][k], done[j][0])
    &&& forall|i: int, j: int| 0 <= i < j < done.len() ==> scan_before(#[trigger] done[i][0], #[trigger] done[j][0])
}

/// Position of `b` among the four neighbours of `a` in the order the
/// search looks at them: -x, +x, -z, +z.
pub open spec fn dir_rank(a: Cell, b: Cell) -> int {
    if b.0 + 1 == a.0 && b.1 == a.1 {
        0
    } else if b.0 == a.0 + 1 && b.1 == a.1 {
        1
    } else if b.1 + 1 == a.1 && b.0 == a.0 {
        2
    } else {
        3
    }
}

/// First position at or after `j` of a cell next to `g[k]` (or `g.len()`).
pub open spec fn first_adjacent_from(g: Seq<Cell>, k: int, j: int) -> int
    decreases g.len() - j,
{
    if j < 0 || j >= g.len() {
        g.len() as int
    } else if adjacent(g[j], g[k]) {
        j
    } else {
        first_adjacent_from(g, k, j + 1)
    }
}

/// The cell from which the search found `g[k]`: the first cell of `g` next
/// to it.
pub open spec fn discoverer(g: Seq<Cell>, k: int) -> int {
    first_adjacent_from(g, k, 0)
}

/// `g` lists its cells in breadth-first order from `g[0]`: each later cell
/// comes after the cell it was found from, and the cells come in order of
/// the cells they were found from, the neighbours of one cell in the order
/// -x, +x, -z, +z.
pub open spec fn breadth_first(g: Seq<Cell>) -> bool {
    &&& forall|k: int| 1 <= k < g.len() ==> #[trigger] discoverer(g, k) < k
    &&& forall|k: int, m: int|
        1 <= k < m < g.len() ==> #[trigger] discoverer(g, k) < #[trigger] discoverer(g, m) || (discoverer(g, k)
            == discoverer(g, m) && dir_rank(g[discoverer(g, k)], g[k]) < dir_rank(g[discoverer(g, m)], g[m]))
}

/// `par[k]` is the position of the cell `found[k]` was found from: an
/// earlier cell next to it, among the first `b`, with no cell next to it
/// before; and the cells come in order of those positions, then of
/// direction.
pub open spec fn bfs_parents(found: Seq<Cell>, par: Seq<int>, b: int) -> bool {
    &&& par.len() == found.len()
    &&& forall|k: int|
        1 <= k < found.len() ==> {
            &&& 0 <= #[trigger] par[k] < b
            &&& par[k] < k
            &&& adjacent(found[par[k]], found[k])
            &&& forall|j: int| 0 <= j < par[k] ==> !adjacent(#[trigger] found[j], found[k])
        }
    &&& forall|k: int, m: int|
        1 <= k < m < found.len() ==> #[trigger] par[k] < #[trigger] par[m] || (par[k] == par[m] && dir_rank(
            found[par[k]],
            found[k],
        ) < dir_rank(found[par[m]], found[m]))
}

proof fn lemma_discoverer(g: Seq<Cell>, k: int, p: int, j: int)
    requires
        0 <= j <= p < g.len(),
        adjacent(g[p], g[k]),
        forall|i: int| 0 <= i < p ==> !adjacent(#[trigger] g[i], g[k]),
    ensures
        first_adjacent_from(g, k, j) == p,
    decreases p - j,
{
    if j < p {
        assert(!adjacent(g[j], g[k]));
        lemma_discoverer(g, k, p, j + 1);
    }
}

/// Parents recorded during the search are the discoverers of the list.
proof fn lemma_bfs_list(g: Seq<Cell>, par: Seq<int>)
    requires
        bfs_parents(g, par, g.len() as int),
    ensures
        breadth_first(g),
{
    assert forall|k: int| 1 <= k < g.len() implies #[trigger] discoverer(g, k) == par[k] by {
        lemma_discoverer(g, k, par[k], 0);
    }
    assert forall|k: int, m: int| 1 <= k < m < g.len() implies #[trigger] discoverer(g, k) < #[trigger] discoverer(g, m)
        || (discoverer(g, k) == discoverer(g, m) && dir_rank(g[discoverer(g, k)], g[k]) < dir_rank(
        g[discoverer(g, m)],
        g[m],
    )) by {
        assert(discoverer(g, k) == par[k]);
        assert(discoverer(g, m) == par[m]);
    }
}

/// One neighbour visit keeps the parent bookkeeping: a newly found cell
/// gets the cell being expanded (position `b`) as parent.
proof fn lemma_bfs_visit(
    wet: Seq<bool>,
    gs: int,
    owner: Map<Cell, int>,
    body: Seq<Cell>,
    cur: Cell,
    start: Cell,
    v0: Seq<bool>,
    q0: Seq<Cell>,
    pushed: Option<Cell>,
    q1: Seq<Cell>,
    par0: Seq<int>,
    par1: Seq<int>,
    d: int,
)
    requires
        gs >= 2,
        search_ok(wet, gs, v0, owner, body, body + seq![cur] + q0, start),
        bfs_parents(body + seq![cur] + q0, par0, body.len() + 1int),
        forall|k: int|
            1 <= k < par0.len() && #[trigger] par0[k] == body.len() ==> dir_rank(cur, (body + seq![cur] + q0)[k]) < d,
        match pushed {
            None => q1 == q0 && par1 == par0,
            Some(nb) => {
                &&& in_cells(gs - 1, nb)
                &&& adjacent(cur, nb)
                &&& !v0[cidx(gs - 1, nb)]
                &&& wet_cell(wet, gs, nb)
                &&& q1 == q0.push(nb)
                &&& par1 == par0.push(body.len() as int)
                &&& dir_rank(cur, nb) == d
            },
        },
    ensures
        bfs_parents(body + seq![cur] + q1, par1, body.len() + 1int),
        forall|k: int|
            1 <= k < par1.len() && #[trigger] par1[k] == body.len() ==> dir_rank(cur, (body + seq![cur] + q1)[k]) < d + 1,
{
    let s0 = body + seq![cur] + q0;
    let b = body.len() as int;
    assert(s0[b] == cur);
    if let Some(nb) = pushed {
        let s1 = body + seq![cur] + q1;
        assert(s1 =~= s0.push(nb));
        lemma_cidx(gs - 1, nb);
        assert(!s0.contains(nb));
        let n0 = s0.len() as int;
        assert forall|j: int| 0 <= j < b implies !adjacent(#[trigger] s1[j], s1[n0]) by {
            assert(s1[j] == body[j]);
            if adjacent(body[j], nb) {
                assert(s0.contains(nb));
            }
        }
        assert forall|k: int|
            1 <= k < s1.len() implies {
            &&& 0 <= #[trigger] par1[k] < b + 1
            &&& par1[k] < k
            &&& adjacent(s1[par1[k]], s1[k])
            &&& forall|j: int| 0 <= j < par1[k] ==> !adjacent(#[trigger] s1[j], s1[k])
        } by {
            if k < n0 {
                assert(par1[k] == par0[k]);
                assert(s1[k] == s0[k]);
                assert(s1[par0[k]] == s0[par0[k]]);
                assert forall|j: int| 0 <= j < par1[k] implies !adjacent(#[trigger] s1[j], s1[k]) by {
                    assert(s1[j] == s0[j]);
                }
            } else {
                assert(par1[k] == b);
                assert(s1[b] == cur);
            }
        }
        assert forall|k: int, m: int| 1 <= k < m < s1.len() implies #[trigger] par1[k] < #[trigger] par1[m] || (par1[k]
            == par1[m] && dir_rank(s1[par1[k]], s1[k]) < dir_rank(s1[par1[m]], s1[m])) by {
            assert(par1[k] == par0[k]);
            assert(s1[k] == s0[k]);
            assert(s1[par0[k]] == s0[par0[k]]);
            if m < n0 {
                assert(par1[m] == par0[m]);
                assert(s1[m] == s0[m]);
                assert(s1[par0[m]] == s0[par0[m]]);
            } else {
                assert(par1[m] == b);
                assert(s1[m] == nb);
                assert(s1[b] == cur);
                if par0[k] == b {
                    assert(dir_rank(cur, s0[k]) < d);
                }
            }
        }
        assert forall|k: int|
            1 <= k < par1.len() && #[trigger] par1[k] == body.len() implies dir_rank(cur, s1[k]) < d + 1 by {
            if k < n0 {
                assert(par1[k] == par0[k]);
                assert(s1[k] == s0[k]);
            } else {
                assert(s1[k] == nb);
            }
        }
    }
}

/// Every finished region is listed in breadth-first order.
pub open spec fn regions_bfs(done: Seq<Seq<Cell>>) -> bool {
    forall|j: int| 0 <= j < done.len() ==> #[trigger] breadth_first(done[j])
}

/// State of the breadth-first search of one region: `found` lists the
/// cells of the region found so far, in the order found; `body` lists those
/// of them whose neighbours have all been looked at.
pub open spec fn search_ok(
    wet: Seq<bool>,
    gs: int,
    visited: Seq<bool>,
    owner: Map<Cell, int>,
    body: Seq<Cell>,
    found: Seq<Cell>,
    start: Cell,
) -> bool {
    &&& found_ok(wet, gs, visited, owner, found, start)
    &&& body_closed(wet, gs, body, found)
}

/// The cells found so far are wet, unowned, distinct and chained from
/// `start`, and they are the visited cells not yet owned by a region.
pub open spec fn found_ok(
    wet: Seq<bool>,
    gs: int,
    visited: Seq<bool>,
    owner: Map<Cell, int>,
    found: Seq<Cell>,
    start: Cell,
) -> bool {
    let n = gs - 1;
    &&& forall|c: Cell|
        in_cells(n, c) ==> (visited[#[trigger] cidx(n, c)] <==> (owner.contains_key(c) || found.contains(c)))
    &&& forall|k: int| 0 <= k < found.len() ==> wet_cell(wet, gs, #[trigger] found[k]) && !owner.contains_key(found[k])
    &&& found.no_duplicates()
    &&& found.len() >= 1
    &&& found[0] == start
    &&& chained(found)
}

/// Every wet neighbour of a cell of `body` has been found.
pub open spec fn body_closed(wet: Seq<bool>, gs: int, body: Seq<Cell>, found: Seq<Cell>) -> bool {
    forall|i: int, c: Cell|
        0 <= i < body.len() && #[trigger] adjacent(body[i], c) && wet_cell(wet, gs, c) ==> found.contains(c)
}

/// The neighbour of `cur` in direction `(dx, dz)`, when inside the grid and
/// wet, has been visited.
pub open spec fn neighbor_seen(wet: Seq<bool>, gs: int, visited: Seq<bool>, cur: Cell, dx: int, dz: int) -> bool {
    let nx = cur.0 + dx;
    let nz = cur.1 + dz;
    (0 <= nx && 0 <= nz && wet_cell(wet, gs, (nx as usize, nz as usize))) ==> visited[cidx(
        gs - 1,
        (nx as usize, nz as usize),
    )]
}

pub open spec fn owner_with(owner: Map<Cell, int>, body: Seq<Cell>, j: int) -> Map<Cell, int> {
    Map::new(
        |c: Cell| owner.contains_key(c) || body.contains(c),
        |c: Cell| if body.contains(c) { j } else { owner[c] },
    )
}

proof fn lemma_search_visit(
    wet: Seq<bool>,
    gs: int,
    owner: Map<Cell, int>,
    body: Seq<Cell>,
    cur: Cell,
    start: Cell,
    v0: Seq<bool>,
    q0: Seq<Cell>,
    pushed: Option<Cell>,
    v1: Seq<bool>,
    q1: Seq<Cell>,
)
    requires
        gs >= 2,
        v0.len() == (gs - 1) * (gs - 1),
        search_ok(wet, gs, v0, owner, body, body + seq![cur] + q0, start),
        match pushed {
            None => v1 == v0 && q1 == q0,
            Some(nb) => {
                &&& in_cells(gs - 1, nb)
                &&& adjacent(cur, nb)
                &&& !v0[cidx(gs - 1, nb)]
                &&& wet_cell(wet, gs, nb)
                &&& v1 == v0.update(cidx(gs - 1, nb), true)
                &&& q1 == q0.push(nb)
            },
        },
    ensures
        search_ok(wet, gs, v1, owner, body, body + seq![cur] + q1, start),
        forall|k: int| 0 <= k < v0.len() && v0[k] ==> v1[k],
        v1.len() == v0.len(),
        visited_set(v1).len() == visited_set(v0).len() + (if pushed is Some { 1int } else { 0int }),
{
    let n = gs - 1;
    if let Some(nb) = pushed {
        let s0 = body + seq![cur] + q0;
        let s1 = body + seq![cur] + q1;
        assert(s1 =~= s0.push(nb));
        lemma_cidx(n, nb);
        lemma_visited_set_mark(v0, cidx(n, nb));
        assert(!s0.contains(nb));
        assert(!owner.contains_key(nb));
        assert forall|c: Cell| in_cells(n, c) implies (v1[#[trigger] cidx(n, c)] <==> (owner.contains_key(c) || s1.contains(c))) by {
            lemma_cidx(n, c);
            if c == nb {
                assert(s1[s1.len() - 1] == nb);
            } else {
                assert(cidx(n, c) != cidx(n, nb));
                if s0.contains(c) {
                    let k = choose|k: int| 0 <= k < s0.len() && s0[k] == c;
                    assert(s1[k] == c);
                }
                if s1.contains(c) {
                    let k = choose|k: int| 0 <= k < s1.len() && s1[k] == c;
                    assert(k < s0.len());
                    assert(s0[k] == c);
                }
            }
        }
        assert forall|k: int| 0 <= k < s1.len() implies wet_cell(wet, gs, #[trigger] s1[k]) && !owner.contains_key(s1[k]) by {
            if k < s0.len() {
                assert(s1[k] == s0[k]);
            }
        }
        assert(s1.no_duplicates()) by {
            assert forall|i: int, j: int| 0 <= i < s1.len() && 0 <= j < s1.len() && i != j implies s1[i] != s1[j] by {
                if i < s0.len() && j < s0.len() {
                    assert(s1[i] == s0[i] && s1[j] == s0[j]);
                } else if i < s0.len() {
                    assert(s1[i] == s0[i]);
                    assert(s0.contains(s0[i]));
                } else if j < s0.len() {
                    assert(s1[j] == s0[j]);
                    assert(s0.contains(s0[j]));
                }
            }
        }
        assert(chained(s1)) by {
            assert forall|k: int| 0 < k < s1.len() implies #[trigger] linked(s1, k) by {
                if k < s0.len() {
                    assert(s1[k] == s0[k]);
                    assert(linked(s0, k));
                    let j = choose|j: int| 0 <= j < k && #[trigger] adjacent(s0[j], s0[k]);
                    assert(s1[j] == s0[j]);
                    assert(adjacent(s1[j], s1[k]));
                } else {
                    let j = body.len() as int;
                    assert(k == s0.len());
                    assert(s1[k] == nb);
                    assert(s1[j] == cur);
                    assert(adjacent(s1[j], s1[k]));
                }
            }
        }
        assert forall|i: int, c: Cell|
            0 <= i < body.len() && #[trigger] adjacent(body[i], c) && wet_cell(wet, gs, c) implies s1.contains(c) by {
            assert(s0.contains(c));
            let k = choose|k: int| 0 <= k < s0.len() && s0[k] == c;
            assert(s1[k] == c);
        }
        assert(s1[0] == s0[0]);
    }
}

proof fn lemma_seen_mono(wet: Seq<bool>, gs: int, v0: Seq<bool>, v1: Seq<bool>, cur: Cell, dx: int, dz: int)
    requires
        gs >= 2,
        v0.len() == (gs - 1) * (gs - 1),
        v1.len() == v0.len(),
        forall|k: int| 0 <= k < v0.len() && v0[k] ==> v1[k],
        neighbor_seen(wet, gs, v0, cur, dx, dz),
    ensures
        neighbor_seen(wet, gs, v1, cur, dx, dz),
{
    let nx = cur.0 + dx;
    let nz = cur.1 + dz;
    if 0 <= nx && 0 <= nz && wet_cell(wet, gs, (nx as usize, nz as usize)) {
        lemma_cidx(gs - 1, (nx as usize, nz as usize));
    }
}

/// A wet neighbour of a cell whose four neighbours were all looked at has
/// been visited.
proof fn lemma_neighbor_visited(wet: Seq<bool>, gs: int, visited: Seq<bool>, cur: Cell, c: Cell)
    requires
        neighbor_seen(wet, gs, visited, cur, -1, 0),
        neighbor_seen(wet, gs, visited, cur, 1, 0),
        neighbor_seen(wet, gs, visited, cur, 0, -1),
        neighbor_seen(wet, gs, visited, cur, 0, 1),
        adjacent(cur, c),
        wet_cell(wet, gs, c),
    ensures
        visited[cidx(gs - 1, c)],
{
    if c.0 + 1 == cur.0 {
        assert(c == ((cur.0 + -1int) as usize, (cur.1 + 0int) as usize));
    } else if cur.0 + 1 == c.0 {
        assert(c == ((cur.0 + 1int) as usize, (cur.1 + 0int) as usize));
    } else if c.1 + 1 == cur.1 {
        assert(c == ((cur.0 + 0int) as usize, (cur.1 + -1int) as usize));
    } else {
        assert(c == ((cur.0 + 0int) as usize, (cur.1 + 1int) as usize));
    }
}

/// Finished regions are closed: a wet neighbour of an owned cell is owned.
proof fn lemma_owned_closed(wet: Seq<bool>, gs: int, done: Seq<Seq<Cell>>, owner: Map<Cell, int>, a: Cell, b: Cell)
    requires
        regions_ok(wet, gs, done, owner),
        owner.contains_key(a),
        adjacent(a, b),
        wet_cell(wet, gs, b),
    ensures
        owner.contains_key(b),
{
    let j = owner[a];
    assert(done[j].contains(a));
    let k = choose|k: int| 0 <= k < done[j].len() && done[j][k] == a;
    assert(wet_component(wet, gs, done[j]));
    assert(adjacent(done[j][k], b));
    assert(done[j].contains(b));
    let k2 = choose|k2: int| 0 <= k2 < done[j].len() && done[j][k2] == b;
    assert(owner.contains_key(done[j][k2]));
}

proof fn lemma_search_settle(
    wet: Seq<bool>,
    gs: int,
    visited: Seq<bool>,
    owner: Map<Cell, int>,
    done: Seq<Seq<Cell>>,
    body: Seq<Cell>,
    cur: Cell,
    found: Seq<Cell>,
    start: Cell,
)
    requires
        gs >= 2,
        regions_ok(wet, gs, done, owner),
        search_ok(wet, gs, visited, owner, body, found, start),
        found.contains(cur),
        neighbor_seen(wet, gs, visited, cur, -1, 0),
        neighbor_seen(wet, gs, visited, cur, 1, 0),
        neighbor_seen(wet, gs, visited, cur, 0, -1),
        neighbor_seen(wet, gs, visited, cur, 0, 1),
    ensures
        search_ok(wet, gs, visited, owner, body.push(cur), found, start),
{
    let n = gs - 1;
    let b2 = body.push(cur);
    let kc = choose|k: int| 0 <= k < found.len() && found[k] == cur;
    assert(wet_cell(wet, gs, found[kc]) && !owner.contains_key(found[kc]));
    assert forall|i: int, c: Cell|
        0 <= i < b2.len() && #[trigger] adjacent(b2[i], c) && wet_cell(wet, gs, c) implies found.contains(c) by {
        if i < body.len() {
            assert(b2[i] == body[i]);
        } else {
            assert(b2[i] == cur);
            lemma_neighbor_visited(wet, gs, visited, cur, c);
            if owner.contains_key(c) {
                lemma_owned_closed(wet, gs, done, owner, c, cur);
            }
        }
    }
}

proof fn lemma_region_finish(
    wet: Seq<bool>,
    gs: int,
    visited: Seq<bool>,
    owner: Map<Cell, int>,
    done: Seq<Seq<Cell>>,
    body: Seq<Cell>,
    start: Cell,
)
    requires
        gs >= 2,
        regions_ok(wet, gs, done, owner),
        search_ok(wet, gs, visited, owner, body, body, start),
    ensures
        wet_component(wet, gs, body),
        body.contains(start),
        regions_ok(wet, gs, done.push(body), owner_with(owner, body, done.len() as int)),
        forall|c: Cell|
            in_cells(gs - 1, c) ==> (visited[cidx(gs - 1, c)] <==> #[trigger] owner_with(owner, body, done.len() as int).contains_key(c)),
        forall|c: Cell| owner.contains_key(c) ==> #[trigger] owner_with(owner, body, done.len() as int).contains_key(c),
        forall|k: int| 0 <= k < body.len() ==> !owner.contains_key(#[trigger] body[k]) && in_cells(gs - 1, body[k]) && wet_cell(wet, gs, body[k]),
        body[0] == start,
{
    assert(body[0] == start);
    let j = done.len() as int;
    let o2 = owner_with(owner, body, j);
    let d2 = done.push(body);
    assert forall|i: int| 0 <= i < d2.len() implies #[trigger] wet_component(wet, gs, d2[i]) by {
        if i < done.len() {
            assert(d2[i] == done[i]);
        }
    }
    assert forall|i: int, k: int| 0 <= i < d2.len() && 0 <= k < d2[i].len() implies o2.contains_key(#[trigger] d2[i][k]) && o2[d2[i][k]] == i by {
        if i < done.len() {
            assert(d2[i] == done[i]);
            let c = done[i][k];
            assert(owner.contains_key(c));
            if body.contains(c) {
                let kk = choose|kk: int| 0 <= kk < body.len() && body[kk] == c;
                assert(!owner.contains_key(body[kk]));
            }
        } else {
            assert(d2[i] == body);
            assert(body.contains(body[k]));
        }
    }
    assert forall|c: Cell| #[trigger] o2.contains_key(c) implies 0 <= o2[c] < d2.len() && d2[o2[c]].contains(c) by {
        if body.contains(c) {
            assert(d2[j] == body);
        } else {
            assert(d2[owner[c]] == done[owner[c]]);
        }
    }
}

/// Bookkeeping of the reported bodies when one more region is finished.
proof fn lemma_report_step(
    bodies0: Seq<Vec<Cell>>,
    bodies1: Seq<Vec<Cell>>,
    done: Seq<Seq<Cell>>,
    body: Seq<Cell>,
    kept0: Seq<int>,
    kept1: Seq<int>,
)
    requires
        reported_ok(bodies0, done, kept0),
        body.len() >= MIN_WATER_BODY_CELLS ==> {
            &&& bodies1.len() == bodies0.len() + 1
            &&& bodies1.drop_last() == bodies0
            &&& bodies1.last()@ == body
            &&& kept1 == kept0.push(done.len() as int)
        },
        body.len() < MIN_WATER_BODY_CELLS ==> bodies1 == bodies0 && kept1 == kept0,
    ensures
        reported_ok(bodies1, done.push(body), kept1),
{
    let d2 = done.push(body);
    if body.len() >= MIN_WATER_BODY_CELLS {
        assert forall|i: int| #![trigger bodies1[i]] #![trigger kept1[i]] 0 <= i < bodies1.len() implies 0 <= kept1[i] && kept1[i] < d2.len() && bodies1[i]@ == d2[kept1[i]]
            && bodies1[i]@.len() >= MIN_WATER_BODY_CELLS by {
            if i < bodies0.len() {
                assert(bodies1[i] == bodies0[i]);
                assert(kept1[i] == kept0[i]);
                assert(bodies0[i]@ == done[kept0[i]]);
                assert(d2[kept0[i]] == done[kept0[i]]);
            } else {
                assert(i == bodies0.len());
                assert(kept1[i] == done.len());
                assert(bodies1[i] == bodies1.last());
            }
        }
        assert forall|i: int, j: int| 0 <= i < j < kept1.len() implies kept1[i] < kept1[j] by {
            assert(kept1[i] == kept0[i]);
            assert(bodies0[i]@ == done[kept0[i]]);
            if j < kept0.len() {
                assert(kept1[j] == kept0[j]);
            }
        }
        assert forall|j: int| 0 <= j < d2.len() && #[trigger] d2[j].len() >= MIN_WATER_BODY_CELLS implies exists|i: int|
            0 <= i < kept1.len() && kept1[i] == j by {
            if j < done.len() {
                assert(d2[j] == done[j]);
                let i = choose|i: int| 0 <= i < kept0.len() && kept0[i] == j;
                assert(kept1[i] == j);
            } else {
                assert(kept1[kept0.len() as int] == j);
            }
        }
    } else {
        assert forall|i: int| #![trigger bodies1[i]] #![trigger kept1[i]] 0 <= i < bodies1.len() implies 0 <= kept1[i] && kept1[i] < d2.len() && bodies1[i]@ == d2[kept1[i]]
            && bodies1[i]@.len() >= MIN_WATER_BODY_CELLS by {
            assert(bodies0[i]@ == done[kept0[i]]);
            assert(d2[kept0[i]] == done[kept0[i]]);
        }
        assert forall|j: int| 0 <= j < d2.len() && #[trigger] d2[j].len() >= MIN_WATER_BODY_CELLS implies exists|i: int|
            0 <= i < kept1.len() && kept1[i] == j by {
            assert(j < done.len());
            assert(d2[j] == done[j]);
        }
    }
}

/// Finishing a region found from the scan position keeps the regions in
/// scan order: no cell of the new region comes before its start, since
/// every wet cell before the start is already owned.
proof fn lemma_order_step(
    wet: Seq<bool>,
    gs: int,
    done: Seq<Seq<Cell>>,
    owner: Map<Cell, int>,
    body: Seq<Cell>,
    start: Cell,
)
    requires
        regions_ordered(done),
        forall|j: int| 0 <= j < done.len() ==> scan_before(#[trigger] done[j][0], start),
        forall|c: Cell|
            in_cells(gs - 1, c) && scan_before(c, start) && wet_cell(wet, gs, c) ==> #[trigger] owner.contains_key(c),
        forall|k: int| 0 <= k < body.len() ==> !owner.contains_key(#[trigger] body[k]) && in_cells(gs - 1, body[k]) && wet_cell(wet, gs, body[k]),
        body.len() >= 1,
        body[0] == start,
    ensures
        regions_ordered(done.push(body)),
{
    let d2 = done.push(body);
    assert forall|j: int, k: int| 0 <= j < d2.len() && 0 <= k < d2[j].len() implies !scan_before(#[trigger] d2[j][k], d2[j][0]) by {
        if j < done.len() {
            assert(d2[j] == done[j]);
        } else {
            assert(d2[j] == body);
            if scan_before(body[k], start) {
                assert(owner.contains_key(body[k]));
            }
        }
    }
    assert forall|i: int, j: int| 0 <= i < j < d2.len() implies scan_before(#[trigger] d2[i][0], #[trigger] d2[j][0]) by {
        assert(d2[i] == done[i]);
        if j < done.len() {
            assert(d2[j] == done[j]);
        } else {
            assert(d2[j] == body);
        }
    }
}

/// The reported bodies inherit the scan order of the regions.
proof fn lemma_bodies_ordered(bodies: Seq<Vec<Cell>>, done: Seq<Seq<Cell>>, kept_idx: Seq<int>)
    requires
        regions_ordered(done),
        reported_ok(bodies, done, kept_idx),
    ensures
        forall|i: int, k: int|
            0 <= i < bodies.len() && 0 <= k < bodies[i]@.len() ==> !scan_before(#[trigger] bodies[i]@[k], bodies[i]@[0]),
        forall|i: int, j: int| 0 <= i < j < bodies.len() ==> scan_before(#[trigger] bodies[i]@[0], #[trigger] bodies[j]@[0]),
{
    assert forall|i: int, k: int|
        0 <= i < bodies.len() && 0 <= k < bodies[i]@.len() implies !scan_before(#[trigger] bodies[i]@[k], bodies[i]@[0]) by {
        assert(bodies[i]@ == done[kept_idx[i]]);
    }
    assert forall|i: int, j: int| 0 <= i < j < bodies.len() implies scan_before(#[trigger] bodies[i]@[0], #[trigger] bodies[j]@[0]) by {
        assert(bodies[i]@ == done[kept_idx[i]]);
        assert(bodies[j]@ == done[kept_idx[j]]);
        assert(kept_idx[i] < kept_idx[j]);
    }
}

/// Once every wet cell belongs to a finished region, the reported bodies
/// are the large wet components, pairwise disjoint, and every wet cell left
/// out lies in a component that is too small.
proof fn lemma_scan_complete(
    wet: Seq<bool>,
    gs: int,
    bodies: Seq<Vec<Cell>>,
    done: Seq<Seq<Cell>>,
    owner: Map<Cell, int>,
    kept_idx: Seq<int>,
)
    requires
        regions_ok(wet, gs, done, owner),
        reported_ok(bodies, done, kept_idx),
        forall|c: Cell| #[trigger] wet_cell(wet, gs, c) ==> owner.contains_key(c),
    ensures
        forall|i: int| 0 <= i < bodies.len() ==> {
            &&& #[trigger] bodies[i]@.len() >= MIN_WATER_BODY_CELLS
            &&& wet_component(wet, gs, bodies[i]@)
        },
        forall|i: int, j: int, c: Cell|
            0 <= i < j < bodies.len() && #[trigger] bodies[i]@.contains(c) ==> !#[trigger] bodies[j]@.contains(c),
        forall|c: Cell|
            wet_cell(wet, gs, c) && (forall|i: int| 0 <= i < bodies.len() ==> !#[trigger] bodies[i]@.contains(c))
                ==> exists|g: Seq<Cell>| g.len() < MIN_WATER_BODY_CELLS && g.contains(c) && #[trigger] wet_component(wet, gs, g),
{
    assert forall|i: int| 0 <= i < bodies.len() implies {
        &&& #[trigger] bodies[i]@.len() >= MIN_WATER_BODY_CELLS
        &&& wet_component(wet, gs, bodies[i]@)
    } by {
        assert(bodies[i]@ == done[kept_idx[i]]);
    }
    assert forall|i: int, j: int, c: Cell|
        0 <= i < j < bodies.len() && #[trigger] bodies[i]@.contains(c) implies !#[trigger] bodies[j]@.contains(c) by {
        assert(bodies[i]@ == done[kept_idx[i]]);
        assert(bodies[j]@ == done[kept_idx[j]]);
        let ki = kept_idx[i];
        let kj = kept_idx[j];
        let a = choose|a: int| 0 <= a < done[ki].len() && done[ki][a] == c;
        assert(owner[done[ki][a]] == ki);
        if bodies[j]@.contains(c) {
            let b = choose|b: int| 0 <= b < done[kj].len() && done[kj][b] == c;
            assert(owner[done[kj][b]] == kj);
        }
    }
    assert forall|c: Cell|
        wet_cell(wet, gs, c) && (forall|i: int| 0 <= i < bodies.len() ==> !#[trigger] bodies[i]@.contains(c))
            implies exists|g: Seq<Cell>| g.len() < MIN_WATER_BODY_CELLS && g.contains(c) && #[trigger] wet_component(wet, gs, g) by {
        assert(owner.contains_key(c));
        let j = owner[c];
        assert(done[j].contains(c));
        assert(wet_component(wet, gs, done[j]));
        if done[j].len() >= MIN_WATER_BODY_CELLS {
            let i = choose|i: int| 0 <= i < kept_idx.len() && kept_idx[i] == j;
            assert(bodies[i]@ == done[j]);
            assert(!bodies[i]@.contains(c));
        }
    }
}

/// Whether cell `(x, z)` is wet, reading its four corner vertices.
fn is_wet(wet: &Vec<bool>, gs: usize, x: usize, z: usize) -> (r: bool)
    requires
        wet@.len() == gs * gs,
        x + 1 < gs,
        z + 1 < gs,
    ensures
        r == wet_cell(wet@, gs as int, (x, z)),
{
    proof {
        crate::nav_grid::lemma_cell_index(gs as int, x as int, z as int);
        crate::nav_grid::lemma_cell_index(gs as int, x + 1, z as int);
        crate::nav_grid::lemma_cell_index(gs as int, x as int, z + 1);
        crate::nav_grid::lemma_cell_index(gs as int, x + 1, z + 1);
        assert((z + 1) * gs + x == z * gs + x + gs) by (nonlinear_arith);
    }
    let _len = wet.len();
    let tl = z * gs + x;
    let tr = tl + 1;
    let bl = tl + gs;
    let br = bl + 1;
    wet[tl] || wet[tr] || wet[bl] || wet[br]
}

/// Visits the neighbour of `(cx, cz)` in direction `(dx, dz)`: when it is
/// in the grid, unvisited and wet, it is marked visited and queued.
fn visit_neighbor(
    wet: &Vec<bool>,
    gs: usize,
    visited: &mut Vec<bool>,
    queue: &mut VecDeque<Cell>,
    cx: usize,
    cz: usize,
    dx: i32,
    dz: i32,
) -> (pushed: Option<Cell>)
    requires
        gs >= 2,
        gs <= crate::nav_grid::MAX_GRID_SIZE,
        wet@.len() == gs * gs,
        old(visited)@.len() == (gs - 1) * (gs - 1),
        cx < gs - 1,
        cz < gs - 1,
        (dx == 0 && (dz == 1 || dz == -1)) || (dz == 0 && (dx == 1 || dx == -1)),
    ensures
        ({
            let nx = cx + dx;
            let nz = cz + dz;
            let n = gs - 1;
            if 0 <= nx < n && 0 <= nz < n && !old(visited)@[nz * n + nx] && wet_cell(
                wet@,
                gs as int,
                (nx as usize, nz as usize),
            ) {
                &&& pushed == Some((nx as usize, nz as usize))
                &&& final(visited)@ == old(visited)@.update(nz * n + nx, true)
                &&& final(queue)@ == old(queue)@.push((nx as usize, nz as usize))
            } else {
                &&& pushed is None
                &&& final(visited)@ == old(visited)@
                &&& final(queue)@ == old(queue)@
            }
        }),
        final(visited)@.len() == old(visited)@.len(),
        forall|k: int| 0 <= k < old(visited)@.len() && old(visited)@[k] ==> final(visited)@[k],
        neighbor_seen(wet@, gs as int, final(visited)@, (cx, cz), dx as int, dz as int),
        pushed matches Some(nb) ==> nb.0 == cx + dx && nb.1 == cz + dz,
        match pushed {
            None => final(visited)@ == old(visited)@ && final(queue)@ == old(queue)@,
            Some(nb) => {
                &&& in_cells(gs - 1, nb)
                &&& adjacent((cx, cz), nb)
                &&& !old(visited)@[cidx(gs - 1, nb)]
                &&& wet_cell(wet@, gs as int, nb)
                &&& final(visited)@ == old(visited)@.update(cidx(gs - 1, nb), true)
                &&& final(queue)@ == old(queue)@.push(nb)
            },
        },
{
    let n = gs - 1;
    let nx = cx as i32 + dx;
    let nz = cz as i32 + dz;
    if nx < 0 || nz < 0 || nx >= n as i32 || nz >= n as i32 {
        return None;
    }
    let (ux, uz) = (nx as usize, nz as usize);
    proof {
        crate::nav_grid::lemma_cell_index(n as int, ux as int, uz as int);
    }
    let _vlen = visited.len();
    let ni = uz * n + ux;
    if !visited[ni] && is_wet(wet, gs, ux, uz) {
        visited.set(ni, true);
        queue.push_back((ux, uz));
        return Some((ux, uz));
    }
    None
}

/// Finds the 4-connected regions of wet cells that have at least
/// `MIN_WATER_BODY_CELLS` cells. Regions are reported in row-major order of
/// the cell where the scan first meets them; each lists its cells in
/// breadth-first order from that cell.
pub fn find_water_bodies(wet: &Vec<bool>, grid_size: usize) -> (bodies: Vec<Vec<Cell>>)
    requires
        1 <= grid_size <= crate::nav_grid::MAX_GRID_SIZE,
        wet@.len() == grid_size * grid_size,
    ensures
        forall|i: int| 0 <= i < bodies@.len() ==> {
            &&& #[trigger] bodies@[i]@.len() >= MIN_WATER_BODY_CELLS
            &&& wet_component(wet@, grid_size as int, bodies@[i]@)
        },
        forall|i: int, j: int, c: Cell|
            0 <= i < j < bodies@.len() && #[trigger] bodies@[i]@.contains(c) ==> !#[trigger] bodies@[j]@.contains(c),
        forall|c: Cell|
            wet_cell(wet@, grid_size as int, c) && (forall|i: int| 0 <= i < bodies@.len() ==> !#[trigger] bodies@[i]@.contains(c))
                ==> exists|g: Seq<Cell>| g.len() < MIN_WATER_BODY_CELLS && g.contains(c) && #[trigger] wet_component(wet@, grid_size as int, g),
        forall|i: int, k: int|
            0 <= i < bodies@.len() && 0 <= k < bodies@[i]@.len() ==> !scan_before(#[trigger] bodies@[i]@[k], bodies@[i]@[0]),
        forall|i: int, j: int| 0 <= i < j < bodies@.len() ==> scan_before(#[trigger] bodies@[i]@[0], #[trigger] bodies@[j]@[0]),
        forall|i: int| 0 <= i < bodies@.len() ==> breadth_first(#[trigger] bodies@[i]@),
{
    let gs = grid_size;
    let n = gs - 1;
    let _wet_len = wet.len();
    assert(n * n <= gs * gs) by (nonlinear_arith)
        requires
            n < gs,
    ;
    let total = n * n;
    let mut visited: Vec<bool> = Vec::new();
    while visited.len() < total
        invariant
            visited@.len() <= total,
            forall|k: int| 0 <= k < visited@.len() ==> !visited@[k],
        decreases total - visited@.len(),
    {
        visited.push(false);
    }
    let mut bodies: Vec<Vec<Cell>> = Vec::new();
    // every finished region, and the region of each visited cell
    let ghost mut done: Seq<Seq<Cell>> = Seq::empty();
    let ghost mut owner: Map<Cell, int> = Map::empty();
    // positions in `done` of the reported bodies
    let ghost mut kept_idx: Seq<int> = Seq::empty();
    let mut sz: usize = 0;
    proof {
        assert forall|c: Cell| in_cells(n as int, c) implies !visited@[cidx(n as int, c)] by {
            lemma_cidx(n as int, c);
        }
    }
    while sz < n
        invariant
            gs == grid_size,
            n == gs - 1,
            total == n * n,
            1 <= gs <= crate::nav_grid::MAX_GRID_SIZE,
            wet@.len() == gs * gs,
            visited@.len() == total,
            sz <= n,
            regions_ok(wet@, gs as int, done, owner),
            forall|c: Cell| in_cells(n as int, c) ==> (visited@[#[trigger] cidx(n as int, c)] <==> owner.contains_key(c)),
            forall|c: Cell| in_cells(n as int, c) && (c.1 as int) < sz && wet_cell(wet@, gs as int, c) ==> #[trigger] owner.contains_key(c),
            reported_ok(bodies@, done, kept_idx),
            regions_ordered(done),
            regions_bfs(done),
            forall|j: int| 0 <= j < done.len() ==> (#[trigger] done[j][0]).1 < sz,
        decreases n - sz,
    {
        let mut sx: usize = 0;
        while sx < n
            invariant
                gs == grid_size,
                n == gs - 1,
                total == n * n,
                1 <= gs <= crate::nav_grid::MAX_GRID_SIZE,
                wet@.len() == gs * gs,
                visited@.len() == total,
                sz < n,
                sx <= n,
                regions_ok(wet@, gs as int, done, owner),
                forall|c: Cell| in_cells(n as int, c) ==> (visited@[#[trigger] cidx(n as int, c)] <==> owner.contains_key(c)),
                forall|c: Cell|
                    in_cells(n as int, c) && ((c.1 as int) < sz || (c.1 == sz && (c.0 as int) < sx)) && wet_cell(wet@, gs as int, c)
                        ==> #[trigger] owner.contains_key(c),
                reported_ok(bodies@, done, kept_idx),
                regions_ordered(done),
                regions_bfs(done),
                forall|j: int| 0 <= j < done.len() ==> scan_before(#[trigger] done[j][0], (sx, sz)),
            decreases n - sx,
        {
            proof {
                lemma_cidx(n as int, (sx, sz));
            }
            let idx = sz * n + sx;
            if visited[idx] || !is_wet(wet, gs, sx, sz) {
                sx += 1;
                continue;
            }
            let start: Cell = (sx, sz);
            let mut body: Vec<Cell> = Vec::new();
            let mut queue: VecDeque<Cell> = VecDeque::new();
            proof {
                lemma_visited_set_mark(visited@, idx as int);
            }
            visited.set(idx, true);
            queue.push_back(start);
            let ghost mut par: Seq<int> = seq![0int];
            proof {
                let s0 = body@ + queue@;
                assert(s0 =~= seq![start]);
                assert forall|c: Cell| in_cells(n as int, c) implies (visited@[#[trigger] cidx(n as int, c)] <==> (owner.contains_key(c) || s0.contains(c))) by {
                    lemma_cidx(n as int, c);
                    lemma_cidx(n as int, start);
                    if c == start {
                        assert(s0[0] == c);
                    }
                }
                assert(!owner.contains_key(start));
                assert(wet_cell(wet@, gs as int, start));
                assert(s0[0] == start);
                lemma_visited_set_bounds(visited@);
            }
            while queue.len() > 0
                invariant
                    gs == grid_size,
                    n == gs - 1,
                    total == n * n,
                    1 <= gs <= crate::nav_grid::MAX_GRID_SIZE,
                    wet@.len() == gs * gs,
                    visited@.len() == total,
                    regions_ok(wet@, gs as int, done, owner),
                    search_ok(wet@, gs as int, visited@, owner, body@, body@ + queue@, start),
                    bfs_parents(body@ + queue@, par, body@.len() as int),
                    visited_set(visited@).finite(),
                    visited_set(visited@).len() <= total,
                decreases 2 * (total - visited_set(visited@).len()) + queue@.len(),
            {
                let ghost old_q = queue@;
                let cur = queue.pop_front().unwrap();
                proof {
                    assert(body@ + old_q =~= body@ + seq![cur] + queue@);
                    assert((body@ + old_q)[body@.len() as int] == cur);
                }
                let (cx, cz) = cur;
                let ghost b = body@.len() as int;
                let ghost v0 = visited@;
                let ghost q0 = queue@;
                let ghost par0 = par;
                proof {
                    assert(bfs_parents(body@ + seq![cur] + q0, par0, b + 1));
                }
                let p1 = visit_neighbor(wet, gs, &mut visited, &mut queue, cx, cz, -1, 0);
                proof {
                    lemma_search_visit(wet@, gs as int, owner, body@, cur, start, v0, q0, p1, visited@, queue@);
                    if p1 is Some {
                        par = par.push(b);
                    }
                    lemma_bfs_visit(wet@, gs as int, owner, body@, cur, start, v0, q0, p1, queue@, par0, par, 0);
                }
                let ghost v1 = visited@;
                let ghost q1 = queue@;
                let ghost par1 = par;
                let p2 = visit_neighbor(wet, gs, &mut visited, &mut queue, cx, cz, 1, 0);
                proof {
                    lemma_search_visit(wet@, gs as int, owner, body@, cur, start, v1, q1, p2, visited@, queue@);
                    if p2 is Some {
                        par = par.push(b);
                    }
                    lemma_bfs_visit(wet@, gs as int, owner, body@, cur, start, v1, q1, p2, queue@, par1, par, 1);
                }
                let ghost v2 = visited@;
                let ghost q2 = queue@;
                let ghost par2 = par;
                let p3 = visit_neighbor(wet, gs, &mut visited, &mut queue, cx, cz, 0, -1);
                proof {
                    lemma_search_visit(wet@, gs as int, owner, body@, cur, start, v2, q2, p3, visited@, queue@);
                    if p3 is Some {
                        par = par.push(b);
                    }
                    lemma_bfs_visit(wet@, gs as int, owner, body@, cur, start, v2, q2, p3, queue@, par2, par, 2);
                }
                let ghost v3 = visited@;
                let ghost q3 = queue@;
                let ghost par3 = par;
                let p4 = visit_neighbor(wet, gs, &mut visited, &mut queue, cx, cz, 0, 1);
                proof {
                    lemma_search_visit(wet@, gs as int, owner, body@, cur, start, v3, q3, p4, visited@, queue@);
                    if p4 is Some {
                        par = par.push(b);
                    }
                    lemma_bfs_visit(wet@, gs as int, owner, body@, cur, start, v3, q3, p4, queue@, par3, par, 3);
                    lemma_seen_mono(wet@, gs as int, v1, v2, cur, -1, 0);
                    lemma_seen_mono(wet@, gs as int, v2, v3, cur, -1, 0);
                    lemma_seen_mono(wet@, gs as int, v3, visited@, cur, -1, 0);
                    lemma_seen_mono(wet@, gs as int, v2, v3, cur, 1, 0);
                    lemma_seen_mono(wet@, gs as int, v3, visited@, cur, 1, 0);
                    lemma_seen_mono(wet@, gs as int, v3, visited@, cur, 0, -1);
                    let found = body@ + seq![cur] + queue@;
                    assert(found[body@.len() as int] == cur);
                    lemma_search_settle(wet@, gs as int, visited@, owner, done, body@, cur, found, start);
                    assert(body@.push(cur) + queue@ =~= found);
                    lemma_visited_set_bounds(visited@);
                }
                body.push(cur);
            }
            proof {
                lemma_region_finish(wet@, gs as int, visited@, owner, done, body@, start);
                lemma_order_step(wet@, gs as int, done, owner, body@, start);
                assert(body@ + queue@ =~= body@);
                lemma_bfs_list(body@, par);
                assert(regions_bfs(done.push(body@))) by {
                    assert forall|j: int| 0 <= j < done.len() + 1 implies #[trigger] breadth_first(done.push(body@)[j]) by {
                        if j < done.len() {
                            assert(done.push(body@)[j] == done[j]);
                        }
                    }
                }
            }
            let ghost new_owner = owner_with(owner, body@, done.len() as int);
            let ghost kept0 = kept_idx;
            let ghost owner0 = owner;
            let ghost done0 = done;
            let ghost body_s = body@;
            proof {
                if body@.len() >= MIN_WATER_BODY_CELLS {
                    kept_idx = kept_idx.push(done.len() as int);
                }
                done = done.push(body@);
                owner = new_owner;
            }
            let ghost bodies0 = bodies@;
            if body.len() >= MIN_WATER_BODY_CELLS {
                bodies.push(body);
            }
            proof {
                if body_s.len() >= MIN_WATER_BODY_CELLS {
                    assert(bodies@.drop_last() =~= bodies0);
                }
                lemma_report_step(bodies0, bodies@, done0, body_s, kept0, kept_idx);
                assert forall|c: Cell|
                    in_cells(n as int, c) && ((c.1 as int) < sz || (c.1 == sz && (c.0 as int) < sx + 1)) && wet_cell(wet@, gs as int, c)
                        implies #[trigger] owner.contains_key(c) by {
                    if c != start {
                        assert(owner0.contains_key(c));
                    }
                }
            }
            sx += 1;
        }
        sz += 1;
    }
    proof {
        assert forall|c: Cell| #[trigger] wet_cell(wet@, gs as int, c) implies owner.contains_key(c) by {
            assert(in_cells(n as int, c));
        }
        lemma_scan_complete(wet@, gs as int, bodies@, done, owner, kept_idx);
        lemma_bodies_ordered(bodies@, done, kept_idx);
        assert forall|i: int| 0 <= i < bodies@.len() implies breadth_first(#[trigger] bodies@[i]@) by {
            assert(bodies@[i]@ == done[kept_idx[i]]);
        }
    }
    bodies
}

} // verus!
