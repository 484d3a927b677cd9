use rts_core::nav_grid::{
    advance_nonzero, octile_heuristic, NavGrid, ObstacleZone, PathRequestIds, ASTAR_NODE_LIMIT,
    MAX_SLOPE_PENALTY, NEIGHBOR_SLOTS, OBSTACLE_MARGIN_COST,
};

fn open_grid(gs: usize) -> NavGrid {
    NavGrid::new(
        gs,
        vec![1u8; gs * gs],
        vec![false; gs * gs * NEIGHBOR_SLOTS],
        vec![0u32; gs * gs * NEIGHBOR_SLOTS],
    )
    .expect("valid grid")
}

fn grid_with_costs(gs: usize, costs: Vec<u8>) -> NavGrid {
    NavGrid::new(
        gs,
        costs,
        vec![false; gs * gs * NEIGHBOR_SLOTS],
        vec![0u32; gs * gs * NEIGHBOR_SLOTS],
    )
    .expect("valid grid")
}

#[test]
fn new_rejects_mismatched_data() {
    assert!(NavGrid::new(0, vec![], vec![], vec![]).is_none());
    assert!(NavGrid::new(3, vec![1u8; 8], vec![false; 81], vec![0; 81]).is_none());
    assert!(NavGrid::new(3, vec![1u8; 9], vec![false; 80], vec![0; 81]).is_none());
    assert!(NavGrid::new(3, vec![1u8; 9], vec![false; 81], vec![0; 80]).is_none());
    let mut too_steep = vec![0u32; 81];
    too_steep[5] = MAX_SLOPE_PENALTY + 1;
    assert!(NavGrid::new(3, vec![1u8; 9], vec![false; 81], too_steep).is_none());
    let g = NavGrid::new(3, vec![1u8; 9], vec![false; 81], vec![MAX_SLOPE_PENALTY; 81]).unwrap();
    assert_eq!(g.grid_size(), 3);
    assert_eq!(g.revision(), 1);
}

#[test]
fn index_is_row_major() {
    let g = open_grid(5);
    assert_eq!(g.index(0, 0), 0);
    assert_eq!(g.index(3, 0), 3);
    assert_eq!(g.index(2, 4), 22);
}

#[test]
fn octile_heuristic_values() {
    assert_eq!(octile_heuristic(0, 0, 0, 0), 0);
    assert_eq!(octile_heuristic(0, 0, 3, 4), 3 * 1414 + 1000);
    assert_eq!(octile_heuristic(5, 5, 2, 5), 3000);
    assert_eq!(octile_heuristic(7, 1, 2, 6), 5 * 1414);
}

#[test]
fn request_ids_count_up_from_one_and_skip_zero() {
    let mut ids = PathRequestIds::new();
    assert_eq!(ids.next_id(), 1);
    assert_eq!(ids.next_id(), 2);
    assert_eq!(ids.next_id(), 3);
    assert_eq!(advance_nonzero(0), 1);
    assert_eq!(advance_nonzero(41), 42);
    assert_eq!(advance_nonzero(u64::MAX), 1);
    assert_eq!(advance_nonzero(u64::MAX - 1), u64::MAX);
}

#[test]
fn stamping_obstacles_and_resetting() {
    let mut costs = vec![1u8; 9];
    costs[4] = 50;
    costs[8] = 0;
    let mut g = grid_with_costs(3, costs);
    g.stamp_obstacle_cell(0, ObstacleZone::Footprint);
    g.stamp_obstacle_cell(1, ObstacleZone::Margin);
    g.stamp_obstacle_cell(4, ObstacleZone::Margin);
    g.stamp_obstacle_cell(8, ObstacleZone::Margin);
    g.stamp_obstacle_cell(2, ObstacleZone::Outside);
    assert_eq!(g.cost(0), 0);
    assert!(!g.is_passable(0));
    assert_eq!(g.cost(1), OBSTACLE_MARGIN_COST);
    assert_eq!(g.cost(4), 50);
    assert_eq!(g.cost(8), 0);
    assert_eq!(g.cost(2), 1);
    g.reset_to_terrain();
    assert_eq!(g.cost(0), 1);
    assert_eq!(g.cost(1), 1);
    assert_eq!(g.cost(4), 50);
    assert_eq!(g.cost(8), 0);
}

#[test]
fn bumping_the_revision() {
    let mut g = open_grid(2);
    assert_eq!(g.revision(), 1);
    g.bump_revision();
    assert_eq!(g.revision(), 2);
    g.bump_revision();
    assert_eq!(g.revision(), 3);
}

#[test]
fn line_of_sight_on_open_and_blocked_grids() {
    let g = open_grid(5);
    assert!(g.line_of_sight(0, 0, 4, 4));
    assert!(g.line_of_sight(0, 0, 4, 1));
    assert!(g.line_of_sight(3, 3, 3, 3));
    let mut costs = vec![1u8; 25];
    costs[2 * 5 + 2] = 0;
    let b = grid_with_costs(5, costs);
    assert!(!b.line_of_sight(0, 0, 4, 4));
    assert!(!b.line_of_sight(0, 2, 4, 2));
    assert!(b.line_of_sight(0, 0, 4, 0));
    assert!(!b.line_of_sight(2, 2, 2, 2));
}

#[test]
fn line_of_sight_stops_at_cliffs() {
    let gs = 4;
    let mut cliffs = vec![false; gs * gs * NEIGHBOR_SLOTS];
    // edge from cell (1, 0) to cell (2, 0): dx = 1, dz = 0 -> slot 5
    cliffs[1 * NEIGHBOR_SLOTS + 5] = true;
    let g = NavGrid::new(gs, vec![1u8; gs * gs], cliffs, vec![0; gs * gs * NEIGHBOR_SLOTS]).unwrap();
    assert!(!g.line_of_sight(0, 0, 3, 0));
    assert!(g.line_of_sight(0, 1, 3, 1));
    assert!(!g.is_direct_path_walkable(0, 0, 3, 0));
    assert!(g.is_direct_path_walkable(0, 1, 3, 1));
}

#[test]
fn direct_path_needs_passable_endpoints() {
    let mut costs = vec![1u8; 16];
    costs[15] = 0;
    let g = grid_with_costs(4, costs);
    assert!(g.is_direct_path_walkable(0, 0, 2, 2));
    assert!(!g.is_direct_path_walkable(0, 0, 3, 3));
    assert!(!g.is_direct_path_walkable(3, 3, 0, 0));
}

#[test]
fn smoothing_drops_visible_waypoints() {
    let g = open_grid(5);
    assert_eq!(g.smooth_path(&vec![0, 1, 2, 3, 4]), vec![0, 4]);
    assert_eq!(g.smooth_path(&vec![0, 6, 12]), vec![0, 12]);
    assert_eq!(g.smooth_path(&vec![7]), vec![7]);
    assert_eq!(g.smooth_path(&vec![3, 8]), vec![3, 8]);
    let empty: Vec<usize> = Vec::new();
    assert_eq!(g.smooth_path(&empty), empty);
}

#[test]
fn smoothing_keeps_corners_around_walls() {
    // 5x5, column x = 2 blocked for z = 0..=3
    let mut costs = vec![1u8; 25];
    for z in 0..4 {
        costs[z * 5 + 2] = 0;
    }
    let g = grid_with_costs(5, costs);
    let path = vec![0, 5, 10, 15, 21, 22, 23, 18, 13, 8, 4];
    let smooth = g.smooth_path(&path);
    assert_eq!(smooth.first(), Some(&0));
    assert_eq!(smooth.last(), Some(&4));
    assert!(smooth.len() >= 3);
    for w in smooth.windows(2) {
        let (a, b) = (w[0], w[1]);
        assert!(g.line_of_sight(a % 5, a / 5, b % 5, b / 5));
    }
}

#[test]
fn nearest_passable_cell() {
    let mut costs = vec![1u8; 25];
    costs[12] = 0;
    let g = grid_with_costs(5, costs);
    assert_eq!(g.find_nearest_passable(2, 2), Some(7));
    assert_eq!(g.find_nearest_passable(0, 0), Some(0));
    let blocked = grid_with_costs(3, vec![0u8; 9]);
    assert_eq!(blocked.find_nearest_passable(1, 1), None);
}

#[test]
fn path_on_open_grid_is_a_straight_leg() {
    let g = open_grid(5);
    let route = g.find_path(0, 0, 4, 0).expect("reachable");
    assert_eq!(route.cells, vec![0, 4]);
    assert!(route.append_goal);
    let diag = g.find_path(0, 0, 4, 4).expect("reachable");
    assert_eq!(diag.cells, vec![0, 24]);
}

#[test]
fn path_to_own_cell() {
    let g = open_grid(4);
    let route = g.find_path(2, 1, 2, 1).expect("same cell");
    assert_eq!(route.cells, vec![6]);
    assert!(!route.append_goal);
}

#[test]
fn path_around_a_wall() {
    let mut costs = vec![1u8; 25];
    for z in 0..4 {
        costs[z * 5 + 2] = 0;
    }
    let g = grid_with_costs(5, costs);
    let route = g.find_path(0, 0, 4, 0).expect("reachable around the wall");
    assert_eq!(route.cells.first(), Some(&0));
    assert_eq!(route.cells.last(), Some(&4));
    assert!(route.append_goal);
    assert!(route.cells.len() >= 3);
    for w in route.cells.windows(2) {
        let (a, b) = (w[0], w[1]);
        assert!(g.line_of_sight(a % 5, a / 5, b % 5, b / 5));
    }
}

#[test]
fn path_to_blocked_goal_ends_at_nearest_passable_cell() {
    let mut costs = vec![1u8; 25];
    costs[24] = 0;
    let g = grid_with_costs(5, costs);
    let route = g.find_path(0, 0, 4, 4).expect("goal moved to a passable cell");
    assert!(!route.append_goal);
    let last = *route.cells.last().unwrap();
    assert_eq!(Some(last), g.find_nearest_passable(4, 4));
}

#[test]
fn unreachable_goal_has_no_path() {
    // wall across the whole grid at x = 2
    let mut costs = vec![1u8; 25];
    for z in 0..5 {
        costs[z * 5 + 2] = 0;
    }
    let g = grid_with_costs(5, costs);
    assert!(g.find_path(0, 0, 4, 4).is_none());
    let all_blocked = grid_with_costs(3, vec![0u8; 9]);
    assert!(all_blocked.find_path(0, 0, 2, 2).is_none());
}

#[test]
fn search_gives_up_after_the_node_limit() {
    // A large open grid whose goal is walled off: the search expands more
    // cells than the limit before it could prove the goal unreachable.
    let gs = 200;
    let mut costs = vec![1u8; gs * gs];
    for z in 0..gs {
        costs[z * gs + gs - 3] = 0;
    }
    assert!(gs * gs > ASTAR_NODE_LIMIT);
    let g = grid_with_costs(gs, costs);
    assert!(g.find_path(0, 0, gs - 1, gs - 1).is_none());
}

#[test]
fn nearest_passable_searches_at_most_ten_cells_out() {
    let gs = 25;
    let mut costs = vec![0u8; gs * gs];
    costs[24 * gs + 24] = 1;
    let g = grid_with_costs(gs, costs);
    assert_eq!(g.find_nearest_passable(0, 0), None);
    assert_eq!(g.find_nearest_passable(14, 14), Some(24 * gs + 24));
    assert_eq!(g.find_nearest_passable(13, 24), None);
    assert!(g.find_path(0, 0, 24, 24).is_none());
}

#[test]
fn blocked_start_moves_to_its_nearest_passable_cell() {
    let mut costs = vec![1u8; 25];
    costs[0] = 0;
    let g = grid_with_costs(5, costs);
    let route = g.find_path(0, 0, 4, 0).expect("start moved");
    assert_eq!(route.cells.first(), g.find_nearest_passable(0, 0).as_ref());
    assert_eq!(route.cells.last(), Some(&4));
    assert!(route.append_goal);
}

#[test]
fn diagonal_moves_do_not_cut_blocked_corners() {
    // (1, 0) and (0, 1) blocked: (0, 0) is cut off from (1, 1)
    let mut costs = vec![1u8; 9];
    costs[1] = 0;
    costs[3] = 0;
    let g = grid_with_costs(3, costs);
    assert!(g.find_path(0, 0, 2, 2).is_none());
}

#[test]
fn search_takes_the_cheaper_way_around() {
    // 5x5 grid: rows z = 3 and z = 4 are blocked, cell (2, 1) is blocked,
    // row z = 0 is expensive and row z = 2 is cheap, so the way from
    // (0, 1) to (4, 1) goes around (2, 1) through row z = 2.
    let gs = 5;
    let mut costs = vec![0u8; gs * gs];
    for x in 0..gs {
        costs[x] = 200;
        costs[gs + x] = 1;
        costs[2 * gs + x] = 1;
    }
    costs[gs + 2] = 0;
    let g = grid_with_costs(gs, costs.clone());
    let route = g.find_path(0, 1, 4, 1).expect("route");
    assert!(route.cells.iter().any(|&c| c / gs == 2));
    assert!(route.cells.iter().all(|&c| c / gs != 0));
    // with the rows' costs swapped the route goes through row z = 0
    for x in 0..gs {
        costs[x] = 1;
        costs[2 * gs + x] = 200;
    }
    let g = grid_with_costs(gs, costs);
    let route = g.find_path(0, 1, 4, 1).expect("route");
    assert!(route.cells.iter().any(|&c| c / gs == 0));
    assert!(route.cells.iter().all(|&c| c / gs != 2));
}

#[test]
fn large_open_maps_still_get_routes() {
    // far more reachable cells than the node limit, but the search only
    // expands the cells near the straight line between the endpoints
    let gs = 241;
    assert!(gs * gs > ASTAR_NODE_LIMIT);
    let g = open_grid(gs);
    let near = g.find_path(100, 100, 101, 100).expect("neighbour route");
    assert_eq!(near.cells, vec![100 * gs + 100, 100 * gs + 101]);
    let far = g.find_path(0, 0, gs - 1, gs - 1).expect("diagonal route");
    assert_eq!(far.cells, vec![0, gs * gs - 1]);
}

#[test]
fn node_limit_ends_the_search() {
    let gs = 200;
    let mut costs = vec![1u8; gs * gs];
    for z in 0..gs {
        costs[z * gs + gs - 3] = 0;
    }
    let g = grid_with_costs(gs, costs);
    let (route, taken) = g.find_path_counted(0, 0, gs - 1, gs - 1);
    assert!(route.is_none());
    assert_eq!(taken, ASTAR_NODE_LIMIT + 1);
    let (route, taken) = g.find_path_counted(0, 0, 5, 5);
    assert!(route.is_some());
    assert!(taken <= ASTAR_NODE_LIMIT);
}
