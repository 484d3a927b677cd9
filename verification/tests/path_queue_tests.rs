use rts_core::path_queue::{
    accept_route, latest_request, record_request, request_is_current, result_is_current, route_waypoints,
    select_new_requests, NavRequestTracker, PathRequest, PathRequestQueue,
};

fn req(entity: u64, request_id: u64, goal: (i32, i32)) -> PathRequest<(i32, i32)> {
    PathRequest { entity, start: (0, 0), goal, request_id, nav_revision: 1 }
}

#[test]
fn newer_request_replaces_older_in_place() {
    let mut q = PathRequestQueue::new();
    q.upsert(req(1, 10, (5, 5)));
    q.upsert(req(2, 11, (6, 6)));
    q.upsert(req(1, 12, (7, 7)));
    assert_eq!(q.len(), 2);
    let first = q.pop_front().unwrap();
    assert_eq!(first.entity, 1);
    assert_eq!(first.request_id, 12);
    assert_eq!(first.goal, (7, 7));
    let second = q.pop_front().unwrap();
    assert_eq!(second.entity, 2);
    assert!(q.pop_front().is_none());
}

#[test]
fn clearing_drops_all_requests() {
    let mut q = PathRequestQueue::new();
    q.upsert(req(1, 1, (1, 1)));
    q.upsert(req(2, 2, (2, 2)));
    q.clear();
    assert_eq!(q.len(), 0);
    assert!(q.pop_front().is_none());
}

#[test]
fn stale_requests_are_skipped() {
    assert!(request_is_current(5, 3, 3, Some(5)));
    assert!(!request_is_current(5, 2, 3, Some(5)));
    assert!(!request_is_current(5, 3, 3, Some(6)));
    assert!(!request_is_current(5, 3, 3, None));
}

#[test]
fn stale_results_are_dropped() {
    assert!(result_is_current(4, 4, 9, 9, true));
    assert!(!result_is_current(5, 4, 9, 9, true));
    assert!(!result_is_current(4, 4, 8, 9, true));
    assert!(!result_is_current(4, 4, 9, 9, false));
}

#[test]
fn per_frame_cap_on_new_requests() {
    let needs = vec![false, true, true, false, true, true];
    assert_eq!(select_new_requests(&needs, usize::MAX), vec![1, 2, 4, 5]);
    assert_eq!(select_new_requests(&needs, 3), vec![1, 2, 4]);
    assert_eq!(select_new_requests(&needs, 0), Vec::<usize>::new());
    assert_eq!(select_new_requests(&vec![], 2), Vec::<usize>::new());
}

#[test]
fn finished_routes_drop_their_first_point() {
    let r = vec![(0, 0), (1, 1), (2, 2)];
    assert_eq!(route_waypoints(&r), Some(vec![(1, 1), (2, 2)]));
    assert_eq!(route_waypoints(&vec![(0, 0)]), None);
    assert_eq!(accept_route(4, 4, 7, 7, true, &Some(r.clone())), Some(vec![(1, 1), (2, 2)]));
    assert_eq!(accept_route(4, 4, 7, 7, true, &Some(vec![(5, 5)])), None);
    assert_eq!(accept_route::<(i32, i32)>(4, 4, 7, 7, true, &None), None);
    assert_eq!(accept_route(4, 3, 7, 7, true, &Some(r.clone())), None);
    assert_eq!(accept_route(4, 4, 7, 8, true, &Some(r.clone())), None);
    assert_eq!(accept_route(4, 4, 7, 7, false, &Some(r)), None);
}

#[test]
fn a_new_request_replaces_the_units_tracker() {
    let mut trackers: Vec<(u64, NavRequestTracker<(i32, i32)>)> = Vec::new();
    record_request(&mut trackers, 7, 1, (3, 4));
    record_request(&mut trackers, 9, 2, (5, 5));
    record_request(&mut trackers, 7, 3, (8, 1));
    assert_eq!(trackers.len(), 2);
    assert_eq!(trackers[0].0, 7);
    assert_eq!(trackers[0].1.latest_request_id, 3);
    assert_eq!(trackers[0].1.last_goal, Some((8, 1)));
    assert_eq!(trackers[1].0, 9);
    assert_eq!(trackers[1].1.last_goal, Some((5, 5)));
    assert_eq!(latest_request(&trackers, 7), Some(3));
    assert_eq!(latest_request(&trackers, 9), Some(2));
    assert_eq!(latest_request(&trackers, 4), None);
}
