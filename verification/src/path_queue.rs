//! The queue of pending path requests and the checks that decide whether a
//! request, or a finished search, is still wanted.
//!
//! A unit that needs a path gets a fresh request id; the queue keeps at most
//! one request per entity, so a newer request replaces an older one in
//! place. A request is searched only while the navigation grid has not
//! changed since it was made and the unit has not asked again since.
use vstd::prelude::*;
use std::collections::VecDeque;

verus! {

/// What is remembered of a unit's navigation: its latest request and the
/// goal it asked for.
pub struct NavRequestTracker<G> {
    pub latest_request_id: u64,
    pub last_goal: Option<G>,
}

/// Position of the first tracker of `entity` in `s`: every earlier one is
/// for another entity.
pub open spec fn first_tracker<G>(s: Seq<(u64, NavRequestTracker<G>)>, entity: u64, k: int) -> bool {
    &&& 0 <= k < s.len()
    &&& s[k].0 == entity
    &&& forall|j: int| 0 <= j < k ==> #[trigger] s[j].0 != entity
}

/// No tracker in `s` is for `entity`.
pub open spec fn untracked<G>(s: Seq<(u64, NavRequestTracker<G>)>, entity: u64) -> bool {
    forall|j: int| 0 <= j < s.len() ==> #[trigger] s[j].0 != entity
}

/// Records that `entity` asked for a path to `goal` under `request_id`:
/// its tracker is overwritten, or one is added at the end when it has none.
pub fn record_request<G>(trackers: &mut Vec<(u64, NavRequestTracker<G>)>, entity: u64, request_id: u64, goal: G)
    ensures
        untracked(old(trackers)@, entity) ==> final(trackers)@ == old(trackers)@.push(
            (entity, NavRequestTracker { latest_request_id: request_id, last_goal: Some(goal) }),
        ),
        !untracked(old(trackers)@, entity) ==> exists|k: int|
            first_tracker(old(trackers)@, entity, k) && final(trackers)@ == old(trackers)@.update(
                k,
                (entity, NavRequestTracker { latest_request_id: request_id, last_goal: Some(goal) }),
            ),
{
    let mut k: usize = 0;
    while k < trackers.len()
        invariant
            trackers@ == old(trackers)@,
            k <= trackers@.len(),
            forall|j: int| 0 <= j < k ==> #[trigger] trackers@[j].0 != entity,
        decreases trackers@.len() - k,
    {
        if trackers[k].0 == entity {
            proof {
                assert(first_tracker(old(trackers)@, entity, k as int));
            }
            trackers.set(k, (entity, NavRequestTracker { latest_request_id: request_id, last_goal: Some(goal) }));
            return;
        }
        k += 1;
    }
    trackers.push((entity, NavRequestTracker { latest_request_id: request_id, last_goal: Some(goal) }));
}

/// The latest request id recorded for `entity`, if it has a tracker.
pub fn latest_request<G>(trackers: &Vec<(u64, NavRequestTracker<G>)>, entity: u64) -> (r: Option<u64>)
    ensures
        untracked(trackers@, entity) ==> r is None,
        !untracked(trackers@, entity) ==> exists|k: int|
            first_tracker(trackers@, entity, k) && r == Some(trackers@[k].1.latest_request_id),
{
    let mut k: usize = 0;
    while k < trackers.len()
        invariant
            k <= trackers@.len(),
            forall|j: int| 0 <= j < k ==> #[trigger] trackers@[j].0 != entity,
        decreases trackers@.len() - k,
    {
        if trackers[k].0 == entity {
            proof {
                assert(first_tracker(trackers@, entity, k as int));
            }
            return Some(trackers[k].1.latest_request_id);
        }
        k += 1;
    }
    None
}

/// A request for a path, for entity `entity`, between two positions of
/// type `P`.
pub struct PathRequest<P> {
    pub entity: u64,
    pub start: P,
    pub goal: P,
    pub request_id: u64,
    pub nav_revision: u64,
}

/// No two requests are for the same entity.
pub open spec fn entities_unique<P>(s: Seq<PathRequest<P>>) -> bool {
    forall|i: int, j: int| 0 <= i < j < s.len() ==> s[i].entity != s[j].entity
}

/// Some request in `s` is for `entity`.
pub open spec fn has_entity<P>(s: Seq<PathRequest<P>>, entity: u64) -> bool {
    exists|i: int| 0 <= i < s.len() && s[i].entity == entity
}

/// Pending path requests, oldest first.
pub struct PathRequestQueue<P> {
    requests: VecDeque<PathRequest<P>>,
}

impl<P> PathRequestQueue<P> {
    pub closed spec fn view(&self) -> Seq<PathRequest<P>> {
        self.requests@
    }

    pub open spec fn wf(&self) -> bool {
        entities_unique(self.view())
    }

    pub fn new() -> (q: Self)
        ensures
            q.view() == Seq::<PathRequest<P>>::empty(),
            q.wf(),
    {
        PathRequestQueue { requests: VecDeque::new() }
    }

    pub fn len(&self) -> (n: usize)
        ensures
            n == self.view().len(),
    {
        self.requests.len()
    }

    /// Queues `request`; a request already queued for the same entity is
    /// replaced where it stands.
    pub fn upsert(&mut self, request: PathRequest<P>)
        requires
            old(self).wf(),
        ensures
            final(self).wf(),
            forall|i: int|
                0 <= i < old(self).view().len() && old(self).view()[i].entity == request.entity
                    ==> final(self).view() == old(self).view().update(i, request),
            !has_entity(old(self).view(), request.entity) ==> final(self).view() == old(self).view().push(request),
    {
        let ghost s0 = self.requests@;
        let n = self.requests.len();
        let mut i: usize = 0;
        while i < n
            invariant
                n == s0.len(),
                s0 == old(self).view(),
                self.requests@ == s0,
                entities_unique(s0),
                i <= n,
                forall|k: int| 0 <= k < i ==> s0[k].entity != request.entity,
            decreases n - i,
        {
            if self.requests[i].entity == request.entity {
                let _ = self.requests.remove(i);
                self.requests.insert(i, request);
                proof {
                    assert(self.requests@ =~= s0.update(i as int, request));
                    assert(s0[i as int].entity == request.entity);
                    assert forall|j: int| 0 <= j < s0.len() && s0[j].entity == request.entity implies j == i by {
                        if j < i {
                            assert(s0[j].entity != s0[i as int].entity);
                        } else if j > i {
                            assert(s0[i as int].entity != s0[j].entity);
                        }
                    }
                    assert forall|a: int, b: int| 0 <= a < b < self.requests@.len() implies self.requests@[a].entity
                        != self.requests@[b].entity by {
                        if a != i && b != i {
                            assert(self.requests@[a] == s0[a] && self.requests@[b] == s0[b]);
                        }
                    }
                }
                return;
            }
            i += 1;
        }
        self.requests.push_back(request);
        proof {
            assert forall|a: int, b: int| 0 <= a < b < self.requests@.len() implies self.requests@[a].entity
                != self.requests@[b].entity by {
                if b < s0.len() {
                    assert(self.requests@[a] == s0[a] && self.requests@[b] == s0[b]);
                } else {
                    assert(self.requests@[a] == s0[a]);
                }
            }
        }
    }

    /// Takes the oldest request.
    pub fn pop_front(&mut self) -> (r: Option<PathRequest<P>>)
        requires
            old(self).wf(),
        ensures
            final(self).wf(),
            old(self).view().len() == 0 ==> r is None && final(self).view() == old(self).view(),
            old(self).view().len() > 0 ==> r == Some(old(self).view()[0]) && final(self).view()
                == old(self).view().drop_first(),
    {
        let r = self.requests.pop_front();
        proof {
            if old(self).view().len() > 0 {
                assert forall|a: int, b: int| 0 <= a < b < self.requests@.len() implies self.requests@[a].entity
                    != self.requests@[b].entity by {
                    assert(self.requests@[a] == old(self).view()[a + 1]);
                    assert(self.requests@[b] == old(self).view()[b + 1]);
                }
            }
        }
        r
    }

    /// Drops every pending request (the grid changed under them).
    pub fn clear(&mut self)
        ensures
            final(self).view() == Seq::<PathRequest<P>>::empty(),
            final(self).wf(),
    {
        self.requests.clear();
    }
}

/// Whether a queued request still deserves a search: the grid has not
/// changed since it was made, and it is the unit's latest request.
pub fn request_is_current(request_id: u64, request_revision: u64, grid_revision: u64, latest_request: Option<u64>) -> (r: bool)
    ensures
        r == (request_revision == grid_revision && latest_request == Some(request_id)),
{
    if request_revision != grid_revision {
        return false;
    }
    match latest_request {
        Some(latest) => latest == request_id,
        None => false,
    }
}

/// Whether a finished search may be applied: it answers the unit's latest
/// request, on the current grid, and the unit still wants the same goal.
pub fn result_is_current(
    latest_request: u64,
    result_request: u64,
    result_revision: u64,
    grid_revision: u64,
    goal_unchanged: bool,
) -> (r: bool)
    ensures
        r == (latest_request == result_request && result_revision == grid_revision && goal_unchanged),
{
    latest_request == result_request && result_revision == grid_revision && goal_unchanged
}

/// The waypoints a unit follows from a finished route: every point but the
/// first (the unit's own position); none when the route has fewer than two
/// points.
pub fn route_waypoints<P: Copy>(route: &Vec<P>) -> (r: Option<Vec<P>>)
    ensures
        r is None <==> route@.len() < 2,
        r matches Some(w) ==> w@ == route@.skip(1),
{
    if route.len() < 2 {
        return None;
    }
    let mut w: Vec<P> = Vec::new();
    let mut i: usize = 1;
    while i < route.len()
        invariant
            1 <= i <= route@.len(),
            w@ == route@.subrange(1, i as int),
        decreases route@.len() - i,
    {
        w.push(route[i]);
        proof {
            assert(route@.subrange(1, i + 1) =~= route@.subrange(1, i as int).push(route@[i as int]));
        }
        i += 1;
    }
    assert(route@.subrange(1, route@.len() as int) =~= route@.skip(1));
    Some(w)
}

/// What a unit does with a finished search: the waypoints to follow when
/// the result is current (see `result_is_current`) and the route has at
/// least two points; `None` (nothing inserted) otherwise.
pub fn accept_route<P: Copy>(
    latest_request: u64,
    result_request: u64,
    result_revision: u64,
    grid_revision: u64,
    goal_unchanged: bool,
    route: &Option<Vec<P>>,
) -> (r: Option<Vec<P>>)
    ensures
        r is Some <==> (latest_request == result_request && result_revision == grid_revision && goal_unchanged
            && (route matches Some(q) && q@.len() >= 2)),
        r matches Some(w) ==> route matches Some(q) && w@ == q@.skip(1),
{
    if !result_is_current(latest_request, result_request, result_revision, grid_revision, goal_unchanged) {
        return None;
    }
    match route {
        Some(q) => route_waypoints(q),
        None => None,
    }
}

/// Indices `i < n` with `needs[i]`, ascending.
pub open spec fn needing(needs: Seq<bool>, n: int) -> Seq<usize>
    decreases n,
{
    if n <= 0 {
        Seq::empty()
    } else if needs[n - 1] {
        needing(needs, n - 1).push((n - 1) as usize)
    } else {
        needing(needs, n - 1)
    }
}

proof fn lemma_needing_prefix(needs: Seq<bool>, k: int, m: int)
    requires
        0 <= k <= m,
    ensures
        needing(needs, k).len() <= needing(needs, m).len(),
        needing(needs, m).take(needing(needs, k).len() as int) == needing(needs, k),
    decreases m - k,
{
    if k < m {
        lemma_needing_prefix(needs, k, m - 1);
        let a = needing(needs, k);
        let b = needing(needs, m - 1);
        let c = needing(needs, m);
        if needs[m - 1] {
            assert(c.take(a.len() as int) =~= b.take(a.len() as int));
        }
    } else {
        assert(needing(needs, k).take(needing(needs, k).len() as int) =~= needing(needs, k));
    }
}

/// Picks, in order, the first `limit` entries that need a new path
/// request; the rest wait for a later frame.
pub fn select_new_requests(needs: &Vec<bool>, limit: usize) -> (r: Vec<usize>)
    ensures
        needing(needs@, needs@.len() as int).len() <= limit ==> r@ == needing(needs@, needs@.len() as int),
        needing(needs@, needs@.len() as int).len() > limit ==> r@ == needing(needs@, needs@.len() as int).take(
            limit as int,
        ),
{
    let mut out: Vec<usize> = Vec::new();
    let mut k: usize = 0;
    while k < needs.len() && out.len() < limit
        invariant
            k <= needs@.len(),
            out@ == needing(needs@, k as int),
            out@.len() <= limit,
        decreases needs@.len() - k,
    {
        if needs[k] {
            out.push(k);
        }
        k += 1;
    }
    proof {
        let total = needing(needs@, needs@.len() as int);
        lemma_needing_prefix(needs@, k as int, needs@.len() as int);
        if k < needs@.len() {
            assert(out@.len() == limit);
        }
    }
    out
}

} // verus!
