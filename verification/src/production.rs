//! Rules of the production buttons: cancelling a queued unit refunds its
//! cost, confirming a demolition refunds a building still under
//! construction, the demolition dialog announces what will come back, and
//! clicking a recipe toggles it.
//!
//! Resource amounts and costs are given per resource type, in the same
//! order.
use vstd::prelude::*;

verus! {

/// Adds `cost` to the player's `amounts`, resource by resource.
pub fn refund(amounts: &mut Vec<u32>, cost: &Vec<u32>)
    requires
        old(amounts)@.len() == cost@.len(),
        forall|i: int| 0 <= i < cost@.len() ==> old(amounts)@[i] + cost@[i] <= u32::MAX,
    ensures
        final(amounts)@.len() == old(amounts)@.len(),
        forall|i: int| 0 <= i < cost@.len() ==> #[trigger] final(amounts)@[i] == old(amounts)@[i] + cost@[i],
{
    let mut i: usize = 0;
    while i < cost.len()
        invariant
            amounts@.len() == cost@.len(),
            old(amounts)@.len() == cost@.len(),
            i <= cost@.len(),
            forall|j: int| 0 <= j < cost@.len() ==> old(amounts)@[j] + cost@[j] <= u32::MAX,
            forall|j: int| 0 <= j < i ==> #[trigger] amounts@[j] == old(amounts)@[j] + cost@[j],
            forall|j: int| i <= j < cost@.len() ==> #[trigger] amounts@[j] == old(amounts)@[j],
        decreases cost@.len() - i,
    {
        let a = amounts[i];
        amounts.set(i, a + cost[i]);
        i += 1;
    }
}

/// Takes the unit at position `idx` out of a building's training queue.
/// Returns the removed kind, and whether training stops (the unit in
/// training was cancelled, so its timer is dropped); nothing happens when
/// there is no such position.
pub fn cancel_queued(queue: &mut Vec<u32>, idx: usize) -> (r: Option<(u32, bool)>)
    ensures
        idx < old(queue)@.len() ==> r == Some((old(queue)@[idx as int], idx == 0)) && final(queue)@ == old(
            queue,
        )@.remove(idx as int),
        idx >= old(queue)@.len() ==> r is None && final(queue)@ == old(queue)@,
{
    if idx < queue.len() {
        let kind = queue.remove(idx);
        Some((kind, idx == 0))
    } else {
        None
    }
}

/// What confirming a demolition does.
#[derive(Clone, Copy, PartialEq, Eq, Debug)]
pub enum DemolishAction {
    /// The building was still under construction: its cost is refunded and
    /// it is removed at once.
    RefundAndRemove,
    /// A finished building starts its demolition.
    StartDemolition,
}

/// Confirms the demolition of the selected building: one under
/// construction is refunded (its `cost` added to `amounts`) and removed;
/// any other starts to be demolished, with nothing refunded.
pub fn confirm_demolish(under_construction: bool, amounts: &mut Vec<u32>, cost: &Vec<u32>) -> (r: DemolishAction)
    requires
        under_construction ==> old(amounts)@.len() == cost@.len(),
        under_construction ==> forall|i: int| 0 <= i < cost@.len() ==> old(amounts)@[i] + cost@[i] <= u32::MAX,
    ensures
        under_construction ==> r == DemolishAction::RefundAndRemove && final(amounts)@.len() == old(amounts)@.len()
            && forall|i: int| 0 <= i < cost@.len() ==> #[trigger] final(amounts)@[i] == old(amounts)@[i] + cost@[i],
        !under_construction ==> r == DemolishAction::StartDemolition && final(amounts)@ == old(amounts)@,
{
    if under_construction {
        refund(amounts, cost);
        DemolishAction::RefundAndRemove
    } else {
        DemolishAction::StartDemolition
    }
}

/// The share of a building's cost that demolishing it gives back, in
/// percent: half for a finished building, all of it otherwise.
pub open spec fn demolish_refund_percent(complete: bool) -> u32 {
    if complete { 50 } else { 100 }
}

/// What the demolition dialog announces: the refund percentage, and for
/// each resource of `cost` the amount given back, `amount * percent / 100`
/// rounded down.
pub fn demolish_refund_preview(complete: bool, cost: &Vec<u32>) -> (r: (u32, Vec<u32>))
    requires
        forall|i: int| 0 <= i < cost@.len() ==> cost@[i] * demolish_refund_percent(complete) <= u32::MAX,
    ensures
        r.0 == demolish_refund_percent(complete),
        r.1@.len() == cost@.len(),
        forall|i: int| 0 <= i < cost@.len() ==> #[trigger] r.1@[i] == cost@[i] * r.0 / 100,
{
    let pct: u32 = if complete { 50 } else { 100 };
    let mut out: Vec<u32> = Vec::new();
    let mut i: usize = 0;
    while i < cost.len()
        invariant
            pct == demolish_refund_percent(complete),
            i <= cost@.len(),
            out@.len() == i,
            forall|j: int| 0 <= j < cost@.len() ==> cost@[j] * pct <= u32::MAX,
            forall|j: int| 0 <= j < i ==> #[trigger] out@[j] == cost@[j] * pct / 100,
        decreases cost@.len() - i,
    {
        let amt = cost[i];
        assert(amt * pct <= u32::MAX);
        out.push(amt * pct / 100);
        i += 1;
    }
    (pct, out)
}

/// Clicking recipe `clicked` of a production building: clicking the active
/// recipe stops production; any other recipe becomes active and its
/// progress starts over. Returns the new active recipe and whether the
/// progress timer restarts.
pub fn select_recipe(active: Option<u32>, clicked: u32) -> (r: (Option<u32>, bool))
    ensures
        active == Some(clicked) ==> r == (None::<u32>, false),
        active != Some(clicked) ==> r == (Some(clicked), true),
{
    match active {
        Some(a) => if a == clicked {
            (None, false)
        } else {
            (Some(clicked), true)
        },
        None => (Some(clicked), true),
    }
}

} // verus!
