//! What each slot of the control-group panel shows: how the slot is drawn,
//! and the unit kinds of its living members with their counts.
//!
//! Units are known by entity id; `units` lists the living units with their
//! kinds. A group may still list units that have died since.
use vstd::prelude::*;
use crate::stable_sort::{SortKey, stable_sorted, stable_sort};

verus! {

/// How a group slot is drawn.
#[derive(Clone, Copy, PartialEq, Eq, Debug)]
pub enum SlotLook {
    /// The group last recalled, with living members.
    Recalled,
    /// Some selected unit belongs to the group.
    HoldsSelected,
    /// No living member while units are selected: a click assigns them.
    Assignable,
    /// No living member and nothing selected.
    Empty,
    /// Living members, none of them selected.
    Filled,
}

/// Number of a group's living units of one kind.
#[derive(Clone, Copy, PartialEq, Eq, Debug)]
pub struct KindCount {
    pub kind: u32,
    pub count: u32,
}

/// Larger counts come first.
impl SortKey for KindCount {
    open spec fn key_le(self, other: Self) -> bool {
        self.count >= other.count
    }

    fn key_le_exec(&self, other: &Self) -> (r: bool) {
        self.count >= other.count
    }

    proof fn lemma_key_le_total(a: Self, b: Self) {
    }

    proof fn lemma_key_le_transitive(a: Self, b: Self, c: Self) {
    }
}

/// Most kinds a slot lists before it folds the rest into "+N".
pub const SLOT_KINDS_SHOWN: usize = 3;

/// Position of the first unit with id `e` in `units` at or after `i`, or
/// `units.len()`.
pub open spec fn unit_pos(units: Seq<(u64, u32)>, e: u64, i: int) -> int
    decreases units.len() - i,
{
    if i < 0 || i >= units.len() {
        units.len() as int
    } else if units[i].0 == e {
        i
    } else {
        unit_pos(units, e, i + 1)
    }
}

/// Unit `e` is alive.
pub open spec fn is_alive(units: Seq<(u64, u32)>, e: u64) -> bool {
    unit_pos(units, e, 0) < units.len()
}

/// Kind of the living unit `e`.
pub open spec fn kind_of(units: Seq<(u64, u32)>, e: u64) -> u32 {
    units[unit_pos(units, e, 0)].1
}

/// The living members of `group`, in group order.
pub open spec fn living(group: Seq<u64>, units: Seq<(u64, u32)>) -> Seq<u64>
    decreases group.len(),
{
    if group.len() == 0 {
        Seq::empty()
    } else {
        let prev = living(group.drop_last(), units);
        if is_alive(units, group.last()) {
            prev.push(group.last())
        } else {
            prev
        }
    }
}

/// Position of `kind` in `counts` at or after `i`, or `counts.len()`.
pub open spec fn count_pos(counts: Seq<KindCount>, kind: u32, i: int) -> int
    decreases counts.len() - i,
{
    if i < 0 || i >= counts.len() {
        counts.len() as int
    } else if counts[i].kind == kind {
        i
    } else {
        count_pos(counts, kind, i + 1)
    }
}

/// Count of each kind among the members, kinds in order of first member.
pub open spec fn kind_tally(members: Seq<u64>, units: Seq<(u64, u32)>) -> Seq<KindCount>
    decreases members.len(),
{
    if members.len() == 0 {
        Seq::empty()
    } else {
        let prev = kind_tally(members.drop_last(), units);
        let k = kind_of(units, members.last());
        let i = count_pos(prev, k, 0);
        if i < prev.len() {
            prev.update(i, KindCount { kind: k, count: (prev[i].count + 1) as u32 })
        } else {
            prev.push(KindCount { kind: k, count: 1 })
        }
    }
}

/// Some selected unit is among `members`.
pub open spec fn holds_selected(members: Seq<u64>, selected: Seq<u64>) -> bool {
    exists|i: int| 0 <= i < selected.len() && members.contains(#[trigger] selected[i])
}

/// How the slot of a group with living members `members` is drawn.
pub open spec fn slot_look(members: Seq<u64>, selected: Seq<u64>, recalled: bool) -> SlotLook {
    if recalled && members.len() > 0 {
        SlotLook::Recalled
    } else if holds_selected(members, selected) {
        SlotLook::HoldsSelected
    } else if members.len() == 0 && selected.len() > 0 {
        SlotLook::Assignable
    } else if members.len() == 0 {
        SlotLook::Empty
    } else {
        SlotLook::Filled
    }
}

/// Kinds listed on a slot (most numerous first, ties in order of first
/// member; at most `SLOT_KINDS_SHOWN`, or two and a "+N" when there are
/// more) and the `N` of that "+N" (0 when there is none).
pub open spec fn shown_kinds(tally: Seq<KindCount>) -> (Seq<KindCount>, int) {
    let sorted = stable_sorted(tally);
    if sorted.len() > SLOT_KINDS_SHOWN {
        (sorted.take(2), sorted.len() - 2)
    } else {
        (sorted, 0)
    }
}

/// What one slot shows.
#[derive(Clone, Debug)]
pub struct SlotSummary {
    pub look: SlotLook,
    pub kinds: Vec<KindCount>,
    pub more: usize,
}

proof fn lemma_unit_pos_bounds(units: Seq<(u64, u32)>, e: u64, i: int)
    requires
        0 <= i <= units.len(),
    ensures
        i <= unit_pos(units, e, i) <= units.len(),
        unit_pos(units, e, i) < units.len() ==> units[unit_pos(units, e, i)].0 == e,
    decreases units.len() - i,
{
    if i < units.len() && units[i].0 != e {
        lemma_unit_pos_bounds(units, e, i + 1);
    }
}

proof fn lemma_count_pos_bounds(counts: Seq<KindCount>, kind: u32, i: int)
    requires
        0 <= i <= counts.len(),
    ensures
        i <= count_pos(counts, kind, i) <= counts.len(),
        count_pos(counts, kind, i) < counts.len() ==> counts[count_pos(counts, kind, i)].kind == kind,
    decreases counts.len() - i,
{
    if i < counts.len() && counts[i].kind != kind {
        lemma_count_pos_bounds(counts, kind, i + 1);
    }
}

proof fn lemma_tally_bounds(members: Seq<u64>, units: Seq<(u64, u32)>)
    requires
        members.len() <= u32::MAX,
    ensures
        kind_tally(members, units).len() <= members.len(),
        forall|k: int| 0 <= k < kind_tally(members, units).len() ==> #[trigger] kind_tally(members, units)[k].count <= members.len(),
    decreases members.len(),
{
    if members.len() > 0 {
        lemma_tally_bounds(members.drop_last(), units);
        let prev = kind_tally(members.drop_last(), units);
        lemma_count_pos_bounds(prev, kind_of(units, members.last()), 0);
    }
}

proof fn lemma_living_len(group: Seq<u64>, units: Seq<(u64, u32)>)
    ensures
        living(group, units).len() <= group.len(),
    decreases group.len(),
{
    if group.len() > 0 {
        lemma_living_len(group.drop_last(), units);
    }
}

/// Position of unit `e` in `units`, or `units.len()` when it is not alive.
fn find_unit(units: &Vec<(u64, u32)>, e: u64) -> (r: usize)
    ensures
        r == unit_pos(units@, e, 0),
{
    let mut i: usize = 0;
    while i < units.len() && units[i].0 != e
        invariant
            i <= units@.len(),
            unit_pos(units@, e, i as int) == unit_pos(units@, e, 0),
        decreases units@.len() - i,
    {
        i += 1;
    }
    i
}

fn contains_id(v: &Vec<u64>, e: u64) -> (r: bool)
    ensures
        r == v@.contains(e),
{
    let mut i: usize = 0;
    while i < v.len()
        invariant
            i <= v@.len(),
            forall|j: int| 0 <= j < i ==> v@[j] != e,
        decreases v@.len() - i,
    {
        if v[i] == e {
            assert(v@[i as int] == e);
            return true;
        }
        i += 1;
    }
    false
}

/// Summarises one control-group slot: `group` is its member list, `units`
/// the living units with their kinds, `selected` the selected units, and
/// `recalled` whether this group was the last one recalled.
pub fn group_slot_summary(
    group: &Vec<u64>,
    units: &Vec<(u64, u32)>,
    selected: &Vec<u64>,
    recalled: bool,
) -> (r: SlotSummary)
    requires
        group@.len() <= u32::MAX,
    ensures
        r.look == slot_look(living(group@, units@), selected@, recalled),
        r.kinds@ == shown_kinds(kind_tally(living(group@, units@), units@)).0,
        r.more as int == shown_kinds(kind_tally(living(group@, units@), units@)).1,
{
    // living members and their per-kind counts
    let mut members: Vec<u64> = Vec::new();
    let mut counts: Vec<KindCount> = Vec::new();
    let mut n: usize = 0;
    while n < group.len()
        invariant
            n <= group@.len(),
            group@.len() <= u32::MAX,
            members@ == living(group@.take(n as int), units@),
            counts@ == kind_tally(members@, units@),
            members@.len() <= n,
        decreases group@.len() - n,
    {
        let e = group[n];
        proof {
            assert(group@.take(n + 1).drop_last() =~= group@.take(n as int));
            assert(group@.take(n + 1).last() == e);
        }
        let p = find_unit(units, e);
        if p < units.len() {
            let k = units[p].1;
            proof {
                lemma_tally_bounds(members@, units@);
                lemma_count_pos_bounds(counts@, k, 0);
            }
            let ghost m0 = members@;
            members.push(e);
            proof {
                assert(members@.drop_last() =~= m0);
                assert(members@.last() == e);
            }
            let mut i: usize = 0;
            while i < counts.len() && counts[i].kind != k
                invariant
                    i <= counts@.len(),
                    count_pos(counts@, k, i as int) == count_pos(counts@, k, 0),
                decreases counts@.len() - i,
            {
                i += 1;
            }
            if i < counts.len() {
                let c = counts[i];
                counts.set(i, KindCount { kind: k, count: c.count + 1 });
            } else {
                counts.push(KindCount { kind: k, count: 1 });
            }
        }
        n += 1;
    }
    assert(group@.take(group@.len() as int) =~= group@);
    // how the slot is drawn
    let mut holds = false;
    let mut s: usize = 0;
    while s < selected.len()
        invariant
            s <= selected@.len(),
            holds <==> exists|i: int| 0 <= i < s && members@.contains(#[trigger] selected@[i]),
        decreases selected@.len() - s,
    {
        if contains_id(&members, selected[s]) {
            holds = true;
        }
        s += 1;
    }
    let look = if recalled && members.len() > 0 {
        SlotLook::Recalled
    } else if holds {
        SlotLook::HoldsSelected
    } else if members.len() == 0 && selected.len() > 0 {
        SlotLook::Assignable
    } else if members.len() == 0 {
        SlotLook::Empty
    } else {
        SlotLook::Filled
    };
    // kinds, most numerous first
    stable_sort(&mut counts);
    let mut more: usize = 0;
    if counts.len() > SLOT_KINDS_SHOWN {
        more = counts.len() - 2;
        counts.truncate(2);
    }
    SlotSummary { look, kinds: counts, more }
}

} // verus!
