//! The squad inventory summary of a multi-unit selection: slots shown,
//! slots filled, and how many of each item kind the selection carries.
//!
//! Item kinds are numbered by the caller, who also gives each kind the
//! rank of its display name in alphabetical order.
use vstd::prelude::*;
use crate::stable_sort::{SortKey, stable_sorted, stable_sort, lemma_stable_sorted_props, sorted_by_key};

verus! {

broadcast use vstd::seq_lib::group_to_multiset_ensures;

/// A selected unit: the inventory slots it shows and the items it
/// carries, in slot order.
pub struct SquadMember {
    pub capacity: usize,
    pub items: Vec<u32>,
}

/// How many of one item kind the selection carries, with the rank of the
/// kind's display name.
#[derive(Clone, Copy, PartialEq, Eq, Debug)]
pub struct ItemTotal {
    pub item: u32,
    pub count: usize,
    pub name_rank: u32,
}

/// More numerous kinds first, ties by display name, then by kind.
impl SortKey for ItemTotal {
    open spec fn key_le(self, other: Self) -> bool {
        ||| self.count > other.count
        ||| (self.count == other.count && self.name_rank < other.name_rank)
        ||| (self.count == other.count && self.name_rank == other.name_rank && self.item <= other.item)
    }

    fn key_le_exec(&self, other: &Self) -> (r: bool) {
        self.count > other.count || (self.count == other.count && self.name_rank < other.name_rank) || (self.count
            == other.count && self.name_rank == other.name_rank && self.item <= other.item)
    }

    proof fn lemma_key_le_total(a: Self, b: Self) {
    }

    proof fn lemma_key_le_transitive(a: Self, b: Self, c: Self) {
    }
}

/// The items a unit shows: those in its first `capacity` slots.
pub open spec fn shown_items(m: SquadMember) -> Seq<u32> {
    if m.items@.len() <= m.capacity {
        m.items@
    } else {
        m.items@.take(m.capacity as int)
    }
}

/// The items the first `n` units show, one unit after the other.
pub open spec fn squad_items(units: Seq<SquadMember>, n: int) -> Seq<u32>
    decreases n,
{
    if n <= 0 {
        Seq::empty()
    } else {
        squad_items(units, n - 1) + shown_items(units[n - 1])
    }
}

/// Slots shown by the first `n` units.
pub open spec fn squad_capacity(units: Seq<SquadMember>, n: int) -> int
    decreases n,
{
    if n <= 0 {
        0
    } else {
        squad_capacity(units, n - 1) + units[n - 1].capacity
    }
}

/// Number of times `x` occurs in `s`.
pub open spec fn occurrences(s: Seq<u32>, x: u32) -> nat
    decreases s.len(),
{
    if s.len() == 0 {
        0
    } else {
        occurrences(s.drop_last(), x) + if s.last() == x {
            1nat
        } else {
            0nat
        }
    }
}

/// `totals` counts the items of `s`: one entry per kind that occurs, with
/// its number of occurrences and its name rank.
pub open spec fn counts_items(totals: Seq<ItemTotal>, s: Seq<u32>, name_rank: Seq<u32>) -> bool {
    &&& forall|i: int, j: int| 0 <= i < j < totals.len() ==> (#[trigger] totals[i]).item != (#[trigger] totals[j]).item
    &&& forall|i: int|
        0 <= i < totals.len() ==> {
            &&& (#[trigger] totals[i]).count == occurrences(s, totals[i].item)
            &&& totals[i].count > 0
            &&& totals[i].item < name_rank.len()
            &&& totals[i].name_rank == name_rank[totals[i].item as int]
        }
    &&& forall|x: u32| occurrences(s, x) > 0 ==> exists|i: int| 0 <= i < totals.len() && (#[trigger] totals[i]).item == x
}

/// What the summary shows.
pub struct SquadSummary {
    /// Inventory slots shown over all units.
    pub capacity: usize,
    /// Slots holding an item.
    pub filled: usize,
    /// Item kinds carried, most numerous first, ties by display name.
    pub totals: Vec<ItemTotal>,
}

proof fn lemma_occurrences_push(s: Seq<u32>, a: u32, x: u32)
    ensures
        occurrences(s.push(a), x) == occurrences(s, x) + if a == x {
            1nat
        } else {
            0nat
        },
{
    assert(s.push(a).drop_last() =~= s);
}

proof fn lemma_occurrences_positive(s: Seq<u32>, x: u32)
    requires
        occurrences(s, x) > 0,
    ensures
        s.contains(x),
    decreases s.len(),
{
    if s.last() != x {
        lemma_occurrences_positive(s.drop_last(), x);
        let i = choose|i: int| 0 <= i < s.drop_last().len() && s.drop_last()[i] == x;
        assert(s[i] == x);
    } else {
        assert(s[s.len() - 1] == x);
    }
}

proof fn lemma_occurrences_bound(s: Seq<u32>, x: u32)
    ensures
        occurrences(s, x) <= s.len(),
    decreases s.len(),
{
    if s.len() > 0 {
        lemma_occurrences_bound(s.drop_last(), x);
    }
}

proof fn lemma_totals_determined(totals: Seq<ItemTotal>, s: Seq<u32>, name_rank: Seq<u32>, i: int, j: int)
    requires
        counts_items(totals, s, name_rank),
        0 <= i < totals.len(),
        0 <= j < totals.len(),
        totals[i].item == totals[j].item,
    ensures
        i == j,
{
}

/// Counting one more item keeps the totals exact.
proof fn lemma_count_step(t0: Seq<ItemTotal>, t1: Seq<ItemTotal>, s: Seq<u32>, name_rank: Seq<u32>, a: u32, p: int)
    requires
        counts_items(t0, s, name_rank),
        a < name_rank.len(),
        0 <= p <= t0.len(),
        p < t0.len() ==> t0[p].count < usize::MAX,
        p < t0.len() ==> t0[p].item == a && t1 == t0.update(
            p,
            ItemTotal { item: a, count: (t0[p].count + 1) as usize, name_rank: t0[p].name_rank },
        ),
        p == t0.len() ==> (forall|i: int| 0 <= i < t0.len() ==> t0[i].item != a) && t1 == t0.push(
            ItemTotal { item: a, count: 1, name_rank: name_rank[a as int] },
        ),
    ensures
        counts_items(t1, s.push(a), name_rank),
{
    let s1 = s.push(a);
    assert forall|x: u32| #[trigger] occurrences(s1, x) == occurrences(s, x) + if a == x {
        1nat
    } else {
        0nat
    } by {
        lemma_occurrences_push(s, a, x);
    }
    if p == t0.len() {
        assert(occurrences(s, a) == 0) by {
            if occurrences(s, a) > 0 {
                let i = choose|i: int| 0 <= i < t0.len() && (#[trigger] t0[i]).item == a;
            }
        }
    }
    assert forall|i: int| 0 <= i < t1.len() implies {
        &&& (#[trigger] t1[i]).count == occurrences(s1, t1[i].item)
        &&& t1[i].count > 0
        &&& t1[i].item < name_rank.len()
        &&& t1[i].name_rank == name_rank[t1[i].item as int]
    } by {
        if i < t0.len() && i != p {
            assert(t1[i] == t0[i]);
            if p < t0.len() {
                assert(t0[i].item != a) by {
                    if t0[i].item == a {
                        lemma_totals_determined(t0, s, name_rank, i, p);
                    }
                }
            }
            assert(occurrences(s1, t0[i].item) == occurrences(s, t0[i].item));
        } else if i == p && p < t0.len() {
            assert(t1[i].item == a);
            assert(occurrences(s1, a) == occurrences(s, a) + 1);
            assert(t0[p].count == occurrences(s, a));
        } else {
            assert(i == t0.len() && p == t0.len());
            assert(t1[i] == ItemTotal { item: a, count: 1, name_rank: name_rank[a as int] });
            assert(occurrences(s1, a) == occurrences(s, a) + 1);
        }
    }
    assert forall|x: u32| occurrences(s1, x) > 0 implies exists|i: int| 0 <= i < t1.len() && (#[trigger] t1[i]).item == x by {
        if x == a {
            assert(t1[p].item == a);
        } else {
            let i = choose|i: int| 0 <= i < t0.len() && (#[trigger] t0[i]).item == x;
            if p < t0.len() {
                assert(i != p);
            }
            assert(t1[i] == t0[i]);
        }
    }
    assert forall|i: int, j: int| 0 <= i < j < t1.len() implies (#[trigger] t1[i]).item != (#[trigger] t1[j]).item by {
        if i != p && j != p && j < t0.len() {
            assert(t0[i] == t1[i] && t0[j] == t1[j]);
        } else if i == p || i == t0.len() {
            assert(t1[i].item == a);
            assert(t1[j] == t0[j]);
        } else {
            assert(t1[j].item == a);
            assert(t1[i] == t0[i]);
        }
    }
}

/// Sorting keeps the totals exact.
proof fn lemma_sorted_totals(t: Seq<ItemTotal>, s: Seq<u32>, name_rank: Seq<u32>)
    requires
        counts_items(t, s, name_rank),
    ensures
        counts_items(stable_sorted(t), s, name_rank),
        sorted_by_key(stable_sorted(t)),
{
    let r = stable_sorted(t);
    lemma_stable_sorted_props(t);
    assert forall|i: int| 0 <= i < r.len() implies t.contains(#[trigger] r[i]) by {
        assert(r.to_multiset().contains(r[i]));
    }
    assert(t.no_duplicates()) by {
        assert forall|i: int, j: int| 0 <= i < t.len() && 0 <= j < t.len() && i != j implies t[i] != t[j] by {
            if i < j {
                assert(t[i].item != t[j].item);
            } else {
                assert(t[j].item != t[i].item);
            }
        }
    }
    t.lemma_multiset_has_no_duplicates();
    r.lemma_multiset_has_no_duplicates_conv();
    assert forall|i: int, j: int| 0 <= i < j < r.len() implies (#[trigger] r[i]).item != (#[trigger] r[j]).item by {
        assert(t.contains(r[i]) && t.contains(r[j]));
        if r[i].item == r[j].item {
            assert(r[i] == r[j]);
        }
    }
    assert forall|x: u32| occurrences(s, x) > 0 implies exists|i: int| 0 <= i < r.len() && (#[trigger] r[i]).item == x by {
        let j = choose|j: int| 0 <= j < t.len() && (#[trigger] t[j]).item == x;
        assert(t.to_multiset().contains(t[j]));
        assert(r.contains(t[j]));
        let i = choose|i: int| 0 <= i < r.len() && r[i] == t[j];
    }
}

/// Summarises the inventories of the selected units: the slots they show,
/// how many of those slots hold an item, and the item kinds among those
/// items with their counts, most numerous first, then by display name
/// (`name_rank[k]` is the rank of kind `k`'s name), then by kind.
pub fn squad_inventory_summary(units: &Vec<SquadMember>, name_rank: &Vec<u32>) -> (r: SquadSummary)
    requires
        squad_capacity(units@, units@.len() as int) <= usize::MAX,
        forall|x: u32| squad_items(units@, units@.len() as int).contains(x) ==> x < name_rank@.len(),
    ensures
        r.capacity == squad_capacity(units@, units@.len() as int),
        r.filled == squad_items(units@, units@.len() as int).len(),
        counts_items(r.totals@, squad_items(units@, units@.len() as int), name_rank@),
        sorted_by_key(r.totals@),
{
    let ghost all = squad_items(units@, units@.len() as int);
    let mut capacity: usize = 0;
    let mut filled: usize = 0;
    let mut totals: Vec<ItemTotal> = Vec::new();
    let mut u: usize = 0;
    while u < units.len()
        invariant
            u <= units@.len(),
            all == squad_items(units@, units@.len() as int),
            squad_capacity(units@, units@.len() as int) <= usize::MAX,
            forall|x: u32| all.contains(x) ==> x < name_rank@.len(),
            capacity == squad_capacity(units@, u as int),
            filled == squad_items(units@, u as int).len(),
            counts_items(totals@, squad_items(units@, u as int), name_rank@),
        decreases units@.len() - u,
    {
        let m = &units[u];
        let shown = if m.items.len() <= m.capacity {
            m.items.len()
        } else {
            m.capacity
        };
        let ghost before = squad_items(units@, u as int);
        proof {
            lemma_squad_prefix(units@, u + 1, units@.len() as int);
            assert(squad_capacity(units@, u as int) <= squad_capacity(units@, u + 1));
            assert(squad_capacity(units@, u + 1) <= squad_capacity(units@, units@.len() as int));
            assert(squad_items(units@, u + 1) == before + shown_items(units@[u as int]));
            assert(squad_items(units@, u + 1).len() <= squad_items(units@, units@.len() as int).len());
            lemma_squad_items_len(units@, units@.len() as int);
        }
        let mut k: usize = 0;
        while k < shown
            invariant
                shown == shown_items(units@[u as int]).len(),
                *m == units@[u as int],
                k <= shown,
                all == squad_items(units@, units@.len() as int),
                forall|x: u32| all.contains(x) ==> x < name_rank@.len(),
                squad_items(units@, u + 1) == before + shown_items(units@[u as int]),
                all.take(squad_items(units@, u + 1).len() as int) == squad_items(units@, u + 1),
                counts_items(totals@, before + shown_items(units@[u as int]).take(k as int), name_rank@),
                before.len() + shown <= all.len(),
                all.len() <= usize::MAX,
            decreases shown - k,
        {
            let a = m.items[k];
            let ghost seen = before + shown_items(units@[u as int]).take(k as int);
            proof {
                assert(shown_items(units@[u as int])[k as int] == a);
                assert(all[before.len() + k] == a) by {
                    assert(squad_items(units@, u + 1)[before.len() + k] == a);
                }
                assert(all.contains(a));
                assert(before + shown_items(units@[u as int]).take(k + 1) =~= seen.push(a));
                lemma_occurrences_bound(seen, a);
            }
            let mut p: usize = 0;
            while p < totals.len() && totals[p].item != a
                invariant
                    p <= totals@.len(),
                    forall|i: int| 0 <= i < p ==> totals@[i].item != a,
                decreases totals@.len() - p,
            {
                p += 1;
            }
            let ghost t0 = totals@;
            if p < totals.len() {
                let t = totals[p];
                proof {
                    assert(t.count == occurrences(seen, a));
                    assert(seen.len() < all.len() + 1);
                }
                totals.set(p, ItemTotal { item: a, count: t.count + 1, name_rank: t.name_rank });
            } else {
                totals.push(ItemTotal { item: a, count: 1, name_rank: name_rank[a as usize] });
            }
            proof {
                lemma_count_step(t0, totals@, seen, name_rank@, a, p as int);
            }
            k += 1;
        }
        proof {
            assert(shown_items(units@[u as int]).take(shown as int) =~= shown_items(units@[u as int]));
        }
        capacity = capacity + m.capacity;
        filled = filled + shown;
        u += 1;
    }
    proof {
        lemma_sorted_totals(totals@, all, name_rank@);
    }
    stable_sort(&mut totals);
    SquadSummary { capacity, filled, totals }
}

proof fn lemma_squad_items_len(units: Seq<SquadMember>, n: int)
    ensures
        squad_items(units, n).len() <= squad_capacity(units, n),
    decreases n,
{
    if n > 0 {
        lemma_squad_items_len(units, n - 1);
    }
}

proof fn lemma_squad_prefix(units: Seq<SquadMember>, n: int, m: int)
    requires
        0 <= n <= m,
    ensures
        squad_capacity(units, n) <= squad_capacity(units, m),
        squad_items(units, n).len() <= squad_items(units, m).len(),
        squad_items(units, m).take(squad_items(units, n).len() as int) == squad_items(units, n),
    decreases m - n,
{
    if n < m {
        lemma_squad_prefix(units, n, m - 1);
        let a = squad_items(units, m - 1);
        let b = squad_items(units, n);
        assert((a + shown_items(units[m - 1])).take(b.len() as int) =~= a.take(b.len() as int));
    } else {
        assert(squad_items(units, m).take(squad_items(units, n).len() as int) =~= squad_items(units, n));
    }
}

} // verus!
