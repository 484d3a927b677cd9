//! Which selected units can take an item handed over from another unit's
//! inventory, listed by label.
//!
//! Items are known by their category; a unit holds at most one item of a
//! category and at most `capacity` items.
use vstd::prelude::*;
use crate::labels::{copy_label, label_rank, label_views, order_by_label};

verus! {

/// A unit's inventory: its capacity and the categories of its items, in
/// slot order.
pub struct InventorySlots {
    pub capacity: u32,
    pub item_categories: Vec<u32>,
}

/// A selected unit, its label (the bytes of the name it is listed under)
/// and its inventory, if it has one.
pub struct TransferUnit {
    pub unit: u64,
    pub label: Vec<u8>,
    pub inventory: Option<InventorySlots>,
}

/// Position of the first unit `unit` in `units`, or `units.len()`.
pub open spec fn position_of(units: Seq<TransferUnit>, unit: u64, i: int) -> int
    decreases units.len() - i,
{
    if i < 0 || i >= units.len() {
        units.len() as int
    } else if units[i].unit == unit {
        i
    } else {
        position_of(units, unit, i + 1)
    }
}

/// Category of the item being handed over: the item in `slot`, or the
/// first item when no slot is given; none when the source unit is not
/// selected, has no inventory or no such item.
pub open spec fn handed_category(units: Seq<TransferUnit>, source: u64, slot: Option<usize>) -> Option<u32> {
    let p = position_of(units, source, 0);
    if p >= units.len() {
        None
    } else {
        match units[p].inventory {
            None => None,
            Some(inv) => {
                let items = inv.item_categories@;
                let s: Option<int> = match slot {
                    Some(s) => Some(s as int),
                    None => if items.len() > 0 { Some(0int) } else { None },
                };
                match s {
                    Some(k) => if 0 <= k < items.len() { Some(items[k]) } else { None },
                    None => None,
                }
            },
        }
    }
}

/// Unit `u` can take an item of category `cat`: it is not the source, has
/// an inventory with room, and holds no item of that category.
pub open spec fn can_take(u: TransferUnit, source: u64, cat: u32) -> bool {
    &&& u.unit != source
    &&& u.inventory matches Some(inv)
    &&& inv.capacity > 0
    &&& inv.item_categories@.len() < inv.capacity
    &&& !inv.item_categories@.contains(cat)
}

/// Units among the first `n` that can take an item of category `cat`, in
/// selection order.
pub open spec fn takers(units: Seq<TransferUnit>, source: u64, cat: u32, n: int) -> Seq<u64>
    decreases n,
{
    if n <= 0 {
        Seq::empty()
    } else if can_take(units[n - 1], source, cat) {
        takers(units, source, cat, n - 1).push(units[n - 1].unit)
    } else {
        takers(units, source, cat, n - 1)
    }
}

/// Labels of the units among the first `n` that can take an item of
/// category `cat`, in selection order.
pub open spec fn taker_labels(units: Seq<TransferUnit>, source: u64, cat: u32, n: int) -> Seq<Seq<u8>>
    decreases n,
{
    if n <= 0 {
        Seq::empty()
    } else if can_take(units[n - 1], source, cat) {
        taker_labels(units, source, cat, n - 1).push(units[n - 1].label@)
    } else {
        taker_labels(units, source, cat, n - 1)
    }
}

proof fn lemma_takers_len(units: Seq<TransferUnit>, source: u64, cat: u32, n: int)
    ensures
        takers(units, source, cat, n).len() == taker_labels(units, source, cat, n).len(),
    decreases n,
{
    if n > 0 {
        lemma_takers_len(units, source, cat, n - 1);
    }
}

fn holds_category(items: &Vec<u32>, cat: u32) -> (r: bool)
    ensures
        r == items@.contains(cat),
{
    let mut i: usize = 0;
    while i < items.len()
        invariant
            i <= items@.len(),
            forall|j: int| 0 <= j < i ==> items@[j] != cat,
        decreases items@.len() - i,
    {
        if items[i] == cat {
            assert(items@[i as int] == cat);
            return true;
        }
        i += 1;
    }
    false
}

fn find_source(units: &Vec<TransferUnit>, source: u64) -> (p: usize)
    ensures
        p == position_of(units@, source, 0),
{
    let mut i: usize = 0;
    while i < units.len()
        invariant
            i <= units@.len(),
            position_of(units@, source, i as int) == position_of(units@, source, 0),
        decreases units@.len() - i,
    {
        if units[i].unit == source {
            return i;
        }
        i += 1;
    }
    i
}

/// The selected units the item in `slot` (or the first item) of unit
/// `source` could be handed to, in alphabetical order of their labels
/// (equal labels in selection order); empty when there is no such item.
pub fn transfer_targets(units: &Vec<TransferUnit>, source: u64, slot: Option<usize>) -> (r: Vec<u64>)
    ensures
        match handed_category(units@, source, slot) {
            Some(cat) => {
                let t = takers(units@, source, cat, units@.len() as int);
                &&& r@.len() == t.len()
                &&& forall|i: int|
                    0 <= i < t.len() ==> r@[#[trigger] label_rank(taker_labels(units@, source, cat, units@.len() as int), i)]
                        == t[i]
            },
            None => r@.len() == 0,
        },
{
    let p = find_source(units, source);
    if p >= units.len() {
        return Vec::new();
    }
    let cat = match &units[p].inventory {
        None => {
            return Vec::new();
        },
        Some(inv) => {
            let s = match slot {
                Some(s) => Some(s),
                None => if inv.item_categories.len() > 0 { Some(0usize) } else { None },
            };
            match s {
                Some(k) => {
                    if k < inv.item_categories.len() {
                        inv.item_categories[k]
                    } else {
                        return Vec::new();
                    }
                },
                None => {
                    return Vec::new();
                },
            }
        },
    };
    let mut ids: Vec<u64> = Vec::new();
    let mut labels: Vec<Vec<u8>> = Vec::new();
    let mut i: usize = 0;
    while i < units.len()
        invariant
            i <= units@.len(),
            handed_category(units@, source, slot) == Some(cat),
            ids@ == takers(units@, source, cat, i as int),
            label_views(labels@) == taker_labels(units@, source, cat, i as int),
        decreases units@.len() - i,
    {
        let u = &units[i];
        if u.unit != source {
            match &u.inventory {
                Some(inv) => {
                    if inv.capacity > 0 && inv.item_categories.len() < inv.capacity as usize
                        && !holds_category(&inv.item_categories, cat) {
                        ids.push(u.unit);
                        let ghost l0 = labels@;
                        labels.push(copy_label(&u.label));
                        proof {
                            assert(label_views(labels@) =~= label_views(l0).push(u.label@));
                        }
                    }
                },
                None => {},
            }
        }
        i += 1;
    }
    proof {
        lemma_takers_len(units@, source, cat, units@.len() as int);
    }
    order_by_label(&ids, &labels)
}

/// What the inventory section of a single selected unit shows.
#[derive(Clone, Copy, PartialEq, Eq, Debug)]
pub enum InventoryDetail {
    /// The unit shows no slots: no section at all.
    Hidden,
    /// The details of the item in this slot.
    Item(usize),
    /// "No items equipped."
    NoItems,
    /// "Select a filled slot to inspect its details."
    PickSlot,
}

/// The slot in focus: the one the player picked for this unit, while it is
/// one of the unit's slots; otherwise the first slot, when the unit holds
/// any item.
pub open spec fn focused_slot(capacity: usize, item_count: usize, picked: Option<usize>, picked_on_unit: bool) -> Option<usize> {
    match picked {
        Some(s) if picked_on_unit && s < capacity => Some(s),
        _ => if item_count == 0 {
            None
        } else {
            Some(0usize)
        },
    }
}

/// The inventory section of a single selected unit that shows `capacity`
/// slots and holds `item_count` items (in its first slots); `picked` is the
/// slot the player focused and `picked_on_unit` whether that focus was on
/// this unit.
pub fn inventory_detail(capacity: usize, item_count: usize, picked: Option<usize>, picked_on_unit: bool) -> (r: InventoryDetail)
    ensures
        r == if capacity == 0 {
            InventoryDetail::Hidden
        } else {
            match focused_slot(capacity, item_count, picked, picked_on_unit) {
                Some(s) if s < item_count => InventoryDetail::Item(s),
                _ => if item_count == 0 {
                    InventoryDetail::NoItems
                } else {
                    InventoryDetail::PickSlot
                },
            }
        },
{
    if capacity == 0 {
        return InventoryDetail::Hidden;
    }
    let focus = match picked {
        Some(s) => if picked_on_unit && s < capacity {
            Some(s)
        } else if item_count == 0 {
            None
        } else {
            Some(0usize)
        },
        None => if item_count == 0 {
            None
        } else {
            Some(0usize)
        },
    };
    match focus {
        Some(s) => if s < item_count {
            InventoryDetail::Item(s)
        } else if item_count == 0 {
            InventoryDetail::NoItems
        } else {
            InventoryDetail::PickSlot
        },
        None => if item_count == 0 {
            InventoryDetail::NoItems
        } else {
            InventoryDetail::PickSlot
        },
    }
}

/// Run-time state of an item slot.
#[derive(Clone, Copy, PartialEq, Eq, Debug)]
pub struct SlotRuntime {
    /// Its cooldown has time left.
    pub cooling_down: bool,
    pub enabled: bool,
    /// A toggled item that is switched on.
    pub active: bool,
}

/// Status line of a focused item.
#[derive(Clone, Copy, PartialEq, Eq, Debug)]
pub enum ItemStatus {
    Cooldown,
    Active,
    Ready,
    Disabled,
}

/// The focused item's status: cooling down first, then active or ready
/// when enabled, else disabled; ready when the slot has no run-time state.
pub fn item_status(runtime: Option<SlotRuntime>) -> (r: ItemStatus)
    ensures
        r == match runtime {
            None => ItemStatus::Ready,
            Some(rt) => if rt.cooling_down {
                ItemStatus::Cooldown
            } else if rt.enabled {
                if rt.active {
                    ItemStatus::Active
                } else {
                    ItemStatus::Ready
                }
            } else {
                ItemStatus::Disabled
            },
        },
{
    match runtime {
        None => ItemStatus::Ready,
        Some(rt) => if rt.cooling_down {
            ItemStatus::Cooldown
        } else if rt.enabled {
            if rt.active {
                ItemStatus::Active
            } else {
                ItemStatus::Ready
            }
        } else {
            ItemStatus::Disabled
        },
    }
}

} // verus!
