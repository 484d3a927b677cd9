//! Grouping of the selection panel: selected units (or buildings) are shown
//! in one group per kind, kinds in order of their first selected member;
//! buildings in selection order, units alphabetically by name.
use vstd::prelude::*;
use crate::labels::{copy_label, label_rank, label_views, order_by_label};

verus! {

/// The selected entities of one kind.
#[derive(Clone, Debug)]
pub struct KindGroup {
    pub kind: u32,
    pub ids: Vec<u64>,
}

/// Kinds of `items` (entity id, kind) in order of first appearance, each
/// once.
pub open spec fn kinds_in_order(items: Seq<(u64, u32)>) -> Seq<u32>
    decreases items.len(),
{
    if items.len() == 0 {
        Seq::empty()
    } else {
        let prev = kinds_in_order(items.drop_last());
        if prev.contains(items.last().1) {
            prev
        } else {
            prev.push(items.last().1)
        }
    }
}

/// Ids of the items of kind `k`, in order.
pub open spec fn ids_of_kind(items: Seq<(u64, u32)>, k: u32) -> Seq<u64>
    decreases items.len(),
{
    if items.len() == 0 {
        Seq::empty()
    } else {
        let prev = ids_of_kind(items.drop_last(), k);
        if items.last().1 == k {
            prev.push(items.last().0)
        } else {
            prev
        }
    }
}

proof fn lemma_absent_kind_has_no_ids(items: Seq<(u64, u32)>, k: u32)
    requires
        !kinds_in_order(items).contains(k),
    ensures
        ids_of_kind(items, k) == Seq::<u64>::empty(),
    decreases items.len(),
{
    if items.len() > 0 {
        let prev = kinds_in_order(items.drop_last());
        if prev.contains(k) {
            let j = choose|j: int| 0 <= j < prev.len() && prev[j] == k;
            if !prev.contains(items.last().1) {
                assert(kinds_in_order(items)[j] == k);
            } else {
                assert(kinds_in_order(items)[j] == k);
            }
        }
        if !prev.contains(items.last().1) {
            assert(kinds_in_order(items).last() == items.last().1);
        }
        lemma_absent_kind_has_no_ids(items.drop_last(), k);
    }
}

proof fn lemma_kinds_distinct(items: Seq<(u64, u32)>)
    ensures
        kinds_in_order(items).no_duplicates(),
    decreases items.len(),
{
    if items.len() > 0 {
        lemma_kinds_distinct(items.drop_last());
    }
}

/// Groups the selected entities by kind: one group per kind, kinds in order
/// of their first entity, each group's ids in selection order.
pub fn group_by_kind(items: &Vec<(u64, u32)>) -> (r: Vec<KindGroup>)
    ensures
        r@.len() == kinds_in_order(items@).len(),
        forall|i: int|
            0 <= i < r@.len() ==> #[trigger] r@[i].kind == kinds_in_order(items@)[i] && r@[i].ids@ == ids_of_kind(
                items@,
                r@[i].kind,
            ),
{
    let mut groups: Vec<KindGroup> = Vec::new();
    let mut n: usize = 0;
    while n < items.len()
        invariant
            n <= items@.len(),
            groups@.len() == kinds_in_order(items@.take(n as int)).len(),
            forall|i: int|
                0 <= i < groups@.len() ==> #[trigger] groups@[i].kind == kinds_in_order(items@.take(n as int))[i]
                    && groups@[i].ids@ == ids_of_kind(items@.take(n as int), groups@[i].kind),
        decreases items@.len() - n,
    {
        let (e, k) = items[n];
        let ghost pre = items@.take(n as int);
        let ghost post = items@.take(n + 1);
        proof {
            assert(post.drop_last() =~= pre);
            assert(post.last() == (e, k));
            lemma_kinds_distinct(pre);
        }
        let mut p: usize = 0;
        while p < groups.len() && groups[p].kind != k
            invariant
                p <= groups@.len(),
                forall|i: int| 0 <= i < p ==> groups@[i].kind != k,
            decreases groups@.len() - p,
        {
            p += 1;
        }
        let ghost g0 = groups@;
        if p < groups.len() {
            proof {
                assert(kinds_in_order(pre)[p as int] == k);
                assert(kinds_in_order(pre).contains(k));
                assert(kinds_in_order(post) == kinds_in_order(pre));
            }
            let mut g = groups.remove(p);
            g.ids.push(e);
            groups.insert(p, g);
            proof {
                assert forall|i: int| 0 <= i < groups@.len() implies #[trigger] groups@[i].kind == kinds_in_order(post)[i]
                    && groups@[i].ids@ == ids_of_kind(post, groups@[i].kind) by {
                    if i != p {
                        assert(groups@[i] == g0[i]);
                        assert(g0[i].kind != k) by {
                            assert(kinds_in_order(pre)[i] != kinds_in_order(pre)[p as int]);
                        }
                    } else {
                        assert(groups@[i].ids@ == g0[i].ids@.push(e));
                    }
                }
            }
        } else {
            proof {
                assert forall|j: int| 0 <= j < kinds_in_order(pre).len() implies kinds_in_order(pre)[j] != k by {
                    assert(g0[j].kind == kinds_in_order(pre)[j]);
                }
                assert(!kinds_in_order(pre).contains(k));
                lemma_absent_kind_has_no_ids(pre, k);
            }
            let mut ids: Vec<u64> = Vec::new();
            ids.push(e);
            groups.push(KindGroup { kind: k, ids });
            proof {
                assert forall|i: int| 0 <= i < groups@.len() implies #[trigger] groups@[i].kind == kinds_in_order(post)[i]
                    && groups@[i].ids@ == ids_of_kind(post, groups@[i].kind) by {
                    if i < g0.len() {
                        assert(groups@[i] == g0[i]);
                        assert(g0[i].kind != k);
                    } else {
                        assert(ids_of_kind(post, k) =~= seq![e]);
                    }
                }
            }
        }
        n += 1;
    }
    assert(items@.take(items@.len() as int) =~= items@);
    groups
}

/// Law: every selected entity is shown, in the group of its kind.
pub proof fn lemma_every_item_grouped(items: Seq<(u64, u32)>, i: int)
    requires
        0 <= i < items.len(),
    ensures
        kinds_in_order(items).contains(items[i].1),
        ids_of_kind(items, items[i].1).contains(items[i].0),
    decreases items.len(),
{
    let prev = items.drop_last();
    let k = items.last().1;
    if i == items.len() - 1 {
        if !kinds_in_order(prev).contains(k) {
            assert(kinds_in_order(items).last() == k);
        }
        assert(ids_of_kind(items, k).last() == items[i].0);
    } else {
        lemma_every_item_grouped(prev, i);
        assert(prev[i] == items[i]);
        let kinds0 = kinds_in_order(prev);
        let j = choose|j: int| 0 <= j < kinds0.len() && kinds0[j] == items[i].1;
        assert(kinds_in_order(items)[j] == items[i].1);
        let ids0 = ids_of_kind(prev, items[i].1);
        let m = choose|m: int| 0 <= m < ids0.len() && ids0[m] == items[i].0;
        assert(ids_of_kind(items, items[i].1)[m] == items[i].0);
    }
}

/// Labels of the items of kind `k`, in order (`labels[i]` belongs to
/// `items[i]`).
pub open spec fn labels_of_kind(items: Seq<(u64, u32)>, labels: Seq<Seq<u8>>, k: u32) -> Seq<Seq<u8>>
    decreases items.len(),
{
    if items.len() == 0 {
        Seq::empty()
    } else {
        let prev = labels_of_kind(items.drop_last(), labels.drop_last(), k);
        if items.last().1 == k {
            prev.push(labels.last())
        } else {
            prev
        }
    }
}

proof fn lemma_labels_of_kind_len(items: Seq<(u64, u32)>, labels: Seq<Seq<u8>>, k: u32)
    requires
        items.len() == labels.len(),
    ensures
        labels_of_kind(items, labels, k).len() == ids_of_kind(items, k).len(),
    decreases items.len(),
{
    if items.len() > 0 {
        lemma_labels_of_kind_len(items.drop_last(), labels.drop_last(), k);
    }
}

/// Labels of the items of kind `k`.
fn kind_labels(items: &Vec<(u64, u32)>, labels: &Vec<Vec<u8>>, k: u32) -> (r: Vec<Vec<u8>>)
    requires
        items@.len() == labels@.len(),
    ensures
        label_views(r@) == labels_of_kind(items@, label_views(labels@), k),
{
    let mut out: Vec<Vec<u8>> = Vec::new();
    let mut j: usize = 0;
    while j < items.len()
        invariant
            items@.len() == labels@.len(),
            j <= items@.len(),
            label_views(out@) == labels_of_kind(items@.take(j as int), label_views(labels@).take(j as int), k),
        decreases items@.len() - j,
    {
        proof {
            assert(items@.take(j + 1).drop_last() =~= items@.take(j as int));
            assert(label_views(labels@).take(j + 1).drop_last() =~= label_views(labels@).take(j as int));
            assert(label_views(labels@).take(j + 1).last() == labels@[j as int]@);
        }
        if items[j].1 == k {
            let ghost o0 = out@;
            out.push(copy_label(&labels[j]));
            proof {
                assert(label_views(out@) =~= label_views(o0).push(labels@[j as int]@));
            }
        }
        j += 1;
    }
    assert(items@.take(items@.len() as int) =~= items@);
    assert(label_views(labels@).take(items@.len() as int) =~= label_views(labels@));
    out
}

/// Groups the selected units by kind, kinds in order of their first unit,
/// and lists each group's units alphabetically by label (`labels[i]` is the
/// label of `items[i]`; equal labels keep selection order).
pub fn group_units_by_kind(items: &Vec<(u64, u32)>, labels: &Vec<Vec<u8>>) -> (r: Vec<KindGroup>)
    requires
        items@.len() == labels@.len(),
    ensures
        r@.len() == kinds_in_order(items@).len(),
        forall|i: int|
            0 <= i < r@.len() ==> {
                let k = kinds_in_order(items@)[i];
                &&& (#[trigger] r@[i]).kind == k
                &&& r@[i].ids@.len() == ids_of_kind(items@, k).len()
                &&& forall|m: int|
                    0 <= m < ids_of_kind(items@, k).len() ==> r@[i].ids@[#[trigger] label_rank(
                        labels_of_kind(items@, label_views(labels@), k),
                        m,
                    )] == ids_of_kind(items@, k)[m]
            },
{
    let groups = group_by_kind(items);
    let mut out: Vec<KindGroup> = Vec::new();
    let mut i: usize = 0;
    while i < groups.len()
        invariant
            items@.len() == labels@.len(),
            groups@.len() == kinds_in_order(items@).len(),
            forall|q: int|
                0 <= q < groups@.len() ==> #[trigger] groups@[q].kind == kinds_in_order(items@)[q] && groups@[q].ids@
                    == ids_of_kind(items@, groups@[q].kind),
            i <= groups@.len(),
            out@.len() == i,
            forall|q: int|
                0 <= q < i ==> {
                    let k = kinds_in_order(items@)[q];
                    &&& (#[trigger] out@[q]).kind == k
                    &&& out@[q].ids@.len() == ids_of_kind(items@, k).len()
                    &&& forall|m: int|
                        0 <= m < ids_of_kind(items@, k).len() ==> out@[q].ids@[#[trigger] label_rank(
                            labels_of_kind(items@, label_views(labels@), k),
                            m,
                        )] == ids_of_kind(items@, k)[m]
                },
        decreases groups@.len() - i,
    {
        let k = groups[i].kind;
        let group_labels = kind_labels(items, labels, k);
        proof {
            assert(groups@[i as int].kind == kinds_in_order(items@)[i as int]);
            lemma_labels_of_kind_len(items@, label_views(labels@), k);
        }
        let sorted = order_by_label(&groups[i].ids, &group_labels);
        let ghost o0 = out@;
        out.push(KindGroup { kind: k, ids: sorted });
        proof {
            assert forall|q: int| 0 <= q < i + 1 implies {
                let kq = kinds_in_order(items@)[q];
                &&& (#[trigger] out@[q]).kind == kq
                &&& out@[q].ids@.len() == ids_of_kind(items@, kq).len()
                &&& forall|m: int|
                    0 <= m < ids_of_kind(items@, kq).len() ==> out@[q].ids@[#[trigger] label_rank(
                        labels_of_kind(items@, label_views(labels@), kq),
                        m,
                    )] == ids_of_kind(items@, kq)[m]
            } by {
                if q < i {
                    assert(out@[q] == o0[q]);
                }
            }
        }
        i += 1;
    }
    out
}

} // verus!
