//! The command-queue panel groups selected units whose command queues read
//! the same: one row per distinct description, rows in alphabetical order
//! of the description, each with its first unit and the number of units.
//!
//! A description is given as bytes (the unit's name, its active order and
//! its queued orders, as the caller writes them).
use vstd::prelude::*;
use crate::labels::{copy_label, label_order, label_rank, label_views, labels_equal};

verus! {

/// One row: the first selected unit with the description, and how many
/// selected units share it.
#[derive(Clone, Copy, PartialEq, Eq, Debug)]
pub struct QueueRow {
    pub representative: u64,
    pub count: usize,
}

/// The distinct descriptions among the first `n`, in order of first
/// appearance.
pub open spec fn distinct_keys(keys: Seq<Seq<u8>>, n: int) -> Seq<Seq<u8>>
    decreases n,
{
    if n <= 0 {
        Seq::empty()
    } else {
        let prev = distinct_keys(keys, n - 1);
        if prev.contains(keys[n - 1]) {
            prev
        } else {
            prev.push(keys[n - 1])
        }
    }
}

/// Number of the first `n` descriptions equal to `k`.
pub open spec fn key_count(keys: Seq<Seq<u8>>, k: Seq<u8>, n: int) -> nat
    decreases n,
{
    if n <= 0 {
        0
    } else {
        key_count(keys, k, n - 1) + if keys[n - 1] == k {
            1nat
        } else {
            0nat
        }
    }
}

/// `e` is the unit at the first position with description `k`.
pub open spec fn first_with_key(ids: Seq<u64>, keys: Seq<Seq<u8>>, k: Seq<u8>, e: u64) -> bool {
    exists|j: int| 0 <= j < keys.len() && keys[j] == k && ids[j] == e && forall|m: int| 0 <= m < j ==> keys[m] != k
}

proof fn lemma_distinct_keys_cover(keys: Seq<Seq<u8>>, n: int, j: int)
    requires
        0 <= j < n <= keys.len(),
    ensures
        distinct_keys(keys, n).contains(keys[j]),
    decreases n,
{
    let prev = distinct_keys(keys, n - 1);
    if j < n - 1 {
        lemma_distinct_keys_cover(keys, n - 1, j);
        let q = choose|q: int| 0 <= q < prev.len() && prev[q] == keys[j];
        assert(distinct_keys(keys, n)[q] == keys[j]);
    } else if !prev.contains(keys[j]) {
        assert(distinct_keys(keys, n).last() == keys[j]);
    }
}

proof fn lemma_distinct_keys_unique(keys: Seq<Seq<u8>>, n: int)
    ensures
        distinct_keys(keys, n).no_duplicates(),
    decreases n,
{
    if n > 0 {
        lemma_distinct_keys_unique(keys, n - 1);
    }
}

proof fn lemma_absent_key_count(keys: Seq<Seq<u8>>, k: Seq<u8>, n: int)
    requires
        0 <= n <= keys.len(),
        forall|j: int| 0 <= j < n ==> keys[j] != k,
    ensures
        key_count(keys, k, n) == 0,
    decreases n,
{
    if n > 0 {
        lemma_absent_key_count(keys, k, n - 1);
    }
}

/// Groups the selected units (`ids[i]` with description `keys[i]`) into
/// rows: one per distinct description, the row of the `i`-th distinct
/// description in order of first appearance landing at its alphabetical
/// position `label_rank(distinct_keys(..), i)`.
pub fn group_by_queue(ids: &Vec<u64>, keys: &Vec<Vec<u8>>) -> (r: Vec<QueueRow>)
    requires
        ids@.len() == keys@.len(),
    ensures
        ({
            let d = distinct_keys(label_views(keys@), keys@.len() as int);
            &&& r@.len() == d.len()
            &&& forall|i: int|
                0 <= i < d.len() ==> {
                    &&& first_with_key(ids@, label_views(keys@), d[i], (#[trigger] r@[label_rank(d, i)]).representative)
                    &&& r@[label_rank(d, i)].count == key_count(label_views(keys@), d[i], keys@.len() as int)
                }
        }),
{
    let ghost ks = label_views(keys@);
    let mut row_keys: Vec<Vec<u8>> = Vec::new();
    let mut rows: Vec<QueueRow> = Vec::new();
    let mut n: usize = 0;
    while n < keys.len()
        invariant
            ids@.len() == keys@.len(),
            ks == label_views(keys@),
            n <= keys@.len(),
            label_views(row_keys@) == distinct_keys(ks, n as int),
            rows@.len() == row_keys@.len(),
            rows@.len() <= n,
            forall|i: int|
                0 <= i < rows@.len() ==> {
                    &&& first_with_key(ids@, ks, row_keys@[i]@, (#[trigger] rows@[i]).representative)
                    &&& rows@[i].count == key_count(ks, row_keys@[i]@, n as int)
                },
        decreases keys@.len() - n,
    {
        let ghost d0 = distinct_keys(ks, n as int);
        proof {
            lemma_distinct_keys_unique(ks, n as int);
            assert(ks[n as int] == keys@[n as int]@);
        }
        let mut p: usize = 0;
        while p < row_keys.len() && !labels_equal(&row_keys[p], &keys[n])
            invariant
                n < keys@.len(),
                p <= row_keys@.len(),
                forall|q: int| 0 <= q < p ==> row_keys@[q]@ != keys@[n as int]@,
            decreases row_keys@.len() - p,
        {
            p += 1;
        }
        let ghost rows0 = rows@;
        let ghost rk0 = row_keys@;
        if p < row_keys.len() {
            let row = rows[p];
            proof {
                assert(label_views(rk0)[p as int] == rk0[p as int]@);
                assert(d0.contains(ks[n as int]));
                assert(rows0[p as int].count <= n) by {
                    lemma_key_count_bound(ks, rk0[p as int]@, n as int);
                }
            }
            rows.set(p, QueueRow { representative: row.representative, count: row.count + 1 });
            proof {
                assert forall|i: int| 0 <= i < rows@.len() implies {
                    &&& first_with_key(ids@, ks, row_keys@[i]@, (#[trigger] rows@[i]).representative)
                    &&& rows@[i].count == key_count(ks, row_keys@[i]@, n + 1)
                } by {
                    if i != p {
                        assert(rows@[i] == rows0[i]);
                        assert(label_views(rk0)[i] == rk0[i]@);
                        assert(rk0[i]@ != rk0[p as int]@) by {
                            assert(d0[i] != d0[p as int]);
                        }
                    }
                }
                assert(distinct_keys(ks, n + 1) == d0);
            }
        } else {
            proof {
                assert forall|q: int| 0 <= q < d0.len() implies d0[q] != ks[n as int] by {
                    assert(label_views(rk0)[q] == rk0[q]@);
                }
                assert(!d0.contains(ks[n as int]));
                assert forall|j: int| 0 <= j < n implies ks[j] != ks[n as int] by {
                    lemma_distinct_keys_cover(ks, n as int, j);
                }
                lemma_absent_key_count(ks, ks[n as int], n as int);
                assert(first_with_key(ids@, ks, ks[n as int], ids@[n as int]));
            }
            row_keys.push(copy_label(&keys[n]));
            rows.push(QueueRow { representative: ids[n], count: 1 });
            proof {
                assert(label_views(row_keys@) =~= label_views(rk0).push(keys@[n as int]@));
                assert forall|i: int| 0 <= i < rows@.len() implies {
                    &&& first_with_key(ids@, ks, row_keys@[i]@, (#[trigger] rows@[i]).representative)
                    &&& rows@[i].count == key_count(ks, row_keys@[i]@, n + 1)
                } by {
                    if i < rows0.len() {
                        assert(rows@[i] == rows0[i]);
                        assert(row_keys@[i] == rk0[i]);
                        assert(label_views(rk0)[i] == rk0[i]@);
                        assert(rk0[i]@ != ks[n as int]);
                    }
                }
            }
        }
        n += 1;
    }
    proof {
        assert(ks.len() == keys@.len());
    }
    let order = label_order(&row_keys);
    let mut out: Vec<QueueRow> = Vec::new();
    let mut k: usize = 0;
    while k < order.len()
        invariant
            order@.len() == row_keys@.len(),
            rows@.len() == row_keys@.len(),
            forall|m: int| 0 <= m < order@.len() ==> #[trigger] order@[m] < row_keys@.len(),
            k <= order@.len(),
            out@.len() == k,
            forall|m: int| 0 <= m < k ==> out@[m] == rows@[order@[m] as int],
        decreases order@.len() - k,
    {
        out.push(rows[order[k]]);
        k += 1;
    }
    proof {
        let d = distinct_keys(ks, keys@.len() as int);
        assert forall|i: int| 0 <= i < d.len() implies {
            &&& first_with_key(ids@, ks, d[i], (#[trigger] out@[label_rank(d, i)]).representative)
            &&& out@[label_rank(d, i)].count == key_count(ks, d[i], keys@.len() as int)
        } by {
            crate::labels::lemma_rank_bound(d, i);
            assert(order@[label_rank(label_views(row_keys@), i)] == i);
            assert(label_views(row_keys@)[i] == row_keys@[i]@);
        }
    }
    out
}

proof fn lemma_key_count_bound(keys: Seq<Seq<u8>>, k: Seq<u8>, n: int)
    requires
        0 <= n,
    ensures
        key_count(keys, k, n) <= n,
    decreases n,
{
    if n > 0 {
        lemma_key_count_bound(keys, k, n - 1);
    }
}

} // verus!
