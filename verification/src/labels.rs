//! Alphabetical order of display labels, given as their UTF-8 bytes:
//! labels compare byte by byte, a proper prefix first, as strings do; the
//! order is stable (equal labels keep their input order).
use vstd::prelude::*;

verus! {

/// Label `a` comes strictly before label `b`.
pub open spec fn label_lt(a: Seq<u8>, b: Seq<u8>) -> bool
    decreases a.len(),
{
    if b.len() == 0 {
        false
    } else if a.len() == 0 {
        true
    } else if a[0] != b[0] {
        a[0] < b[0]
    } else {
        label_lt(a.skip(1), b.skip(1))
    }
}

/// Position `j` comes before position `i` in the stable label order.
pub open spec fn placed_before(labels: Seq<Seq<u8>>, j: int, i: int) -> bool {
    label_lt(labels[j], labels[i]) || (labels[j] == labels[i] && j < i)
}

/// Number of positions among the first `n` placed before position `i`.
pub open spec fn count_before(labels: Seq<Seq<u8>>, i: int, n: int) -> int
    decreases n,
{
    if n <= 0 {
        0
    } else {
        count_before(labels, i, n - 1) + if placed_before(labels, n - 1, i) {
            1int
        } else {
            0int
        }
    }
}

/// The labels' bytes.
pub open spec fn label_views(labels: Seq<Vec<u8>>) -> Seq<Seq<u8>> {
    labels.map_values(|l: Vec<u8>| l@)
}

/// Where position `i` lands when the labels are put in order.
pub open spec fn label_rank(labels: Seq<Seq<u8>>, i: int) -> int {
    count_before(labels, i, labels.len() as int)
}

proof fn lemma_lt_irreflexive(a: Seq<u8>)
    ensures
        !label_lt(a, a),
    decreases a.len(),
{
    if a.len() > 0 {
        lemma_lt_irreflexive(a.skip(1));
    }
}

proof fn lemma_lt_asymmetric(a: Seq<u8>, b: Seq<u8>)
    ensures
        !(label_lt(a, b) && label_lt(b, a)),
    decreases a.len(),
{
    if a.len() > 0 && b.len() > 0 && a[0] == b[0] {
        lemma_lt_asymmetric(a.skip(1), b.skip(1));
    }
}

proof fn lemma_lt_transitive(a: Seq<u8>, b: Seq<u8>, c: Seq<u8>)
    requires
        label_lt(a, b),
        label_lt(b, c),
    ensures
        label_lt(a, c),
    decreases a.len(),
{
    if a.len() > 0 && b.len() > 0 && c.len() > 0 && a[0] == b[0] && b[0] == c[0] {
        lemma_lt_transitive(a.skip(1), b.skip(1), c.skip(1));
    }
}

proof fn lemma_lt_total(a: Seq<u8>, b: Seq<u8>)
    ensures
        a == b || label_lt(a, b) || label_lt(b, a),
    decreases a.len(),
{
    if a.len() > 0 && b.len() > 0 && a[0] == b[0] {
        lemma_lt_total(a.skip(1), b.skip(1));
        if a.skip(1) == b.skip(1) {
            assert(a =~= seq![a[0]] + a.skip(1));
            assert(b =~= seq![b[0]] + b.skip(1));
        }
    } else if a.len() == 0 && b.len() == 0 {
        assert(a =~= b);
    }
}

/// A position placed before `i` is placed before every position `i` is
/// placed before.
proof fn lemma_placed_before_transitive(labels: Seq<Seq<u8>>, k: int, i: int, j: int)
    requires
        placed_before(labels, k, i),
        placed_before(labels, i, j),
    ensures
        placed_before(labels, k, j),
{
    if label_lt(labels[k], labels[i]) && label_lt(labels[i], labels[j]) {
        lemma_lt_transitive(labels[k], labels[i], labels[j]);
    }
}

proof fn lemma_count_before_bounds(labels: Seq<Seq<u8>>, i: int, n: int)
    requires
        0 <= n,
    ensures
        0 <= count_before(labels, i, n) <= n,
    decreases n,
{
    if n > 0 {
        lemma_count_before_bounds(labels, i, n - 1);
    }
}

/// If `i` is placed before `j`, fewer positions are placed before `i`.
proof fn lemma_count_before_strict(labels: Seq<Seq<u8>>, i: int, j: int, n: int)
    requires
        placed_before(labels, i, j),
        0 <= i < n,
    ensures
        count_before(labels, i, n) < count_before(labels, j, n),
    decreases n,
{
    lemma_count_before_mono(labels, i, j, n - 1);
    if i < n - 1 {
        lemma_count_before_strict(labels, i, j, n - 1);
    } else {
        lemma_placed_not_self(labels, i);
    }
    if placed_before(labels, n - 1, i) {
        lemma_placed_before_transitive(labels, n - 1, i, j);
    }
}

proof fn lemma_count_before_mono(labels: Seq<Seq<u8>>, i: int, j: int, n: int)
    requires
        placed_before(labels, i, j),
    ensures
        count_before(labels, i, n) <= count_before(labels, j, n),
    decreases n,
{
    if n > 0 {
        lemma_count_before_mono(labels, i, j, n - 1);
        if placed_before(labels, n - 1, i) {
            lemma_placed_before_transitive(labels, n - 1, i, j);
        }
    }
}

proof fn lemma_placed_not_self(labels: Seq<Seq<u8>>, i: int)
    ensures
        !placed_before(labels, i, i),
{
    lemma_lt_irreflexive(labels[i]);
}

/// Two different positions are ordered one way or the other.
proof fn lemma_placed_total(labels: Seq<Seq<u8>>, i: int, j: int)
    requires
        i != j,
    ensures
        placed_before(labels, i, j) || placed_before(labels, j, i),
{
    lemma_lt_total(labels[i], labels[j]);
}

/// The ranks of the positions are distinct and below the number of labels.
pub proof fn lemma_ranks_distinct(labels: Seq<Seq<u8>>, i: int, j: int)
    requires
        0 <= i < labels.len(),
        0 <= j < labels.len(),
        i != j,
    ensures
        label_rank(labels, i) != label_rank(labels, j),
        0 <= label_rank(labels, i) < labels.len(),
{
    lemma_placed_total(labels, i, j);
    if placed_before(labels, i, j) {
        lemma_count_before_strict(labels, i, j, labels.len() as int);
    } else {
        lemma_count_before_strict(labels, j, i, labels.len() as int);
    }
    lemma_rank_bound(labels, i);
}

/// The rank of a position is below the number of labels.
pub proof fn lemma_rank_bound(labels: Seq<Seq<u8>>, i: int)
    requires
        0 <= i < labels.len(),
    ensures
        0 <= label_rank(labels, i) < labels.len(),
{
    lemma_count_skip_self(labels, i, labels.len() as int);
}

proof fn lemma_count_skip_self(labels: Seq<Seq<u8>>, i: int, n: int)
    requires
        0 <= i < n,
    ensures
        0 <= count_before(labels, i, n) < n,
    decreases n,
{
    if i < n - 1 {
        lemma_count_skip_self(labels, i, n - 1);
    } else {
        lemma_count_before_bounds(labels, i, n - 1);
        lemma_placed_not_self(labels, i);
    }
}

/// Whether label `a` comes strictly before label `b`.
pub fn label_less(a: &Vec<u8>, b: &Vec<u8>) -> (r: bool)
    ensures
        r == label_lt(a@, b@),
{
    let mut k: usize = 0;
    assert(a@.skip(0) =~= a@ && b@.skip(0) =~= b@);
    while k < a.len() && k < b.len() && a[k] == b[k]
        invariant
            k <= a@.len(),
            k <= b@.len(),
            label_lt(a@, b@) == label_lt(a@.skip(k as int), b@.skip(k as int)),
        decreases a@.len() - k,
    {
        proof {
            let sa = a@.skip(k as int);
            let sb = b@.skip(k as int);
            assert(sa.skip(1) =~= a@.skip(k + 1));
            assert(sb.skip(1) =~= b@.skip(k + 1));
            assert(sa[0] == a@[k as int] && sb[0] == b@[k as int]);
        }
        k += 1;
    }
    proof {
        let sa = a@.skip(k as int);
        let sb = b@.skip(k as int);
        if k < a@.len() && k < b@.len() {
            assert(sa[0] == a@[k as int] && sb[0] == b@[k as int]);
        }
    }
    if k == b.len() {
        false
    } else if k == a.len() {
        true
    } else {
        a[k] < b[k]
    }
}

/// The positions of `labels` in stable alphabetical order: position `i`
/// appears at index `label_rank(labels, i)`.
pub fn label_order(labels: &Vec<Vec<u8>>) -> (r: Vec<usize>)
    ensures
        r@.len() == labels@.len(),
        forall|k: int| 0 <= k < r@.len() ==> #[trigger] r@[k] < labels@.len(),
        forall|i: int|
            0 <= i < labels@.len() ==> r@[#[trigger] label_rank(label_views(labels@), i)] == i,
{
    let ghost ls = label_views(labels@);
    let n = labels.len();
    let mut r: Vec<usize> = Vec::new();
    while r.len() < n
        invariant
            r@.len() <= n,
            forall|k: int| 0 <= k < r@.len() ==> #[trigger] r@[k] < n,
        decreases n - r@.len(),
    {
        r.push(0);
    }
    let mut i: usize = 0;
    while i < n
        invariant
            n == labels@.len(),
            ls == label_views(labels@),
            r@.len() == n,
            i <= n,
            forall|k: int| 0 <= k < r@.len() ==> #[trigger] r@[k] < n,
            forall|k: int| 0 <= k < i ==> r@[#[trigger] label_rank(ls, k)] == k,
        decreases n - i,
    {
        let mut rank: usize = 0;
        let mut j: usize = 0;
        while j < n
            invariant
                n == labels@.len(),
                ls == label_views(labels@),
                i < n,
                j <= n,
                rank == count_before(ls, i as int, j as int),
                rank <= j,
            decreases n - j,
        {
            proof {
                assert(ls[j as int] == labels@[j as int]@);
                assert(ls[i as int] == labels@[i as int]@);
            }
            let before = label_less(&labels[j], &labels[i]) || (j < i && labels_equal(&labels[j], &labels[i]));
            if before {
                rank += 1;
            }
            j += 1;
        }
        proof {
            lemma_rank_bound(ls, i as int);
            assert forall|k: int| 0 <= k < i implies r@.update(rank as int, i)[#[trigger] label_rank(ls, k)] == k by {
                lemma_ranks_distinct(ls, k, i as int);
            }
        }
        r.set(rank, i);
        i += 1;
    }
    r
}

pub(crate) fn labels_equal(a: &Vec<u8>, b: &Vec<u8>) -> (r: bool)
    ensures
        r == (a@ == b@),
{
    if a.len() != b.len() {
        return false;
    }
    let mut k: usize = 0;
    while k < a.len()
        invariant
            a@.len() == b@.len(),
            k <= a@.len(),
            forall|m: int| 0 <= m < k ==> a@[m] == b@[m],
        decreases a@.len() - k,
    {
        if a[k] != b[k] {
            return false;
        }
        k += 1;
    }
    assert(a@ =~= b@);
    true
}

/// `ids` reordered by their labels (`labels[i]` is the label of `ids[i]`),
/// alphabetically and stably: `ids[i]` lands at `label_rank(labels, i)`.
pub fn order_by_label(ids: &Vec<u64>, labels: &Vec<Vec<u8>>) -> (r: Vec<u64>)
    requires
        ids@.len() == labels@.len(),
    ensures
        r@.len() == ids@.len(),
        forall|i: int| 0 <= i < ids@.len() ==> r@[#[trigger] label_rank(label_views(labels@), i)] == ids@[i],
{
    let order = label_order(labels);
    let mut out: Vec<u64> = Vec::new();
    let mut k: usize = 0;
    while k < order.len()
        invariant
            order@.len() == labels@.len(),
            ids@.len() == labels@.len(),
            forall|m: int| 0 <= m < order@.len() ==> #[trigger] order@[m] < labels@.len(),
            k <= order@.len(),
            out@.len() == k,
            forall|m: int| 0 <= m < k ==> out@[m] == ids@[order@[m] as int],
        decreases order@.len() - k,
    {
        out.push(ids[order[k]]);
        k += 1;
    }
    proof {
        assert forall|i: int| 0 <= i < ids@.len() implies out@[#[trigger] label_rank(label_views(labels@), i)] == ids@[i] by {
            lemma_rank_bound(label_views(labels@), i);
            assert(order@[label_rank(label_views(labels@), i)] == i);
        }
    }
    out
}

/// A copy of a label.
pub(crate) fn copy_label(v: &Vec<u8>) -> (r: Vec<u8>)
    ensures
        r@ == v@,
{
    let mut r: Vec<u8> = Vec::new();
    let mut k: usize = 0;
    while k < v.len()
        invariant
            k <= v@.len(),
            r@ == v@.take(k as int),
        decreases v@.len() - k,
    {
        r.push(v[k]);
        proof {
            assert(v@.take(k + 1) =~= v@.take(k as int).push(v@[k as int]));
        }
        k += 1;
    }
    assert(v@.take(v@.len() as int) =~= v@);
    r
}

} // verus!
