//! Stable sorting by a key preorder, used wherever all lockstep peers must
//! see the same order (terrain edits, spatial query results).
use vstd::prelude::*;

verus! {

broadcast use vstd::seq_lib::group_to_multiset_ensures;

/// Items ordered by a key: `key_le` is a total preorder (items with equal
/// keys are tied, and a stable sort keeps their input order).
pub trait SortKey: Copy + Sized {
    spec fn key_le(self, other: Self) -> bool;

    fn key_le_exec(&self, other: &Self) -> (r: bool)
        ensures
            r == self.key_le(*other),
    ;

    proof fn lemma_key_le_total(a: Self, b: Self)
        ensures
            a.key_le(b) || b.key_le(a),
    ;

    proof fn lemma_key_le_transitive(a: Self, b: Self, c: Self)
        requires
            a.key_le(b),
            b.key_le(c),
        ensures
            a.key_le(c),
    ;
}

/// Index of the first element of `s` at or after `i` whose key is greater
/// than the key of `x` (or `s.len()`).
pub open spec fn first_greater_from<T: SortKey>(s: Seq<T>, x: T, i: int) -> int
    decreases s.len() - i,
{
    if i < 0 || i >= s.len() {
        s.len() as int
    } else if s[i].key_le(x) {
        first_greater_from(s, x, i + 1)
    } else {
        i
    }
}

/// Inserts `x` after every leading element whose key is at most its own.
pub open spec fn insert_after_ties<T: SortKey>(s: Seq<T>, x: T) -> Seq<T> {
    s.insert(first_greater_from(s, x, 0), x)
}

/// Stable sort: each element in turn is inserted after the elements already
/// placed whose keys are not greater than its own.
pub open spec fn stable_sorted<T: SortKey>(s: Seq<T>) -> Seq<T>
    decreases s.len(),
{
    if s.len() == 0 {
        s
    } else {
        insert_after_ties(stable_sorted(s.drop_last()), s.last())
    }
}

pub open spec fn sorted_by_key<T: SortKey>(s: Seq<T>) -> bool {
    forall|i: int, j: int| 0 <= i < j < s.len() ==> #[trigger] s[i].key_le(#[trigger] s[j])
}

proof fn lemma_first_greater_bounds<T: SortKey>(s: Seq<T>, x: T, i: int)
    requires
        0 <= i <= s.len(),
    ensures
        i <= first_greater_from(s, x, i) <= s.len(),
        forall|k: int| i <= k < first_greater_from(s, x, i) ==> #[trigger] s[k].key_le(x),
        first_greater_from(s, x, i) < s.len() ==> !s[first_greater_from(s, x, i)].key_le(x),
    decreases s.len() - i,
{
    if i < s.len() && s[i].key_le(x) {
        lemma_first_greater_bounds(s, x, i + 1);
    }
}

proof fn lemma_insert_after_ties_sorted<T: SortKey>(s: Seq<T>, x: T)
    requires
        sorted_by_key(s),
    ensures
        sorted_by_key(insert_after_ties(s, x)),
        insert_after_ties(s, x).to_multiset() =~= s.to_multiset().insert(x),
{
    let p = first_greater_from(s, x, 0);
    lemma_first_greater_bounds(s, x, 0);
    let r = s.insert(p, x);
    vstd::seq_lib::to_multiset_insert(s, p, x);
    assert forall|i: int, j: int| 0 <= i < j < r.len() implies #[trigger] r[i].key_le(#[trigger] r[j]) by {
        if j < p {
            assert(r[i] == s[i] && r[j] == s[j]);
        } else if j == p {
            assert(r[i] == s[i]);
        } else if i == p {
            assert(r[j] == s[j - 1]);
            assert(!s[p].key_le(x));
            T::lemma_key_le_total(s[p], x);
            if j - 1 > p {
                T::lemma_key_le_transitive(x, s[p], s[j - 1]);
            }
        } else if i < p {
            assert(r[i] == s[i] && r[j] == s[j - 1]);
        } else {
            assert(r[i] == s[i - 1] && r[j] == s[j - 1]);
        }
    }
}

/// The stable sort orders by key and keeps every element.
pub proof fn lemma_stable_sorted_props<T: SortKey>(s: Seq<T>)
    ensures
        sorted_by_key(stable_sorted(s)),
        stable_sorted(s).to_multiset() =~= s.to_multiset(),
    decreases s.len(),
{
    if s.len() > 0 {
        lemma_stable_sorted_props(s.drop_last());
        lemma_insert_after_ties_sorted(stable_sorted(s.drop_last()), s.last());
        vstd::seq_lib::to_multiset_build(s.drop_last(), s.last());
        assert(s.drop_last().push(s.last()) =~= s);
    }
}

/// Sorts by key, keeping the input order of items with equal keys.
pub fn stable_sort<T: SortKey>(v: &mut Vec<T>)
    ensures
        final(v)@ == stable_sorted(old(v)@),
{
    let n = v.len();
    let mut out: Vec<T> = Vec::new();
    let mut i: usize = 0;
    while i < n
        invariant
            n == v@.len(),
            v@ == old(v)@,
            i <= n,
            out@ == stable_sorted(v@.take(i as int)),
        decreases n - i,
    {
        let x = v[i];
        let mut pos: usize = 0;
        while pos < out.len() && out[pos].key_le_exec(&x)
            invariant
                pos <= out@.len(),
                first_greater_from(out@, x, pos as int) == first_greater_from(out@, x, 0),
            decreases out@.len() - pos,
        {
            pos += 1;
        }
        proof {
            assert(v@.take(i + 1).drop_last() =~= v@.take(i as int));
            assert(v@.take(i + 1).last() == x);
            assert(first_greater_from(out@, x, pos as int) == pos as int);
        }
        out.insert(pos, x);
        i += 1;
    }
    assert(v@.take(n as int) =~= v@);
    *v = out;
}

/// Law: when no two different elements share a key, the sorted result does
/// not depend on the input order (only on the multiset of elements).
pub proof fn lemma_stable_sort_order_independent<T: SortKey>(a: Seq<T>, b: Seq<T>)
    requires
        a.to_multiset() == b.to_multiset(),
        forall|x: T, y: T|
            a.contains(x) && a.contains(y) && x.key_le(y) && y.key_le(x) ==> x == y,
    ensures
        stable_sorted(a) == stable_sorted(b),
{
    lemma_stable_sorted_props(a);
    lemma_stable_sorted_props(b);
    let sa = stable_sorted(a);
    assert forall|p: T, q: T|
        sa.contains(p) && sa.contains(q) && p.key_le(q) && q.key_le(p) implies p == q by {
        assert(sa.to_multiset().count(p) > 0);
        assert(sa.to_multiset().count(q) > 0);
        assert(a.contains(p));
        assert(a.contains(q));
    }
    lemma_sorted_same_elements_equal(stable_sorted(a), stable_sorted(b));
}

proof fn lemma_sorted_same_elements_equal<T: SortKey>(x: Seq<T>, y: Seq<T>)
    requires
        sorted_by_key(x),
        sorted_by_key(y),
        x.to_multiset() == y.to_multiset(),
        forall|p: T, q: T|
            x.contains(p) && x.contains(q) && p.key_le(q) && q.key_le(p) ==> p == q,
    ensures
        x =~= y,
    decreases x.len(),
{
    broadcast use vstd::multiset::group_multiset_axioms;

    if x.len() == 0 || y.len() == 0 {
        assert(x.len() == x.to_multiset().len());
        assert(y.len() == y.to_multiset().len());
    } else {
        assert(x.to_multiset().contains(x[0]));
        assert(y.to_multiset().contains(x[0]));
        assert(x.to_multiset().contains(y[0]));
        let i = choose|i: int| 0 <= i < y.len() && y[i] == x[0];
        let j = choose|j: int| 0 <= j < x.len() && x[j] == y[0];
        if i > 0 {
            assert(y[0].key_le(y[i]));
        }
        if j > 0 {
            assert(x[0].key_le(x[j]));
        }
        if i == 0 {
        } else {
            T::lemma_key_le_total(x[0], x[0]);
            assert(x.contains(x[0]) && x.contains(y[0]));
            if j == 0 {
            } else {
                assert(x[0] == y[0]);
            }
        }
        assert(x[0] == y[0]);
        vstd::seq_lib::to_multiset_remove(x, 0);
        vstd::seq_lib::to_multiset_remove(y, 0);
        assert(x.remove(0) =~= x.drop_first());
        assert(y.remove(0) =~= y.drop_first());
        assert forall|p: T, q: T|
            x.drop_first().contains(p) && x.drop_first().contains(q) && p.key_le(q) && q.key_le(p) implies p == q by {
            let ip = choose|k: int| 0 <= k < x.drop_first().len() && x.drop_first()[k] == p;
            let iq = choose|k: int| 0 <= k < x.drop_first().len() && x.drop_first()[k] == q;
            assert(x[ip + 1] == p);
            assert(x[iq + 1] == q);
        }
        lemma_sorted_same_elements_equal(x.drop_first(), y.drop_first());
        assert(x =~= seq![x[0]] + x.drop_first());
        assert(y =~= seq![y[0]] + y.drop_first());
    }
}

} // verus!
