//! Binary min-heap of `(priority, cell)` entries, used as the open set of the
//! A* search. Entries are ordered lexicographically, so the entry that comes
//! out first is fully determined by the contents of the set.
use vstd::prelude::*;
use vstd::multiset::Multiset;

verus! {

broadcast use vstd::seq_lib::group_to_multiset_ensures;

/// Lexicographic order on `(priority, cell)` entries.
pub open spec fn entry_le(a: (u64, usize), b: (u64, usize)) -> bool {
    a.0 < b.0 || (a.0 == b.0 && a.1 <= b.1)
}

fn entry_le_exec(a: (u64, usize), b: (u64, usize)) -> (r: bool)
    ensures
        r == entry_le(a, b),
{
    a.0 < b.0 || (a.0 == b.0 && a.1 <= b.1)
}

pub open spec fn heap_parent(i: int) -> int {
    (i - 1) / 2
}

pub struct OpenSet {
    items: Vec<(u64, usize)>,
}

impl View for OpenSet {
    type V = Multiset<(u64, usize)>;

    closed spec fn view(&self) -> Multiset<(u64, usize)> {
        self.items@.to_multiset()
    }
}

proof fn lemma_swap_multiset(s: Seq<(u64, usize)>, i: int, j: int)
    requires
        0 <= i < s.len(),
        0 <= j < s.len(),
    ensures
        s.update(i, s[j]).update(j, s[i]).to_multiset() =~= s.to_multiset(),
{
    broadcast use vstd::seq_lib::to_multiset_update;
    broadcast use vstd::multiset::group_multiset_axioms;

    let s1 = s.update(i, s[j]);
    assert(s1.to_multiset() =~= s.to_multiset().insert(s[j]).remove(s[i]));
    assert(s1.update(j, s[i]).to_multiset() =~= s1.to_multiset().insert(s[i]).remove(s1[j]));
    if i == j {
        assert(s1[j] == s[i]);
    } else {
        assert(s1[j] == s[j]);
    }
}

impl OpenSet {
    /// Heap order: no entry is smaller than its parent.
    pub closed spec fn wf(&self) -> bool {
        forall|i: int|
            0 < i < self.items@.len() ==> entry_le(
                #[trigger] self.items@[heap_parent(i)],
                self.items@[i],
            )
    }

    proof fn lemma_root_is_min(&self, k: int)
        requires
            self.wf(),
            0 <= k < self.items@.len(),
        ensures
            entry_le(self.items@[0], self.items@[k]),
        decreases k,
    {
        if k > 0 {
            let p = heap_parent(k);
            self.lemma_root_is_min(p);
        }
    }

    pub fn new() -> (s: Self)
        ensures
            s.wf(),
            s@ =~= Multiset::empty(),
    {
        OpenSet { items: Vec::new() }
    }

    pub fn len(&self) -> (n: usize)
        ensures
            n == self@.len(),
    {
        self.items.len()
    }

    fn swap(&mut self, i: usize, j: usize)
        requires
            i < old(self).items@.len(),
            j < old(self).items@.len(),
        ensures
            final(self).items@ == old(self).items@.update(i as int, old(self).items@[j as int]).update(
                j as int,
                old(self).items@[i as int],
            ),
            final(self)@ =~= old(self)@,
    {
        let a = self.items[i];
        let b = self.items[j];
        self.items.set(i, b);
        self.items.set(j, a);
        proof {
            lemma_swap_multiset(old(self).items@, i as int, j as int);
        }
    }

    /// Adds an entry.
    pub fn push(&mut self, e: (u64, usize))
        requires
            old(self).wf(),
        ensures
            final(self).wf(),
            final(self)@ =~= old(self)@.insert(e),
    {
        self.items.push(e);
        let mut i = self.items.len() - 1;
        while i > 0
            invariant
                0 <= i < self.items@.len(),
                self@ =~= old(self)@.insert(e),
                forall|j: int|
                    0 < j < self.items@.len() && j != i ==> entry_le(
                        #[trigger] self.items@[heap_parent(j)],
                        self.items@[j],
                    ),
                i > 0 ==> forall|j: int|
                    0 < j < self.items@.len() && heap_parent(j) == i ==> entry_le(
                        self.items@[heap_parent(i as int)],
                        #[trigger] self.items@[j],
                    ),
            ensures
                self@ =~= old(self)@.insert(e),
                forall|j: int|
                    0 < j < self.items@.len() ==> entry_le(
                        #[trigger] self.items@[heap_parent(j)],
                        self.items@[j],
                    ),
            decreases i,
        {
            let p = (i - 1) / 2;
            if entry_le_exec(self.items[p], self.items[i]) {
                break;
            }
            let ghost old_items = self.items@;
            self.swap(i, p);
            proof {
                let s = self.items@;
                assert forall|j: int|
                    0 < j < s.len() && j != p implies entry_le(
                    #[trigger] s[heap_parent(j)],
                    s[j],
                ) by {
                    if heap_parent(j) == i as int {
                        assert(entry_le(old_items[heap_parent(j)], old_items[j]) || j == i);
                    }
                    if heap_parent(j) == p as int && j != i as int {
                        assert(entry_le(old_items[p as int], old_items[j]));
                    }
                }
                if p > 0 {
                    assert forall|j: int|
                        0 < j < s.len() && heap_parent(j) == p implies entry_le(
                        s[heap_parent(p as int)],
                        #[trigger] s[j],
                    ) by {
                        assert(entry_le(old_items[heap_parent(p as int)], old_items[p as int]));
                        if j != i as int {
                            assert(entry_le(old_items[p as int], old_items[j]));
                        }
                    }
                }
            }
            i = p;
        }
    }

    /// Removes and returns the smallest entry, or `None` when the set is empty.
    pub fn pop(&mut self) -> (r: Option<(u64, usize)>)
        requires
            old(self).wf(),
        ensures
            final(self).wf(),
            match r {
                None => old(self)@.len() == 0 && final(self)@ =~= old(self)@,
                Some(e) => {
                    &&& old(self)@.contains(e)
                    &&& final(self)@ =~= old(self)@.remove(e)
                    &&& forall|x: (u64, usize)| old(self)@.contains(x) ==> entry_le(e, x)
                },
            },
    {
        broadcast use vstd::seq_lib::to_multiset_update;
        broadcast use vstd::multiset::group_multiset_axioms;

        let n = self.items.len();
        if n == 0 {
            return None;
        }
        let top = self.items[0];
        proof {
            assert forall|x: (u64, usize)| old(self)@.contains(x) implies entry_le(top, x) by {
                let k = choose|k: int| 0 <= k < old(self).items@.len() && old(self).items@[k] == x;
                old(self).lemma_root_is_min(k);
            }
            assert(old(self).items@.drop_last().to_multiset() =~= old(self)@.remove(
                old(self).items@[n - 1],
            )) by {
                vstd::seq_lib::to_multiset_remove(old(self).items@, n - 1);
                assert(old(self).items@.remove(n - 1) =~= old(self).items@.drop_last());
            }
        }
        let last = self.items.pop().unwrap();
        if self.items.len() == 0 {
            assert(old(self).items@ =~= seq![top]);
            return Some(top);
        }
        let ghost before_set = self.items@;
        self.items.set(0, last);
        proof {
            assert(self@ =~= old(self)@.remove(top)) by {
                assert(self.items@ == before_set.update(0, last));
                assert(self.items@.to_multiset() =~= before_set.to_multiset().insert(last).remove(
                    before_set[0],
                ));
            }
        }
        let len = self.items.len();
        let mut i: usize = 0;
        while i < len
            invariant
                len == self.items@.len(),
                i < len,
                self@ =~= old(self)@.remove(top),
                forall|j: int|
                    0 < j < self.items@.len() && heap_parent(j) != i ==> entry_le(
                        #[trigger] self.items@[heap_parent(j)],
                        self.items@[j],
                    ),
                i > 0 ==> forall|j: int|
                    0 < j < self.items@.len() && heap_parent(j) == i ==> entry_le(
                        self.items@[heap_parent(i as int)],
                        #[trigger] self.items@[j],
                    ),
            ensures
                self@ =~= old(self)@.remove(top),
                forall|j: int|
                    0 < j < self.items@.len() ==> entry_le(
                        #[trigger] self.items@[heap_parent(j)],
                        self.items@[j],
                    ),
            decreases len - i,
        {
            if i >= len / 2 {
                proof {
                    assert forall|j: int|
                        0 < j < self.items@.len() implies entry_le(
                        #[trigger] self.items@[heap_parent(j)],
                        self.items@[j],
                    ) by {
                        if heap_parent(j) == i as int {
                            assert(j >= 2 * i + 1);
                        }
                    }
                }
                break;
            }
            let l = 2 * i + 1;
            let r = 2 * i + 2;
            let mut smallest = i;
            if l < len && !entry_le_exec(self.items[smallest], self.items[l]) {
                smallest = l;
            }
            if r < len && !entry_le_exec(self.items[smallest], self.items[r]) {
                smallest = r;
            }
            if smallest == i {
                proof {
                    assert forall|j: int|
                        0 < j < self.items@.len() implies entry_le(
                        #[trigger] self.items@[heap_parent(j)],
                        self.items@[j],
                    ) by {
                        if heap_parent(j) == i as int {
                            assert(j == l || j == r);
                        }
                    }
                }
                break;
            }
            let ghost old_items = self.items@;
            self.swap(i, smallest);
            proof {
                let s = self.items@;
                let m = smallest as int;
                assert(entry_le(old_items[m], old_items[i as int]));
                assert(l < len ==> entry_le(old_items[m], old_items[l as int]));
                assert(r < len ==> entry_le(old_items[m], old_items[r as int]));
                assert forall|j: int|
                    0 < j < s.len() && heap_parent(j) != m implies entry_le(
                    #[trigger] s[heap_parent(j)],
                    s[j],
                ) by {
                    if j == i as int {
                        assert(entry_le(old_items[heap_parent(i as int)], old_items[m]));
                    } else if heap_parent(j) == i as int {
                        assert(j == l || j == r);
                    }
                }
                assert forall|j: int|
                    0 < j < s.len() && heap_parent(j) == m implies entry_le(
                    s[heap_parent(m)],
                    #[trigger] s[j],
                ) by {
                    assert(heap_parent(m) == i as int);
                    assert(entry_le(old_items[m], old_items[j]));
                }
            }
            i = smallest;
        }
        Some(top)
    }
}

} // verus!
