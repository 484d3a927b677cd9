//! Bookkeeping of navigation-grid changes between refreshes: new buildings
//! are stamped into the grid one by one (the fast path), while a removed or
//! moved building forces a full rebuild from the terrain costs.
//!
//! `O` is what the caller needs to stamp one obstacle (its position and
//! radii in world units).
use vstd::prelude::*;

verus! {

/// How the grid is brought up to date.
#[derive(Clone, Debug)]
pub enum NavRefresh<O> {
    /// Nothing changed.
    Nothing,
    /// Reset to the terrain costs and stamp every obstacle again.
    Full,
    /// Stamp these new obstacles, in order.
    Incremental(Vec<O>),
}

/// Changes recorded since the last refresh.
pub struct NavGridDirty<O> {
    pub full: bool,
    pub added: Vec<O>,
}

/// Building `e` is among the new buildings.
pub open spec fn is_new<O>(new_buildings: Seq<(u64, bool, O)>, e: u64) -> bool {
    exists|j: int| 0 <= j < new_buildings.len() && (#[trigger] new_buildings[j]).0 == e
}

/// One of the first `n` moved buildings is not new.
pub open spec fn moves_existing<O>(moved: Seq<u64>, new_buildings: Seq<(u64, bool, O)>, n: int) -> bool {
    exists|k: int| 0 <= k < n && !is_new(new_buildings, #[trigger] moved[k])
}

/// Obstacles of the first `n` new buildings that get stamped (those whose
/// flag says they stand on the grid), in order.
pub open spec fn stamped<O>(new_buildings: Seq<(u64, bool, O)>, n: int) -> Seq<O>
    decreases n,
{
    if n <= 0 {
        Seq::empty()
    } else {
        let prev = stamped(new_buildings, n - 1);
        if new_buildings[n - 1].1 {
            prev.push(new_buildings[n - 1].2)
        } else {
            prev
        }
    }
}

fn is_listed<O: Copy>(ids: &Vec<(u64, bool, O)>, e: u64) -> (r: bool)
    ensures
        r == is_new(ids@, e),
{
    let mut i: usize = 0;
    while i < ids.len()
        invariant
            i <= ids@.len(),
            forall|j: int| 0 <= j < i ==> (#[trigger] ids@[j]).0 != e,
        decreases ids@.len() - i,
    {
        if ids[i].0 == e {
            return true;
        }
        i += 1;
    }
    false
}

impl<O: Copy> NavGridDirty<O> {
    /// A tracker with nothing recorded.
    pub fn new() -> (r: Self)
        ensures
            !r.full,
            r.added@ == Seq::<O>::empty(),
    {
        NavGridDirty { full: false, added: Vec::new() }
    }

    /// Records one frame of building changes: `removed_any` when a building
    /// was removed, `moved` the buildings whose transform or footprint
    /// changed, and `new_buildings` the buildings added this frame with
    /// whether they stand on the grid (complete or under construction) and
    /// their obstacle. A removal, or a move of a building that is not new,
    /// asks for a full rebuild; the standing new buildings are queued for
    /// stamping.
    pub fn record_building_changes(&mut self, removed_any: bool, moved: &Vec<u64>, new_buildings: &Vec<(u64, bool, O)>)
        ensures
            final(self).full == (old(self).full || removed_any || moves_existing(moved@, new_buildings@, moved@.len() as int)),
            final(self).added@ == old(self).added@ + stamped(new_buildings@, new_buildings@.len() as int),
    {
        if removed_any {
            self.full = true;
        }
        let ghost full0 = self.full;
        let mut i: usize = 0;
        while i < moved.len()
            invariant
                i <= moved@.len(),
                full0 == (old(self).full || removed_any),
                self.added@ == old(self).added@,
                self.full == (full0 || moves_existing(moved@, new_buildings@, i as int)),
            decreases moved@.len() - i,
        {
            if !is_listed(new_buildings, moved[i]) {
                self.full = true;
            }
            proof {
                assert(moves_existing(moved@, new_buildings@, i + 1) == (moves_existing(moved@, new_buildings@, i as int)
                    || !is_new(new_buildings@, moved@[i as int])));
            }
            i += 1;
        }
        let mut n: usize = 0;
        while n < new_buildings.len()
            invariant
                n <= new_buildings@.len(),
                self.added@ == old(self).added@ + stamped(new_buildings@, n as int),
                self.full == (old(self).full || removed_any || moves_existing(moved@, new_buildings@, moved@.len() as int)),
            decreases new_buildings@.len() - n,
        {
            let (_, stands, o) = new_buildings[n];
            if stands {
                self.added.push(o);
            }
            proof {
                assert(old(self).added@ + stamped(new_buildings@, n + 1) =~= self.added@);
            }
            n += 1;
        }
    }

    /// What the next refresh does, leaving the tracker empty: a full
    /// rebuild when one was asked for (the queued stamps are dropped, the
    /// rebuild covers them), else the queued stamps, else nothing.
    pub fn take_refresh(&mut self) -> (r: NavRefresh<O>)
        ensures
            !final(self).full,
            final(self).added@ == Seq::<O>::empty(),
            old(self).full ==> r is Full,
            !old(self).full && old(self).added@.len() > 0 ==> (r matches NavRefresh::Incremental(v) && v@ == old(self).added@),
            !old(self).full && old(self).added@.len() == 0 ==> r is Nothing,
    {
        if self.full {
            self.full = false;
            self.added = Vec::new();
            NavRefresh::Full
        } else if self.added.len() > 0 {
            let mut taken: Vec<O> = Vec::new();
            std::mem::swap(&mut taken, &mut self.added);
            NavRefresh::Incremental(taken)
        } else {
            NavRefresh::Nothing
        }
    }
}

} // verus!
