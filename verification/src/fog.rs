//! Explored layer of the fog of war: a cell once seen stays explored.
//! A cell is explored when its byte is non-zero; revealing writes 255.
use vstd::prelude::*;

verus! {

/// Byte written into a cell when it becomes explored.
pub const EXPLORED: u8 = 255;

/// Marks cell `idx` explored; returns whether the layer changed (the cell
/// was unexplored), which is when the texture must be uploaded again.
pub fn mark_explored(explored: &mut Vec<u8>, idx: usize) -> (changed: bool)
    requires
        idx < old(explored)@.len(),
    ensures
        changed == (old(explored)@[idx as int] == 0),
        final(explored)@ == (if changed { old(explored)@.update(idx as int, EXPLORED) } else { old(explored)@ }),
{
    if explored[idx] == 0 {
        explored.set(idx, EXPLORED);
        true
    } else {
        false
    }
}

/// Marks every cell explored ("reveal all"); returns whether any cell was
/// unexplored before.
pub fn explore_all(explored: &mut Vec<u8>) -> (changed: bool)
    ensures
        changed == exists|i: int| 0 <= i < old(explored)@.len() && old(explored)@[i] == 0,
        final(explored)@ == (if changed {
            Seq::new(old(explored)@.len(), |_i: int| EXPLORED)
        } else {
            old(explored)@
        }),
{
    let n = explored.len();
    let mut any_unexplored = false;
    let mut i: usize = 0;
    while i < n
        invariant
            n == explored@.len(),
            explored@ == old(explored)@,
            i <= n,
            any_unexplored == exists|j: int| 0 <= j < i && explored@[j] == 0,
        decreases n - i,
    {
        if explored[i] == 0 {
            any_unexplored = true;
        }
        i += 1;
    }
    if !any_unexplored {
        return false;
    }
    let mut k: usize = 0;
    while k < n
        invariant
            n == explored@.len(),
            n == old(explored)@.len(),
            k <= n,
            forall|j: int| 0 <= j < k ==> explored@[j] == EXPLORED,
        decreases n - k,
    {
        explored.set(k, EXPLORED);
        k += 1;
    }
    assert(explored@ =~= Seq::new(old(explored)@.len(), |_i: int| EXPLORED));
    true
}

/// Law: revealing never hides an explored cell again.
pub proof fn lemma_explored_stays(before: Seq<u8>, after: Seq<u8>, idx: int, i: int)
    requires
        0 <= idx < before.len(),
        0 <= i < before.len(),
        before[i] != 0,
        after == (if before[idx] == 0 { before.update(idx, EXPLORED) } else { before }),
    ensures
        after[i] != 0,
{
}

} // verus!
