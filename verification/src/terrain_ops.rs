//! Ordering of lockstep terrain edits. Every peer sorts the edits queued in
//! one frame the same way so that all peers reshape the height map alike.
use vstd::prelude::*;
use std::collections::VecDeque;
use crate::stable_sort::{SortKey, stable_sort, stable_sorted, lemma_stable_sort_order_independent};

verus! {

/// A terrain edit that flattens the ground around a building foundation.
/// Its coordinates and heights are IEEE-754 single-precision values, held
/// as their bit patterns.
#[derive(Clone, Copy, PartialEq, Eq, Debug, Hash)]
pub struct TerrainShapeOp {
    pub center_x_bits: u32,
    pub center_z_bits: u32,
    pub footprint_bits: u32,
    pub target_height_bits: u32,
}

/// Edits are ordered by the bit patterns of center x, then center z, then
/// footprint; the target height does not take part.
pub open spec fn terrain_op_le(a: TerrainShapeOp, b: TerrainShapeOp) -> bool {
    if a.center_x_bits != b.center_x_bits {
        a.center_x_bits < b.center_x_bits
    } else if a.center_z_bits != b.center_z_bits {
        a.center_z_bits < b.center_z_bits
    } else {
        a.footprint_bits <= b.footprint_bits
    }
}

impl SortKey for TerrainShapeOp {
    open spec fn key_le(self, other: Self) -> bool {
        terrain_op_le(self, other)
    }

    fn key_le_exec(&self, other: &Self) -> (r: bool) {
        if self.center_x_bits != other.center_x_bits {
            self.center_x_bits < other.center_x_bits
        } else if self.center_z_bits != other.center_z_bits {
            self.center_z_bits < other.center_z_bits
        } else {
            self.footprint_bits <= other.footprint_bits
        }
    }

    proof fn lemma_key_le_total(a: Self, b: Self) {
    }

    proof fn lemma_key_le_transitive(a: Self, b: Self, c: Self) {
    }
}

/// Puts a frame's terrain edits into the order every peer applies them in
/// (stable for edits with the same center and footprint).
pub fn sort_terrain_ops(ops: &mut Vec<TerrainShapeOp>)
    ensures
        final(ops)@ == stable_sorted(old(ops)@),
{
    stable_sort(ops);
}

/// Appends a frame's new foundation edits to the pending queue, in the
/// order every peer applies them in.
pub fn enqueue_terrain_ops(pending: &mut VecDeque<TerrainShapeOp>, additions: Vec<TerrainShapeOp>)
    ensures
        final(pending)@ == old(pending)@ + stable_sorted(additions@),
{
    let mut sorted = additions;
    sort_terrain_ops(&mut sorted);
    let ghost p0 = pending@;
    let mut i: usize = 0;
    while i < sorted.len()
        invariant
            i <= sorted@.len(),
            pending@ == p0 + sorted@.take(i as int),
        decreases sorted@.len() - i,
    {
        pending.push_back(sorted[i]);
        proof {
            assert(sorted@.take(i + 1) =~= sorted@.take(i as int).push(sorted@[i as int]));
            assert(p0 + sorted@.take(i + 1) =~= (p0 + sorted@.take(i as int)).push(sorted@[i as int]));
        }
        i += 1;
    }
    assert(sorted@.take(sorted@.len() as int) =~= sorted@);
}

/// Law: two peers that queued the same edits in different orders end up
/// with the same sorted sequence, provided no two different edits share
/// center and footprint.
pub proof fn lemma_terrain_op_sort_order_independent(a: Seq<TerrainShapeOp>, b: Seq<TerrainShapeOp>)
    requires
        a.to_multiset() == b.to_multiset(),
        forall|x: TerrainShapeOp, y: TerrainShapeOp|
            a.contains(x) && a.contains(y) && x.center_x_bits == y.center_x_bits && x.center_z_bits
                == y.center_z_bits && x.footprint_bits == y.footprint_bits ==> x == y,
    ensures
        stable_sorted(a) == stable_sorted(b),
{
    lemma_stable_sort_order_independent(a, b);
}

} // verus!
