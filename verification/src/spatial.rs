//! Spatial hash grids: entities bucketed by 2-D cell, with deterministic
//! (lockstep-safe) ordering of query results.
//!
//! Positions are single-precision world coordinates held as their bit
//! patterns; cell keys and distance filtering are computed by the caller.
use vstd::prelude::*;
use std::collections::HashMap;
use crate::stable_sort::{SortKey, stable_sort, stable_sorted};

verus! {

broadcast use vstd::std_specs::hash::group_hash_axioms;

/// World position as the bit patterns of its three `f32` coordinates.
#[derive(Clone, Copy, PartialEq, Eq, Debug)]
pub struct PosBits {
    pub x: u32,
    pub y: u32,
    pub z: u32,
}

/// Integer cell coordinates of the hash grid.
#[derive(Clone, Copy, PartialEq, Eq, Debug)]
pub struct CellKey {
    pub x: i32,
    pub z: i32,
}

/// One bucketed entity: its id, its payload and its stable (network) id,
/// `u32::MAX` when it has none.
#[derive(Clone, Copy, PartialEq, Eq, Debug)]
pub struct GridEntry<P> {
    pub entity: u64,
    pub payload: P,
    pub stable_id: u32,
}

/// Payload stored for a wall piece.
#[derive(Clone, Copy, PartialEq, Eq, Debug)]
pub struct WallPayload {
    pub pos: PosBits,
    pub footprint_bits: u32,
    pub faction: u8,
}

/// Bucket key of a cell: distinct cells get distinct keys.
pub open spec fn cell_code(k: CellKey) -> i64 {
    (k.x as int * 4294967296 + (k.z as int + 2147483648)) as i64
}

/// Two cells with the same bucket key are the same cell.
pub proof fn lemma_cell_code_injective(a: CellKey, b: CellKey)
    ensures
        cell_code(a) == cell_code(b) ==> a == b,
{
    let ca = a.x as int * 4294967296 + (a.z as int + 2147483648);
    let cb = b.x as int * 4294967296 + (b.z as int + 2147483648);
    assert(i64::MIN <= ca <= i64::MAX) by (nonlinear_arith)
        requires
            i32::MIN <= a.x <= i32::MAX,
            i32::MIN <= a.z <= i32::MAX,
            ca == a.x as int * 4294967296 + (a.z as int + 2147483648),
    ;
    assert(i64::MIN <= cb <= i64::MAX) by (nonlinear_arith)
        requires
            i32::MIN <= b.x <= i32::MAX,
            i32::MIN <= b.z <= i32::MAX,
            cb == b.x as int * 4294967296 + (b.z as int + 2147483648),
    ;
    if ca == cb {
        assert(a.x == b.x && a.z == b.z) by (nonlinear_arith)
            requires
                ca == cb,
                ca == a.x as int * 4294967296 + (a.z as int + 2147483648),
                cb == b.x as int * 4294967296 + (b.z as int + 2147483648),
                0 <= a.z as int + 2147483648 < 4294967296,
                0 <= b.z as int + 2147483648 < 4294967296,
        ;
    }
}

fn cell_code_exec(k: CellKey) -> (r: i64)
    ensures
        r == cell_code(k),
{
    assert(i64::MIN <= k.x as int * 4294967296 + (k.z as int + 2147483648) <= i64::MAX) by (nonlinear_arith)
        requires
            i32::MIN <= k.x <= i32::MAX,
            i32::MIN <= k.z <= i32::MAX,
    ;
    (k.x as i64) * 4294967296 + (k.z as i64 + 2147483648)
}

/// Entries of `s` that do not belong to `entity`.
pub open spec fn other_entities<P>(entity: u64) -> spec_fn(GridEntry<P>) -> bool {
    |e: GridEntry<P>| e.entity != entity
}

/// Index of the first entry of `entity` in `s` at or after `i`, or `s.len()`.
pub open spec fn first_entry_from<P>(s: Seq<GridEntry<P>>, entity: u64, i: int) -> int
    decreases s.len() - i,
{
    if i < 0 || i >= s.len() {
        s.len() as int
    } else if s[i].entity == entity {
        i
    } else {
        first_entry_from(s, entity, i + 1)
    }
}

/// The contents of a grid: entries per cell code, and the cell code each
/// entity was last recorded in.
pub struct GridModel<P> {
    pub cells: Map<i64, Seq<GridEntry<P>>>,
    pub entity_cells: Map<u64, i64>,
}

impl<P> GridModel<P> {
    pub open spec fn cell(self, k: i64) -> Seq<GridEntry<P>> {
        if self.cells.contains_key(k) { self.cells[k] } else { Seq::empty() }
    }

    /// `entry` appended to cell `k`, and its entity recorded there.
    pub open spec fn inserted(self, k: i64, entry: GridEntry<P>) -> Self {
        GridModel {
            cells: self.cells.insert(k, self.cell(k).push(entry)),
            entity_cells: self.entity_cells.insert(entry.entity, k),
        }
    }

    /// The entity's record dropped, and its entries removed from the cell it
    /// was recorded in (a cell left empty disappears).
    pub open spec fn removed(self, entity: u64) -> Self {
        if !self.entity_cells.contains_key(entity) {
            self
        } else {
            let k = self.entity_cells[entity];
            let kept = self.cell(k).filter(other_entities(entity));
            GridModel {
                cells: if !self.cells.contains_key(k) {
                    self.cells
                } else if kept.len() == 0 {
                    self.cells.remove(k)
                } else {
                    self.cells.insert(k, kept)
                },
                entity_cells: self.entity_cells.remove(entity),
            }
        }
    }

    /// Insert-or-update: when the entity is recorded in cell `k` and has an
    /// entry there, that (first) entry is overwritten in place; otherwise
    /// the entity is removed from its old cell (if it moved) and `entry` is
    /// appended to cell `k`.
    pub open spec fn upserted(self, k: i64, entry: GridEntry<P>) -> Self {
        let e = entry.entity;
        let recorded = self.entity_cells.contains_key(e);
        if recorded && self.entity_cells[e] == k && first_entry_from(self.cell(k), e, 0) < self.cell(
            k,
        ).len() {
            GridModel {
                cells: self.cells.insert(
                    k,
                    self.cell(k).update(first_entry_from(self.cell(k), e, 0), entry),
                ),
                entity_cells: self.entity_cells,
            }
        } else if recorded && self.entity_cells[e] != k {
            self.removed(e).inserted(k, entry)
        } else {
            self.inserted(k, entry)
        }
    }

    /// The stable id stored for `entity` in the cell it is recorded in, or
    /// `u32::MAX`.
    pub open spec fn stable_id_of(self, entity: u64) -> u32 {
        if self.entity_cells.contains_key(entity) {
            let s = self.cell(self.entity_cells[entity]);
            let i = first_entry_from(s, entity, 0);
            if i < s.len() { s[i].stable_id } else { u32::MAX }
        } else {
            u32::MAX
        }
    }

    /// Entries of cells `(x, z_lo)` .. `(x, z_hi - 1)`, in order of `z`.
    pub open spec fn column_entries(self, x: int, z_lo: int, z_hi: int) -> Seq<GridEntry<P>>
        decreases z_hi - z_lo,
    {
        if z_hi <= z_lo {
            Seq::empty()
        } else {
            self.column_entries(x, z_lo, z_hi - 1) + self.cell(
                cell_code(CellKey { x: x as i32, z: (z_hi - 1) as i32 }),
            )
        }
    }

    /// Entries of the cells with `x_lo <= x < x_hi` and `z_lo <= z <= z_max`,
    /// column by column.
    pub open spec fn block_entries(self, x_lo: int, x_hi: int, z_lo: int, z_max: int) -> Seq<
        GridEntry<P>,
    >
        decreases x_hi - x_lo,
    {
        if x_hi <= x_lo {
            Seq::empty()
        } else {
            self.block_entries(x_lo, x_hi - 1, z_lo, z_max) + self.column_entries(
                x_hi - 1,
                z_lo,
                z_max + 1,
            )
        }
    }
}

pub struct SpatialCells<P> {
    cells: HashMap<i64, Vec<GridEntry<P>>>,
    entity_cells: HashMap<u64, i64>,
}

/// Spatial hash of units, mobs and buildings.
pub type SpatialHashGrid = SpatialCells<PosBits>;

/// Spatial hash of wall pieces.
pub type WallSpatialGrid = SpatialCells<WallPayload>;

impl<P> View for SpatialCells<P> {
    type V = GridModel<P>;

    closed spec fn view(&self) -> GridModel<P> {
        GridModel {
            cells: self.cells@.map_values(|v: Vec<GridEntry<P>>| v@),
            entity_cells: self.entity_cells@,
        }
    }
}

fn without_entity<P: Copy>(entries: &Vec<GridEntry<P>>, entity: u64) -> (r: Vec<GridEntry<P>>)
    ensures
        r@ == entries@.filter(other_entities(entity)),
{
    let mut out: Vec<GridEntry<P>> = Vec::new();
    let mut i: usize = 0;
    while i < entries.len()
        invariant
            i <= entries@.len(),
            out@ == entries@.take(i as int).filter(other_entities(entity)),
        decreases entries@.len() - i,
    {
        let e = entries[i];
        proof {
            entries@.take(i as int).lemma_filter_push(e, other_entities(entity));
            assert(entries@.take(i + 1) =~= entries@.take(i as int).push(e));
        }
        if e.entity != entity {
            out.push(e);
        }
        i += 1;
    }
    assert(entries@.take(entries@.len() as int) =~= entries@);
    out
}

fn find_entity<P: Copy>(entries: &Vec<GridEntry<P>>, entity: u64) -> (r: usize)
    ensures
        r == first_entry_from(entries@, entity, 0),
{
    let mut i: usize = 0;
    while i < entries.len()
        invariant
            i <= entries@.len(),
            first_entry_from(entries@, entity, i as int) == first_entry_from(entries@, entity, 0),
        decreases entries@.len() - i,
    {
        if entries[i].entity == entity {
            return i;
        }
        i += 1;
    }
    i
}

impl<P: Copy> SpatialCells<P> {
    pub fn new() -> (r: Self)
        ensures
            r@.cells == Map::<i64, Seq<GridEntry<P>>>::empty(),
            r@.entity_cells == Map::<u64, i64>::empty(),
            r@.well_kept(),
    {
        let r = SpatialCells { cells: HashMap::new(), entity_cells: HashMap::new() };
        assert(r@.cells =~= Map::<i64, Seq<GridEntry<P>>>::empty());
        r
    }

    /// Forgets every entity.
    pub fn clear(&mut self)
        ensures
            final(self)@.cells == Map::<i64, Seq<GridEntry<P>>>::empty(),
            final(self)@.entity_cells == Map::<u64, i64>::empty(),
            final(self)@.well_kept(),
    {
        self.cells.clear();
        self.entity_cells.clear();
        assert(self@.cells =~= Map::<i64, Seq<GridEntry<P>>>::empty());
    }

    fn push_entry(&mut self, k: i64, entry: GridEntry<P>)
        ensures
            final(self)@ == old(self)@.inserted(k, entry),
    {
        let mut entries = match self.cells.remove(&k) {
            Some(v) => v,
            None => Vec::new(),
        };
        entries.push(entry);
        self.cells.insert(k, entries);
        self.entity_cells.insert(entry.entity, k);
        assert(self@.cells =~= old(self)@.inserted(k, entry).cells);
    }

    /// Appends the entity to the bucket of cell `key` and records it there.
    pub fn insert(&mut self, entity: u64, key: CellKey, payload: P, stable_id: Option<u32>)
        ensures
            final(self)@ == old(self)@.inserted(
                cell_code(key),
                GridEntry {
                    entity,
                    payload,
                    stable_id: match stable_id {
                        Some(v) => v,
                        None => u32::MAX,
                    },
                },
            ),
    {
        let stable = match stable_id {
            Some(v) => v,
            None => u32::MAX,
        };
        let k = cell_code_exec(key);
        self.push_entry(k, GridEntry { entity, payload, stable_id: stable });
    }

    /// Drops the entity from the cell it is recorded in.
    pub fn remove(&mut self, entity: u64)
        ensures
            final(self)@ == old(self)@.removed(entity),
            old(self)@.well_kept() ==> final(self)@.well_kept(),
    {
        proof {
            if old(self)@.well_kept() {
                old(self)@.lemma_removed_well_kept(entity);
            }
        }
        let k = match self.entity_cells.remove(&entity) {
            Some(k) => k,
            None => {
                assert(self@.entity_cells =~= old(self)@.entity_cells);
                assert(self@.cells =~= old(self)@.cells);
                return;
            },
        };
        match self.cells.remove(&k) {
            Some(entries) => {
                let kept = without_entity(&entries, entity);
                if kept.len() > 0 {
                    self.cells.insert(k, kept);
                }
                assert(self@.cells =~= old(self)@.removed(entity).cells);
            },
            None => {
                assert(self@.cells =~= old(self)@.cells);
            },
        }
    }

    /// Inserts the entity at cell `key`, or updates it in place when it is
    /// already there.
    pub fn upsert(&mut self, entity: u64, key: CellKey, payload: P, stable_id: Option<u32>)
        ensures
            final(self)@ == old(self)@.upserted(
                cell_code(key),
                GridEntry {
                    entity,
                    payload,
                    stable_id: match stable_id {
                        Some(v) => v,
                        None => u32::MAX,
                    },
                },
            ),
            old(self)@.well_kept() ==> final(self)@.well_kept(),
    {
        let stable = match stable_id {
            Some(v) => v,
            None => u32::MAX,
        };
        let k = cell_code_exec(key);
        let entry = GridEntry { entity, payload, stable_id: stable };
        proof {
            if old(self)@.well_kept() {
                old(self)@.lemma_upserted_well_kept(k, entry);
            }
        }
        let current = match self.entity_cells.get(&entity) {
            Some(c) => Some(*c),
            None => None,
        };
        match current {
            Some(cur) => {
                if cur == k {
                    match self.cells.remove(&k) {
                        Some(entries) => {
                            let mut entries = entries;
                            let pos = find_entity(&entries, entity);
                            if pos < entries.len() {
                                entries.set(pos, entry);
                                self.cells.insert(k, entries);
                                assert(self@.cells =~= old(self)@.upserted(k, entry).cells);
                                return;
                            }
                            self.cells.insert(k, entries);
                            assert(self@.cells =~= old(self)@.cells);
                        },
                        None => {
                            assert(self@.cells =~= old(self)@.cells);
                        },
                    }
                } else {
                    self.remove(entity);
                }
            },
            None => {},
        }
        self.push_entry(k, entry);
    }

    /// Stable id of `entity` as stored in its recorded cell, or `u32::MAX`.
    pub fn stable_id(&self, entity: u64) -> (r: u32)
        ensures
            r == self@.stable_id_of(entity),
    {
        let k = match self.entity_cells.get(&entity) {
            Some(k) => *k,
            None => {
                return u32::MAX;
            },
        };
        match self.cells.get(&k) {
            Some(entries) => {
                let i = find_entity(entries, entity);
                if i < entries.len() {
                    entries[i].stable_id
                } else {
                    u32::MAX
                }
            },
            None => u32::MAX,
        }
    }
}


/// Maps the bit pattern of an `f32` to a `u32` whose unsigned order is the
/// float total order (negatives below positives).
pub open spec fn ordered_bits_spec(bits: u32) -> u32 {
    if bits & 0x8000_0000 == 0 {
        bits | 0x8000_0000
    } else {
        !bits
    }
}

pub fn ordered_bits(bits: u32) -> (r: u32)
    ensures
        r == ordered_bits_spec(bits),
{
    if bits & 0x8000_0000 == 0 {
        bits | 0x8000_0000
    } else {
        !bits
    }
}

/// Law: the mapped values order non-negative floats (sign bit clear) by
/// their bits, above all negative floats, which are ordered in reverse of
/// their bits; distinct bit patterns stay distinct.
pub proof fn lemma_ordered_bits_order(a: u32, b: u32)
    ensures
        a < 0x8000_0000 && b < 0x8000_0000 ==> (ordered_bits_spec(a) < ordered_bits_spec(b) <==> a < b),
        a >= 0x8000_0000 && b >= 0x8000_0000 ==> (ordered_bits_spec(a) < ordered_bits_spec(b) <==> a > b),
        a >= 0x8000_0000 && b < 0x8000_0000 ==> ordered_bits_spec(a) < ordered_bits_spec(b),
        a != b ==> ordered_bits_spec(a) != ordered_bits_spec(b),
{
    assert(a < 0x8000_0000 ==> ordered_bits_spec(a) == a + 0x8000_0000) by (bit_vector);
    assert(a >= 0x8000_0000 ==> ordered_bits_spec(a) == 0xFFFF_FFFF - a) by (bit_vector);
    assert(b < 0x8000_0000 ==> ordered_bits_spec(b) == b + 0x8000_0000) by (bit_vector);
    assert(b >= 0x8000_0000 ==> ordered_bits_spec(b) == 0xFFFF_FFFF - b) by (bit_vector);
}

/// A query hit with its ordering key: a leading rank (the ordered bits of
/// its distance, or 0), then its stable id and its coordinates in float order.
#[derive(Clone, Copy, PartialEq, Eq, Debug)]
pub struct RankedHit {
    pub rank: u32,
    pub stable_id: u32,
    pub ox: u32,
    pub oy: u32,
    pub oz: u32,
    pub entity: u64,
    pub pos: PosBits,
}

impl SortKey for RankedHit {
    open spec fn key_le(self, other: Self) -> bool {
        if self.rank != other.rank {
            self.rank < other.rank
        } else if self.stable_id != other.stable_id {
            self.stable_id < other.stable_id
        } else if self.ox != other.ox {
            self.ox < other.ox
        } else if self.oy != other.oy {
            self.oy < other.oy
        } else {
            self.oz <= other.oz
        }
    }

    fn key_le_exec(&self, other: &Self) -> (r: bool) {
        if self.rank != other.rank {
            self.rank < other.rank
        } else if self.stable_id != other.stable_id {
            self.stable_id < other.stable_id
        } else if self.ox != other.ox {
            self.ox < other.ox
        } else if self.oy != other.oy {
            self.oy < other.oy
        } else {
            self.oz <= other.oz
        }
    }

    proof fn lemma_key_le_total(a: Self, b: Self) {
    }

    proof fn lemma_key_le_transitive(a: Self, b: Self, c: Self) {
    }
}

/// A wall hit with its ordering key: stable id, faction, coordinates and
/// footprint in float order.
#[derive(Clone, Copy, PartialEq, Eq, Debug)]
pub struct WallHit {
    pub stable_id: u32,
    pub faction: u8,
    pub ox: u32,
    pub oy: u32,
    pub oz: u32,
    pub ofp: u32,
    pub entity: u64,
    pub payload: WallPayload,
}

impl SortKey for WallHit {
    open spec fn key_le(self, other: Self) -> bool {
        if self.stable_id != other.stable_id {
            self.stable_id < other.stable_id
        } else if self.faction != other.faction {
            self.faction < other.faction
        } else if self.ox != other.ox {
            self.ox < other.ox
        } else if self.oy != other.oy {
            self.oy < other.oy
        } else if self.oz != other.oz {
            self.oz < other.oz
        } else {
            self.ofp <= other.ofp
        }
    }

    fn key_le_exec(&self, other: &Self) -> (r: bool) {
        if self.stable_id != other.stable_id {
            self.stable_id < other.stable_id
        } else if self.faction != other.faction {
            self.faction < other.faction
        } else if self.ox != other.ox {
            self.ox < other.ox
        } else if self.oy != other.oy {
            self.oy < other.oy
        } else if self.oz != other.oz {
            self.oz < other.oz
        } else {
            self.ofp <= other.ofp
        }
    }

    proof fn lemma_key_le_total(a: Self, b: Self) {
    }

    proof fn lemma_key_le_transitive(a: Self, b: Self, c: Self) {
    }
}

pub open spec fn ranked_hit(m: GridModel<PosBits>, entity: u64, pos: PosBits, rank: u32) -> RankedHit {
    RankedHit {
        rank,
        stable_id: m.stable_id_of(entity),
        ox: ordered_bits_spec(pos.x),
        oy: ordered_bits_spec(pos.y),
        oz: ordered_bits_spec(pos.z),
        entity,
        pos,
    }
}

pub open spec fn wall_hit(m: GridModel<WallPayload>, entity: u64, w: WallPayload) -> WallHit {
    WallHit {
        stable_id: m.stable_id_of(entity),
        faction: w.faction,
        ox: ordered_bits_spec(w.pos.x),
        oy: ordered_bits_spec(w.pos.y),
        oz: ordered_bits_spec(w.pos.z),
        ofp: ordered_bits_spec(w.footprint_bits),
        entity,
        payload: w,
    }
}

/// The first `n` entries of `s` whose flag in `keep` is set, in order.
pub open spec fn kept_upto<T>(s: Seq<T>, keep: Seq<bool>, n: int) -> Seq<T>
    decreases n,
{
    if n <= 0 {
        Seq::empty()
    } else if keep[n - 1] {
        kept_upto(s, keep, n - 1).push(s[n - 1])
    } else {
        kept_upto(s, keep, n - 1)
    }
}

/// The entries of `s` whose flag in `keep` is set, in order.
pub open spec fn kept<T>(s: Seq<T>, keep: Seq<bool>) -> Seq<T> {
    kept_upto(s, keep, s.len() as int)
}

pub open spec fn unranked(r: RankedHit) -> (u64, PosBits) {
    (r.entity, r.pos)
}

pub open spec fn wall_unranked(w: WallHit) -> (u64, WallPayload) {
    (w.entity, w.payload)
}

impl<P: Copy> SpatialCells<P> {
    fn append_cell(&self, out: &mut Vec<GridEntry<P>>, k: i64)
        ensures
            final(out)@ == old(out)@ + self@.cell(k),
    {
        match self.cells.get(&k) {
            Some(entries) => {
                let mut i: usize = 0;
                while i < entries.len()
                    invariant
                        i <= entries@.len(),
                        out@ == old(out)@ + entries@.take(i as int),
                    decreases entries@.len() - i,
                {
                    out.push(entries[i]);
                    assert(entries@.take(i + 1) =~= entries@.take(i as int).push(entries@[i as int]));
                    i += 1;
                }
                assert(entries@.take(entries@.len() as int) =~= entries@);
            },
            None => {
                assert(old(out)@ + self@.cell(k) =~= old(out)@);
            },
        }
    }

    /// Entries of all cells from `min` to `max` (inclusive), column by
    /// column (`x` outer, `z` inner).
    pub fn collect_cells(&self, min: CellKey, max: CellKey) -> (r: Vec<GridEntry<P>>)
        ensures
            r@ == self@.block_entries(min.x as int, max.x as int + 1, min.z as int, max.z as int),
    {
        let mut out: Vec<GridEntry<P>> = Vec::new();
        let mut cx: i64 = min.x as i64;
        while cx <= max.x as i64
            invariant
                min.x <= cx,
                cx <= max.x + 1 || cx == min.x,
                out@ == self@.block_entries(min.x as int, cx as int, min.z as int, max.z as int),
            decreases max.x + 1 - cx,
        {
            let mut cz: i64 = min.z as i64;
            let ghost before = out@;
            assert(self@.column_entries(cx as int, min.z as int, cz as int) =~= Seq::<GridEntry<P>>::empty());
            while cz <= max.z as i64
                invariant
                    min.x <= cx <= max.x,
                    min.z <= cz,
                    cz <= max.z + 1 || cz == min.z,
                    out@ == before + self@.column_entries(cx as int, min.z as int, cz as int),
                decreases max.z + 1 - cz,
            {
                let k = cell_code_exec(CellKey { x: cx as i32, z: cz as i32 });
                self.append_cell(&mut out, k);
                assert(out@ =~= before + self@.column_entries(cx as int, min.z as int, cz + 1));
                cz += 1;
            }
            proof {
                if max.z < min.z {
                    assert(self@.column_entries(cx as int, min.z as int, max.z + 1) =~= Seq::<GridEntry<P>>::empty());
                }
                assert(out@ =~= self@.block_entries(min.x as int, cx + 1, min.z as int, max.z as int));
            }
            cx += 1;
        }
        proof {
            if max.x < min.x {
                assert(self@.block_entries(min.x as int, max.x as int + 1, min.z as int, max.z as int) =~= Seq::<GridEntry<P>>::empty());
            }
        }
        out
    }
}

impl SpatialCells<PosBits> {
    fn rank_hits(&self, hits: &Vec<(u64, PosBits)>, ranks: &Vec<u32>) -> (r: Vec<RankedHit>)
        requires
            hits@.len() == ranks@.len(),
        ensures
            r@ == Seq::new(hits@.len(), |i: int| ranked_hit(self@, hits@[i].0, hits@[i].1, ranks@[i])),
    {
        let mut out: Vec<RankedHit> = Vec::new();
        let mut i: usize = 0;
        while i < hits.len()
            invariant
                hits@.len() == ranks@.len(),
                i <= hits@.len(),
                out@.len() == i,
                forall|k: int| 0 <= k < i ==> out@[k] == ranked_hit(self@, hits@[k].0, hits@[k].1, ranks@[k]),
            decreases hits@.len() - i,
        {
            let (entity, pos) = hits[i];
            let h = RankedHit {
                rank: ranks[i],
                stable_id: self.stable_id(entity),
                ox: ordered_bits(pos.x),
                oy: ordered_bits(pos.y),
                oz: ordered_bits(pos.z),
                entity,
                pos,
            };
            out.push(h);
            i += 1;
        }
        assert(out@ =~= Seq::new(hits@.len(), |i: int| ranked_hit(self@, hits@[i].0, hits@[i].1, ranks@[i])));
        out
    }

    fn unrank(ranked: &Vec<RankedHit>, hits: &mut Vec<(u64, PosBits)>, limit: usize)
        ensures
            final(hits)@ == ranked@.map_values(|r: RankedHit| unranked(r)).take(
                if limit < ranked@.len() { limit as int } else { ranked@.len() as int },
            ),
    {
        hits.clear();
        let n = if limit < ranked.len() { limit } else { ranked.len() };
        let mut i: usize = 0;
        while i < n
            invariant
                n <= ranked@.len(),
                n == (if limit < ranked@.len() { limit as int } else { ranked@.len() as int }),
                i <= n,
                hits@ == ranked@.map_values(|r: RankedHit| unranked(r)).take(i as int),
            decreases n - i,
        {
            let r = ranked[i];
            hits.push((r.entity, r.pos));
            assert(hits@ =~= ranked@.map_values(|r: RankedHit| unranked(r)).take(i + 1));
            i += 1;
        }
    }

    /// Orders query hits deterministically: by stable id, then by x, y and z
    /// in float order; hits with equal keys keep their order.
    pub fn order_hits(&self, hits: &mut Vec<(u64, PosBits)>)
        ensures
            final(hits)@ == stable_sorted(
                Seq::new(old(hits)@.len(), |i: int| ranked_hit(self@, old(hits)@[i].0, old(hits)@[i].1, 0)),
            ).map_values(|r: RankedHit| unranked(r)),
    {
        let n = hits.len();
        let mut zeros: Vec<u32> = Vec::new();
        while zeros.len() < n
            invariant
                zeros@.len() <= n,
                forall|k: int| 0 <= k < zeros@.len() ==> zeros@[k] == 0,
            decreases n - zeros@.len(),
        {
            zeros.push(0);
        }
        let mut ranked = self.rank_hits(hits, &zeros);
        assert(ranked@ =~= Seq::new(old(hits)@.len(), |i: int| ranked_hit(self@, old(hits)@[i].0, old(hits)@[i].1, 0)));
        stable_sort(&mut ranked);
        proof {
            crate::stable_sort::lemma_stable_sorted_props(ranked@);
        }
        let ghost sorted = ranked@;
        Self::unrank(&ranked, hits, ranked.len());
        assert(hits@ =~= sorted.map_values(|r: RankedHit| unranked(r)));
    }

    /// Keeps the query hits whose flag in `keep` is set (the caller's
    /// filter, one flag per hit) and orders them as `order_hits` does.
    pub fn order_kept_hits(&self, hits: &mut Vec<(u64, PosBits)>, keep: &Vec<bool>)
        requires
            old(hits)@.len() == keep@.len(),
        ensures
            final(hits)@ == stable_sorted(
                Seq::new(
                    kept(old(hits)@, keep@).len(),
                    |i: int| ranked_hit(self@, kept(old(hits)@, keep@)[i].0, kept(old(hits)@, keep@)[i].1, 0),
                ),
            ).map_values(|r: RankedHit| unranked(r)),
    {
        let mut chosen: Vec<(u64, PosBits)> = Vec::new();
        let mut i: usize = 0;
        while i < hits.len()
            invariant
                hits@ == old(hits)@,
                hits@.len() == keep@.len(),
                i <= hits@.len(),
                chosen@ == kept_upto(hits@, keep@, i as int),
            decreases hits@.len() - i,
        {
            if keep[i] {
                chosen.push(hits[i]);
            }
            i += 1;
        }
        self.order_hits(&mut chosen);
        *hits = chosen;
    }

    /// Orders query hits nearest first (distances given as `f32` bit
    /// patterns, compared in float order), ties broken as in `order_hits`,
    /// and keeps at most `limit` of them.
    pub fn order_hits_by_distance(&self, hits: &mut Vec<(u64, PosBits)>, dist_bits: &Vec<u32>, limit: usize)
        requires
            old(hits)@.len() == dist_bits@.len(),
        ensures
            final(hits)@ == stable_sorted(
                Seq::new(
                    old(hits)@.len(),
                    |i: int| ranked_hit(self@, old(hits)@[i].0, old(hits)@[i].1, ordered_bits_spec(dist_bits@[i])),
                ),
            ).map_values(|r: RankedHit| unranked(r)).take(
                if limit < old(hits)@.len() { limit as int } else { old(hits)@.len() as int },
            ),
    {
        let n = hits.len();
        let mut ranks: Vec<u32> = Vec::new();
        while ranks.len() < n
            invariant
                ranks@.len() <= n,
                n == dist_bits@.len(),
                forall|k: int| 0 <= k < ranks@.len() ==> ranks@[k] == ordered_bits_spec(dist_bits@[k]),
            decreases n - ranks@.len(),
        {
            let k = ranks.len();
            ranks.push(ordered_bits(dist_bits[k]));
        }
        let mut ranked = self.rank_hits(hits, &ranks);
        assert(ranked@ =~= Seq::new(
            old(hits)@.len(),
            |i: int| ranked_hit(self@, old(hits)@[i].0, old(hits)@[i].1, ordered_bits_spec(dist_bits@[i])),
        ));
        let ghost pre = ranked@;
        stable_sort(&mut ranked);
        proof {
            crate::stable_sort::lemma_stable_sorted_props(pre);
            vstd::seq_lib::to_multiset_len(pre);
            vstd::seq_lib::to_multiset_len(ranked@);
            assert(ranked@.len() == pre.len());
        }
        Self::unrank(&ranked, hits, limit);
    }
}

impl SpatialCells<WallPayload> {
    /// Orders wall hits deterministically: by stable id, faction, then x, y,
    /// z and footprint in float order; hits with equal keys keep their order.
    pub fn order_wall_hits(&self, hits: &mut Vec<(u64, WallPayload)>)
        ensures
            final(hits)@ == stable_sorted(
                Seq::new(old(hits)@.len(), |i: int| wall_hit(self@, old(hits)@[i].0, old(hits)@[i].1)),
            ).map_values(|w: WallHit| wall_unranked(w)),
    {
        let mut ranked: Vec<WallHit> = Vec::new();
        let mut i: usize = 0;
        while i < hits.len()
            invariant
                i <= hits@.len(),
                hits@ == old(hits)@,
                ranked@.len() == i,
                forall|k: int| 0 <= k < i ==> ranked@[k] == wall_hit(self@, hits@[k].0, hits@[k].1),
            decreases hits@.len() - i,
        {
            let (entity, w) = hits[i];
            ranked.push(WallHit {
                stable_id: self.stable_id(entity),
                faction: w.faction,
                ox: ordered_bits(w.pos.x),
                oy: ordered_bits(w.pos.y),
                oz: ordered_bits(w.pos.z),
                ofp: ordered_bits(w.footprint_bits),
                entity,
                payload: w,
            });
            i += 1;
        }
        assert(ranked@ =~= Seq::new(old(hits)@.len(), |i: int| wall_hit(self@, old(hits)@[i].0, old(hits)@[i].1)));
        stable_sort(&mut ranked);
        hits.clear();
        let mut j: usize = 0;
        while j < ranked.len()
            invariant
                j <= ranked@.len(),
                hits@ == ranked@.map_values(|w: WallHit| wall_unranked(w)).take(j as int),
            decreases ranked@.len() - j,
        {
            let w = ranked[j];
            hits.push((w.entity, w.payload));
            assert(hits@ =~= ranked@.map_values(|w: WallHit| wall_unranked(w)).take(j + 1));
            j += 1;
        }
        assert(hits@ =~= ranked@.map_values(|w: WallHit| wall_unranked(w)));
    }
}


impl<P> GridModel<P> {
    /// Every bucketed entry belongs to an entity recorded in that very cell.
    pub open spec fn located(self) -> bool {
        forall|k: i64, i: int|
            self.cells.contains_key(k) && 0 <= i < self.cells[k].len() ==> {
                &&& self.entity_cells.contains_key(#[trigger] self.cells[k][i].entity)
                &&& self.entity_cells[self.cells[k][i].entity] == k
            }
    }

    /// Some cell holds an entry of `entity`.
    pub open spec fn has_entity(self, entity: u64) -> bool {
        exists|k: i64, i: int|
            self.cells.contains_key(k) && 0 <= i < self.cells[k].len() && #[trigger] self.cells[k][i].entity
                == entity
    }

    /// Law: removing an entity from a located grid keeps it located and
    /// leaves no entry of that entity anywhere.
    pub proof fn lemma_removed_located(self, entity: u64)
        requires
            self.located(),
        ensures
            self.removed(entity).located(),
            !self.removed(entity).has_entity(entity),
            !self.removed(entity).entity_cells.contains_key(entity),
    {
        let m2 = self.removed(entity);
        if !self.entity_cells.contains_key(entity) {
            assert forall|k: i64, i: int|
                m2.cells.contains_key(k) && 0 <= i < m2.cells[k].len() implies #[trigger] m2.cells[k][i].entity != entity by {
                assert(self.entity_cells.contains_key(self.cells[k][i].entity));
            }
        } else {
            let k0 = self.entity_cells[entity];
            let kept = self.cell(k0).filter(other_entities(entity));
            assert forall|k: i64, i: int|
                m2.cells.contains_key(k) && 0 <= i < m2.cells[k].len() implies {
                    &&& #[trigger] m2.cells[k][i].entity != entity
                    &&& m2.entity_cells.contains_key(m2.cells[k][i].entity)
                    &&& m2.entity_cells[m2.cells[k][i].entity] == k
                } by {
                let x = m2.cells[k][i];
                if k == k0 {
                    assert(x == kept[i]);
                    self.cell(k0).lemma_filter_pred(other_entities(entity), i);
                    assert(kept.contains(x));
                    self.cell(k0).lemma_filter_contains_rev(other_entities(entity), x);
                    let j = choose|j: int| 0 <= j < self.cell(k0).len() && self.cell(k0)[j] == x;
                    assert(self.cells[k0][j] == x);
                } else {
                    assert(x == self.cells[k][i]);
                    assert(self.entity_cells[x.entity] == k);
                }
            }
        }
    }

    /// Law: appending an entry for an entity that has no entry anywhere
    /// keeps the grid located.
    pub proof fn lemma_inserted_located(self, k: i64, entry: GridEntry<P>)
        requires
            self.located(),
            !self.has_entity(entry.entity),
        ensures
            self.inserted(k, entry).located(),
            self.inserted(k, entry).entity_cells[entry.entity] == k,
            self.inserted(k, entry).cell(k).contains(entry),
    {
        let m2 = self.inserted(k, entry);
        assert(m2.cell(k)[m2.cell(k).len() - 1] == entry);
        assert forall|k2: i64, i: int|
            m2.cells.contains_key(k2) && 0 <= i < m2.cells[k2].len() implies {
                &&& m2.entity_cells.contains_key(#[trigger] m2.cells[k2][i].entity)
                &&& m2.entity_cells[m2.cells[k2][i].entity] == k2
            } by {
            let x = m2.cells[k2][i];
            if k2 == k && i == m2.cells[k2].len() - 1 {
                assert(x == entry);
            } else {
                assert(x == self.cells[k2][i]);
                assert(x.entity != entry.entity);
            }
        }
    }

    /// Law: insert-or-update keeps a located grid located, records the
    /// entity at cell `k`, and leaves its new entry in that cell.
    pub proof fn lemma_upserted_located(self, k: i64, entry: GridEntry<P>)
        requires
            self.located(),
        ensures
            self.upserted(k, entry).located(),
            self.upserted(k, entry).entity_cells[entry.entity] == k,
            self.upserted(k, entry).cell(k).contains(entry),
    {
        let e = entry.entity;
        let recorded = self.entity_cells.contains_key(e);
        let c = self.cell(k);
        let idx = first_entry_from(c, e, 0);
        if recorded && self.entity_cells[e] == k && idx < c.len() {
            lemma_first_entry_bounds(c, e, 0);
            let m2 = self.upserted(k, entry);
            assert(m2.cell(k)[idx] == entry);
            assert forall|k2: i64, i: int|
                m2.cells.contains_key(k2) && 0 <= i < m2.cells[k2].len() implies {
                    &&& m2.entity_cells.contains_key(#[trigger] m2.cells[k2][i].entity)
                    &&& m2.entity_cells[m2.cells[k2][i].entity] == k2
                } by {
                if !(k2 == k && i == idx) {
                    assert(m2.cells[k2][i] == self.cells[k2][i]);
                }
            }
        } else if recorded && self.entity_cells[e] != k {
            self.lemma_removed_located(e);
            self.removed(e).lemma_inserted_located(k, entry);
        } else {
            if recorded {
                lemma_first_entry_bounds(c, e, 0);
                assert(!self.has_entity(e)) by {
                    if self.has_entity(e) {
                        let (k2, i) = choose|k2: i64, i: int|
                            self.cells.contains_key(k2) && 0 <= i < self.cells[k2].len() && #[trigger] self.cells[k2][i].entity == e;
                        assert(self.entity_cells[self.cells[k2][i].entity] == k2);
                        assert(c[i].entity == e);
                    }
                }
            } else {
                assert(!self.has_entity(e)) by {
                    if self.has_entity(e) {
                        let (k2, i) = choose|k2: i64, i: int|
                            self.cells.contains_key(k2) && 0 <= i < self.cells[k2].len() && #[trigger] self.cells[k2][i].entity == e;
                        assert(self.entity_cells.contains_key(self.cells[k2][i].entity));
                    }
                }
            }
            self.lemma_inserted_located(k, entry);
        }
    }
}

/// Some entry of `s` belongs to `x`.
pub open spec fn has_entry_in<P>(s: Seq<GridEntry<P>>, x: u64) -> bool {
    exists|i: int| 0 <= i < s.len() && #[trigger] s[i].entity == x
}

/// No two entries of `s` belong to the same entity.
pub open spec fn distinct_entities<P>(s: Seq<GridEntry<P>>) -> bool {
    forall|i: int, j: int| 0 <= i < j < s.len() ==> #[trigger] s[i].entity != #[trigger] s[j].entity
}

/// Dropping entries keeps the entities of the rest distinct.
proof fn lemma_filter_distinct<P>(s: Seq<GridEntry<P>>, p: spec_fn(GridEntry<P>) -> bool)
    requires
        distinct_entities(s),
    ensures
        distinct_entities(s.filter(p)),
    decreases s.len(),
{
    if s.len() > 0 {
        let t = s.drop_last();
        let x = s.last();
        assert(t.push(x) =~= s);
        assert(distinct_entities(t)) by {
            assert forall|i: int, j: int| 0 <= i < j < t.len() implies #[trigger] t[i].entity != #[trigger] t[j].entity by {
                assert(t[i] == s[i] && t[j] == s[j]);
            }
        }
        lemma_filter_distinct(t, p);
        t.lemma_filter_push(x, p);
        let ft = t.filter(p);
        if p(x) {
            let fs = ft.push(x);
            assert forall|i: int, j: int| 0 <= i < j < fs.len() implies #[trigger] fs[i].entity != #[trigger] fs[j].entity by {
                if j == fs.len() - 1 {
                    assert(fs[i] == ft[i]);
                    t.lemma_filter_contains_rev(p, ft[i]);
                    assert(ft.contains(ft[i]));
                    let m = choose|m: int| 0 <= m < t.len() && t[m] == ft[i];
                    assert(s[m] == t[m]);
                    assert(s[m].entity != s[s.len() - 1].entity);
                } else {
                    assert(fs[i] == ft[i] && fs[j] == ft[j]);
                }
            }
        }
    }
}

impl<P> GridModel<P> {
    /// The grid's law: every entry sits in the cell its entity is recorded
    /// in, every recorded entity has exactly one entry (in that cell, and
    /// none anywhere else), and no cell is kept empty.
    pub open spec fn well_kept(self) -> bool {
        &&& self.located()
        &&& forall|k: i64| #[trigger] self.cells.contains_key(k) ==> self.cells[k].len() > 0
        &&& forall|k: i64| #[trigger] self.cells.contains_key(k) ==> distinct_entities(self.cells[k])
        &&& forall|e: u64|
            #[trigger] self.entity_cells.contains_key(e) ==> self.cells.contains_key(self.entity_cells[e])
                && has_entry_in(self.cells[self.entity_cells[e]], e)
    }

    /// Law: removing an entity keeps the grid well kept, with no entry and
    /// no record of that entity left.
    pub proof fn lemma_removed_well_kept(self, entity: u64)
        requires
            self.well_kept(),
        ensures
            self.removed(entity).well_kept(),
            !self.removed(entity).has_entity(entity),
            !self.removed(entity).entity_cells.contains_key(entity),
    {
        self.lemma_removed_located(entity);
        let m2 = self.removed(entity);
        if self.entity_cells.contains_key(entity) {
            let k0 = self.entity_cells[entity];
            let pr = other_entities::<P>(entity);
            let kept = self.cell(k0).filter(pr);
            assert(self.cells.contains_key(k0));
            lemma_filter_distinct(self.cells[k0], pr);
            assert forall|k: i64| #[trigger] m2.cells.contains_key(k) implies m2.cells[k].len() > 0 && distinct_entities(
                m2.cells[k],
            ) by {
                if k != k0 {
                    assert(m2.cells[k] == self.cells[k]);
                }
            }
            assert forall|e: u64| #[trigger] m2.entity_cells.contains_key(e) implies m2.cells.contains_key(
                m2.entity_cells[e],
            ) && has_entry_in(m2.cells[m2.entity_cells[e]], e) by {
                assert(e != entity);
                assert(self.entity_cells.contains_key(e));
                let k = self.entity_cells[e];
                let i = choose|i: int| 0 <= i < self.cells[k].len() && #[trigger] self.cells[k][i].entity == e;
                if k == k0 {
                    self.cell(k0).lemma_filter_contains(pr, i);
                    assert(kept.contains(self.cells[k][i]));
                    let j = choose|j: int| 0 <= j < kept.len() && kept[j] == self.cells[k][i];
                    assert(kept.len() > 0);
                    assert(m2.cells[k0] == kept);
                    assert(kept[j].entity == e);
                } else {
                    assert(m2.cells[k] == self.cells[k]);
                    assert(self.cells[k][i].entity == e);
                }
            }
        }
    }

    /// Law: appending an entry of an entity without a record keeps the grid
    /// well kept, records the entity at `k`, and that cell holds exactly
    /// one entry of it.
    pub proof fn lemma_inserted_well_kept(self, k: i64, entry: GridEntry<P>)
        requires
            self.well_kept(),
            !self.entity_cells.contains_key(entry.entity),
        ensures
            self.inserted(k, entry).well_kept(),
            self.inserted(k, entry).entity_cells[entry.entity] == k,
            self.inserted(k, entry).cell(k).contains(entry),
    {
        assert(!self.has_entity(entry.entity)) by {
            if self.has_entity(entry.entity) {
                let (k2, i) = choose|k2: i64, i: int|
                    self.cells.contains_key(k2) && 0 <= i < self.cells[k2].len() && #[trigger] self.cells[k2][i].entity
                        == entry.entity;
                assert(self.entity_cells.contains_key(self.cells[k2][i].entity));
            }
        }
        self.lemma_inserted_located(k, entry);
        let m2 = self.inserted(k, entry);
        let c = self.cell(k);
        let c2 = c.push(entry);
        assert(m2.cells[k] == c2);
        assert forall|k2: i64| #[trigger] m2.cells.contains_key(k2) implies m2.cells[k2].len() > 0 && distinct_entities(
            m2.cells[k2],
        ) by {
            if k2 != k {
                assert(m2.cells[k2] == self.cells[k2]);
            } else {
                assert forall|i: int, j: int| 0 <= i < j < c2.len() implies #[trigger] c2[i].entity != #[trigger] c2[j].entity by {
                    if j == c2.len() - 1 {
                        assert(c2[i] == self.cells[k][i]);
                    } else {
                        assert(c2[i] == c[i] && c2[j] == c[j]);
                    }
                }
            }
        }
        assert forall|e: u64| #[trigger] m2.entity_cells.contains_key(e) implies m2.cells.contains_key(m2.entity_cells[e])
            && has_entry_in(m2.cells[m2.entity_cells[e]], e) by {
            if e == entry.entity {
                assert(c2[c2.len() - 1].entity == e);
            } else {
                let k1 = self.entity_cells[e];
                let i = choose|i: int| 0 <= i < self.cells[k1].len() && #[trigger] self.cells[k1][i].entity == e;
                if k1 == k {
                    assert(c2[i] == c[i]);
                } else {
                    assert(m2.cells[k1] == self.cells[k1]);
                }
            }
        }
    }

    /// Law: insert-or-update keeps the grid well kept: afterwards the entity
    /// is recorded at `k`, and that cell holds exactly one entry of it, the
    /// new entry.
    pub proof fn lemma_upserted_well_kept(self, k: i64, entry: GridEntry<P>)
        requires
            self.well_kept(),
        ensures
            self.upserted(k, entry).well_kept(),
            self.upserted(k, entry).entity_cells[entry.entity] == k,
            self.upserted(k, entry).cell(k).contains(entry),
            forall|i: int|
                0 <= i < self.upserted(k, entry).cell(k).len() && (#[trigger] self.upserted(k, entry).cell(k)[i]).entity
                    == entry.entity ==> self.upserted(k, entry).cell(k)[i] == entry,
    {
        let e = entry.entity;
        let recorded = self.entity_cells.contains_key(e);
        let c = self.cell(k);
        let idx = first_entry_from(c, e, 0);
        lemma_first_entry_bounds(c, e, 0);
        let m2 = self.upserted(k, entry);
        if recorded && self.entity_cells[e] == k && idx < c.len() {
            self.lemma_upserted_located(k, entry);
            let c2 = c.update(idx, entry);
            assert(m2.cells[k] == c2);
            assert forall|k2: i64| #[trigger] m2.cells.contains_key(k2) implies m2.cells[k2].len() > 0 && distinct_entities(
                m2.cells[k2],
            ) by {
                if k2 != k {
                    assert(m2.cells[k2] == self.cells[k2]);
                } else {
                    assert forall|i: int, j: int| 0 <= i < j < c2.len() implies #[trigger] c2[i].entity != #[trigger] c2[j].entity by {
                        assert(c2[i].entity == c[i].entity && c2[j].entity == c[j].entity);
                    }
                }
            }
            assert forall|x: u64| #[trigger] m2.entity_cells.contains_key(x) implies m2.cells.contains_key(m2.entity_cells[x])
                && has_entry_in(m2.cells[m2.entity_cells[x]], x) by {
                let k1 = self.entity_cells[x];
                let i = choose|i: int| 0 <= i < self.cells[k1].len() && #[trigger] self.cells[k1][i].entity == x;
                if k1 == k {
                    assert(c2[i].entity == c[i].entity);
                } else {
                    assert(m2.cells[k1] == self.cells[k1]);
                }
            }
            assert forall|i: int| 0 <= i < m2.cell(k).len() && (#[trigger] m2.cell(k)[i]).entity == e implies m2.cell(k)[i]
                == entry by {
                if i != idx {
                    assert(c2[i] == c[i]);
                    if i < idx {
                    } else {
                        assert(c[idx].entity == e);
                    }
                }
            }
        } else if recorded && self.entity_cells[e] != k {
            self.lemma_removed_well_kept(e);
            self.removed(e).lemma_inserted_well_kept(k, entry);
            self.removed(e).lemma_inserted_no_other(k, entry);
        } else {
            if recorded {
                let i = choose|i: int| 0 <= i < self.cells[k].len() && #[trigger] self.cells[k][i].entity == e;
                assert(c[i].entity == e);
            }
            self.lemma_inserted_well_kept(k, entry);
            self.lemma_inserted_no_other(k, entry);
        }
    }

    /// After appending an entry of an entity with no record, that entry is
    /// its only entry in the cell.
    proof fn lemma_inserted_no_other(self, k: i64, entry: GridEntry<P>)
        requires
            self.well_kept(),
            !self.entity_cells.contains_key(entry.entity),
        ensures
            forall|i: int|
                0 <= i < self.inserted(k, entry).cell(k).len() && (#[trigger] self.inserted(k, entry).cell(k)[i]).entity
                    == entry.entity ==> self.inserted(k, entry).cell(k)[i] == entry,
    {
        let c = self.cell(k);
        let c2 = c.push(entry);
        assert(self.inserted(k, entry).cell(k) == c2);
        assert forall|i: int| 0 <= i < c2.len() && (#[trigger] c2[i]).entity == entry.entity implies c2[i] == entry by {
            if i < c.len() {
                assert(c2[i] == self.cells[k][i]);
                assert(self.entity_cells.contains_key(self.cells[k][i].entity));
            }
        }
    }
}

proof fn lemma_first_entry_bounds<P>(s: Seq<GridEntry<P>>, entity: u64, i: int)
    requires
        0 <= i <= s.len(),
    ensures
        i <= first_entry_from(s, entity, i) <= s.len(),
        first_entry_from(s, entity, i) < s.len() ==> s[first_entry_from(s, entity, i)].entity == entity,
        forall|j: int| i <= j < first_entry_from(s, entity, i) ==> #[trigger] s[j].entity != entity,
    decreases s.len() - i,
{
    if i < s.len() && s[i].entity != entity {
        lemma_first_entry_bounds(s, entity, i + 1);
    }
}

} // verus!
